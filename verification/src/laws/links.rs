//! Which file a link leads to.

use vstd::prelude::*;
use vstd::string::*;

use super::paths::{
    dotted, has_no_inner_dot, is_file_name, law_a_text_without_separator_is_one_component,
    law_components_are_read_back, law_extensions_are_replaced, law_names_part,
    law_names_part_at_the_last_dot, law_names_without_inner_dot_have_no_extension,
    law_paths_are_ordered_by_component, lemma_names_are_names, path_before_at, slashed,
};
use crate::file::{folder_or_empty, FileView};
use crate::index::builder::present;
use crate::index::delta::view_paths;
use crate::index::entry::{indexed, links_handed_out, only_row, EntryView};
use crate::index::inlinks::{
    edges_of, link_graph, link_leads, linked_targets, links_to, note_edge, says,
};
use crate::index::links::{
    file_distance, folder_distance, hash_position, is_candidate, is_nearest, linked_file,
    named_file, nearest, path_extension, shared_depth, target_of, TargetView,
};
use crate::index::sort::strictly_ascending;
use crate::note::document::NoteView;
use crate::path::{path_parts, with_extension_of};

verus! {

proof fn lemma_first_hash(path: Seq<char>, rest: Seq<char>, from: int)
    requires
        !path.contains('#'),
        0 <= from <= path.len(),
    ensures
        hash_position(path + seq!['#'] + rest, from) == path.len(),
        hash_position(path, from) == path.len(),
    decreases path.len() - from,
{
    let s = path + seq!['#'] + rest;
    if from < path.len() {
        assert(s[from] == path[from]);
        assert(path.contains(path[from]));
        lemma_first_hash(path, rest, from + 1);
    } else {
        assert(s[from] == '#');
    }
}

/// A target is parted at its first `#`: what stands before it is the path, what
/// stands behind it the place in that file. Without a `#` all of it is the path.
pub proof fn law_targets_part_at_the_first_hash(path: Seq<char>, anchor: Seq<char>)
    requires
        !path.contains('#'),
    ensures
        target_of(path) == TargetView::Path(path),
        path.len() > 0 ==> target_of(path + seq!['#'] + anchor) == TargetView::PathWithAnchor(
            path,
            anchor,
        ),
        target_of(seq!['#'] + anchor) == TargetView::AnchorOnly(anchor),
{
    lemma_first_hash(path, anchor, 0);
    let s = path + seq!['#'] + anchor;
    assert(s.take(path.len() as int) =~= path);
    assert(s.skip(path.len() as int + 1) =~= anchor);
    let bare = seq!['#'] + anchor;
    assert(bare[0] == '#');
    assert(bare.skip(1) =~= anchor);
}

/// A place in a file makes no difference to which file is meant. A place alone
/// means the linking file itself and leads to none, as does an empty target.
pub proof fn law_anchors_do_not_count(
    paths: Seq<Seq<Seq<char>>>,
    from: Seq<Seq<char>>,
    text: Seq<char>,
    anchor: Seq<char>,
)
    ensures
        linked_file(paths, from, TargetView::PathWithAnchor(text, anchor)) == linked_file(
            paths,
            from,
            TargetView::Path(text),
        ),
        linked_file(paths, from, TargetView::AnchorOnly(anchor)) is None,
        text.len() == 0 ==> linked_file(paths, from, TargetView::Path(text)) is None,
{
}

/// A target whose path has no extension means the note of that name, where there
/// is no file of exactly that path: the path with `.md` behind it. That holds of
/// a path with folders as of a bare name, and from wherever the link stands.
pub proof fn law_notes_are_found_without_their_extension(
    paths: Seq<Seq<Seq<char>>>,
    from: Seq<Seq<char>>,
    text: Seq<char>,
    folder: Seq<Seq<char>>,
    name: Seq<char>,
)
    requires
        path_parts(text) == folder.push(name),
        is_file_name(name),
        has_no_inner_dot(name),
        !paths.contains(folder.push(name)),
        paths.contains(folder.push(name + seq!['.', 'm', 'd'])),
    ensures
        linked_file(paths, from, TargetView::Path(text)) == Some(
            folder.push(name + seq!['.', 'm', 'd']),
        ),
{
    lemma_not_empty(text, folder, name);
    lemma_md(folder, name);
}

proof fn lemma_not_empty(text: Seq<char>, folder: Seq<Seq<char>>, name: Seq<char>)
    requires
        path_parts(text) == folder.push(name),
    ensures
        text.len() > 0,
{
    assert(folder.push(name).len() == folder.len() + 1);
    if text.len() == 0 {
        law_a_text_without_separator_is_one_component(text);
    }
}

proof fn lemma_md(folder: Seq<Seq<char>>, name: Seq<char>)
    requires
        is_file_name(name),
        has_no_inner_dot(name),
    ensures
        path_extension(folder.push(name)) is None,
        with_extension_of(folder.push(name), "md"@) == folder.push(name + seq!['.', 'm', 'd']),
{
    reveal_strlit("md");
    law_extensions_are_replaced(folder, name, Seq::empty(), "md"@);
    assert(dotted(name, "md"@) =~= name + seq!['.', 'm', 'd']);
    lemma_names_are_names(folder, name);
    law_names_without_inner_dot_have_no_extension(name);
}

/// A link that names folders and a note leads to the note in those folders, with
/// or without `.md` behind it.
pub proof fn law_folders_and_a_name_lead_to_the_note(
    paths: Seq<Seq<Seq<char>>>,
    from: Seq<Seq<char>>,
    folder: Seq<Seq<char>>,
    name: Seq<char>,
)
    requires
        forall|i: int|
            0 <= i < folder.len() ==> (#[trigger] folder[i]).len() > 0 && !folder[i].contains('/')
                && folder[i] != seq!['.'],
        is_file_name(name),
        has_no_inner_dot(name),
        paths.contains(folder.push(name + seq!['.', 'm', 'd'])),
        !paths.contains(folder.push(name)),
    ensures
        linked_file(paths, from, TargetView::Path(slashed(folder.push(name)))) == Some(
            folder.push(name + seq!['.', 'm', 'd']),
        ),
        linked_file(
            paths,
            from,
            TargetView::Path(slashed(folder.push(name + seq!['.', 'm', 'd']))),
        ) == Some(folder.push(name + seq!['.', 'm', 'd'])),
{
    let bare = folder.push(name);
    let whole = name + seq!['.', 'm', 'd'];
    let full = folder.push(whole);
    assert(!whole.contains('/')) by {
        if whole.contains('/') {
            let i = choose|i: int| 0 <= i < whole.len() && whole[i] == '/';
            if i < name.len() {
                assert(name[i] == '/');
            }
        }
    }
    assert(whole.len() > 1);
    assert forall|i: int| 0 <= i < bare.len() implies (#[trigger] bare[i]).len() > 0
        && !bare[i].contains('/') && bare[i] != seq!['.'] by {
        if i < folder.len() {
            assert(bare[i] == folder[i]);
        }
    }
    assert forall|i: int| 0 <= i < full.len() implies (#[trigger] full[i]).len() > 0
        && !full[i].contains('/') && full[i] != seq!['.'] by {
        if i < folder.len() {
            assert(full[i] == folder[i]);
        }
    }
    law_components_are_read_back(bare);
    law_components_are_read_back(full);
    law_notes_are_found_without_their_extension(paths, from, slashed(bare), folder, name);
    lemma_not_empty(slashed(full), folder, whole);
}

/// A path with a separator is not searched for by its name: where neither it nor
/// the note of that path is a file, it leads nowhere.
pub proof fn law_paths_with_folders_are_not_searched_by_name(
    paths: Seq<Seq<Seq<char>>>,
    from: Seq<Seq<char>>,
    text: Seq<char>,
    folder: Seq<Seq<char>>,
    name: Seq<char>,
)
    requires
        text.contains('/'),
        path_parts(text) == folder.push(name),
        is_file_name(name),
        !paths.contains(folder.push(name)),
        has_no_inner_dot(name) ==> !paths.contains(folder.push(name + seq!['.', 'm', 'd'])),
    ensures
        linked_file(paths, from, TargetView::Path(text)) is None,
{
    lemma_names_are_names(folder, name);
    if has_no_inner_dot(name) {
        lemma_md(folder, name);
    } else {
        let parts = law_names_part(name);
    }
}

/// The file at `path` has this name, with or without an extension.
pub open spec fn is_called(path: Seq<Seq<char>>, name: Seq<char>) -> bool {
    path.len() > 0 && (path.last() == name || exists|extension: Seq<char>|
        !extension.contains('.') && path.last() == #[trigger] dotted(name, extension))
}

proof fn lemma_called(path: Seq<Seq<char>>, name: Seq<char>)
    requires
        is_file_name(name),
        has_no_inner_dot(name),
    ensures
        is_candidate(path, name, None) <==> is_called(path, name),
{
    if path.len() > 0 {
        let last = path.last();
        assert(path =~= path.drop_last().push(last));
        assert(seq!['/'].len() == 1 && seq!['/'][0] == '/');
        law_names_without_inner_dot_have_no_extension(name);
        if is_called(path, name) {
            if last == name {
                lemma_names_are_names(path.drop_last(), name);
            } else {
                let extension = choose|extension: Seq<char>|
                    !extension.contains('.') && last == #[trigger] dotted(name, extension);
                assert(last.len() == name.len() + 1 + extension.len());
                assert(last[0] == name[0]);
                assert(last.len() >= 2);
                if last == seq!['.', '.'] {
                    assert(name =~= seq!['.']);
                }
                law_names_part_at_the_last_dot(name, extension);
            }
        }
        if is_candidate(path, name, None) {
            if has_no_inner_dot(last) {
                law_names_without_inner_dot_have_no_extension(last);
            } else {
                let parts = law_names_part(last);
                assert(last == dotted(name, parts.1));
            }
        }
    }
}

proof fn lemma_only_nearest(
    paths: Seq<Seq<Seq<char>>>,
    stem: Seq<char>,
    extension: Option<Seq<char>>,
    from: Seq<Seq<char>>,
    i: int,
)
    requires
        is_nearest(paths, stem, extension, from, i),
    ensures
        nearest(paths, stem, extension, from) == Some(paths[i]),
{
    let k = choose|k: int| is_nearest(paths, stem, extension, from, k);
    if k != i {
        assert(file_distance(from, paths[i]) < file_distance(from, paths[k]));
        assert(file_distance(from, paths[k]) < file_distance(from, paths[i]));
    }
}

/// A bare name that is no path leads to the file of that name whose folder is
/// the fewest steps away from that of the linking note, with whatever extension.
pub proof fn law_bare_names_lead_to_the_nearest_file(
    paths: Seq<Seq<Seq<char>>>,
    from: Seq<Seq<char>>,
    name: Seq<char>,
    i: int,
)
    requires
        is_file_name(name),
        has_no_inner_dot(name),
        !paths.contains(seq![name]),
        !paths.contains(seq![name + seq!['.', 'm', 'd']]),
        0 <= i < paths.len(),
        is_called(paths[i], name),
        forall|j: int|
            0 <= j < paths.len() && j != i && is_called(#[trigger] paths[j], name)
                ==> file_distance(from, paths[i]) < file_distance(from, paths[j]),
    ensures
        linked_file(paths, from, TargetView::Path(name)) == Some(paths[i]),
{
    lemma_bare(paths, from, name);
    lemma_called(paths[i], name);
    assert forall|j: int|
        0 <= j < paths.len() && j != i && is_candidate(#[trigger] paths[j], name, None) implies
        file_distance(from, paths[i]) < file_distance(from, paths[j]) by {
        lemma_called(paths[j], name);
    }
    assert(is_nearest(paths, name, None, from, i));
    lemma_only_nearest(paths, name, None, from, i);
}

proof fn lemma_bare(paths: Seq<Seq<Seq<char>>>, from: Seq<Seq<char>>, name: Seq<char>)
    requires
        is_file_name(name),
        has_no_inner_dot(name),
        !paths.contains(seq![name]),
        !paths.contains(seq![name + seq!['.', 'm', 'd']]),
    ensures
        linked_file(paths, from, TargetView::Path(name)) == nearest(paths, name, None, from),
{
    let root = Seq::<Seq<char>>::empty();
    law_a_text_without_separator_is_one_component(name);
    assert(root.push(name) =~= seq![name]);
    assert(root.push(name + seq!['.', 'm', 'd']) =~= seq![name + seq!['.', 'm', 'd']]);
    lemma_md(root, name);
    lemma_names_are_names(root, name);
    law_names_without_inner_dot_have_no_extension(name);
}

/// A bare name leads nowhere where no file has it, or where two files that have
/// it are equally near and none is nearer.
pub proof fn law_bare_names_lead_nowhere_in_doubt(
    paths: Seq<Seq<Seq<char>>>,
    from: Seq<Seq<char>>,
    name: Seq<char>,
    i: int,
    j: int,
)
    requires
        is_file_name(name),
        has_no_inner_dot(name),
        !paths.contains(seq![name]),
        !paths.contains(seq![name + seq!['.', 'm', 'd']]),
        ({
            ||| forall|k: int| 0 <= k < paths.len() ==> !is_called(#[trigger] paths[k], name)
            ||| {
                &&& 0 <= i < j < paths.len()
                &&& is_called(paths[i], name)
                &&& is_called(paths[j], name)
                &&& file_distance(from, paths[i]) == file_distance(from, paths[j])
                &&& forall|k: int|
                    0 <= k < paths.len() && is_called(#[trigger] paths[k], name)
                        ==> file_distance(from, paths[i]) <= file_distance(from, paths[k])
            }
        }),
    ensures
        linked_file(paths, from, TargetView::Path(name)) is None,
{
    lemma_bare(paths, from, name);
    assert forall|k: int| !is_nearest(paths, name, None, from, k) by {
        if is_nearest(paths, name, None, from, k) {
            lemma_called(paths[k], name);
            if 0 <= i < paths.len() {
                lemma_called(paths[i], name);
            }
            if 0 <= j < paths.len() {
                lemma_called(paths[j], name);
            }
            if k != i {
                assert(file_distance(from, paths[k]) < file_distance(from, paths[i]));
            } else {
                assert(file_distance(from, paths[k]) < file_distance(from, paths[j]));
            }
        }
    }
}

/// A bare name with an extension leads to the nearest file of exactly that name,
/// where there is one that is nearer than all others.
pub proof fn law_names_with_extension_lead_to_that_name(
    paths: Seq<Seq<Seq<char>>>,
    from: Seq<Seq<char>>,
    stem: Seq<char>,
    extension: Seq<char>,
    i: int,
)
    requires
        stem.len() > 0,
        !extension.contains('.'),
        is_file_name(dotted(stem, extension)),
        !paths.contains(seq![dotted(stem, extension)]),
        0 <= i < paths.len(),
        paths[i].len() > 0 && paths[i].last() == dotted(stem, extension),
        forall|j: int|
            0 <= j < paths.len() && j != i && (#[trigger] paths[j]).len() > 0 && paths[j].last()
                == dotted(stem, extension) ==> file_distance(from, paths[i]) < file_distance(
                from,
                paths[j],
            ),
    ensures
        linked_file(paths, from, TargetView::Path(dotted(stem, extension))) == Some(paths[i]),
{
    let name = dotted(stem, extension);
    let root = Seq::<Seq<char>>::empty();
    law_a_text_without_separator_is_one_component(name);
    assert(root.push(name) =~= seq![name]);
    lemma_names_are_names(root, name);
    law_names_part_at_the_last_dot(stem, extension);
    lemma_exact_name(paths[i], stem, extension);
    assert forall|j: int|
        0 <= j < paths.len() && j != i && is_candidate(
            #[trigger] paths[j],
            stem,
            Some(extension),
        ) implies file_distance(from, paths[i]) < file_distance(from, paths[j]) by {
        lemma_exact_name(paths[j], stem, extension);
    }
    assert(is_nearest(paths, stem, Some(extension), from, i));
    lemma_only_nearest(paths, stem, Some(extension), from, i);
}

proof fn lemma_exact_name(path: Seq<Seq<char>>, stem: Seq<char>, extension: Seq<char>)
    requires
        stem.len() > 0,
        !extension.contains('.'),
        is_file_name(dotted(stem, extension)),
    ensures
        is_candidate(path, stem, Some(extension)) <==> path.len() > 0 && path.last() == dotted(
            stem,
            extension,
        ),
{
    law_names_part_at_the_last_dot(stem, extension);
    if path.len() > 0 {
        let last = path.last();
        assert(path =~= path.drop_last().push(last));
        if last == dotted(stem, extension) {
            lemma_names_are_names(path.drop_last(), last);
        }
        if is_candidate(path, stem, Some(extension)) {
            if has_no_inner_dot(last) {
                law_names_without_inner_dot_have_no_extension(last);
            } else {
                let parts = law_names_part(last);
            }
        }
    }
}

/// Where no file has the name with its extension, one with the same stem will
/// do: the nearest of them.
pub proof fn law_a_stem_will_do(
    paths: Seq<Seq<Seq<char>>>,
    from: Seq<Seq<char>>,
    stem: Seq<char>,
    extension: Seq<char>,
    i: int,
)
    requires
        is_file_name(stem),
        has_no_inner_dot(stem),
        !extension.contains('.'),
        is_file_name(dotted(stem, extension)),
        forall|j: int|
            0 <= j < paths.len() && (#[trigger] paths[j]).len() > 0 ==> paths[j].last() != dotted(
                stem,
                extension,
            ),
        0 <= i < paths.len(),
        is_called(paths[i], stem),
        forall|j: int|
            0 <= j < paths.len() && j != i && is_called(#[trigger] paths[j], stem)
                ==> file_distance(from, paths[i]) < file_distance(from, paths[j]),
    ensures
        linked_file(paths, from, TargetView::Path(dotted(stem, extension))) == Some(paths[i]),
{
    let name = dotted(stem, extension);
    let root = Seq::<Seq<char>>::empty();
    law_a_text_without_separator_is_one_component(name);
    assert(root.push(name) =~= seq![name]);
    lemma_names_are_names(root, name);
    law_names_part_at_the_last_dot(stem, extension);
    if paths.contains(seq![name]) {
        let k = choose|k: int| 0 <= k < paths.len() && paths[k] == seq![name];
        assert(paths[k].last() == name);
    }
    assert forall|k: int| !is_nearest(paths, stem, Some(extension), from, k) by {
        if is_nearest(paths, stem, Some(extension), from, k) {
            lemma_exact_name(paths[k], stem, extension);
        }
    }
    lemma_called(paths[i], stem);
    assert forall|j: int|
        0 <= j < paths.len() && j != i && is_candidate(#[trigger] paths[j], stem, None) implies
        file_distance(from, paths[i]) < file_distance(from, paths[j]) by {
        lemma_called(paths[j], stem);
    }
    assert(is_nearest(paths, stem, None, from, i));
    lemma_only_nearest(paths, stem, None, from, i);
    assert(named_file(paths, from, name) == Some(paths[i]));
}

proof fn lemma_shared(common: Seq<Seq<char>>, x: Seq<Seq<char>>, y: Seq<Seq<char>>)
    requires
        x.len() == 0 || y.len() == 0 || x[0] != y[0],
    ensures
        shared_depth(common + x, common + y) == common.len(),
    decreases common.len(),
{
    let a = common + x;
    let b = common + y;
    if common.len() == 0 {
        assert(a =~= x);
        assert(b =~= y);
    } else {
        assert(a[0] == common[0] && b[0] == common[0]);
        assert(a.drop_first() =~= common.drop_first() + x);
        assert(b.drop_first() =~= common.drop_first() + y);
        lemma_shared(common.drop_first(), x, y);
    }
}

/// From one folder to another it is as many steps as lead up to the last folder
/// that both lie in, and down again. Files are as far apart as their folders.
pub proof fn law_distance_counts_steps_up_and_down(
    common: Seq<Seq<char>>,
    x: Seq<Seq<char>>,
    y: Seq<Seq<char>>,
    a: Seq<char>,
    b: Seq<char>,
)
    requires
        x.len() == 0 || y.len() == 0 || x[0] != y[0],
        is_file_name(a),
        is_file_name(b),
    ensures
        folder_distance(common + x, common + y) == x.len() + y.len(),
        file_distance((common + x).push(a), (common + y).push(b)) == x.len() + y.len(),
{
    lemma_shared(common, x, y);
    assert(seq!['/'].len() == 1 && seq!['/'][0] == '/');
    assert(seq!['/'].contains('/'));
    super::paths::law_parents_drop_the_last_component(common + x, a);
    super::paths::law_parents_drop_the_last_component(common + y, b);
    assert(folder_or_empty((common + x).push(a)) == common + x);
}

/// A note that links to a file is among the notes that link there, and no other
/// note is: a link is in the graph exactly where one of the links of the note
/// leads to that file.
pub proof fn law_the_graph_holds_what_links_lead_to(
    notes: Seq<NoteView>,
    paths: Seq<Seq<Seq<char>>>,
    target: Seq<Seq<char>>,
    source: Seq<Seq<char>>,
)
    ensures
        link_graph(notes, paths).contains((target, source)) <==> exists|i: int, j: int| #![trigger notes[i].outlinks[j]]
            0 <= i < notes.len() && notes[i].path == source && 0 <= j < notes[i].outlinks.len()
                && linked_file(paths, source, target_of(notes[i].outlinks[j].target)) == Some(
                target,
            ),
{
    let edge = (target, source);
    if link_graph(notes, paths).contains(edge) {
        let i = choose|i: int| note_edge(notes, paths, i, edge);
        let j = choose|j: int| link_leads(notes[i], paths, j, target);
        assert(notes[i].outlinks[j] == notes[i].outlinks[j]);
    }
    if exists|i: int, j: int| #![trigger notes[i].outlinks[j]]
        0 <= i < notes.len() && notes[i].path == source && 0 <= j < notes[i].outlinks.len()
            && linked_file(paths, source, target_of(notes[i].outlinks[j].target)) == Some(target) {
        let (i, j) = choose|i: int, j: int| #![trigger notes[i].outlinks[j]]
            0 <= i < notes.len() && notes[i].path == source && 0 <= j < notes[i].outlinks.len()
                && linked_file(paths, source, target_of(notes[i].outlinks[j].target)) == Some(
                target,
            );
        assert(link_leads(notes[i], paths, j, target));
        assert(links_to(notes[i], paths, target));
        assert(note_edge(notes, paths, i, edge));
    }
}

/// A path comes before another: by the first component in which they differ.
pub open spec fn path_before(a: Seq<Seq<char>>, b: Seq<Seq<char>>) -> bool {
    exists|k: int| path_before_at(a, b, k)
}

/// The paths stand in order, each once.
pub open spec fn stand_in_order(paths: Seq<Seq<Seq<char>>>) -> bool {
    forall|i: int, j: int|
        0 <= i < j < paths.len() ==> path_before(#[trigger] paths[i], #[trigger] paths[j])
}

proof fn lemma_in_order(paths: Seq<Seq<Seq<char>>>)
    requires
        strictly_ascending(paths),
    ensures
        stand_in_order(paths),
{
    assert forall|i: int, j: int| 0 <= i < j < paths.len() implies path_before(
        #[trigger] paths[i],
        #[trigger] paths[j],
    ) by {
        law_paths_are_ordered_by_component(paths[i], paths[j]);
    }
}

/// Note `n` has a link that leads to `target`.
pub open spec fn note_leads_to(
    notes: Seq<NoteView>,
    paths: Seq<Seq<Seq<char>>>,
    n: int,
    target: Seq<Seq<char>>,
) -> bool {
    &&& 0 <= n < notes.len()
    &&& exists|j: int|
        0 <= j < notes[n].outlinks.len() && linked_file(
            paths,
            notes[n].path,
            target_of((#[trigger] notes[n].outlinks[j]).target),
        ) == Some(target)
}

/// An index has a row for each file, with its note. Where no path repeats, the row
/// lists, in order and each once, the notes that have a link which leads to the
/// file, and no others.
pub proof fn law_rows_list_the_notes_that_link_to_them(
    files: Seq<FileView>,
    notes: Seq<Option<NoteView>>,
    rows: Seq<EntryView>,
    i: int,
    source: Seq<Seq<char>>,
)
    requires
        indexed(files, notes, link_graph(present(notes), view_paths(files)), rows),
        forall|a: int, b: int|
            0 <= a < b < files.len() ==> (#[trigger] files[a]).path != (#[trigger] files[b]).path,
        0 <= i < files.len(),
    ensures
        rows.len() == files.len(),
        rows[i].file == files[i],
        rows[i].note == notes[i],
        stand_in_order(rows[i].inlinks),
        rows[i].inlinks.contains(source) <==> exists|n: int| #[trigger]
            note_leads_to(present(notes), view_paths(files), n, files[i].path) && present(notes)[n].path
                == source,
{
    let all = present(notes);
    let paths = view_paths(files);
    let target = files[i].path;
    assert(only_row(rows, i)) by {
        assert forall|k: int| 0 <= k < rows.len() && k != i implies (#[trigger] rows[k]).file.path
            != rows[i].file.path by {
            assert(rows[k].file == files[k]);
            assert(rows[i].file == files[i]);
            if k < i {
                assert(files[k].path != files[i].path);
            } else {
                assert(files[i].path != files[k].path);
            }
        }
    }
    assert(rows[i].file == files[i]);
    lemma_in_order(rows[i].inlinks);
    law_the_graph_holds_what_links_lead_to(all, paths, target, source);
    let holds = link_graph(all, paths).contains((target, source));
    if holds {
        let (n, j) = choose|n: int, j: int| #![trigger all[n].outlinks[j]]
            0 <= n < all.len() && all[n].path == source && 0 <= j < all[n].outlinks.len()
                && linked_file(paths, source, target_of(all[n].outlinks[j].target)) == Some(target);
        assert(note_leads_to(all, paths, n, target));
    }
    if exists|n: int| #[trigger] note_leads_to(all, paths, n, target) && all[n].path == source {
        let n = choose|n: int| #[trigger]
            note_leads_to(all, paths, n, target) && all[n].path == source;
        let j = choose|j: int|
            0 <= j < all[n].outlinks.len() && linked_file(
                paths,
                all[n].path,
                target_of((#[trigger] all[n].outlinks[j]).target),
            ) == Some(target);
        assert(all[n].outlinks[j] == all[n].outlinks[j]);
    }
}

/// Links that are handed out reach the row of their target, where it is the only
/// one with that path: it lists the sources of all links to it, in order and each
/// once. A row that nothing links to stays as it was.
pub proof fn law_links_reach_their_target(
    before: Seq<EntryView>,
    after: Seq<EntryView>,
    edges: Set<(Seq<Seq<char>>, Seq<Seq<char>>)>,
    i: int,
    source: Seq<Seq<char>>,
)
    requires
        links_handed_out(before, after, edges),
        0 <= i < before.len(),
        forall|k: int|
            0 <= k < before.len() && k != i ==> (#[trigger] before[k]).file.path
                != before[i].file.path,
    ensures
        after.len() == before.len(),
        after[i].file == before[i].file,
        after[i].note == before[i].note,
        (exists|any: Seq<Seq<char>>| #[trigger] edges.contains((before[i].file.path, any))) ==> {
            &&& stand_in_order(after[i].inlinks)
            &&& after[i].inlinks.contains(source) <==> edges.contains(
                (before[i].file.path, source),
            )
        },
        !(exists|any: Seq<Seq<char>>| #[trigger] edges.contains((before[i].file.path, any)))
            ==> after[i].inlinks == before[i].inlinks,
{
    let path = before[i].file.path;
    assert(only_row(before, i));
    assert(after[i].file == before[i].file);
    let linked = linked_targets(edges);
    assert(linked.contains(path) <==> exists|any: Seq<Seq<char>>| #[trigger]
        edges.contains((path, any)));
    if linked.contains(path) {
        lemma_in_order(after[i].inlinks);
    }
}

/// The links that entries say are those from each of their sources to their
/// target.
pub proof fn law_entries_say_their_links(
    entries: Seq<(Seq<Seq<char>>, Seq<Seq<Seq<char>>>)>,
    target: Seq<Seq<char>>,
    source: Seq<Seq<char>>,
)
    ensures
        edges_of(entries).contains((target, source)) <==> exists|i: int, j: int| #![trigger entries[i].1[j]]
            0 <= i < entries.len() && 0 <= j < entries[i].1.len() && entries[i].0 == target
                && entries[i].1[j] == source,
{
    let edge = (target, source);
    if edges_of(entries).contains(edge) {
        let i = choose|i: int| says(entries, edge, i);
        let j = choose|j: int| 0 <= j < entries[i].1.len() && entries[i].1[j] == source;
        assert(entries[i].1[j] == source);
    }
    if exists|i: int, j: int| #![trigger entries[i].1[j]]
        0 <= i < entries.len() && 0 <= j < entries[i].1.len() && entries[i].0 == target
            && entries[i].1[j] == source {
        let (i, j) = choose|i: int, j: int| #![trigger entries[i].1[j]]
            0 <= i < entries.len() && 0 <= j < entries[i].1.len() && entries[i].0 == target
                && entries[i].1[j] == source;
        assert(entries[i].1.contains(source));
        assert(says(entries, edge, i));
    }
}

} // verus!
