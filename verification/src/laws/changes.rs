//! Files, and what a change of them means for the index.

use vstd::prelude::*;

use super::order::{comes_before, law_texts_are_in_dictionary_order};
use super::paths::{
    are_plain, dotted, has_no_inner_dot, is_file_name, law_components_are_read_back,
    law_names_part_at_the_last_dot, law_names_without_inner_dot_have_no_extension,
    law_parents_drop_the_last_component, law_parts_of_paths_are_parts_of_texts,
    lemma_names_are_names, slashed,
};
use crate::file::{file_at, format_of_name, same_file, FileFormat, FileView};
use crate::index::builder::{
    file_choice, links_are_stale, outlink_targets, present, CacheView, NoteCacheState, NoteChoice,
};
use crate::index::delta::{
    deleted_files, law_deleted_are_gone, law_upserted_are_new_or_changed, upserted_files,
    view_paths,
};
use crate::index::epochs::{by_symbol, with_status, StatusView};
use crate::index::refresh::notes_without;
use crate::index::scan::{is_scanned, scanned_files, ScannedNode};
use crate::index::sort::strictly_ascending;
use crate::instant::DateTimeValue;
use crate::note::document::NoteView;
use crate::path::{lemma_path_lt_irreflexive, path_lt};
use crate::text::{ascii_lowered, lemma_text_lt_irreflexive, lemma_text_lt_transitive, text_lt};

verus! {

/// A name that ends in a dot and `md` or `markdown`, in capitals or small letters,
/// is that of a note. One with another extension is not, nor is one without.
pub proof fn law_notes_are_told_by_their_extension(stem: Seq<char>, extension: Seq<char>, bare: Seq<char>)
    requires
        stem.len() > 0,
        !extension.contains('.'),
        dotted(stem, extension) != seq!['.', '.'],
        has_no_inner_dot(bare),
    ensures
        format_of_name(dotted(stem, extension)) == FileFormat::Note <==> ascii_lowered(extension)
            == seq!['m', 'd'] || ascii_lowered(extension) == seq![
            'm',
            'a',
            'r',
            'k',
            'd',
            'o',
            'w',
            'n',
        ],
        format_of_name(bare) == FileFormat::Other,
{
    law_names_part_at_the_last_dot(stem, extension);
    law_names_without_inner_dot_have_no_extension(bare);
    reveal_strlit("md");
    reveal_strlit("markdown");
    assert(ascii_lowered("md"@) =~= seq!['m', 'd']);
    assert(ascii_lowered("markdown"@) =~= seq!['m', 'a', 'r', 'k', 'd', 'o', 'w', 'n']);
}

/// The record of a file has its path as it is written, its name without the
/// extension, the folder that it lies in, and what was said of it.
pub proof fn law_records_tell_name_and_folder(
    folder: Seq<Seq<char>>,
    stem: Seq<char>,
    extension: Seq<char>,
    format: FileFormat,
    created_at: Option<DateTimeValue>,
    modified_at: DateTimeValue,
    size: u64,
)
    requires
        are_plain(folder),
        stem.len() > 0,
        !extension.contains('.'),
        is_file_name(dotted(stem, extension)),
    ensures
        ({
            let path = folder.push(dotted(stem, extension));
            let file = file_at(slashed(path), format, created_at, modified_at, size);
            &&& file.path == path
            &&& file.path_text == slashed(path)
            &&& file.name == stem
            &&& file.folder == folder
            &&& file.folder_text == slashed(folder)
            &&& file.format == format
            &&& file.created_at == created_at
            &&& file.modified_at == modified_at
            &&& file.size == size
        }),
{
    let name = dotted(stem, extension);
    let path = folder.push(name);
    assert(are_plain(path)) by {
        assert forall|i: int| 0 <= i < path.len() implies (#[trigger] path[i]).len() > 0
            && !path[i].contains('/') && path[i] != seq!['.'] by {
            if i < folder.len() {
                assert(path[i] == folder[i]);
            }
        }
    }
    law_components_are_read_back(path);
    law_parts_of_paths_are_parts_of_texts(path, 0);
    assert(path.drop_last() =~= folder);
    lemma_names_are_names(folder, name);
    law_names_part_at_the_last_dot(stem, extension);
    assert(name != seq!['/']) by {
        assert(seq!['/'][0] == '/');
        assert(seq!['/'].contains('/'));
    }
    law_parents_drop_the_last_component(folder, name);
}

/// Regular files are indexed, other nodes are not; nor is what lies in a folder
/// called `.git` at any depth, nor the database `.traces/index.redb`.
pub proof fn law_what_is_indexed(path: Seq<Seq<char>>, is_file: bool)
    ensures
        is_scanned(path, is_file) <==> {
            &&& is_file
            &&& forall|i: int|
                0 <= i < path.len() - 1 ==> #[trigger] path[i] != seq!['.', 'g', 'i', 't']
            &&& path != seq![
                seq!['.', 't', 'r', 'a', 'c', 'e', 's'],
                seq!['i', 'n', 'd', 'e', 'x', '.', 'r', 'e', 'd', 'b'],
            ]
        },
{
    reveal_strlit(".git");
    reveal_strlit(".traces/index.redb");
    assert(".git"@ =~= seq!['.', 'g', 'i', 't']);
    let parts = seq![
        seq!['.', 't', 'r', 'a', 'c', 'e', 's'],
        seq!['i', 'n', 'd', 'e', 'x', '.', 'r', 'e', 'd', 'b'],
    ];
    assert forall|i: int| 0 <= i < parts.len() implies (#[trigger] parts[i]).len() > 0
        && !parts[i].contains('/') && parts[i] != seq!['.'] by {
        assert(i == 0 || i == 1);
    }
    law_components_are_read_back(parts);
    assert(parts.drop_last() =~= seq![parts[0]]);
    assert(slashed(parts.drop_last()) == parts[0]);
    assert(slashed(parts) =~= ".traces/index.redb"@);
}

/// Of a walk all files are taken that are indexed, in the order of the walk.
pub proof fn law_scans_go_node_by_node(
    first: Seq<ScannedNode>,
    second: Seq<ScannedNode>,
    one: ScannedNode,
)
    ensures
        scanned_files(first + second) == scanned_files(first) + scanned_files(second),
        is_scanned(one.file@.path, one.is_file) ==> scanned_files(seq![one]) == seq![one.file],
        !is_scanned(one.file@.path, one.is_file) ==> scanned_files(seq![one]).len() == 0,
    decreases second.len(),
{
    assert(seq![one].drop_last() =~= Seq::empty());
    assert(seq![one].last() == one);
    assert(scanned_files(seq![one].drop_last()) =~= Seq::empty());
    if second.len() == 0 {
        assert(first + second =~= first);
        assert(scanned_files(second) =~= Seq::empty());
    } else {
        law_scans_go_node_by_node(first, second.drop_last(), one);
        assert((first + second).drop_last() =~= first + second.drop_last());
        assert((first + second).last() == second.last());
    }
}

proof fn lemma_own_path(files: Seq<FileView>, i: int, j: int)
    requires
        strictly_ascending(view_paths(files)),
        0 <= i < files.len(),
        0 <= j < files.len(),
        files[i].path == files[j].path,
    ensures
        i == j,
{
    let paths = view_paths(files);
    assert(paths[i] == files[i].path && paths[j] == files[j].path);
    lemma_path_lt_irreflexive(files[i].path);
    if i < j {
        assert(path_lt(paths[i], paths[j]));
    } else if j < i {
        assert(path_lt(paths[j], paths[i]));
    }
}

/// A file that was there before is refreshed exactly where its name, folder,
/// format, size or times are others than before. How its path is written does not
/// count.
pub proof fn law_changed_files_are_refreshed(
    current: Seq<FileView>,
    persisted: Seq<FileView>,
    i: int,
    j: int,
)
    requires
        strictly_ascending(view_paths(current)),
        strictly_ascending(view_paths(persisted)),
        0 <= i < current.len(),
        0 <= j < persisted.len(),
        current[i].path == persisted[j].path,
    ensures
        upserted_files(current, persisted).contains(current[i]) <==> {
            ||| current[i].size != persisted[j].size
            ||| current[i].modified_at != persisted[j].modified_at
            ||| current[i].created_at != persisted[j].created_at
            ||| current[i].format != persisted[j].format
            ||| current[i].name != persisted[j].name
            ||| current[i].folder != persisted[j].folder
        },
        forall|k: int|
            0 <= k < deleted_files(current, persisted).len() ==> (#[trigger] deleted_files(
                current,
                persisted,
            )[k]).path != current[i].path,
{
    let file = current[i];
    law_upserted_are_new_or_changed(current, persisted, file);
    assert(current.contains(file));
    assert forall|k: int|
        0 <= k < persisted.len() && same_file(#[trigger] persisted[k], file) implies k
        == j by {
        lemma_own_path(persisted, k, j);
    }
    let changed = file.size != persisted[j].size || file.modified_at != persisted[j].modified_at
        || file.created_at != persisted[j].created_at || file.format != persisted[j].format
        || file.name != persisted[j].name || file.folder != persisted[j].folder;
    if !changed {
        assert(same_file(persisted[j], file));
    }
    let gone = deleted_files(current, persisted);
    assert forall|k: int| 0 <= k < gone.len() implies (#[trigger] gone[k]).path != file.path by {
        law_deleted_are_gone(current, persisted, gone[k]);
        assert(gone.contains(gone[k]));
        if gone[k].path == file.path {
            assert(current[i].path == gone[k].path);
        }
    }
}

/// A file at a path where none was is refreshed; one whose path has none any more
/// is deleted.
pub proof fn law_new_files_are_refreshed_and_missing_ones_deleted(
    current: Seq<FileView>,
    persisted: Seq<FileView>,
)
    requires
        strictly_ascending(view_paths(current)),
        strictly_ascending(view_paths(persisted)),
    ensures
        forall|i: int|
            0 <= i < current.len() && (forall|j: int|
                0 <= j < persisted.len() ==> (#[trigger] persisted[j]).path != current[i].path)
                ==> upserted_files(current, persisted).contains(#[trigger] current[i]),
        forall|j: int|
            0 <= j < persisted.len() && (forall|i: int|
                0 <= i < current.len() ==> (#[trigger] current[i]).path != persisted[j].path)
                ==> deleted_files(current, persisted).contains(#[trigger] persisted[j]),
{
    assert forall|i: int|
        0 <= i < current.len() && (forall|j: int|
            0 <= j < persisted.len() ==> (#[trigger] persisted[j]).path != current[i].path) implies upserted_files(
        current, persisted).contains(#[trigger] current[i]) by {
        law_upserted_are_new_or_changed(current, persisted, current[i]);
        assert(current.contains(current[i]));
    }
    assert forall|j: int|
        0 <= j < persisted.len() && (forall|i: int|
            0 <= i < current.len() ==> (#[trigger] current[i]).path != persisted[j].path) implies deleted_files(
        current, persisted).contains(#[trigger] persisted[j]) by {
        law_deleted_are_gone(current, persisted, persisted[j]);
        assert(persisted.contains(persisted[j]));
    }
}

/// Some link of the note has this target.
pub open spec fn links_to_target(note: NoteView, target: Seq<char>) -> bool {
    exists|i: int| 0 <= i < note.outlinks.len() && (#[trigger] note.outlinks[i]).target == target
}

/// What a refresh takes as the note of a file: none where the file is no note; the
/// note parsed anew where the file changed; the persisted one where it did not.
/// Its links changed where it links to something that it did not link to before,
/// or no more to something that it did.
pub proof fn law_refreshes_take_the_current_note(
    file: FileView,
    parsed: NoteView,
    previous: NoteView,
    anything: Option<NoteView>,
)
    ensures
        file.format != FileFormat::Note ==> file_choice(
            file,
            NoteCacheState::Upserted,
            Some(parsed),
            anything,
        ) == NoteChoice::Nothing && file_choice(
            file,
            NoteCacheState::Fresh,
            anything,
            Some(previous),
        ) == NoteChoice::Nothing,
        file.format == FileFormat::Note ==> {
            &&& file_choice(file, NoteCacheState::Fresh, anything, Some(previous))
                == NoteChoice::Note(previous, false)
            &&& file_choice(file, NoteCacheState::Fresh, anything, None) == NoteChoice::Missing
            &&& file_choice(file, NoteCacheState::Upserted, None, anything) == NoteChoice::Missing
            &&& file_choice(file, NoteCacheState::Upserted, Some(parsed), None)
                == NoteChoice::Note(parsed, true)
            &&& file_choice(file, NoteCacheState::Upserted, Some(parsed), Some(previous))
                == NoteChoice::Note(
                parsed,
                exists|target: Seq<char>| #[trigger]
                    links_to_target(parsed, target) != links_to_target(previous, target),
            )
        },
{
    let now = outlink_targets(parsed);
    let earlier = outlink_targets(previous);
    assert forall|target: Seq<char>| #[trigger] links_to_target(parsed, target) == now.contains(
        target,
    ) by {}
    assert forall|target: Seq<char>| #[trigger] links_to_target(previous, target) == earlier.contains(
        target,
    ) by {}
    if forall|target: Seq<char>| #[trigger]
        links_to_target(parsed, target) == links_to_target(previous, target) {
        assert forall|target: Seq<char>| now.contains(target) == earlier.contains(target) by {
            assert(links_to_target(parsed, target) == links_to_target(previous, target));
        }
        assert(now =~= earlier);
    }
}

/// Where the files are the same as before and no note links to anything else, the
/// persisted links stay.
pub proof fn law_links_stay_where_nothing_changed(cache: CacheView, choices: Seq<NoteChoice>)
    requires
        strictly_ascending(view_paths(cache.files)),
        forall|i: int|
            0 <= i < choices.len() ==> !((#[trigger] choices[i]) matches NoteChoice::Note(_, true)),
    ensures
        !links_are_stale(cache.files, cache, choices),
{
    let gone = deleted_files(cache.files, cache.files);
    if gone.len() > 0 {
        law_deleted_are_gone(cache.files, cache.files, gone[0]);
        assert(gone.contains(gone[0]));
        let i = choose|i: int| 0 <= i < cache.files.len() && cache.files[i] == gone[0];
        assert(cache.files[i].path == gone[0].path);
    }
}

/// Of the notes of all files those are kept that are there, in their order.
pub proof fn law_missing_notes_are_left_out(
    first: Seq<Option<NoteView>>,
    second: Seq<Option<NoteView>>,
    note: NoteView,
)
    ensures
        present(first + second) == present(first) + present(second),
        present(seq![Some(note)]) == seq![note],
        present(seq![None]).len() == 0,
    decreases second.len(),
{
    let none = Seq::<Option<NoteView>>::empty();
    assert(present(none) =~= Seq::empty());
    assert(seq![Some(note)].drop_last() =~= none);
    assert(seq![Some(note)].last() == Some(note));
    assert(seq![None::<NoteView>].drop_last() =~= none);
    if second.len() == 0 {
        assert(first + second =~= first);
        assert(present(second) =~= Seq::empty());
    } else {
        law_missing_notes_are_left_out(first, second.drop_last(), note);
        assert((first + second).drop_last() =~= first + second.drop_last());
        assert((first + second).last() == second.last());
    }
}

/// A note goes where its path is among those deleted, and no other note does.
pub proof fn law_notes_of_deleted_files_go(
    first: Seq<NoteView>,
    second: Seq<NoteView>,
    one: NoteView,
    paths: Seq<Seq<Seq<char>>>,
)
    ensures
        notes_without(first + second, paths) == notes_without(first, paths) + notes_without(
            second,
            paths,
        ),
        paths.contains(one.path) ==> notes_without(seq![one], paths).len() == 0,
        !paths.contains(one.path) ==> notes_without(seq![one], paths) == seq![one],
    decreases second.len(),
{
    assert(seq![one].drop_last() =~= Seq::empty());
    assert(seq![one].last() == one);
    assert(notes_without(seq![one].drop_last(), paths) =~= Seq::empty());
    if second.len() == 0 {
        assert(first + second =~= first);
        assert(notes_without(second, paths) =~= Seq::empty());
    } else {
        law_notes_of_deleted_files_go(first, second.drop_last(), one, paths);
        assert((first + second).drop_last() =~= first + second.drop_last());
        assert((first + second).last() == second.last());
    }
}

proof fn lemma_with_status(statuses: Seq<StatusView>, status: StatusView)
    requires
        forall|i: int, j: int|
            0 <= i < j < statuses.len() ==> !comes_before(
                (#[trigger] statuses[j]).symbol,
                (#[trigger] statuses[i]).symbol,
            ),
    ensures
        forall|i: int, j: int|
            0 <= i < j < with_status(statuses, status).len() ==> !comes_before(
                (#[trigger] with_status(statuses, status)[j]).symbol,
                (#[trigger] with_status(statuses, status)[i]).symbol,
            ),
        with_status(statuses, status).len() == statuses.len() + 1,
        with_status(statuses, status).to_multiset() == statuses.to_multiset().insert(status),
    decreases statuses.len(),
{
    broadcast use vstd::seq_lib::group_to_multiset_ensures;

    let all = with_status(statuses, status);
    if statuses.len() == 0 || text_lt(status.symbol, statuses[0].symbol) {
        assert(all =~= seq![status] + statuses);
        vstd::seq_lib::lemma_multiset_commutative(seq![status], statuses);
        assert(seq![status].to_multiset() =~= vstd::multiset::Multiset::singleton(status)) by {
            assert(seq![status] =~= Seq::empty().push(status));
            Seq::<StatusView>::empty().to_multiset_ensures();
        }
        assert(all.to_multiset() =~= statuses.to_multiset().insert(status));
        assert forall|i: int, j: int| 0 <= i < j < all.len() implies !comes_before(
            (#[trigger] all[j]).symbol,
            (#[trigger] all[i]).symbol,
        ) by {
            assert(all[j] == statuses[j - 1]);
            if i > 0 {
                assert(all[i] == statuses[i - 1]);
            } else {
                let a = status.symbol;
                let b = statuses[0].symbol;
                let c = statuses[j - 1].symbol;
                law_texts_are_in_dictionary_order(a, b);
                law_texts_are_in_dictionary_order(c, a);
                law_texts_are_in_dictionary_order(c, b);
                if comes_before(c, a) {
                    lemma_text_lt_transitive(c, a, b);
                    if j == 1 {
                        lemma_text_lt_irreflexive(b);
                    } else {
                        assert(!comes_before(statuses[j - 1].symbol, statuses[0].symbol));
                    }
                }
            }
        }
    } else {
        let rest = statuses.drop_first();
        let first = statuses[0];
        assert forall|i: int, j: int| 0 <= i < j < rest.len() implies !comes_before(
            (#[trigger] rest[j]).symbol,
            (#[trigger] rest[i]).symbol,
        ) by {
            assert(rest[i] == statuses[i + 1] && rest[j] == statuses[j + 1]);
        }
        lemma_with_status(rest, status);
        let inner = with_status(rest, status);
        assert(all =~= seq![first] + inner);
        vstd::seq_lib::lemma_multiset_commutative(seq![first], inner);
        vstd::seq_lib::lemma_multiset_commutative(seq![first], rest);
        assert(seq![first] + rest =~= statuses);
        assert(all.to_multiset() =~= statuses.to_multiset().insert(status));
        law_texts_are_in_dictionary_order(status.symbol, first.symbol);
        assert forall|i: int, j: int| 0 <= i < j < all.len() implies !comes_before(
            (#[trigger] all[j]).symbol,
            (#[trigger] all[i]).symbol,
        ) by {
            assert(all[j] == inner[j - 1]);
            if i > 0 {
                assert(all[i] == inner[i - 1]);
            } else {
                let found = inner[j - 1];
                assert(inner.contains(found));
                assert(inner.to_multiset().count(found) > 0);
                assert(rest.to_multiset().insert(status).count(found) > 0);
                if found != status {
                    assert(rest.to_multiset().count(found) > 0);
                    assert(rest.contains(found));
                    let k = choose|k: int| 0 <= k < rest.len() && rest[k] == found;
                    assert(statuses[k + 1] == found);
                }
            }
        }
    }
}

/// Statuses by marker stand in the order of a dictionary, and are those that were
/// given.
pub proof fn law_statuses_are_ordered_by_marker(statuses: Seq<StatusView>)
    ensures
        forall|i: int, j: int|
            0 <= i < j < by_symbol(statuses).len() ==> !comes_before(
                (#[trigger] by_symbol(statuses)[j]).symbol,
                (#[trigger] by_symbol(statuses)[i]).symbol,
            ),
        by_symbol(statuses).to_multiset() == statuses.to_multiset(),
    decreases statuses.len(),
{
    broadcast use vstd::seq_lib::group_to_multiset_ensures;

    if statuses.len() == 0 {
        assert(by_symbol(statuses) =~= statuses);
    } else {
        law_statuses_are_ordered_by_marker(statuses.drop_last());
        lemma_with_status(by_symbol(statuses.drop_last()), statuses.last());
        assert(statuses.drop_last().push(statuses.last()) =~= statuses);
    }
}

} // verus!
