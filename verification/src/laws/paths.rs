//! Paths and the names in them.

use vstd::prelude::*;

use super::order::{comes_before, law_texts_are_in_dictionary_order};
use crate::path::{
    extension_of, head_text, is_under, joined_text, last_position, name_of, parent_of, parent_text,
    part_lt, parts_end, path_lt, path_parts, piece_len, relative_text, split_end, split_parts,
    stem_of, with_extension_of, with_extension_text,
};

verus! {

/// A text that can be the name of a file: not empty, without a separator, and
/// neither `.` nor `..`.
pub open spec fn is_file_name(name: Seq<char>) -> bool {
    &&& name.len() > 0
    &&& !name.contains('/')
    &&& name != seq!['.']
    &&& name != seq!['.', '.']
}

/// The name has no dot behind its first character.
pub open spec fn has_no_inner_dot(name: Seq<char>) -> bool {
    forall|i: int| 1 <= i < name.len() ==> #[trigger] name[i] != '.'
}

/// A name with an extension: the stem, a dot and the extension.
pub open spec fn dotted(stem: Seq<char>, extension: Seq<char>) -> Seq<char> {
    stem + seq!['.'] + extension
}

proof fn lemma_last_dot(stem: Seq<char>, extension: Seq<char>)
    requires
        !extension.contains('.'),
    ensures
        last_position(dotted(stem, extension), '.') == Some(stem.len() as int),
    decreases extension.len(),
{
    let name = dotted(stem, extension);
    if extension.len() == 0 {
        assert(name.last() == '.');
    } else {
        assert(extension.contains(extension.last()));
        assert(name.last() == extension.last());
        let front = extension.drop_last();
        assert(!front.contains('.')) by {
            if front.contains('.') {
                let i = choose|i: int| 0 <= i < front.len() && front[i] == '.';
                assert(extension[i] == '.');
            }
        }
        lemma_last_dot(stem, front);
        assert(name.drop_last() =~= dotted(stem, front));
    }
}

proof fn lemma_no_inner_dot(name: Seq<char>)
    requires
        has_no_inner_dot(name),
    ensures
        last_position(name, '.') is None || last_position(name, '.') == Some(0int),
    decreases name.len(),
{
    if name.len() > 0 {
        if name.last() == '.' {
            if name.len() > 1 {
                assert(name[name.len() - 1] == '.');
            }
        } else {
            assert forall|i: int| 1 <= i < name.drop_last().len() implies #[trigger] name.drop_last(
            )[i] != '.' by {
                assert(name[i] != '.');
            }
            lemma_no_inner_dot(name.drop_last());
        }
    }
}

/// A name is its stem, a dot and its extension, parted at the last dot; the stem
/// is not empty.
pub proof fn law_names_part_at_the_last_dot(stem: Seq<char>, extension: Seq<char>)
    requires
        stem.len() > 0,
        !extension.contains('.'),
        dotted(stem, extension) != seq!['.', '.'],
    ensures
        stem_of(dotted(stem, extension)) == stem,
        extension_of(dotted(stem, extension)) == Some(extension),
{
    let name = dotted(stem, extension);
    lemma_last_dot(stem, extension);
    assert(name.take(stem.len() as int) =~= stem);
    assert(name.skip(stem.len() as int + 1) =~= extension);
}

/// A name without a dot behind its first character has no extension and is its
/// own stem.
pub proof fn law_names_without_inner_dot_have_no_extension(name: Seq<char>)
    requires
        has_no_inner_dot(name),
    ensures
        stem_of(name) == name,
        extension_of(name) is None,
{
    lemma_no_inner_dot(name);
}

proof fn lemma_parted(name: Seq<char>) -> (at: int)
    requires
        !has_no_inner_dot(name),
    ensures
        0 < at < name.len(),
        name == dotted(name.take(at), name.skip(at + 1)),
        !name.skip(at + 1).contains('.'),
    decreases name.len(),
{
    if name.last() == '.' {
        let at = name.len() - 1;
        let k = choose|i: int| 1 <= i < name.len() && name[i] == '.';
        assert(name.skip(at + 1) =~= Seq::empty());
        assert(name =~= dotted(name.take(at), name.skip(at + 1)));
        at
    } else {
        let front = name.drop_last();
        let k = choose|i: int| 1 <= i < name.len() && name[i] == '.';
        assert(front[k] == '.');
        let at = lemma_parted(front);
        let tail = name.skip(at + 1);
        assert(name.take(at) =~= front.take(at));
        assert(tail =~= front.skip(at + 1).push(name.last()));
        assert(!tail.contains('.')) by {
            if tail.contains('.') {
                let i = choose|i: int| 0 <= i < tail.len() && tail[i] == '.';
                if i < front.skip(at + 1).len() {
                    assert(front.skip(at + 1)[i] == '.');
                }
            }
        }
        assert(front == dotted(front.take(at), front.skip(at + 1)));
        assert(name =~= dotted(name.take(at), tail)) by {
            assert(name =~= front.push(name.last()));
        }
        at
    }
}

/// Every other name but `..` parts into a stem and an extension.
pub proof fn law_names_part(name: Seq<char>) -> (parts: (Seq<char>, Seq<char>))
    requires
        !has_no_inner_dot(name),
        name != seq!['.', '.'],
    ensures
        parts.0.len() > 0,
        !parts.1.contains('.'),
        name == dotted(parts.0, parts.1),
        stem_of(name) == parts.0,
        extension_of(name) == Some(parts.1),
{
    let at = lemma_parted(name);
    law_names_part_at_the_last_dot(name.take(at), name.skip(at + 1));
    (name.take(at), name.skip(at + 1))
}

/// Giving a path another extension changes its name alone: what follows the
/// last dot is replaced, and a name without an extension gets one.
pub proof fn law_extensions_are_replaced(
    folder: Seq<Seq<char>>,
    stem: Seq<char>,
    old_extension: Seq<char>,
    extension: Seq<char>,
)
    requires
        extension.len() > 0,
    ensures
        is_file_name(stem) && has_no_inner_dot(stem) ==> with_extension_of(
            folder.push(stem),
            extension,
        ) == folder.push(dotted(stem, extension)),
        is_file_name(dotted(stem, old_extension)) && stem.len() > 0 && !old_extension.contains('.')
            ==> with_extension_of(folder.push(dotted(stem, old_extension)), extension)
            == folder.push(dotted(stem, extension)),
{
    reveal_strlit(".");
    assert("."@ =~= seq!['.']);
    if is_file_name(stem) && has_no_inner_dot(stem) {
        law_names_without_inner_dot_have_no_extension(stem);
        lemma_names_are_names(folder, stem);
        assert(folder.push(stem).drop_last() =~= folder);
    }
    let name = dotted(stem, old_extension);
    if is_file_name(name) && stem.len() > 0 && !old_extension.contains('.') {
        law_names_part_at_the_last_dot(stem, old_extension);
        lemma_names_are_names(folder, name);
        assert(folder.push(name).drop_last() =~= folder);
    }
}

/// The name of a path is its last component, where that can be a file name.
pub proof fn lemma_names_are_names(folder: Seq<Seq<char>>, name: Seq<char>)
    ensures
        is_file_name(name) ==> name_of(folder.push(name)) == Some(name),
        name == seq!['/'] || name == seq!['.'] || name == seq!['.', '.'] ==> name_of(
            folder.push(name),
        ) is None,
        name_of(Seq::<Seq<char>>::empty()) is None,
{
    assert(folder.push(name).last() == name);
    if is_file_name(name) {
        assert(seq!['/'].contains('/')) by {
            assert(seq!['/'][0] == '/');
        }
    }
}

/// A path lies in the folder that is left without its last component. Neither
/// the root nor the empty path lies in any.
pub proof fn law_parents_drop_the_last_component(folder: Seq<Seq<char>>, part: Seq<char>)
    ensures
        part != seq!['/'] ==> parent_of(folder.push(part)) == Some(folder),
        parent_of(seq![seq!['/']]) is None,
        parent_of(Seq::<Seq<char>>::empty()) is None,
{
    assert(folder.push(part).last() == part);
    assert(folder.push(part).drop_last() =~= folder);
}

/// A path lies under a folder exactly where the folder is its beginning.
pub proof fn law_paths_under_a_folder_begin_with_it(
    folder: Seq<Seq<char>>,
    rest: Seq<Seq<char>>,
    path: Seq<Seq<char>>,
)
    ensures
        is_under(folder + rest, folder),
        is_under(path, folder) ==> path == folder + path.skip(folder.len() as int),
{
    assert((folder + rest).take(folder.len() as int) =~= folder);
    if is_under(path, folder) {
        assert(path =~= path.take(folder.len() as int) + path.skip(folder.len() as int));
    }
}

proof fn lemma_piece_before(a: Seq<char>, b: Seq<char>)
    ensures
        piece_len(a + seq!['/'] + b) == piece_len(a),
        piece_len(a) <= a.len(),
    decreases a.len(),
{
    let s = a + seq!['/'] + b;
    if a.len() == 0 {
        assert(s[0] == '/');
    } else {
        assert(s[0] == a[0]);
        assert(s.drop_first() =~= a.drop_first() + seq!['/'] + b);
        lemma_piece_before(a.drop_first(), b);
    }
}

/// A separator parts the components before it from those behind it.
proof fn lemma_separator_parts(a: Seq<char>, b: Seq<char>, first: bool)
    ensures
        split_parts(a + seq!['/'] + b, first) == split_parts(a, first) + split_parts(b, false),
    decreases a.len(),
{
    let s = a + seq!['/'] + b;
    lemma_piece_before(a, b);
    let n = piece_len(a) as int;
    assert(s.take(n) =~= a.take(n));
    if n < a.len() {
        assert(s.skip(n + 1) =~= a.skip(n + 1) + seq!['/'] + b);
        lemma_separator_parts(a.skip(n + 1), b, false);
    } else {
        assert(s.skip(n + 1) =~= b);
    }
    assert(split_parts(s, first) =~= split_parts(a, first) + split_parts(b, false));
}

proof fn lemma_piece_of_name(name: Seq<char>)
    requires
        !name.contains('/'),
    ensures
        piece_len(name) == name.len(),
    decreases name.len(),
{
    if name.len() > 0 {
        assert(name[0] != '/') by {
            if name[0] == '/' {
                assert(name.contains('/'));
            }
        }
        assert(!name.drop_first().contains('/')) by {
            if name.drop_first().contains('/') {
                let i = choose|i: int|
                    0 <= i < name.drop_first().len() && name.drop_first()[i] == '/';
                assert(name[i + 1] == '/');
            }
        }
        lemma_piece_of_name(name.drop_first());
    }
}

proof fn lemma_single_piece(name: Seq<char>, first: bool)
    requires
        !name.contains('/'),
    ensures
        name.len() == 0 ==> split_parts(name, first) == Seq::<Seq<char>>::empty(),
        name == seq!['.'] && !first ==> split_parts(name, first) == Seq::<Seq<char>>::empty(),
        name.len() > 0 && (first || name != seq!['.']) ==> split_parts(name, first) == seq![name],
{
    lemma_piece_of_name(name);
    assert(name.take(name.len() as int) =~= name);
}

/// A text without a separator is one component; the empty text has none.
pub proof fn law_a_text_without_separator_is_one_component(name: Seq<char>)
    requires
        !name.contains('/'),
    ensures
        name.len() > 0 ==> path_parts(name) == seq![name],
        name.len() == 0 ==> path_parts(name) == Seq::<Seq<char>>::empty(),
{
    lemma_single_piece(name, true);
    if name.len() > 0 && name[0] == '/' {
        assert(name.contains('/'));
    }
}

proof fn lemma_after_separator(a: Seq<char>, b: Seq<char>)
    ensures
        a.len() > 0 ==> path_parts(a + seq!['/'] + b) == path_parts(a) + split_parts(b, false),
        path_parts(seq!['/'] + b) == seq![seq!['/']] + split_parts(b, false),
{
    let root = seq!['/'] + b;
    assert(root[0] == '/');
    assert(root.skip(1) =~= b);
    if a.len() > 0 {
        let s = a + seq!['/'] + b;
        assert(s[0] == a[0]);
        if a[0] == '/' {
            assert(s.skip(1) =~= a.skip(1) + seq!['/'] + b);
            lemma_separator_parts(a.skip(1), b, false);
            assert(path_parts(s) =~= path_parts(a) + split_parts(b, false));
        } else {
            lemma_separator_parts(a, b, true);
        }
    }
}

/// A name behind a separator is the last component.
pub proof fn law_a_name_behind_a_separator_is_last(folder: Seq<char>, name: Seq<char>)
    requires
        name.len() > 0,
        !name.contains('/'),
        name != seq!['.'],
    ensures
        folder.len() > 0 ==> path_parts(folder + seq!['/'] + name) == path_parts(folder).push(name),
        path_parts(seq!['/'] + name) == seq![seq!['/'], name],
{
    lemma_after_separator(folder, name);
    lemma_single_piece(name, false);
    assert(path_parts(folder) + seq![name] =~= path_parts(folder).push(name));
    assert(seq![seq!['/']] + seq![name] =~= seq![seq!['/'], name]);
}

/// Separators that follow one another count once, `.` between separators and
/// a separator at the end do not count.
pub proof fn law_idle_separators_do_not_count(a: Seq<char>, b: Seq<char>)
    requires
        a.len() > 0,
    ensures
        path_parts(a + seq!['/', '/'] + b) == path_parts(a + seq!['/'] + b),
        path_parts(a + seq!['/', '.', '/'] + b) == path_parts(a + seq!['/'] + b),
        path_parts(a + seq!['/']) == path_parts(a),
        path_parts(a + seq!['/', '.']) == path_parts(a),
{
    let none = Seq::<char>::empty();
    let here = seq!['.'];
    assert(!none.contains('/'));
    assert(!here.contains('/'));
    lemma_single_piece(none, false);
    lemma_single_piece(here, false);
    lemma_after_separator(a, b);
    lemma_after_separator(a, none);
    lemma_after_separator(a, here);
    assert(a + seq!['/'] + none =~= a + seq!['/']);
    assert(a + seq!['/'] + here =~= a + seq!['/', '.']);
    assert(path_parts(a) + Seq::<Seq<char>>::empty() =~= path_parts(a));
    lemma_after_separator(a, none + seq!['/'] + b);
    assert(a + seq!['/'] + (none + seq!['/'] + b) =~= a + seq!['/', '/'] + b);
    lemma_separator_parts(none, b, false);
    assert(split_parts(none, false) + split_parts(b, false) =~= split_parts(b, false));
    lemma_after_separator(a, here + seq!['/'] + b);
    assert(a + seq!['/'] + (here + seq!['/'] + b) =~= a + seq!['/', '.', '/'] + b);
    lemma_separator_parts(here, b, false);
    assert(split_parts(here, false) + split_parts(b, false) =~= split_parts(b, false));
}

/// The components with a separator between two.
pub open spec fn slashed(parts: Seq<Seq<char>>) -> Seq<char>
    decreases parts.len(),
{
    if parts.len() == 0 {
        Seq::empty()
    } else if parts.len() == 1 {
        parts[0]
    } else {
        slashed(parts.drop_last()) + seq!['/'] + parts.last()
    }
}

proof fn lemma_slashed_not_empty(parts: Seq<Seq<char>>)
    requires
        parts.len() > 0,
        parts[0].len() > 0,
    ensures
        slashed(parts).len() > 0,
    decreases parts.len(),
{
    if parts.len() > 1 {
        lemma_slashed_not_empty(parts.drop_last());
    }
}

/// Components that are written with separators between them are read back,
/// behind the root too.
pub proof fn law_components_are_read_back(parts: Seq<Seq<char>>)
    requires
        forall|i: int|
            0 <= i < parts.len() ==> (#[trigger] parts[i]).len() > 0 && !parts[i].contains('/')
                && parts[i] != seq!['.'],
    ensures
        path_parts(slashed(parts)) == parts,
        path_parts(seq!['/'] + slashed(parts)) == seq![seq!['/']] + parts,
    decreases parts.len(),
{
    if parts.len() == 0 {
        let none = Seq::<char>::empty();
        assert(!none.contains('/'));
        lemma_single_piece(none, false);
        lemma_single_piece(none, true);
        lemma_after_separator(none, none);
        assert(path_parts(slashed(parts)) =~= parts);
        assert(seq![seq!['/']] + parts =~= seq![seq!['/']] + Seq::<Seq<char>>::empty());
    } else if parts.len() == 1 {
        assert(parts =~= seq![parts[0]]);
        law_a_text_without_separator_is_one_component(parts[0]);
        law_a_name_behind_a_separator_is_last(parts[0], parts[0]);
        assert(seq![seq!['/']] + parts =~= seq![seq!['/'], parts[0]]);
    } else {
        let front = parts.drop_last();
        let name = parts.last();
        assert(name == parts[parts.len() - 1]);
        assert forall|i: int| 0 <= i < front.len() implies (#[trigger] front[i]).len() > 0
            && !front[i].contains('/') && front[i] != seq!['.'] by {
            assert(front[i] == parts[i]);
        }
        law_components_are_read_back(front);
        lemma_slashed_not_empty(front);
        law_a_name_behind_a_separator_is_last(slashed(front), name);
        assert(front.push(name) =~= parts);
        let rooted = seq!['/'] + slashed(front);
        law_a_name_behind_a_separator_is_last(rooted, name);
        assert(rooted + seq!['/'] + name =~= seq!['/'] + slashed(parts));
        assert((seq![seq!['/']] + front).push(name) =~= seq![seq!['/']] + parts);
    }
}

/// A component comes before another: the root before all, then `.`, then `..`,
/// then names in dictionary order.
pub open spec fn component_before(a: Seq<char>, b: Seq<char>) -> bool {
    if a == seq!['/'] || b == seq!['/'] {
        b != seq!['/']
    } else if a == seq!['.'] || b == seq!['.'] {
        b != seq!['.']
    } else if a == seq!['.', '.'] || b == seq!['.', '.'] {
        b != seq!['.', '.']
    } else {
        comes_before(a, b)
    }
}

/// `a` comes before `b` by what stands at `k`: up to there they agree, and there
/// `a` ends or has the earlier component.
pub open spec fn path_before_at(a: Seq<Seq<char>>, b: Seq<Seq<char>>, k: int) -> bool {
    &&& 0 <= k <= a.len()
    &&& k < b.len()
    &&& forall|j: int| 0 <= j < k ==> a[j] == b[j]
    &&& k == a.len() || (a[k] != b[k] && component_before(a[k], b[k]))
}

proof fn lemma_components(a: Seq<char>, b: Seq<char>)
    requires
        a != b,
    ensures
        part_lt(a, b) <==> component_before(a, b),
{
    law_texts_are_in_dictionary_order(a, b);
    assert(seq!['/'] != seq!['.']) by {
        assert(seq!['/'][0] != seq!['.'][0]);
    }
    assert(seq!['/'].len() == 1 && seq!['.'].len() == 1 && seq!['.', '.'].len() == 2);
}

/// Paths are ordered component by component, a folder before what lies in it.
pub proof fn law_paths_are_ordered_by_component(a: Seq<Seq<char>>, b: Seq<Seq<char>>)
    ensures
        path_lt(a, b) <==> exists|k: int| path_before_at(a, b, k),
    decreases a.len(),
{
    if b.len() == 0 {
    } else if a.len() == 0 {
        assert(path_before_at(a, b, 0));
    } else if a[0] == b[0] {
        let x = a.drop_first();
        let y = b.drop_first();
        law_paths_are_ordered_by_component(x, y);
        if path_lt(a, b) {
            let k = choose|k: int| path_before_at(x, y, k);
            assert forall|j: int| 0 <= j < k + 1 implies a[j] == b[j] by {
                if j > 0 {
                    assert(x[j - 1] == y[j - 1]);
                }
            }
            assert(k < x.len() ==> x[k] == a[k + 1]);
            assert(y[k] == b[k + 1]);
            assert(path_before_at(a, b, k + 1));
        }
        if exists|k: int| path_before_at(a, b, k) {
            let k = choose|k: int| path_before_at(a, b, k);
            assert(k > 0);
            assert forall|j: int| 0 <= j < k - 1 implies x[j] == y[j] by {
                assert(a[j + 1] == b[j + 1]);
            }
            assert(path_before_at(x, y, k - 1));
        }
    } else {
        lemma_components(a[0], b[0]);
        if path_lt(a, b) {
            assert(path_before_at(a, b, 0));
        }
        if exists|k: int| path_before_at(a, b, k) {
            let k = choose|k: int| path_before_at(a, b, k);
            if k > 0 {
                assert(a[0] == b[0]);
            }
        }
    }
}

/// Components that can stand one behind the other: not empty, without a separator
/// and not `.`.
pub open spec fn are_plain(parts: Seq<Seq<char>>) -> bool {
    forall|i: int|
        0 <= i < parts.len() ==> (#[trigger] parts[i]).len() > 0 && !parts[i].contains('/')
            && parts[i] != seq!['.']
}

proof fn lemma_slashed_in_two(first: Seq<Seq<char>>, second: Seq<Seq<char>>)
    requires
        first.len() > 0,
        second.len() > 0,
    ensures
        slashed(first + second) == slashed(first) + seq!['/'] + slashed(second),
    decreases second.len(),
{
    let all = first + second;
    let front = second.drop_last();
    assert(all.drop_last() =~= first + front);
    assert(all.last() == second.last());
    if second.len() == 1 {
        assert(first + front =~= first);
        assert(second.last() == second[0]);
    } else {
        lemma_slashed_in_two(first, front);
        assert(slashed(all) =~= slashed(first) + seq!['/'] + slashed(second));
    }
}

proof fn lemma_piece_of_plain(name: Seq<char>)
    requires
        !name.contains('/'),
    ensures
        piece_len(name) == name.len(),
    decreases name.len(),
{
    if name.len() > 0 {
        assert(name.contains(name[0]));
        let rest = name.drop_first();
        assert(!rest.contains('/')) by {
            if rest.contains('/') {
                let i = choose|i: int| 0 <= i < rest.len() && rest[i] == '/';
                assert(name[i + 1] == '/');
            }
        }
        lemma_piece_of_plain(rest);
    }
}

proof fn lemma_end_of_parts(parts: Seq<Seq<char>>, first: bool, k: int)
    requires
        are_plain(parts),
        0 <= k <= parts.len(),
    ensures
        split_end(slashed(parts), first, k) == slashed(parts.take(k)).len(),
    decreases parts.len(),
{
    let s = slashed(parts);
    if k == 0 {
        assert(parts.take(k) =~= Seq::empty());
    } else {
        let name = parts[0];
        let rest = parts.drop_first();
        assert(are_plain(rest)) by {
            assert forall|i: int| 0 <= i < rest.len() implies (#[trigger] rest[i]).len() > 0
                && !rest[i].contains('/') && rest[i] != seq!['.'] by {
                assert(rest[i] == parts[i + 1]);
            }
        }
        lemma_piece_of_plain(name);
        let n = name.len() as int;
        if parts.len() == 1 {
            assert(parts.take(k) =~= parts);
            assert(s.take(n) =~= name);
        } else {
            lemma_slashed_in_two(seq![name], rest);
            assert(seq![name] + rest =~= parts);
            assert(s =~= name + seq!['/'] + slashed(rest));
            lemma_piece_before(name, slashed(rest));
            assert(s.take(n) =~= name);
            assert(s.skip(n + 1) =~= slashed(rest));
            assert(s.len() > n);
            if k == 1 {
                assert(parts.take(k) =~= seq![name]);
            } else {
                lemma_end_of_parts(rest, false, k - 1);
                assert(parts.take(k) =~= seq![name] + rest.take(k - 1));
                lemma_slashed_in_two(seq![name], rest.take(k - 1));
            }
        }
    }
}

proof fn lemma_begins_plain(parts: Seq<Seq<char>>)
    requires
        are_plain(parts),
        parts.len() > 0,
    ensures
        slashed(parts).len() > 0,
        slashed(parts)[0] != '/',
        slashed(parts).last() != '/',
    decreases parts.len(),
{
    let name = parts.last();
    assert(name == parts[parts.len() - 1]);
    assert(name.contains(name[0]) && name.contains(name[name.len() - 1]));
    if parts.len() > 1 {
        let front = parts.drop_last();
        assert forall|i: int| 0 <= i < front.len() implies (#[trigger] front[i]).len() > 0
            && !front[i].contains('/') && front[i] != seq!['.'] by {
            assert(front[i] == parts[i]);
        }
        lemma_begins_plain(front);
        assert(slashed(parts)[0] == slashed(front)[0]);
        assert(slashed(parts).last() == name.last());
    }
}

proof fn lemma_heads(parts: Seq<Seq<char>>, k: int)
    requires
        are_plain(parts),
        0 <= k <= parts.len(),
    ensures
        parts_end(slashed(parts), k) == slashed(parts.take(k)).len(),
        head_text(slashed(parts), k) == slashed(parts.take(k)),
        k < parts.len() ==> slashed(parts).skip(
            parts_end(slashed(parts), k + 1) - parts[k].len(),
        ) == slashed(parts.skip(k)),
        k < parts.len() ==> 0 <= parts_end(slashed(parts), k + 1) - parts[k].len()
            <= slashed(parts).len(),
        parts_end(slashed(parts), parts.len() as int) == slashed(parts).len(),
{
    let s = slashed(parts);
    let n = parts.len() as int;
    if n > 0 {
        lemma_begins_plain(parts);
    }
    lemma_end_of_parts(parts, true, k);
    lemma_end_of_parts(parts, true, n);
    assert(parts.take(n) =~= parts);
    let head = parts.take(k);
    let rest = parts.skip(k);
    assert(head + rest =~= parts);
    if k == 0 {
        assert(s.take(0) =~= Seq::empty());
        assert(rest =~= parts);
    } else if k == n {
        assert(head =~= parts);
        assert(s.take(s.len() as int) =~= s);
    } else {
        lemma_slashed_in_two(head, rest);
        assert(s.take(slashed(head).len() as int) =~= slashed(head));
    }
    if k < n {
        lemma_end_of_parts(parts, true, k + 1);
        let more = parts.take(k + 1);
        assert(more.drop_last() =~= head);
        assert(more.last() == parts[k]);
        if k == 0 {
            assert(more =~= seq![parts[0]]);
            assert(s.skip(0) =~= s);
        } else {
            assert(slashed(more).len() == slashed(head).len() + 1 + parts[k].len());
            assert(s.skip(slashed(head).len() as int + 1) =~= slashed(rest));
        }
    }
}

/// The text of a parent is what stands before the last separator; the text of a
/// path as seen from a folder is what stands behind the folder.
pub proof fn law_parts_of_paths_are_parts_of_texts(parts: Seq<Seq<char>>, k: int)
    requires
        are_plain(parts),
        0 <= k <= parts.len(),
    ensures
        parts.len() > 0 ==> parent_text(slashed(parts)) == Some(slashed(parts.drop_last())),
        relative_text(slashed(parts), k) == slashed(parts.skip(k)),
{
    let s = slashed(parts);
    let n = parts.len() as int;
    law_components_are_read_back(parts);
    lemma_heads(parts, k);
    lemma_heads(parts, n);
    assert(parts.take(n) =~= parts);
    if n > 0 {
        lemma_heads(parts, n - 1);
        assert(parts.take(n - 1) =~= parts.drop_last());
        assert(parts[n - 1] != seq!['/']) by {
            assert(seq!['/'][0] == '/');
            assert(seq!['/'].contains('/'));
        }
    }
    if k == 0 {
        assert(parts.skip(0) =~= parts);
    } else if k == n {
        assert(parts.skip(n) =~= Seq::empty());
    } else {
        let from = parts_end(s, k + 1) - parts[k].len();
        assert(s.subrange(from, s.len() as int) =~= s.skip(from));
    }
}

/// A name in a folder stands behind its path and a separator. Another extension
/// replaces what follows the last dot of the text.
pub proof fn law_names_stand_behind_their_folder(
    folder: Seq<Seq<char>>,
    name: Seq<char>,
    stem: Seq<char>,
    old_extension: Seq<char>,
    extension: Seq<char>,
)
    requires
        are_plain(folder),
        is_file_name(name),
        is_file_name(dotted(stem, old_extension)),
        stem.len() > 0,
        !old_extension.contains('.'),
        extension.len() > 0,
    ensures
        joined_text(slashed(folder), name) == slashed(folder.push(name)),
        joined_text(slashed(folder) + seq!['/'], name) == slashed(folder) + seq!['/'] + name,
        with_extension_text(slashed(folder.push(dotted(stem, old_extension))), extension) == slashed(
            folder.push(dotted(stem, extension)),
        ),
{
    reveal_strlit(".");
    assert("."@ =~= seq!['.']);
    let n = folder.len() as int;
    assert(folder.push(name).drop_last() =~= folder);
    assert(folder.push(name).last() == name);
    if n > 0 {
        lemma_begins_plain(folder);
    } else {
        assert(Seq::<char>::empty() + name =~= name);
    }
    let old_name = dotted(stem, old_extension);
    let parts = folder.push(old_name);
    assert(are_plain(parts)) by {
        assert forall|i: int| 0 <= i < parts.len() implies (#[trigger] parts[i]).len() > 0
            && !parts[i].contains('/') && parts[i] != seq!['.'] by {
            if i < n {
                assert(parts[i] == folder[i]);
            }
        }
    }
    law_components_are_read_back(parts);
    lemma_names_are_names(folder, old_name);
    law_names_part_at_the_last_dot(stem, old_extension);
    lemma_heads(parts, n);
    lemma_heads(parts, n + 1);
    let s = slashed(parts);
    assert(parts.take(n + 1) =~= parts);
    assert(parts.drop_last() =~= folder);
    assert(parts.last() == old_name);
    let from = s.len() - old_name.len();
    let changed = folder.push(dotted(stem, extension));
    assert(changed.drop_last() =~= folder);
    assert(changed.last() == dotted(stem, extension));
    if n > 0 {
        assert(s =~= slashed(folder) + seq!['/'] + old_name);
        assert(s.take(from) =~= slashed(folder) + seq!['/']);
    } else {
        assert(s =~= old_name);
        assert(s.take(from) =~= Seq::empty());
    }
    assert(with_extension_text(s, extension) =~= slashed(changed));
}

} // verus!
