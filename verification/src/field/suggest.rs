//! Suggestions by edit distance.

use vstd::prelude::*;

use crate::text::chars_of;

verus! {

/// The smaller of two numbers.
pub open spec fn least(a: nat, b: nat) -> nat {
    if a <= b {
        a
    } else {
        b
    }
}

/// One where the characters differ.
pub open spec fn substitution_cost(a: char, b: char) -> nat {
    if a == b {
        0
    } else {
        1
    }
}

/// The Levenshtein distance of `a` and `b`.
pub open spec fn distance(a: Seq<char>, b: Seq<char>) -> nat
    decreases a.len() + b.len(),
{
    if a.len() == 0 {
        b.len()
    } else if b.len() == 0 {
        a.len()
    } else {
        least(
            least(distance(a.drop_last(), b) + 1, distance(a, b.drop_last()) + 1),
            distance(a.drop_last(), b.drop_last()) + substitution_cost(a.last(), b.last()),
        )
    }
}

/// `b` is `a` with one character inserted, deleted or replaced.
pub open spec fn one_edit(a: Seq<char>, b: Seq<char>) -> bool {
    ||| exists|i: int| 0 <= i < a.len() && b == #[trigger] a.remove(i)
    ||| exists|i: int| 0 <= i < b.len() && a == #[trigger] b.remove(i)
    ||| exists|i: int, c: char| 0 <= i < a.len() && b == #[trigger] a.update(i, c)
}

/// `steps` leads from `a` to `b`, one edit at a time.
pub open spec fn leads(steps: Seq<Seq<char>>, a: Seq<char>, b: Seq<char>) -> bool {
    &&& steps.len() > 0
    &&& steps[0] == a
    &&& steps.last() == b
    &&& forall|i: int|
        0 <= i < steps.len() - 1 ==> #[trigger] one_edit(steps[i], steps[i + 1])
}

proof fn lemma_distance_at_most_longer(a: Seq<char>, b: Seq<char>)
    ensures
        distance(a, b) <= a.len() || distance(a, b) <= b.len(),
    decreases a.len() + b.len(),
{
    if a.len() > 0 && b.len() > 0 {
        lemma_distance_at_most_longer(a.drop_last(), b.drop_last());
    }
}

proof fn lemma_length_gap(a: Seq<char>, b: Seq<char>)
    ensures
        a.len() <= b.len() + distance(a, b),
        b.len() <= a.len() + distance(a, b),
    decreases a.len() + b.len(),
{
    if a.len() > 0 && b.len() > 0 {
        lemma_length_gap(a.drop_last(), b);
        lemma_length_gap(a, b.drop_last());
        lemma_length_gap(a.drop_last(), b.drop_last());
    }
}

/// The distance is the same in both directions.
pub proof fn law_distance_symmetric(a: Seq<char>, b: Seq<char>)
    ensures
        distance(a, b) == distance(b, a),
    decreases a.len() + b.len(),
{
    if a.len() > 0 && b.len() > 0 {
        law_distance_symmetric(a.drop_last(), b);
        law_distance_symmetric(a, b.drop_last());
        law_distance_symmetric(a.drop_last(), b.drop_last());
    }
}

/// The distance is zero for equal texts and for no others.
pub proof fn law_distance_zero(a: Seq<char>, b: Seq<char>)
    ensures
        distance(a, b) == 0 <==> a == b,
    decreases a.len() + b.len(),
{
    if a.len() == 0 || b.len() == 0 {
        if distance(a, b) == 0 {
            assert(a =~= b);
        }
    } else {
        law_distance_zero(a.drop_last(), b.drop_last());
        if a.drop_last() == b.drop_last() && a.last() == b.last() {
            assert(a =~= a.drop_last().push(a.last()));
            assert(b =~= b.drop_last().push(b.last()));
        }
    }
}

/// A detour over a third text is never shorter.
pub proof fn law_distance_triangle(a: Seq<char>, b: Seq<char>, c: Seq<char>)
    ensures
        distance(a, c) <= distance(a, b) + distance(b, c),
    decreases a.len() + b.len() + c.len(),
{
    if a.len() == 0 || c.len() == 0 {
        lemma_length_gap(a, b);
        lemma_length_gap(b, c);
    } else if b.len() == 0 {
        lemma_distance_at_most_longer(a, c);
    } else {
        let x = a.drop_last();
        let y = b.drop_last();
        let z = c.drop_last();
        law_distance_triangle(x, b, c);
        law_distance_triangle(a, b, z);
        law_distance_triangle(a, y, c);
        law_distance_triangle(a, y, z);
        law_distance_triangle(x, y, c);
        law_distance_triangle(x, y, z);
    }
}

proof fn lemma_common_end(a: Seq<char>, b: Seq<char>, end: Seq<char>)
    ensures
        distance(a + end, b + end) <= distance(a, b),
    decreases end.len(),
{
    if end.len() == 0 {
        assert(a + end =~= a);
        assert(b + end =~= b);
    } else {
        lemma_common_end(a, b, end.drop_last());
        assert((a + end).drop_last() =~= a + end.drop_last());
        assert((b + end).drop_last() =~= b + end.drop_last());
    }
}

proof fn lemma_one_edit_distance(a: Seq<char>, b: Seq<char>)
    requires
        one_edit(a, b),
    ensures
        distance(a, b) <= 1,
{
    if exists|i: int| 0 <= i < a.len() && b == #[trigger] a.remove(i) {
        let i = choose|i: int| 0 <= i < a.len() && b == #[trigger] a.remove(i);
        lemma_removal(a, i);
    } else if exists|i: int| 0 <= i < b.len() && a == #[trigger] b.remove(i) {
        let i = choose|i: int| 0 <= i < b.len() && a == #[trigger] b.remove(i);
        lemma_removal(b, i);
        law_distance_symmetric(a, b);
    } else {
        let (i, c) = choose|i: int, c: char| 0 <= i < a.len() && b == #[trigger] a.update(i, c);
        let head = a.take(i);
        let end = a.skip(i + 1);
        let p = head.push(a[i]);
        let q = head.push(c);
        assert(p.drop_last() =~= head && q.drop_last() =~= head);
        law_distance_zero(head, head);
        assert(a =~= p + end);
        assert(b =~= q + end);
        lemma_common_end(p, q, end);
    }
}

proof fn lemma_removal(a: Seq<char>, i: int)
    requires
        0 <= i < a.len(),
    ensures
        distance(a, a.remove(i)) <= 1,
{
    let head = a.take(i);
    let end = a.skip(i + 1);
    let p = head.push(a[i]);
    assert(p.drop_last() =~= head);
    law_distance_zero(head, head);
    assert(distance(p, head) <= 1);
    assert(a =~= p + end);
    assert(a.remove(i) =~= head + end);
    lemma_common_end(p, head, end);
}

/// No series of edits from `a` to `b` is shorter than their distance.
pub proof fn law_no_fewer_edits(steps: Seq<Seq<char>>, a: Seq<char>, b: Seq<char>)
    requires
        leads(steps, a, b),
    ensures
        distance(a, b) <= steps.len() - 1,
    decreases steps.len(),
{
    if steps.len() == 1 {
        law_distance_zero(a, b);
    } else {
        let front = steps.drop_last();
        let mid = front.last();
        assert forall|i: int| 0 <= i < front.len() - 1 implies #[trigger] one_edit(
            front[i],
            front[i + 1],
        ) by {
            assert(one_edit(steps[i], steps[i + 1]));
        }
        law_no_fewer_edits(front, a, mid);
        assert(one_edit(steps[steps.len() - 2], steps[steps.len() - 2 + 1]));
        lemma_one_edit_distance(mid, b);
        law_distance_triangle(a, mid, b);
    }
}

proof fn lemma_extend(steps: Seq<Seq<char>>, a: Seq<char>, b: Seq<char>, c: Seq<char>)
    requires
        leads(steps, a, b),
        one_edit(b, c),
    ensures
        leads(steps.push(c), a, c),
{
    let more = steps.push(c);
    assert forall|i: int| 0 <= i < more.len() - 1 implies #[trigger] one_edit(
        more[i],
        more[i + 1],
    ) by {
        if i < steps.len() - 1 {
            assert(one_edit(steps[i], steps[i + 1]));
        }
    }
}

proof fn lemma_one_edit_push(a: Seq<char>, b: Seq<char>, c: char)
    requires
        one_edit(a, b),
    ensures
        one_edit(a.push(c), b.push(c)),
{
    if exists|i: int| 0 <= i < a.len() && b == #[trigger] a.remove(i) {
        let i = choose|i: int| 0 <= i < a.len() && b == #[trigger] a.remove(i);
        assert(b.push(c) =~= a.push(c).remove(i));
    } else if exists|i: int| 0 <= i < b.len() && a == #[trigger] b.remove(i) {
        let i = choose|i: int| 0 <= i < b.len() && a == #[trigger] b.remove(i);
        assert(a.push(c) =~= b.push(c).remove(i));
    } else {
        let (i, d) = choose|i: int, d: char| 0 <= i < a.len() && b == #[trigger] a.update(i, d);
        assert(b.push(c) =~= a.push(c).update(i, d));
    }
}

/// As many edits as the distance suffice to lead from `a` to `b`.
pub proof fn law_edits_suffice(a: Seq<char>, b: Seq<char>) -> (steps: Seq<Seq<char>>)
    ensures
        leads(steps, a, b),
        steps.len() == distance(a, b) + 1,
    decreases a.len() + b.len(),
{
    if a.len() == 0 && b.len() == 0 {
        assert(a =~= b);
        seq![a]
    } else if a.len() > 0 && (b.len() == 0 || distance(a, b) == distance(a.drop_last(), b) + 1) {
        let x = a.drop_last();
        assert(a.remove(a.len() - 1) =~= x);
        assert(one_edit(a, x));
        let rest = law_edits_suffice(x, b);
        let steps = seq![a] + rest;
        assert forall|i: int| 0 <= i < steps.len() - 1 implies #[trigger] one_edit(
            steps[i],
            steps[i + 1],
        ) by {
            if i > 0 {
                assert(one_edit(rest[i - 1], rest[i - 1 + 1]));
            }
        }
        assert(steps.last() == rest.last());
        steps
    } else if b.len() > 0 && (a.len() == 0 || distance(a, b) == distance(a, b.drop_last()) + 1) {
        let y = b.drop_last();
        assert(b.remove(b.len() - 1) =~= y);
        assert(one_edit(y, b));
        let rest = law_edits_suffice(a, y);
        lemma_extend(rest, a, y, b);
        rest.push(b)
    } else {
        let x = a.drop_last();
        let y = b.drop_last();
        let c = a.last();
        let rest = law_edits_suffice(x, y);
        let lifted = Seq::new(rest.len(), |i: int| rest[i].push(c));
        assert forall|i: int| 0 <= i < lifted.len() - 1 implies #[trigger] one_edit(
            lifted[i],
            lifted[i + 1],
        ) by {
            assert(one_edit(rest[i], rest[i + 1]));
            lemma_one_edit_push(rest[i], rest[i + 1], c);
        }
        assert(lifted[0] =~= a);
        assert(lifted.last() =~= y.push(c));
        if c == b.last() {
            assert(y.push(c) =~= b);
            lifted
        } else {
            assert(b =~= y.push(c).update(y.len() as int, b.last()));
            assert(one_edit(y.push(c), b));
            lemma_extend(lifted, a, y.push(c), b);
            lifted.push(b)
        }
    }
}

fn plus_one(n: usize) -> (m: usize)
    ensures
        m == if n == usize::MAX {
            n as int
        } else {
            n + 1
        },
{
    if n == usize::MAX {
        n
    } else {
        n + 1
    }
}

/// One row of distances from the row above it: `row` holds the distances of
/// the first `i` characters of `a` to each front of `b`.
fn next_row(a: &Vec<char>, b: &Vec<char>, i: usize, row: &Vec<usize>) -> (next: Vec<usize>)
    requires
        i < a@.len(),
        row@.len() == b@.len() + 1,
        forall|j: int|
            0 <= j <= b@.len() ==> (#[trigger] row@[j]) == distance(a@.take(i as int), b@.take(j)),
    ensures
        next@.len() == b@.len() + 1,
        forall|j: int|
            0 <= j <= b@.len() ==> (#[trigger] next@[j]) == distance(a@.take(i + 1), b@.take(j)),
{
    let ghost above = a@.take(i as int);
    let ghost here = a@.take(i + 1);
    let mut next: Vec<usize> = Vec::new();
    let height: usize = a.len();
    let width: usize = b.len();
    assert(height == a@.len() && width == b@.len());
    next.push(i + 1);
    proof {
        assert(b@.take(0).len() == 0);
        assert(here.drop_last() =~= above);
        assert(here.last() == a@[i as int]);
    }
    let mut j: usize = 0;
    while j < width
        invariant
            width == b@.len(),
            i < a@.len(),
            a@.len() <= usize::MAX,
            b@.len() <= usize::MAX,
            j <= b@.len(),
            row@.len() == b@.len() + 1,
            next@.len() == j + 1,
            above == a@.take(i as int),
            here == a@.take(i + 1),
            here.drop_last() == above,
            here.last() == a@[i as int],
            forall|k: int|
                0 <= k <= b@.len() ==> (#[trigger] row@[k]) == distance(above, b@.take(k)),
            forall|k: int| 0 <= k <= j ==> (#[trigger] next@[k]) == distance(here, b@.take(k)),
        decreases b@.len() - j,
    {
        let ghost front = b@.take(j + 1);
        proof {
            assert(front.drop_last() =~= b@.take(j as int));
            assert(front.last() == b@[j as int]);
            lemma_distance_at_most_longer(here, front);
        }
        let substitution: usize = if a[i] == b[j] {
            row[j]
        } else {
            plus_one(row[j])
        };
        let deletion = plus_one(row[j + 1]);
        let insertion = plus_one(next[j]);
        let mut best: usize = deletion;
        if insertion < best {
            best = insertion;
        }
        if substitution < best {
            best = substitution;
        }
        next.push(best);
        j = j + 1;
    }
    next
}

/// The least number of insertions, deletions and substitutions of single
/// characters that turn `a` into `b`.
pub fn edit_distance(a: &str, b: &str) -> (edits: usize)
    ensures
        edits == distance(a@, b@),
{
    let a_chars = chars_of(a);
    let b_chars = chars_of(b);
    let width: usize = b_chars.len();
    let mut row: Vec<usize> = Vec::new();
    let mut j: usize = 0;
    while j < width
        invariant
            j <= width,
            row@.len() == j,
            forall|k: int| 0 <= k < j ==> (#[trigger] row@[k]) == k,
        decreases width - j,
    {
        row.push(j);
        j = j + 1;
    }
    row.push(width);
    let mut i: usize = 0;
    while i < a_chars.len()
        invariant
            i <= a_chars@.len(),
            width == b_chars@.len(),
            row@.len() == width + 1,
            forall|k: int|
                0 <= k <= width ==> (#[trigger] row@[k]) == distance(
                    a_chars@.take(i as int),
                    b_chars@.take(k),
                ),
        decreases a_chars@.len() - i,
    {
        row = next_row(&a_chars, &b_chars, i, &row);
        i = i + 1;
    }
    assert(a_chars@.take(i as int) =~= a@);
    assert(b_chars@.take(width as int) =~= b@);
    row[width]
}

/// How far a candidate may be from an input of `len` characters: half of
/// them, rounded up, and at least one.
pub open spec fn tolerance(len: nat) -> nat {
    if len <= 2 {
        1
    } else {
        (len + 1) / 2
    }
}

/// The characters of each candidate.
pub open spec fn candidate_texts(candidates: Seq<&str>) -> Seq<Seq<char>> {
    Seq::new(candidates.len(), |i: int| candidates[i]@)
}

/// `best` is the first of the nearest among `candidates`.
pub open spec fn is_first_nearest(candidates: Seq<Seq<char>>, input: Seq<char>, best: int) -> bool {
    &&& 0 <= best < candidates.len()
    &&& forall|i: int|
        0 <= i < candidates.len() ==> distance(input, candidates[best]) <= distance(
            input,
            #[trigger] candidates[i],
        )
    &&& forall|i: int|
        0 <= i < best ==> distance(input, candidates[best]) < distance(
            input,
            #[trigger] candidates[i],
        )
}

/// `found` is the candidate that is suggested for `input`: the first of the
/// nearest, unless it is too far away.
pub open spec fn is_suggestion(
    candidates: Seq<Seq<char>>,
    input: Seq<char>,
    found: Option<int>,
) -> bool {
    match found {
        Some(best) => {
            &&& is_first_nearest(candidates, input, best)
            &&& distance(input, candidates[best]) <= tolerance(input.len())
        },
        None => forall|i: int|
            0 <= i < candidates.len() ==> distance(input, #[trigger] candidates[i]) > tolerance(
                input.len(),
            ),
    }
}

/// There is never a choice between two suggestions.
pub proof fn law_suggestion_is_unique(
    candidates: Seq<Seq<char>>,
    input: Seq<char>,
    a: Option<int>,
    b: Option<int>,
)
    requires
        is_suggestion(candidates, input, a),
        is_suggestion(candidates, input, b),
    ensures
        a == b,
{
    match (a, b) {
        (Some(x), Some(y)) => {
            assert(distance(input, candidates[x]) <= distance(input, candidates[y]));
            assert(distance(input, candidates[y]) <= distance(input, candidates[x]));
        },
        (Some(x), None) => {
            assert(distance(input, candidates[x]) > tolerance(input.len()));
        },
        (None, Some(y)) => {
            assert(distance(input, candidates[y]) > tolerance(input.len()));
        },
        (None, None) => {},
    }
}

/// The position of the candidate nearest to `input`, the first of several,
/// unless it is too far away.
pub fn closest_match(candidates: &[&str], input: &str) -> (found: Option<usize>)
    ensures
        is_suggestion(
            candidate_texts(candidates@),
            input@,
            match found {
                Some(best) => Some(best as int),
                None => None,
            },
        ),
        match found {
            Some(best) => best < candidates@.len(),
            None => true,
        },
{
    let ghost texts = candidate_texts(candidates@);
    let len: usize = chars_of(input).len();
    let threshold: usize = if len <= 2 {
        1
    } else {
        len / 2 + len % 2
    };
    assert(threshold == tolerance(input@.len()));
    if candidates.len() == 0 {
        return None;
    }
    let mut best: usize = 0;
    let mut best_edits = edit_distance(input, candidates[0]);
    let mut i: usize = 1;
    while i < candidates.len()
        invariant
            texts == candidate_texts(candidates@),
            1 <= i <= candidates@.len(),
            best < i,
            best_edits == distance(input@, texts[best as int]),
            forall|k: int| 0 <= k < i ==> best_edits <= distance(input@, #[trigger] texts[k]),
            forall|k: int| 0 <= k < best ==> best_edits < distance(input@, #[trigger] texts[k]),
        decreases candidates@.len() - i,
    {
        let edits = edit_distance(input, candidates[i]);
        assert(texts[i as int] == candidates@[i as int]@);
        if edits < best_edits {
            best = i;
            best_edits = edits;
        }
        i = i + 1;
    }
    if best_edits <= threshold {
        Some(best)
    } else {
        None
    }
}

} // verus!
