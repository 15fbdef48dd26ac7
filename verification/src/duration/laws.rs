//! Laws that relate writing durations to reading them.

use vstd::arithmetic::power2::{lemma2_to64, lemma_pow2_strictly_increases, pow2};
use vstd::prelude::*;

use super::digits::{digits_value, double_limit, lemma_decimal_value};
use super::grammar::{
    duration_read, in_class, is_number, is_sign, lemma_part_within, lemma_run_len, lemma_run_stops,
    lemma_run_within, lemma_unsigned_within, number_read, part_read, prefix_read, read_parts,
    read_prefix, run_len, starts_number, starts_part, unsigned_len, CharClass, DurationRead, NumberRead,
    PartRead, PartView, PrefixRead,
};
use super::unit::{lemma_short_spellings, unit_millis, unit_spelled, DurationUnit};
use super::value::{written_duration, written_parts, written_suffix, written_unit};
use crate::text::{
    all_digits, ascii_lowered, decimal, is_ascii_space, is_digit, is_letter, is_space, trimmed, trimmed_end, trimmed_start,
};

verus! {

/// The parts that [`written_parts`] writes.
pub open spec fn written_views(millis: nat, k: int) -> Seq<PartView>
    decreases 6 - k,
{
    if k >= 6 {
        Seq::empty()
    } else {
        let each = unit_millis(written_unit(k));
        if millis >= each {
            seq![PartView { number: decimal(millis / each), unit: written_unit(k) }]
                + written_views(millis % each, k + 1)
        } else {
            written_views(millis, k + 1)
        }
    }
}

/// The total of parts whose numbers are whole, in milliseconds.
pub open spec fn whole_millis(parts: Seq<PartView>) -> int
    decreases parts.len(),
{
    if parts.len() == 0 {
        0
    } else {
        digits_value(parts[0].number) * unit_millis(parts[0].unit) + whole_millis(
            parts.drop_first(),
        )
    }
}

/// Every part has a whole number.
pub open spec fn all_whole(parts: Seq<PartView>) -> bool {
    forall|i: int| 0 <= i < parts.len() ==> all_digits((#[trigger] parts[i]).number)
}

proof fn lemma_suffixes(k: int)
    requires
        0 <= k < 6,
    ensures
        unit_spelled(written_suffix(k)) == Some(written_unit(k)),
        written_suffix(k).len() > 0,
        forall|i: int|
            0 <= i < written_suffix(k).len() ==> in_class(
                #[trigger] written_suffix(k)[i],
                CharClass::Letter,
            ),
        !is_digit(written_suffix(k)[0]),
        written_suffix(k)[0] != '.',
        !in_class(written_suffix(k)[0], CharClass::Space),
        !is_space(written_suffix(k).last()),
{
    lemma_short_spellings();
    reveal_strlit("w");
    reveal_strlit("d");
    reveal_strlit("h");
    reveal_strlit("m");
    reveal_strlit("s");
    reveal_strlit("ms");
}

proof fn lemma_fits_double(n: nat)
    requires
        n <= u64::MAX,
    ensures
        n < double_limit(),
{
    lemma2_to64();
    lemma_pow2_strictly_increases(20, 970);
    assert(pow2(20) >= 1024);
    assert(double_limit() >= 18014398509481983 * 1025);
}

/// A count with a short unit reads as one part.
#[verifier::rlimit(40)]
proof fn lemma_reads_part(count: nat, k: int, tail: Seq<char>)
    requires
        count <= u64::MAX,
        0 <= k < 6,
        tail.len() == 0 || tail[0] == ' ',
    ensures
        ({
            let s = decimal(count) + written_suffix(k) + tail;
            let len = decimal(count).len() + written_suffix(k).len();
            let part = PartView { number: decimal(count), unit: written_unit(k) };
            &&& part_read(s) == PartRead::Part { negative: false, part, len }
            &&& part_read(seq!['-'] + s) == PartRead::Part { negative: true, part, len: len + 1 }
        }),
{
    let number = decimal(count);
    let suffix = written_suffix(k);
    let none = Seq::<char>::empty();
    lemma_decimal_value(count);
    lemma_suffixes(k);
    lemma_part_text(number, None, none, suffix, tail);
    assert(part_text(number, none, suffix) =~= number + suffix);
}

/// Reading goes on behind a part that was accepted.
proof fn lemma_read_step(
    s: Seq<char>,
    gap: int,
    negative: bool,
    before: Seq<PartView>,
    minus: bool,
    part: PartView,
    len: nat,
)
    requires
        run_len(s, CharClass::Separator) == gap,
        gap < s.len(),
        part_read(s.skip(gap)) == (PartRead::Part { negative: minus, part, len }),
        !minus || before.len() == 0,
    ensures
        read_parts(s, negative, before) == read_parts(
            s.skip(gap).skip(len as int),
            negative || minus,
            before.push(part),
        ),
{
}

/// One part that follows others is read, and what comes after it is next.
proof fn lemma_spaced_step(
    count: nat,
    k: int,
    tail: Seq<char>,
    negative: bool,
    before: Seq<PartView>,
)
    requires
        count <= u64::MAX,
        0 <= k < 6,
        tail.len() == 0 || tail[0] == ' ',
    ensures
        read_parts(" "@ + decimal(count) + written_suffix(k) + tail, negative, before)
            == read_parts(
            tail,
            negative,
            before.push(PartView { number: decimal(count), unit: written_unit(k) }),
        ),
{
    let t = " "@ + decimal(count) + written_suffix(k) + tail;
    let body = decimal(count) + written_suffix(k) + tail;
    let part = PartView { number: decimal(count), unit: written_unit(k) };
    let len = decimal(count).len() + written_suffix(k).len();
    reveal_strlit(" ");
    lemma_decimal_value(count);
    assert(t[0] == ' ');
    assert(t[1] == decimal(count)[0]);
    assert(is_digit(decimal(count)[0]));
    lemma_run_len(t, CharClass::Separator, 1);
    assert(t.skip(1) =~= body);
    lemma_reads_part(count, k, tail);
    assert(body.skip(len as int) =~= tail);
    lemma_read_step(t, 1, negative, before, false, part, len);
}

/// The first part is read with its sign, and what comes after it is next.
proof fn lemma_first_step(count: nat, k: int, tail: Seq<char>, negative: bool)
    requires
        count <= u64::MAX,
        0 <= k < 6,
        tail.len() == 0 || tail[0] == ' ',
    ensures
        ({
            let body = decimal(count) + written_suffix(k) + tail;
            let part = PartView { number: decimal(count), unit: written_unit(k) };
            let s = if negative {
                seq!['-'] + body
            } else {
                body
            };
            &&& body.len() > 0
            &&& is_digit(body[0])
            &&& read_parts(s, false, Seq::empty()) == read_parts(
                tail,
                negative,
                Seq::<PartView>::empty().push(part),
            )
        }),
{
    let body = decimal(count) + written_suffix(k) + tail;
    let part = PartView { number: decimal(count), unit: written_unit(k) };
    let len = decimal(count).len() + written_suffix(k).len();
    let s = if negative {
        seq!['-'] + body
    } else {
        body
    };
    lemma_decimal_value(count);
    assert(body[0] == decimal(count)[0] && is_digit(decimal(count)[0]));
    lemma_run_len(s, CharClass::Separator, 0);
    assert(s.skip(0) =~= s);
    lemma_reads_part(count, k, tail);
    if negative {
        assert(s.skip((len + 1) as int) =~= tail);
        lemma_read_step(s, 0, false, Seq::empty(), true, part, len + 1);
    } else {
        assert(s.skip(len as int) =~= tail);
        lemma_read_step(s, 0, false, Seq::empty(), false, part, len);
    }
}

/// What is written from the `k`-th unit on reads back as parts that follow
/// those before.
proof fn lemma_reads_parts(
    millis: nat,
    k: int,
    negative: bool,
    before: Seq<PartView>,
)
    requires
        millis <= u64::MAX,
        0 <= k <= 6,
    ensures
        read_parts(written_parts(millis, k, true), negative, before) == (DurationRead::Duration {
            negative,
            parts: before + written_views(millis, k),
        }),
    decreases 6 - k,
{
    let t = written_parts(millis, k, true);
    if k >= 6 {
        assert(t.skip(0) =~= t);
        assert(before + written_views(millis, k) =~= before);
    } else {
        let each = unit_millis(written_unit(k));
        if millis >= each {
            let count = millis / each;
            let rest_millis = millis % each;
            lemma_quotient(millis, each);
            let tail = written_parts(rest_millis, k + 1, true);
            lemma_written_head(rest_millis, k + 1);
            lemma_spaced_step(count, k, tail, negative, before);
            let part = PartView { number: decimal(count), unit: written_unit(k) };
            lemma_reads_parts(rest_millis, k + 1, negative, before.push(part));
            assert(before.push(part) + written_views(rest_millis, k + 1) =~= before
                + written_views(millis, k));
        } else {
            lemma_reads_parts(millis, k + 1, negative, before);
        }
    }
}

proof fn lemma_quotient(millis: nat, each: nat)
    requires
        each >= 1,
    ensures
        millis / each <= millis,
        millis % each <= millis,
        millis == (millis / each) * each + millis % each,
        millis % each < each,
        millis >= each ==> millis / each >= 1,
{
    assert(millis / each <= millis && millis % each <= millis && millis == (millis / each) * each
        + millis % each && millis % each < each && (millis >= each ==> millis / each >= 1))
        by (nonlinear_arith)
        requires
            each >= 1,
            millis >= 0,
    ;
}

/// A continuation is empty or begins with a space.
proof fn lemma_written_head(millis: nat, k: int)
    requires
        0 <= k <= 6,
    ensures
        written_parts(millis, k, true).len() == 0 || written_parts(millis, k, true)[0] == ' ',
    decreases 6 - k,
{
    if k < 6 {
        let each = unit_millis(written_unit(k));
        if millis >= each {
            reveal_strlit(" ");
        } else {
            lemma_written_head(millis, k + 1);
        }
    }
}

/// What is written ends in a letter.
proof fn lemma_written_last(millis: nat, k: int, spaced: bool)
    requires
        0 <= k <= 6,
    ensures
        written_parts(millis, k, spaced).len() > 0 ==> !is_space(
            written_parts(millis, k, spaced).last(),
        ),
    decreases 6 - k,
{
    if k < 6 {
        let each = unit_millis(written_unit(k));
        if millis >= each {
            lemma_suffixes(k);
            lemma_written_last(millis % each, k + 1, true);
            let tail = written_parts(millis % each, k + 1, true);
            let t = written_parts(millis, k, spaced);
            if tail.len() > 0 {
                assert(t.last() == tail.last());
            } else {
                assert(t.last() == written_suffix(k).last());
            }
        } else {
            lemma_written_last(millis, k + 1, spaced);
        }
    }
}

/// The first unit that fits is read first, with its sign.
proof fn lemma_reads_first(millis: nat, k: int, negative: bool)
    requires
        0 < millis <= u64::MAX,
        0 <= k < 6,
    ensures
        ({
            let t = written_parts(millis, k, false);
            let s = if negative {
                seq!['-'] + t
            } else {
                t
            };
            &&& t.len() > 0
            &&& is_digit(t[0])
            &&& read_parts(s, false, Seq::empty()) == (DurationRead::Duration {
                negative,
                parts: written_views(millis, k),
            })
        }),
    decreases 6 - k,
{
    let each = unit_millis(written_unit(k));
    let t = written_parts(millis, k, false);
    let s = if negative {
        seq!['-'] + t
    } else {
        t
    };
    if millis >= each {
        let count = millis / each;
        let rest_millis = millis % each;
        lemma_quotient(millis, each);
        let tail = written_parts(rest_millis, k + 1, true);
        lemma_written_head(rest_millis, k + 1);
        lemma_first_step(count, k, tail, negative);
        assert(t =~= decimal(count) + written_suffix(k) + tail);
        let part = PartView { number: decimal(count), unit: written_unit(k) };
        lemma_reads_parts(rest_millis, k + 1, negative, Seq::<PartView>::empty().push(part));
        assert(Seq::<PartView>::empty().push(part) + written_views(rest_millis, k + 1)
            =~= written_views(millis, k));
    } else {
        lemma_reads_first(millis, k + 1, negative);
    }
}

/// The written parts are whole and add up.
proof fn lemma_written_total(millis: nat, k: int)
    requires
        millis <= u64::MAX,
        0 <= k <= 6,
        k == 6 ==> millis == 0,
    ensures
        all_whole(written_views(millis, k)),
        whole_millis(written_views(millis, k)) == millis,
    decreases 6 - k,
{
    if k < 6 {
        let each = unit_millis(written_unit(k));
        if millis >= each {
            lemma_quotient(millis, each);
            lemma_written_total(millis % each, k + 1);
            lemma_decimal_value(millis / each);
            let views = written_views(millis, k);
            assert(views.drop_first() =~= written_views(millis % each, k + 1));
            assert forall|i: int| 0 <= i < views.len() implies all_digits(
                (#[trigger] views[i]).number,
            ) by {
                if i > 0 {
                    assert(views[i] == views.drop_first()[i - 1]);
                }
            }
        } else {
            lemma_written_total(millis, k + 1);
        }
    }
}

proof fn lemma_trimmed_same(s: Seq<char>)
    requires
        s.len() > 0,
        !is_space(s[0]),
        !is_space(s.last()),
    ensures
        trimmed(s) == s,
{
}

/// A duration that was written out reads back with its sign, as parts with
/// whole numbers that add up to the same number of milliseconds.
pub proof fn law_written_duration_reads_back(negative: bool, millis: u64)
    ensures
        match duration_read(written_duration(negative, millis as nat)) {
            DurationRead::Fault(_) => false,
            DurationRead::Duration { negative: sign, parts } => {
                &&& sign == negative
                &&& all_whole(parts)
                &&& whole_millis(parts) == millis
                &&& millis > 0 ==> parts == written_views(millis as nat, 0)
            },
        },
{
    let n = millis as nat;
    let s = written_duration(negative, n);
    if n == 0 {
        reveal_strlit("0s");
        reveal_strlit("s");
        reveal_strlit("-");
        lemma_decimal_value(0);
        assert(decimal(0) =~= seq!['0']);
        lemma_first_step(0, 4, Seq::empty(), negative);
        let body = decimal(0) + written_suffix(4) + Seq::<char>::empty();
        assert("-"@ =~= seq!['-']);
        assert(body =~= "0s"@);
        lemma_trimmed_same(s);
        let part = PartView { number: decimal(0), unit: DurationUnit::Second };
        let parts = Seq::<PartView>::empty().push(part);
        let rest = Seq::<char>::empty();
        assert(rest.skip(0) =~= rest);
        assert(read_parts(rest, negative, parts) == DurationRead::Duration { negative, parts });
        assert(parts.drop_first() =~= Seq::empty());
        assert(whole_millis(parts.drop_first()) == 0);
    } else {
        reveal_strlit("-");
        lemma_reads_first(n, 0, negative);
        lemma_written_total(n, 0);
        lemma_written_last(n, 0, false);
        assert("-"@ =~= seq!['-']);
        let t = written_parts(n, 0, false);
        assert(s.last() == t.last());
        lemma_trimmed_same(s);
        if written_views(n, 0).len() == 0 {
            assert(whole_millis(written_views(n, 0)) == 0);
        }
    }
}

/// The run at the front of `t` ends where that of `s` does, if both agree up
/// to there and on what stops it.
proof fn lemma_same_run(s: Seq<char>, t: Seq<char>, class: CharClass)
    requires
        ({
            let n = run_len(s, class);
            &&& n <= t.len()
            &&& s.take(n as int) == t.take(n as int)
            &&& n < t.len() ==> !in_class(t[n as int], class)
        }),
    ensures
        run_len(t, class) == run_len(s, class),
{
    let n = run_len(s, class);
    lemma_run_within(s, class);
    assert forall|i: int| 0 <= i < n implies in_class(t[i], class) by {
        assert(s.take(n as int)[i] == t.take(n as int)[i]);
    }
    lemma_run_len(t, class, n as int);
}

/// The unsigned number at the front of `t` is that of `s`, if both agree on it
/// and on the character behind it.
proof fn lemma_same_unsigned(s: Seq<char>, t: Seq<char>)
    requires
        ({
            let n = unsigned_len(s);
            &&& n < s.len()
            &&& n < t.len()
            &&& s.take(n as int + 1) == t.take(n as int + 1)
        }),
    ensures
        unsigned_len(t) == unsigned_len(s),
{
    let n = unsigned_len(s);
    assert forall|i: int| 0 <= i <= n implies s[i] == t[i] by {
        assert(s.take(n as int + 1)[i] == t.take(n as int + 1)[i]);
    }
    let whole = run_len(s, CharClass::Digit);
    lemma_run_within(s, CharClass::Digit);
    lemma_run_stops(s, CharClass::Digit);
    assert(s.take(whole as int) =~= t.take(whole as int));
    lemma_same_run(s, t, CharClass::Digit);
    if s[whole as int] == '.' {
        let s2 = s.skip(whole as int + 1);
        let t2 = t.skip(whole as int + 1);
        let more = run_len(s2, CharClass::Digit);
        lemma_run_within(s2, CharClass::Digit);
        lemma_run_stops(s2, CharClass::Digit);
        assert(n == whole + 1 + more);
        assert forall|i: int| 0 <= i <= more implies s2[i] == t2[i] by {
            assert(s2[i] == s[whole + 1 + i]);
        }
        assert(s2.take(more as int) =~= t2.take(more as int));
        lemma_same_run(s2, t2, CharClass::Digit);
    }
}

/// The part at the front of `t` is that of `s`, if both agree on it and it is
/// not followed by a letter in `t`.
proof fn lemma_same_part(s: Seq<char>, t: Seq<char>)
    requires
        match part_read(s) {
            PartRead::Fault(_) => false,
            PartRead::Part { len, .. } => {
                &&& len <= t.len()
                &&& s.take(len as int) == t.take(len as int)
                &&& len < t.len() ==> !in_class(t[len as int], CharClass::Letter)
            },
        },
    ensures
        part_read(t) == part_read(s),
{
    lemma_part_within(s);
    match part_read(s) {
        PartRead::Fault(_) => {},
        PartRead::Part { negative, part, len } => {
            assert forall|i: int| 0 <= i < len implies s[i] == t[i] by {
                assert(s.take(len as int)[i] == t.take(len as int)[i]);
            }
            let signed = is_sign(s[0]);
            let off: int = if signed {
                1
            } else {
                0
            };
            let s_body = if signed {
                s.skip(1)
            } else {
                s
            };
            let t_body = if signed {
                t.skip(1)
            } else {
                t
            };
            let n = unsigned_len(s_body);
            lemma_unsigned_within(s_body);
            let end = n + off;
            let at = end + run_len(s.skip(end), CharClass::Space);
            lemma_run_within(s.skip(end), CharClass::Space);
            lemma_run_stops(s.skip(end), CharClass::Space);
            let letters = run_len(s.skip(at), CharClass::Letter);
            lemma_run_within(s.skip(at), CharClass::Letter);
            assert(len == at + letters && letters > 0);
            assert forall|i: int| 0 <= i <= n implies s_body[i] == t_body[i] by {
                assert(s_body[i] == s[i + off] && t_body[i] == t[i + off]);
            }
            assert(s_body.take(n as int + 1) =~= t_body.take(n as int + 1));
            lemma_same_unsigned(s_body, t_body);
            assert(s_body.take(n as int) =~= t_body.take(n as int));
            assert(number_read(t) == number_read(s));
            let gap = at - end;
            assert forall|i: int| 0 <= i <= gap implies s.skip(end)[i] == t.skip(end)[i] by {
                assert(s.skip(end)[i] == s[end + i]);
            }
            assert(s.skip(end).take(gap) =~= t.skip(end).take(gap));
            lemma_same_run(s.skip(end), t.skip(end), CharClass::Space);
            assert forall|i: int| 0 <= i < letters implies s.skip(at)[i] == t.skip(at)[i] by {
                assert(s.skip(at)[i] == s[at + i]);
            }
            assert(s.skip(at).take(letters as int) =~= t.skip(at).take(letters as int));
            lemma_same_run(s.skip(at), t.skip(at), CharClass::Letter);
            assert(s.subrange(at, at + letters) =~= t.subrange(at, at + letters));
        },
    }
}

/// The front of a part: a part begins with no separator, ends in a letter, is
/// ASCII throughout and is not followed by a letter.
proof fn lemma_part_shape(s: Seq<char>)
    requires
        part_read(s) is Part,
    ensures
        ({
            let len = part_read(s)->len;
            &&& 0 < len <= s.len()
            &&& !in_class(s[0], CharClass::Separator)
            &&& !is_space(s[0])
            &&& is_letter(s[len - 1])
            &&& len < s.len() ==> !is_letter(s[len as int])
            &&& forall|i: int| 0 <= i < len ==> #[trigger] s[i] <= '\u{7f}'
        }),
{
    lemma_part_within(s);
    let len = part_read(s)->len;
    let signed = is_sign(s[0]);
    let off: int = if signed {
        1
    } else {
        0
    };
    let body = if signed {
        s.skip(1)
    } else {
        s
    };
    let n = unsigned_len(body);
    lemma_unsigned_within(body);
    let end = n + off;
    let at = end + run_len(s.skip(end), CharClass::Space);
    lemma_run_within(s.skip(end), CharClass::Space);
    let letters = run_len(s.skip(at), CharClass::Letter);
    lemma_run_within(s.skip(at), CharClass::Letter);
    lemma_run_stops(s.skip(at), CharClass::Letter);
    assert(len == at + letters && letters > 0);
    assert(s.skip(at)[letters - 1] == s[len - 1]);
    assert(in_class(s.skip(at)[letters - 1], CharClass::Letter));
    if len < s.len() {
        assert(s.skip(at)[letters as int] == s[len as int]);
    }
    let digits = body.take(n as int);
    assert(is_number(digits));
    assert(digits[0] == body[0]);
    let whole = run_len(body, CharClass::Digit);
    lemma_run_within(body, CharClass::Digit);
    if whole < body.len() && body[whole as int] == '.' {
        lemma_run_within(body.skip(whole as int + 1), CharClass::Digit);
    }
    assert forall|i: int| 0 <= i < len implies #[trigger] s[i] <= '\u{7f}' by {
        if i >= at {
            assert(s.skip(at)[i - at] == s[i]);
            assert(in_class(s.skip(at)[i - at], CharClass::Letter));
        } else if i >= end {
            assert(s.skip(end)[i - end] == s[i]);
            assert(in_class(s.skip(end)[i - end], CharClass::Space));
        } else if i >= off {
            assert(body[i - off] == s[i]);
            if i - off > whole {
                let rest = body.skip(whole as int + 1);
                assert(rest[i - off - whole - 1] == body[i - off]);
                assert(in_class(rest[i - off - whole - 1], CharClass::Digit));
            }
        }
    }
}

/// Separators in front of a text do not change how it reads.
proof fn lemma_leading_separators(
    gap: Seq<char>,
    s: Seq<char>,
    negative: bool,
    parts: Seq<PartView>,
)
    requires
        forall|i: int| 0 <= i < gap.len() ==> in_class(#[trigger] gap[i], CharClass::Separator),
    ensures
        read_parts(gap + s, negative, parts) == read_parts(s, negative, parts),
{
    let whole = gap + s;
    let n = run_len(s, CharClass::Separator);
    lemma_run_within(s, CharClass::Separator);
    lemma_run_stops(s, CharClass::Separator);
    assert forall|i: int| 0 <= i < gap.len() + n implies in_class(
        whole[i],
        CharClass::Separator,
    ) by {
        if i < gap.len() {
            assert(whole[i] == gap[i]);
        } else {
            assert(whole[i] == s[i - gap.len()]);
        }
    }
    lemma_run_len(whole, CharClass::Separator, (gap.len() + n) as int);
    assert(whole.skip((gap.len() + n) as int) =~= s.skip(n as int));
}

/// A text that is cut off behind its first part reads that part first.
proof fn lemma_cut_step(s: Seq<char>, total: int, negative: bool, parts: Seq<PartView>)
    requires
        match part_read(s) {
            PartRead::Fault(_) => false,
            PartRead::Part { negative: minus, len, .. } => {
                &&& len <= total <= s.len()
                &&& !minus || parts.len() == 0
            },
        },
    ensures
        match part_read(s) {
            PartRead::Fault(_) => false,
            PartRead::Part { negative: minus, part, len } => {
                read_parts(s.take(total), negative, parts) == read_parts(
                    s.subrange(len as int, total),
                    negative || minus,
                    parts.push(part),
                )
            },
        },
{
    match part_read(s) {
        PartRead::Fault(_) => {},
        PartRead::Part { negative: minus, part, len } => {
            lemma_part_shape(s);
            let cut = s.take(total);
            assert(s.take(len as int) =~= cut.take(len as int));
            if len < total {
                assert(cut[len as int] == s[len as int]);
            }
            lemma_same_part(s, cut);
            assert(cut[0] == s[0]);
            lemma_run_len(cut, CharClass::Separator, 0);
            assert(cut.skip(0) =~= cut);
            lemma_read_step(cut, 0, negative, parts, minus, part, len);
            assert(cut.skip(len as int) =~= s.subrange(len as int, total));
        },
    }
}

/// `s` is cut off behind the duration at its front, whose `read` goes on from
/// `before` characters.
spec fn prefix_shape(
    s: Seq<char>,
    negative: bool,
    parts: Seq<PartView>,
    before: nat,
    read: PrefixRead,
) -> bool {
    let len = read.len - before;
    &&& 0 < len <= s.len()
    &&& is_letter(s[len - 1])
    &&& !is_space(s[0])
    &&& read.parts.len() > 0
    &&& forall|i: int| 0 <= i < len ==> #[trigger] s[i] <= '\u{7f}'
    &&& read_parts(s.take(len), negative, parts) == (DurationRead::Duration {
        negative: read.negative,
        parts: read.parts,
    })
}

/// One more part in front of a duration that was cut off.
proof fn lemma_prefix_step(
    s: Seq<char>,
    negative: bool,
    parts: Seq<PartView>,
    before: nat,
    read: PrefixRead,
)
    requires
        match part_read(s) {
            PartRead::Fault(_) => false,
            PartRead::Part { negative: minus, part, len } => {
                let gap = run_len(s.skip(len as int), CharClass::Separator);
                &&& !minus || parts.len() == 0
                &&& prefix_shape(
                    s.skip(len as int).skip(gap as int),
                    negative || minus,
                    parts.push(part),
                    before + len + gap,
                    read,
                )
            },
        },
    ensures
        prefix_shape(s, negative, parts, before, read),
{
    match part_read(s) {
        PartRead::Fault(_) => {},
        PartRead::Part { negative: minus, part, len } => {
            lemma_part_shape(s);
            let after = s.skip(len as int);
            let gap = run_len(after, CharClass::Separator);
            let next = after.skip(gap as int);
            lemma_run_within(after, CharClass::Separator);
            let total = read.len - before;
            let tail = total - len - gap;
            assert(next =~= s.skip((len + gap) as int));
            assert(s[total - 1] == next[tail - 1]);
            let seps = after.take(gap as int);
            assert(s.subrange(len as int, total) =~= seps + next.take(tail));
            assert forall|i: int| 0 <= i < seps.len() implies in_class(
                #[trigger] seps[i],
                CharClass::Separator,
            ) by {
                assert(seps[i] == after[i]);
            }
            lemma_leading_separators(seps, next.take(tail), negative || minus, parts.push(part));
            assert forall|i: int| 0 <= i < total implies #[trigger] s[i] <= '\u{7f}' by {
                if i >= len + gap {
                    assert(s[i] == next[i - len - gap]);
                } else if i >= len {
                    assert(s[i] == after[i - len]);
                    assert(in_class(after[i - len], CharClass::Separator));
                }
            }
            lemma_cut_step(s, total, negative, parts);
        },
    }
}

/// What reads as a prefix reads as a whole once the rest is cut off.
proof fn lemma_prefix_reads(s: Seq<char>, negative: bool, parts: Seq<PartView>, before: nat)
    ensures
        match read_prefix(s, negative, parts, before) {
            None => true,
            Some(read) => prefix_shape(s, negative, parts, before, read),
        },
    decreases s.len(),
{
    match part_read(s) {
        PartRead::Fault(_) => {},
        PartRead::Part { negative: minus, part, len } => {
            let after = s.skip(len as int);
            let gap = run_len(after, CharClass::Separator);
            let next = after.skip(gap as int);
            lemma_part_within(s);
            lemma_run_within(after, CharClass::Separator);
            if minus && parts.len() > 0 {
            } else if starts_part(next) {
                lemma_prefix_reads(next, negative || minus, parts.push(part), before + len + gap);
                match read_prefix(s, negative, parts, before) {
                    None => {},
                    Some(read) => lemma_prefix_step(s, negative, parts, before, read),
                }
            } else {
                lemma_part_shape(s);
                lemma_cut_step(s, len as int, negative, parts);
                let rest = s.subrange(len as int, len as int);
                assert(rest.len() == 0);
                assert(rest.skip(0) =~= rest);
            }
        },
    }
}

/// The duration at the front of a text is made of ASCII characters and ends in
/// a letter, so that nothing is trimmed off it. Read by itself it is the same
/// duration. A text that no number begins has none.
pub proof fn law_prefix_is_a_duration(text: Seq<char>)
    ensures
        match prefix_read(text) {
            None => true,
            Some(read) => {
                let head = text.take(read.len as int);
                &&& 0 < read.len <= text.len()
                &&& is_letter(head.last())
                &&& forall|i: int| 0 <= i < head.len() ==> #[trigger] head[i] <= '\u{7f}'
                &&& trimmed(head) == head
                &&& duration_read(head) == (DurationRead::Duration {
                    negative: read.negative,
                    parts: read.parts,
                })
            },
        },
        !starts_part(text) ==> prefix_read(text) is None,
{
    lemma_prefix_reads(text, false, Seq::empty(), 0);
    match prefix_read(text) {
        None => {},
        Some(read) => {
            let head = text.take(read.len as int);
            assert(head[0] == text[0]);
            assert(head.last() == text[read.len - 1]);
            lemma_trimmed_same(head);
        },
    }
}

/// A text that reads as a duration is read first where another follows behind
/// a separator.
proof fn lemma_reads_before(
    s: Seq<char>,
    more: Seq<char>,
    negative: bool,
    parts: Seq<PartView>,
)
    requires
        read_parts(s, negative, parts) is Duration,
        more.len() > 0,
        in_class(more[0], CharClass::Separator),
    ensures
        read_parts(s + more, negative, parts) == read_parts(
            more,
            read_parts(s, negative, parts)->Duration_negative,
            read_parts(s, negative, parts)->Duration_parts,
        ),
    decreases s.len(),
{
    let gap = run_len(s, CharClass::Separator);
    lemma_run_within(s, CharClass::Separator);
    lemma_run_stops(s, CharClass::Separator);
    let rest = s.skip(gap as int);
    if rest.len() == 0 {
        assert forall|i: int| 0 <= i < s.len() implies in_class(
            #[trigger] s[i],
            CharClass::Separator,
        ) by {}
        lemma_leading_separators(s, more, negative, parts);
    } else {
        match part_read(rest) {
            PartRead::Fault(_) => {},
            PartRead::Part { negative: minus, part, len } => {
                let whole = s + more;
                let both = rest + more;
                lemma_part_shape(rest);
                assert(whole.skip(gap as int) =~= both);
                assert(rest.take(len as int) =~= both.take(len as int));
                if len < rest.len() {
                    assert(both[len as int] == rest[len as int]);
                } else {
                    assert(both[len as int] == more[0]);
                }
                lemma_same_part(rest, both);
                assert forall|i: int| 0 <= i < gap implies in_class(
                    whole[i],
                    CharClass::Separator,
                ) by {
                    assert(whole[i] == s[i]);
                }
                assert(whole[gap as int] == rest[0]);
                lemma_run_len(whole, CharClass::Separator, gap as int);
                lemma_read_step(whole, gap as int, negative, parts, minus, part, len);
                assert(both.skip(len as int) =~= rest.skip(len as int) + more);
                lemma_reads_before(
                    rest.skip(len as int),
                    more,
                    negative || minus,
                    parts.push(part),
                );
            },
        }
    }
}

/// A sign that was read stays.
proof fn lemma_sign_stays(s: Seq<char>, parts: Seq<PartView>)
    ensures
        match read_parts(s, true, parts) {
            DurationRead::Fault(_) => true,
            DurationRead::Duration { negative, .. } => negative,
        },
    decreases s.len(),
{
    let rest = s.skip(run_len(s, CharClass::Separator) as int);
    lemma_run_within(s, CharClass::Separator);
    if rest.len() > 0 {
        match part_read(rest) {
            PartRead::Fault(_) => {},
            PartRead::Part { negative: minus, part, len } => {
                lemma_part_within(rest);
                lemma_sign_stays(rest.skip(len as int), parts.push(part));
            },
        }
    }
}

/// A text without a minus reads the same behind other parts.
proof fn lemma_reads_behind(
    s: Seq<char>,
    parts: Seq<PartView>,
    negative: bool,
    earlier: Seq<PartView>,
)
    requires
        read_parts(s, false, parts) is Duration,
        !read_parts(s, false, parts)->Duration_negative,
    ensures
        read_parts(s, negative, earlier + parts) == (DurationRead::Duration {
            negative,
            parts: earlier + read_parts(s, false, parts)->Duration_parts,
        }),
    decreases s.len(),
{
    let rest = s.skip(run_len(s, CharClass::Separator) as int);
    lemma_run_within(s, CharClass::Separator);
    if rest.len() > 0 {
        match part_read(rest) {
            PartRead::Fault(_) => {},
            PartRead::Part { negative: minus, part, len } => {
                lemma_part_within(rest);
                let after = rest.skip(len as int);
                if minus {
                    lemma_sign_stays(after, parts.push(part));
                }
                lemma_reads_behind(after, parts.push(part), negative, earlier);
                assert((earlier + parts).push(part) =~= earlier + parts.push(part));
            },
        }
    }
}

/// The whitespace at the end of `s` is ASCII whitespace.
pub open spec fn ends_in_ascii_space(s: Seq<char>) -> bool {
    forall|i: int| trimmed_end(s).len() <= i < s.len() ==> is_ascii_space(#[trigger] s[i])
}

/// The whitespace at the front of `s` is ASCII whitespace.
pub open spec fn begins_in_ascii_space(s: Seq<char>) -> bool {
    forall|i: int|
        0 <= i < s.len() - trimmed_start(s).len() ==> is_ascii_space(#[trigger] s[i])
}

/// What is trimmed off the end: the rest stands at the front.
proof fn lemma_trimmed_end(s: Seq<char>)
    ensures
        trimmed_end(s).len() <= s.len(),
        trimmed_end(s) == s.take(trimmed_end(s).len() as int),
        trimmed_end(s).len() > 0 ==> !is_space(trimmed_end(s).last()),
        forall|i: int| trimmed_end(s).len() <= i < s.len() ==> is_space(#[trigger] s[i]),
    decreases s.len(),
{
    if s.len() > 0 && is_space(s.last()) {
        lemma_trimmed_end(s.drop_last());
        let n = trimmed_end(s).len() as int;
        assert(s.drop_last().take(n) =~= s.take(n));
        assert forall|i: int| n <= i < s.len() implies is_space(#[trigger] s[i]) by {
            if i < s.len() - 1 {
                assert(s[i] == s.drop_last()[i]);
            }
        }
    } else {
        assert(s.take(s.len() as int) =~= s);
    }
}

/// What is trimmed off the front: the rest stands at the end.
proof fn lemma_trimmed_start(s: Seq<char>)
    ensures
        trimmed_start(s).len() <= s.len(),
        trimmed_start(s) == s.skip(s.len() - trimmed_start(s).len()),
        trimmed_start(s).len() > 0 ==> !is_space(trimmed_start(s)[0]),
        forall|i: int|
            0 <= i < s.len() - trimmed_start(s).len() ==> is_space(#[trigger] s[i]),
    decreases s.len(),
{
    if s.len() > 0 && is_space(s[0]) {
        let rest = s.drop_first();
        lemma_trimmed_start(rest);
        let n = rest.len() - trimmed_start(rest).len();
        assert(rest.skip(n) =~= s.skip(n + 1));
        assert forall|i: int| 0 <= i < n + 1 implies is_space(#[trigger] s[i]) by {
            if i > 0 {
                assert(s[i] == rest[i - 1]);
            }
        }
    } else {
        assert(s.skip(0) =~= s);
    }
}

/// Trimming takes exactly the whitespace around a core away.
proof fn lemma_trimmed_core(before: Seq<char>, core: Seq<char>, after: Seq<char>)
    requires
        core.len() > 0,
        !is_space(core[0]),
        !is_space(core.last()),
        forall|i: int| 0 <= i < before.len() ==> is_space(#[trigger] before[i]),
        forall|i: int| 0 <= i < after.len() ==> is_space(#[trigger] after[i]),
    ensures
        trimmed(before + core + after) == core,
    decreases before.len() + after.len(),
{
    let s = before + core + after;
    if before.len() > 0 {
        assert(s[0] == before[0]);
        let rest = before.drop_first();
        assert forall|i: int| 0 <= i < rest.len() implies is_space(#[trigger] rest[i]) by {
            assert(rest[i] == before[i + 1]);
        }
        assert(s.drop_first() =~= rest + core + after);
        lemma_trimmed_core(rest, core, after);
    } else {
        assert(s =~= core + after);
        assert(s[0] == core[0]);
        assert(trimmed_start(s) == s);
        lemma_trimmed_tail(core, after);
    }
}

proof fn lemma_trimmed_tail(core: Seq<char>, after: Seq<char>)
    requires
        core.len() > 0,
        !is_space(core.last()),
        forall|i: int| 0 <= i < after.len() ==> is_space(#[trigger] after[i]),
    ensures
        trimmed_end(core + after) == core,
    decreases after.len(),
{
    let s = core + after;
    if after.len() > 0 {
        assert(s.last() == after.last());
        assert(s.drop_last() =~= core + after.drop_last());
        lemma_trimmed_tail(core, after.drop_last());
    } else {
        assert(s =~= core);
    }
}

/// A text apart into the whitespace around it and what is left.
proof fn lemma_apart(s: Seq<char>) -> (apart: (Seq<char>, Seq<char>))
    requires
        trimmed(s).len() > 0,
    ensures
        s == apart.0 + trimmed(s) + apart.1,
        !is_space(trimmed(s)[0]),
        !is_space(trimmed(s).last()),
        forall|i: int| 0 <= i < apart.0.len() ==> is_space(#[trigger] apart.0[i]),
        forall|i: int| 0 <= i < apart.1.len() ==> is_space(#[trigger] apart.1[i]),
        begins_in_ascii_space(s) ==> forall|i: int|
            0 <= i < apart.0.len() ==> is_ascii_space(#[trigger] apart.0[i]),
        ends_in_ascii_space(s) ==> forall|i: int|
            0 <= i < apart.1.len() ==> is_ascii_space(#[trigger] apart.1[i]),
{
    let rest = trimmed_start(s);
    lemma_trimmed_start(s);
    lemma_trimmed_end(rest);
    let core = trimmed(s);
    let before = s.take(s.len() - rest.len());
    let after = rest.skip(core.len() as int);
    assert(s =~= before + core + after);
    assert(core[0] == rest[0]);
    assert forall|i: int| 0 <= i < after.len() implies is_space(#[trigger] after[i]) by {
        assert(after[i] == rest[core.len() + i]);
    }
    assert(before + core + after =~= (before + core) + after);
    lemma_trimmed_tail(before + core, after);
    assert forall|i: int| 0 <= i < before.len() implies is_space(#[trigger] before[i]) by {
        assert(before[i] == s[i]);
    }
    if begins_in_ascii_space(s) {
        assert forall|i: int| 0 <= i < before.len() implies is_ascii_space(
            #[trigger] before[i],
        ) by {
            assert(before[i] == s[i]);
        }
    }
    if ends_in_ascii_space(s) {
        assert forall|i: int| 0 <= i < after.len() implies is_ascii_space(#[trigger] after[i]) by {
            assert(after[i] == s[before.len() + core.len() + i]);
        }
    }
    (before, after)
}

proof fn lemma_whole_millis_add(a: Seq<PartView>, b: Seq<PartView>)
    ensures
        whole_millis(a + b) == whole_millis(a) + whole_millis(b),
    decreases a.len(),
{
    if a.len() == 0 {
        assert(a + b =~= b);
    } else {
        assert((a + b).drop_first() =~= a.drop_first() + b);
        lemma_whole_millis_add(a.drop_first(), b);
    }
}

/// Two durations that are joined by separators, the second without a minus, are
/// one duration. It has the parts of both, so that its parts add up to the sum,
/// and the sign of the first. Whitespace that comes to stand between them has
/// to be ASCII whitespace, as other whitespace separates no parts.
pub proof fn law_joined_durations_add_up(a: Seq<char>, gap: Seq<char>, b: Seq<char>)
    requires
        duration_read(a) is Duration,
        duration_read(b) is Duration,
        !duration_read(b)->Duration_negative,
        gap.len() > 0,
        forall|i: int| 0 <= i < gap.len() ==> in_class(#[trigger] gap[i], CharClass::Separator),
        ends_in_ascii_space(a),
        begins_in_ascii_space(b),
    ensures
        ({
            let parts = duration_read(a)->Duration_parts + duration_read(b)->Duration_parts;
            &&& duration_read(a + gap + b) == (DurationRead::Duration {
                negative: duration_read(a)->Duration_negative,
                parts,
            })
            &&& whole_millis(parts) == whole_millis(duration_read(a)->Duration_parts)
                + whole_millis(duration_read(b)->Duration_parts)
        }),
{
    let first = trimmed(a);
    let second = trimmed(b);
    let none = Seq::<PartView>::empty();
    let pa = duration_read(a)->Duration_parts;
    let pb = duration_read(b)->Duration_parts;
    let negative = duration_read(a)->Duration_negative;
    assert(Seq::<char>::empty().skip(0) =~= Seq::<char>::empty());
    let (a_before, a_after) = lemma_apart(a);
    let (b_before, b_after) = lemma_apart(b);
    let between = a_after + gap + b_before;
    let core = first + between + second;
    assert forall|i: int| 0 <= i < between.len() implies in_class(
        #[trigger] between[i],
        CharClass::Separator,
    ) by {
        if i < a_after.len() {
            assert(between[i] == a_after[i]);
        } else if i < a_after.len() + gap.len() {
            assert(between[i] == gap[i - a_after.len()]);
        } else {
            assert(between[i] == b_before[i - a_after.len() - gap.len()]);
        }
    }
    assert(a + gap + b =~= a_before + core + b_after);
    assert(core[0] == first[0]);
    assert(core.last() == second.last());
    lemma_trimmed_core(a_before, core, b_after);
    let more = between + second;
    assert(core =~= first + more);
    assert(more[0] == between[0]);
    lemma_reads_before(first, more, false, none);
    lemma_leading_separators(between, second, negative, pa);
    lemma_reads_behind(second, none, negative, pa);
    assert(pa + none =~= pa);
    lemma_whole_millis_add(pa, pb);
}

/// Each unit is as many of a smaller one as everyone knows: a month has thirty
/// days, a year three hundred and sixty-five.
pub proof fn law_units_are_multiples()
    ensures
        unit_millis(DurationUnit::Millisecond) == 1,
        unit_millis(DurationUnit::Second) == 1000 * unit_millis(DurationUnit::Millisecond),
        unit_millis(DurationUnit::Minute) == 60 * unit_millis(DurationUnit::Second),
        unit_millis(DurationUnit::Hour) == 60 * unit_millis(DurationUnit::Minute),
        unit_millis(DurationUnit::Day) == 24 * unit_millis(DurationUnit::Hour),
        unit_millis(DurationUnit::Week) == 7 * unit_millis(DurationUnit::Day),
        unit_millis(DurationUnit::Month) == 30 * unit_millis(DurationUnit::Day),
        unit_millis(DurationUnit::Year) == 365 * unit_millis(DurationUnit::Day),
{
}

/// `parts` go from larger to smaller units, none is zero, and what follows a part
/// is less than one of its units.
pub open spec fn is_carried(parts: Seq<PartView>) -> bool {
    &&& forall|i: int, j: int|
        0 <= i < j < parts.len() ==> unit_millis((#[trigger] parts[i]).unit) > unit_millis(
            (#[trigger] parts[j]).unit,
        )
    &&& forall|i: int|
        0 <= i < parts.len() ==> digits_value((#[trigger] parts[i]).number) > 0
            && whole_millis(parts.skip(i + 1)) < unit_millis(parts[i].unit)
}

proof fn lemma_carried(millis: nat, k: int)
    requires
        millis <= u64::MAX,
        0 <= k <= 6,
        k == 6 ==> millis == 0,
    ensures
        is_carried(written_views(millis, k)),
        forall|i: int|
            0 <= i < written_views(millis, k).len() ==> unit_millis(
                (#[trigger] written_views(millis, k)[i]).unit,
            ) <= unit_millis(written_unit(k)),
    decreases 6 - k,
{
    if k < 6 {
        let each = unit_millis(written_unit(k));
        let views = written_views(millis, k);
        if millis >= each {
            let rest = written_views(millis % each, k + 1);
            lemma_quotient(millis, each);
            lemma_carried(millis % each, k + 1);
            lemma_written_total(millis % each, k + 1);
            lemma_decimal_value(millis / each);
            assert(millis / each > 0) by (nonlinear_arith)
                requires
                    millis >= each,
                    each > 0,
            ;
            assert(views.skip(1) =~= rest);
            assert forall|i: int, j: int| 0 <= i < j < views.len() implies unit_millis(
                (#[trigger] views[i]).unit,
            ) > unit_millis((#[trigger] views[j]).unit) by {
                assert(views[j] == rest[j - 1]);
                if i > 0 {
                    assert(views[i] == rest[i - 1]);
                } else {
                    assert(unit_millis(rest[j - 1].unit) <= unit_millis(written_unit(k + 1)));
                }
            }
            assert forall|i: int| 0 <= i < views.len() implies digits_value(
                (#[trigger] views[i]).number,
            ) > 0 && whole_millis(views.skip(i + 1)) < unit_millis(views[i].unit) by {
                if i > 0 {
                    assert(views[i] == rest[i - 1]);
                    assert(views.skip(i + 1) =~= rest.skip(i));
                }
            }
            assert forall|i: int| 0 <= i < views.len() implies unit_millis(
                (#[trigger] views[i]).unit,
            ) <= each by {
                if i > 0 {
                    assert(views[i] == rest[i - 1]);
                }
            }
        } else {
            lemma_carried(millis, k + 1);
            if k + 1 < 6 {
                assert(unit_millis(written_unit(k + 1)) <= each);
            }
        }
    }
}

/// A duration is written in as many weeks as it has, then as many days as are
/// left, and so on down to milliseconds, and units that it has none of are left
/// out.
pub proof fn law_durations_are_written_largest_unit_first(negative: bool, millis: u64)
    requires
        millis > 0,
    ensures
        match duration_read(written_duration(negative, millis as nat)) {
            DurationRead::Fault(_) => false,
            DurationRead::Duration { parts, .. } => {
                &&& is_carried(parts)
                &&& forall|i: int|
                    0 <= i < parts.len() ==> unit_millis((#[trigger] parts[i]).unit)
                        <= unit_millis(DurationUnit::Week)
            },
        },
{
    law_written_duration_reads_back(negative, millis);
    lemma_carried(millis as nat, 0);
}

/// The text in small letters.
pub open spec fn in_small(text: Seq<char>, small: Seq<char>) -> bool {
    ascii_lowered(text) == small
}

/// Which unit a text means, in any case: its short forms and its name, in the
/// singular and the plural.
#[verifier::rlimit(60)]
pub proof fn law_units_are_named(text: Seq<char>)
    ensures
        in_small(text, seq!['w']) || in_small(text, seq!['w', 'k']) || in_small(
            text,
            seq!['w', 'k', 's'],
        ) || in_small(text, seq!['w', 'e', 'e', 'k']) || in_small(
            text,
            seq!['w', 'e', 'e', 'k', 's'],
        ) ==> unit_spelled(text) == Some(DurationUnit::Week),
        in_small(text, seq!['d']) || in_small(text, seq!['d', 'a', 'y']) || in_small(
            text,
            seq!['d', 'a', 'y', 's'],
        ) ==> unit_spelled(text) == Some(DurationUnit::Day),
        in_small(text, seq!['h']) || in_small(text, seq!['h', 'r']) || in_small(
            text,
            seq!['h', 'r', 's'],
        ) || in_small(text, seq!['h', 'o', 'u', 'r']) || in_small(
            text,
            seq!['h', 'o', 'u', 'r', 's'],
        ) ==> unit_spelled(text) == Some(DurationUnit::Hour),
        in_small(text, seq!['m']) || in_small(text, seq!['m', 'i', 'n']) || in_small(
            text,
            seq!['m', 'i', 'n', 's'],
        ) || in_small(text, seq!['m', 'i', 'n', 'u', 't', 'e']) || in_small(
            text,
            seq!['m', 'i', 'n', 'u', 't', 'e', 's'],
        ) ==> unit_spelled(text) == Some(DurationUnit::Minute),
        in_small(text, seq!['s']) || in_small(text, seq!['s', 'e', 'c']) || in_small(
            text,
            seq!['s', 'e', 'c', 's'],
        ) || in_small(text, seq!['s', 'e', 'c', 'o', 'n', 'd']) || in_small(
            text,
            seq!['s', 'e', 'c', 'o', 'n', 'd', 's'],
        ) ==> unit_spelled(text) == Some(DurationUnit::Second),
        in_small(text, seq!['m', 's']) || in_small(
            text,
            seq!['m', 'i', 'l', 'l', 'i', 's', 'e', 'c', 'o', 'n', 'd'],
        ) || in_small(
            text,
            seq!['m', 'i', 'l', 'l', 'i', 's', 'e', 'c', 'o', 'n', 'd', 's'],
        ) ==> unit_spelled(text) == Some(DurationUnit::Millisecond),
        in_small(text, seq!['m', 'o']) || in_small(text, seq!['m', 'o', 's']) || in_small(
            text,
            seq!['m', 'o', 'n', 't', 'h'],
        ) || in_small(text, seq!['m', 'o', 'n', 't', 'h', 's']) ==> unit_spelled(text) == Some(
            DurationUnit::Month,
        ),
        in_small(text, seq!['y']) || in_small(text, seq!['y', 'r']) || in_small(
            text,
            seq!['y', 'r', 's'],
        ) || in_small(text, seq!['y', 'e', 'a', 'r']) || in_small(
            text,
            seq!['y', 'e', 'a', 'r', 's'],
        ) ==> unit_spelled(text) == Some(DurationUnit::Year),
        text.len() == 0 ==> unit_spelled(text) is None,
        unit_spelled(text) is Some ==> text.len() <= 12,
{
    let low = ascii_lowered(text);
    lemma_spellings();
    assert(low.len() == text.len());
    assert(low.len() > 0 ==> low[0] == low.first());
    assert(low.len() > 1 ==> low[1] == low.drop_first()[0]);
}

proof fn lemma_spellings()
    ensures
        ascii_lowered("w"@) == seq!['w'],
        ascii_lowered("wk"@) == seq!['w', 'k'],
        ascii_lowered("wks"@) == seq!['w', 'k', 's'],
        ascii_lowered("week"@) == seq!['w', 'e', 'e', 'k'],
        ascii_lowered("weeks"@) == seq!['w', 'e', 'e', 'k', 's'],
        ascii_lowered("d"@) == seq!['d'],
        ascii_lowered("day"@) == seq!['d', 'a', 'y'],
        ascii_lowered("days"@) == seq!['d', 'a', 'y', 's'],
        ascii_lowered("h"@) == seq!['h'],
        ascii_lowered("hr"@) == seq!['h', 'r'],
        ascii_lowered("hrs"@) == seq!['h', 'r', 's'],
        ascii_lowered("hour"@) == seq!['h', 'o', 'u', 'r'],
        ascii_lowered("hours"@) == seq!['h', 'o', 'u', 'r', 's'],
        ascii_lowered("m"@) == seq!['m'],
        ascii_lowered("min"@) == seq!['m', 'i', 'n'],
        ascii_lowered("mins"@) == seq!['m', 'i', 'n', 's'],
        ascii_lowered("minute"@) == seq!['m', 'i', 'n', 'u', 't', 'e'],
        ascii_lowered("minutes"@) == seq!['m', 'i', 'n', 'u', 't', 'e', 's'],
        ascii_lowered("s"@) == seq!['s'],
        ascii_lowered("sec"@) == seq!['s', 'e', 'c'],
        ascii_lowered("secs"@) == seq!['s', 'e', 'c', 's'],
        ascii_lowered("second"@) == seq!['s', 'e', 'c', 'o', 'n', 'd'],
        ascii_lowered("seconds"@) == seq!['s', 'e', 'c', 'o', 'n', 'd', 's'],
        ascii_lowered("ms"@) == seq!['m', 's'],
        ascii_lowered("millisecond"@) == seq!['m', 'i', 'l', 'l', 'i', 's', 'e', 'c', 'o', 'n', 'd'],
        ascii_lowered("milliseconds"@) == seq![
            'm',
            'i',
            'l',
            'l',
            'i',
            's',
            'e',
            'c',
            'o',
            'n',
            'd',
            's',
        ],
        ascii_lowered("mo"@) == seq!['m', 'o'],
        ascii_lowered("mos"@) == seq!['m', 'o', 's'],
        ascii_lowered("month"@) == seq!['m', 'o', 'n', 't', 'h'],
        ascii_lowered("months"@) == seq!['m', 'o', 'n', 't', 'h', 's'],
        ascii_lowered("y"@) == seq!['y'],
        ascii_lowered("yr"@) == seq!['y', 'r'],
        ascii_lowered("yrs"@) == seq!['y', 'r', 's'],
        ascii_lowered("year"@) == seq!['y', 'e', 'a', 'r'],
        ascii_lowered("years"@) == seq!['y', 'e', 'a', 'r', 's'],
{
    reveal_strlit("w");
    reveal_strlit("wk");
    reveal_strlit("wks");
    reveal_strlit("week");
    reveal_strlit("weeks");
    reveal_strlit("d");
    reveal_strlit("day");
    reveal_strlit("days");
    reveal_strlit("h");
    reveal_strlit("hr");
    reveal_strlit("hrs");
    reveal_strlit("hour");
    reveal_strlit("hours");
    reveal_strlit("m");
    reveal_strlit("min");
    reveal_strlit("mins");
    reveal_strlit("minute");
    reveal_strlit("minutes");
    reveal_strlit("s");
    reveal_strlit("sec");
    reveal_strlit("secs");
    reveal_strlit("second");
    reveal_strlit("seconds");
    reveal_strlit("ms");
    reveal_strlit("millisecond");
    reveal_strlit("milliseconds");
    reveal_strlit("mo");
    reveal_strlit("mos");
    reveal_strlit("month");
    reveal_strlit("months");
    reveal_strlit("y");
    reveal_strlit("yr");
    reveal_strlit("yrs");
    reveal_strlit("year");
    reveal_strlit("years");
}

/// The number as it is written: whole digits, and a point with further digits
/// where there is a fraction.
pub open spec fn number_text(whole: Seq<char>, fraction: Option<Seq<char>>) -> Seq<char> {
    match fraction {
        Some(digits) => whole + seq!['.'] + digits,
        None => whole,
    }
}

/// Digits that a number can be made of: some before the point or some behind it.
pub open spec fn are_number_digits(whole: Seq<char>, fraction: Option<Seq<char>>) -> bool {
    &&& whole.len() > 0 || (fraction is Some && fraction.unwrap().len() > 0)
    &&& all_digits(whole)
    &&& digits_value(whole) <= u64::MAX
    &&& fraction is Some ==> all_digits(fraction.unwrap())
}

#[verifier::rlimit(40)]
proof fn lemma_number_length(whole: Seq<char>, fraction: Option<Seq<char>>, rest: Seq<char>)
    requires
        are_number_digits(whole, fraction),
        rest.len() > 0 ==> !is_digit(rest[0]) && rest[0] != '.',
    ensures
        unsigned_len(number_text(whole, fraction) + rest) == number_text(whole, fraction).len(),
        is_number(number_text(whole, fraction)),
        number_text(whole, fraction).len() > 0,
        is_digit(number_text(whole, fraction)[0]) || number_text(whole, fraction)[0] == '.',
        starts_number(number_text(whole, fraction) + rest),
{
    let number = number_text(whole, fraction);
    let s = number + rest;
    let n = whole.len() as int;
    assert forall|i: int| 0 <= i < n implies in_class(s[i], CharClass::Digit) by {
        assert(s[i] == whole[i]);
    }
    assert forall|i: int| 0 <= i < n implies in_class(number[i], CharClass::Digit) by {
        assert(number[i] == whole[i]);
    }
    match fraction {
        None => {
            assert(number =~= whole);
            if rest.len() > 0 {
                assert(s[n] == rest[0]);
            }
            lemma_run_len(s, CharClass::Digit, n);
            lemma_run_len(number, CharClass::Digit, n);
        },
        Some(digits) => {
            assert(s[n] == '.');
            assert(number[n] == '.');
            lemma_run_len(s, CharClass::Digit, n);
            lemma_run_len(number, CharClass::Digit, n);
            let tail = s.skip(n + 1);
            assert(tail =~= digits + rest);
            let m = digits.len() as int;
            assert forall|i: int| 0 <= i < m implies in_class(tail[i], CharClass::Digit) by {
                assert(tail[i] == digits[i]);
            }
            if rest.len() > 0 {
                assert(tail[m] == rest[0]);
            }
            lemma_run_len(tail, CharClass::Digit, m);
        },
    }
    assert(number.take(n) =~= whole);
    if n > 0 {
        assert(number[0] == whole[0]);
        assert(is_digit(whole[0]));
    } else {
        let digits = fraction.unwrap();
        assert(number[0] == '.' && number[1] == digits[0]);
        assert(is_digit(digits[0]));
    }
    assert(s[0] == number[0]);
    assert(number.len() > 1 ==> s[1] == number[1]);
    lemma_limit(digits_value(whole));
}

proof fn lemma_limit(n: int)
    requires
        n <= u64::MAX,
    ensures
        n < double_limit(),
{
    lemma_fits_double(u64::MAX as nat);
}

/// A number, blanks and letters.
pub open spec fn part_text(number: Seq<char>, gap: Seq<char>, unit: Seq<char>) -> Seq<char> {
    number + gap + unit
}

#[verifier::rlimit(40)]
proof fn lemma_part_text(
    whole: Seq<char>,
    fraction: Option<Seq<char>>,
    gap: Seq<char>,
    unit: Seq<char>,
    tail: Seq<char>,
)
    requires
        are_number_digits(whole, fraction),
        forall|i: int| 0 <= i < gap.len() ==> is_ascii_space(#[trigger] gap[i]),
        unit.len() > 0,
        forall|i: int| 0 <= i < unit.len() ==> is_letter(#[trigger] unit[i]),
        tail.len() > 0 ==> !is_letter(tail[0]),
    ensures
        ({
            let number = number_text(whole, fraction);
            let s = part_text(number, gap, unit) + tail;
            let len = (number.len() + gap.len() + unit.len()) as nat;
            match unit_spelled(unit) {
                Some(found) => {
                    let part = PartView { number, unit: found };
                    &&& part_read(s) == (PartRead::Part { negative: false, part, len })
                    &&& part_read(seq!['-'] + s) == (PartRead::Part {
                        negative: true,
                        part,
                        len: len + 1,
                    })
                    &&& part_read(seq!['+'] + s) == (PartRead::Part {
                        negative: false,
                        part,
                        len: len + 1,
                    })
                },
                None => part_read(s) == PartRead::Fault(super::error::DurationFault::UnknownUnit),
            }
        }),
{
    let number = number_text(whole, fraction);
    let s = part_text(number, gap, unit) + tail;
    let n = number.len() as int;
    let rest = gap + unit + tail;
    assert(s =~= number + rest);
    if gap.len() > 0 {
        assert(rest[0] == gap[0]);
    } else {
        assert(rest[0] == unit[0]);
        assert(is_letter(unit[0]));
    }
    lemma_number_length(whole, fraction, rest);
    assert(s[0] == number[0]);
    assert(s.take(n) =~= number);
    assert(number_read(s) == NumberRead::Found { negative: false, digits: number, len: n as nat });
    lemma_part_behind(s, false, number, n, gap, unit, tail);
    let minus = seq!['-'] + s;
    assert(minus.skip(1) =~= s);
    assert(minus[0] == '-');
    assert(minus.skip(n + 1) =~= s.skip(n));
    lemma_part_behind(minus, true, number, n + 1, gap, unit, tail);
    let plus = seq!['+'] + s;
    assert(plus.skip(1) =~= s);
    assert(plus[0] == '+');
    assert(plus.skip(n + 1) =~= s.skip(n));
    lemma_part_behind(plus, false, number, n + 1, gap, unit, tail);
}

/// Behind a number stand blanks and letters, which are its unit.
#[verifier::rlimit(40)]
proof fn lemma_part_behind(
    s: Seq<char>,
    negative: bool,
    number: Seq<char>,
    n: int,
    gap: Seq<char>,
    unit: Seq<char>,
    tail: Seq<char>,
)
    requires
        n >= 0,
        number_read(s) == (NumberRead::Found { negative, digits: number, len: n as nat }),
        s.len() == n + gap.len() + unit.len() + tail.len(),
        s.skip(n) =~= gap + unit + tail,
        forall|i: int| 0 <= i < gap.len() ==> is_ascii_space(#[trigger] gap[i]),
        unit.len() > 0,
        forall|i: int| 0 <= i < unit.len() ==> is_letter(#[trigger] unit[i]),
        tail.len() > 0 ==> !is_letter(tail[0]),
    ensures
        match unit_spelled(unit) {
            Some(found) => part_read(s) == (PartRead::Part {
                negative,
                part: PartView { number, unit: found },
                len: (n + gap.len() + unit.len()) as nat,
            }),
            None => part_read(s) == PartRead::Fault(super::error::DurationFault::UnknownUnit),
        },
{
    let rest = gap + unit + tail;
    let g = gap.len() as int;
    let m = unit.len() as int;
    assert forall|i: int| 0 <= i < g implies in_class(rest[i], CharClass::Space) by {
        assert(rest[i] == gap[i]);
    }
    assert(rest[g] == unit[0]);
    assert(is_letter(unit[0]));
    lemma_run_len(rest, CharClass::Space, g);
    let letters = s.skip(n + g);
    assert(letters =~= s.skip(n).skip(g));
    assert(letters =~= unit + tail);
    assert forall|i: int| 0 <= i < m implies in_class(letters[i], CharClass::Letter) by {
        assert(letters[i] == unit[i]);
    }
    if tail.len() > 0 {
        assert(letters[m] == tail[0]);
    }
    lemma_run_len(letters, CharClass::Letter, m);
    assert(s.subrange(n + g, n + g + m) =~= letters.take(m));
    assert(letters.take(m) =~= unit);
}

/// A number and a unit are a duration of that many units, with blanks between or
/// without, and negative behind a minus. A text behind the number that names no
/// unit is refused.
#[verifier::rlimit(40)]
pub proof fn law_a_number_and_a_unit_are_a_duration(
    whole: Seq<char>,
    fraction: Option<Seq<char>>,
    gap: Seq<char>,
    unit: Seq<char>,
)
    requires
        are_number_digits(whole, fraction),
        forall|i: int| 0 <= i < gap.len() ==> is_ascii_space(#[trigger] gap[i]),
        unit.len() > 0,
        forall|i: int| 0 <= i < unit.len() ==> is_letter(#[trigger] unit[i]),
    ensures
        ({
            let number = number_text(whole, fraction);
            let s = part_text(number, gap, unit);
            match unit_spelled(unit) {
                Some(found) => {
                    let parts = seq![PartView { number, unit: found }];
                    &&& duration_read(s) == (DurationRead::Duration { negative: false, parts })
                    &&& duration_read(seq!['-'] + s) == (DurationRead::Duration {
                        negative: true,
                        parts,
                    })
                    &&& duration_read(seq!['+'] + s) == (DurationRead::Duration {
                        negative: false,
                        parts,
                    })
                },
                None => duration_read(s) == DurationRead::Fault(
                    super::error::DurationFault::UnknownUnit,
                ),
            }
        }),
{
    let none = Seq::<char>::empty();
    let number = number_text(whole, fraction);
    let s = part_text(number, gap, unit);
    lemma_part_text(whole, fraction, gap, unit, none);
    assert(s + none =~= s);
    lemma_number_length(whole, fraction, none);
    assert(s[0] == number[0]);
    assert(s.last() == unit.last());
    assert(is_letter(unit[unit.len() - 1]));
    lemma_trimmed_same(s);
    lemma_trimmed_same(seq!['-'] + s);
    lemma_trimmed_same(seq!['+'] + s);
    lemma_one_part(s);
    lemma_one_part(seq!['-'] + s);
    lemma_one_part(seq!['+'] + s);
}

proof fn lemma_one_part(s: Seq<char>)
    requires
        s.len() > 0,
        !is_ascii_space(s[0]) && s[0] != ',',
    ensures
        match part_read(s) {
            PartRead::Fault(fault) => read_parts(s, false, Seq::empty()) == DurationRead::Fault(
                fault,
            ),
            PartRead::Part { negative, part, len } => len == s.len() ==> read_parts(
                s,
                false,
                Seq::empty(),
            ) == (DurationRead::Duration { negative, parts: seq![part] }),
        },
{
    lemma_run_len(s, CharClass::Separator, 0);
    assert(s.skip(0) =~= s);
    match part_read(s) {
        PartRead::Fault(_) => {},
        PartRead::Part { negative, part, len } => {
            if len == s.len() {
                let rest = s.skip(len as int);
                lemma_read_step(s, 0, false, Seq::empty(), negative, part, len);
                assert(rest =~= Seq::empty());
                lemma_run_len(rest, CharClass::Separator, 0);
                assert(rest.skip(0) =~= rest);
                assert(Seq::<PartView>::empty().push(part) =~= seq![part]);
                assert(read_parts(rest, negative, seq![part]) == DurationRead::Duration {
                    negative,
                    parts: seq![part],
                });
            }
        },
    }
}

/// A blank text is no duration, nor is a number without a unit, nor a word without
/// a number.
#[verifier::rlimit(40)]
pub proof fn law_what_is_no_duration(
    blank: Seq<char>,
    whole: Seq<char>,
    fraction: Option<Seq<char>>,
    word: Seq<char>,
)
    requires
        forall|i: int| 0 <= i < blank.len() ==> is_space(#[trigger] blank[i]),
        are_number_digits(whole, fraction),
        fraction is None || fraction.unwrap().len() > 0,
        word.len() > 0,
        is_letter(word[0]),
        !is_space(word.last()),
    ensures
        duration_read(blank) == DurationRead::Fault(super::error::DurationFault::Empty),
        duration_read(number_text(whole, fraction)) == DurationRead::Fault(
            super::error::DurationFault::MissingUnit,
        ),
        duration_read(word) == DurationRead::Fault(super::error::DurationFault::MissingNumber),
{
    let none = Seq::<char>::empty();
    lemma_all_blank(blank);
    assert(trimmed(blank) =~= none);
    lemma_run_len(none, CharClass::Separator, 0);
    assert(none.skip(0) =~= none);
    assert(read_parts(none, false, Seq::empty()) == DurationRead::Duration {
        negative: false,
        parts: Seq::empty(),
    });
    let number = number_text(whole, fraction);
    lemma_number_length(whole, fraction, none);
    assert(number + none =~= number);
    assert(is_digit(number.last())) by {
        match fraction {
            Some(digits) => {
                assert(number.last() == digits[digits.len() - 1]);
            },
            None => {
                assert(number.last() == whole[whole.len() - 1]);
            },
        }
    }
    lemma_trimmed_same(number);
    let n = number.len() as int;
    assert(number.take(n) =~= number);
    assert(number_read(number) == NumberRead::Found { negative: false, digits: number, len: n as nat });
    let rest = number.skip(n);
    assert(rest =~= none);
    lemma_run_len(none, CharClass::Space, 0);
    lemma_run_len(none, CharClass::Letter, 0);
    lemma_one_part(number);
    lemma_trimmed_same(word);
    lemma_run_len(word, CharClass::Digit, 0);
    assert(unsigned_len(word) == 0);
    assert(number_read(word) is Missing);
    lemma_one_part(word);
}

proof fn lemma_all_blank(s: Seq<char>)
    requires
        forall|i: int| 0 <= i < s.len() ==> is_space(#[trigger] s[i]),
    ensures
        trimmed(s).len() == 0,
    decreases s.len(),
{
    if s.len() > 0 {
        assert(is_space(s[0]));
        assert forall|i: int| 0 <= i < s.drop_first().len() implies is_space(
            #[trigger] s.drop_first()[i],
        ) by {
            assert(is_space(s[i + 1]));
        }
        lemma_all_blank(s.drop_first());
        assert(trimmed(s) == trimmed(s.drop_first()));
    }
}

/// The duration at the front of a text is found where nothing goes on it: a
/// number and a unit, up to what no further part follows.
#[verifier::rlimit(40)]
pub proof fn law_a_duration_at_the_front_is_found(
    whole: Seq<char>,
    fraction: Option<Seq<char>>,
    gap: Seq<char>,
    unit: Seq<char>,
    tail: Seq<char>,
)
    requires
        are_number_digits(whole, fraction),
        forall|i: int| 0 <= i < gap.len() ==> is_ascii_space(#[trigger] gap[i]),
        unit.len() > 0,
        forall|i: int| 0 <= i < unit.len() ==> is_letter(#[trigger] unit[i]),
        unit_spelled(unit) is Some,
        tail.len() == 0 || (!is_letter(tail[0]) && !is_ascii_space(tail[0]) && tail[0] != ','
            && !is_digit(tail[0]) && !is_sign(tail[0]) && tail[0] != '.'),
    ensures
        ({
            let number = number_text(whole, fraction);
            prefix_read(part_text(number, gap, unit) + tail) == Some(
                PrefixRead {
                    negative: false,
                    parts: seq![PartView { number, unit: unit_spelled(unit).unwrap() }],
                    len: part_text(number, gap, unit).len(),
                },
            )
        }),
{
    let number = number_text(whole, fraction);
    let first = part_text(number, gap, unit);
    lemma_starts(whole, fraction, gap, unit, tail);
    lemma_part_text(whole, fraction, gap, unit, tail);
    assert((first + tail).skip(first.len() as int) =~= tail);
    let part = PartView { number, unit: unit_spelled(unit).unwrap() };
    let none = Seq::<PartView>::empty();
    lemma_prefix_ends(first + tail, none, 0, part, first.len(), tail);
    assert(none.push(part) =~= seq![part]);
}

/// A duration can begin with a digit, with a decimal point before a digit, or with
/// a sign before either, and with nothing else.
pub proof fn law_what_a_duration_begins_with(s: Seq<char>)
    ensures
        starts_part(s) <==> {
            ||| s.len() >= 1 && '0' <= s[0] && s[0] <= '9'
            ||| s.len() >= 2 && s[0] == '.' && '0' <= s[1] && s[1] <= '9'
            ||| s.len() >= 2 && (s[0] == '+' || s[0] == '-') && '0' <= s[1] && s[1] <= '9'
            ||| s.len() >= 3 && (s[0] == '+' || s[0] == '-') && s[1] == '.' && '0' <= s[2] && s[2]
                <= '9'
        },
{
    if s.len() > 0 {
        assert(s.skip(1).len() == s.len() - 1);
        assert(s.len() > 1 ==> s.skip(1)[0] == s[1]);
        assert(s.len() > 2 ==> s.skip(1)[1] == s[2]);
    }
}

/// A negative duration is written as the same duration with a minus in front. No
/// time at all is written as no seconds.
pub proof fn law_negative_durations_have_a_minus(millis: nat)
    ensures
        written_duration(true, millis) == seq!['-'] + written_duration(false, millis),
        millis == 0 ==> written_duration(false, millis) == seq!['0', 's'],
{
    reveal_strlit("0s");
    reveal_strlit("-");
    assert("-"@ =~= seq!['-']);
    assert("0s"@ =~= seq!['0', 's']);
}

/// Parts are separated by blanks and commas; a number is made of digits, a unit of
/// letters.
pub proof fn law_characters_of_durations(c: char)
    ensures
        in_class(c, CharClass::Digit) <==> '0' <= c && c <= '9',
        in_class(c, CharClass::Letter) <==> ('a' <= c && c <= 'z') || ('A' <= c && c <= 'Z'),
        in_class(c, CharClass::Space) <==> c == ' ' || c == '\t' || c == '\n' || c == '\r' || c
            == '\u{c}',
        in_class(c, CharClass::Separator) <==> c == ',' || c == ' ' || c == '\t' || c == '\n' || c
            == '\r' || c == '\u{c}',
{
}

/// A minus is accepted on the first part alone: a duration, separators and a
/// number with a minus are none.
pub proof fn law_no_minus_further_behind(a: Seq<char>, gap: Seq<char>, b: Seq<char>)
    requires
        duration_read(a) is Duration,
        a.len() > 0,
        !is_space(a[0]) && !is_space(a.last()),
        gap.len() > 0,
        forall|i: int| 0 <= i < gap.len() ==> in_class(#[trigger] gap[i], CharClass::Separator),
        duration_read(b) is Duration,
        b.len() > 0,
        b[0] == '-' && !is_space(b.last()),
    ensures
        duration_read(a + gap + b) == DurationRead::Fault(
            super::error::DurationFault::InvalidNumber,
        ),
{
    let none = Seq::<PartView>::empty();
    let whole = a + gap + b;
    assert(whole[0] == a[0] && whole.last() == b.last());
    lemma_trimmed_same(a);
    lemma_trimmed_same(b);
    lemma_trimmed_same(whole);
    let more = gap + b;
    assert(whole =~= a + more);
    assert(more[0] == gap[0]);
    lemma_reads_before(a, more, false, none);
    let parts = read_parts(a, false, none)->Duration_parts;
    let g = gap.len() as int;
    assert forall|i: int| 0 <= i < g implies in_class(more[i], CharClass::Separator) by {
        assert(more[i] == gap[i]);
    }
    assert(more[g] == b[0]);
    lemma_run_len(more, CharClass::Separator, g);
    assert(more.skip(g) =~= b);
    lemma_run_len(b, CharClass::Separator, 0);
    assert(b.skip(0) =~= b);
    assert(number_read(b) is Found ==> number_read(b)->negative);
}

/// A number, blanks and a unit that is known.
pub open spec fn is_part_of_duration(
    whole: Seq<char>,
    fraction: Option<Seq<char>>,
    gap: Seq<char>,
    unit: Seq<char>,
) -> bool {
    &&& are_number_digits(whole, fraction)
    &&& forall|i: int| 0 <= i < gap.len() ==> is_ascii_space(#[trigger] gap[i])
    &&& unit.len() > 0
    &&& forall|i: int| 0 <= i < unit.len() ==> is_letter(#[trigger] unit[i])
    &&& unit_spelled(unit) is Some
}

/// The duration at the front of a text goes on as long as a number follows behind
/// separators, and ends with the last unit.
#[verifier::rlimit(40)]
pub proof fn law_durations_at_the_front_go_on(
    whole: Seq<char>,
    fraction: Option<Seq<char>>,
    gap: Seq<char>,
    unit: Seq<char>,
    between: Seq<char>,
    next_whole: Seq<char>,
    next_fraction: Option<Seq<char>>,
    next_gap: Seq<char>,
    next_unit: Seq<char>,
    tail: Seq<char>,
)
    requires
        is_part_of_duration(whole, fraction, gap, unit),
        is_part_of_duration(next_whole, next_fraction, next_gap, next_unit),
        forall|i: int|
            0 <= i < between.len() ==> in_class(#[trigger] between[i], CharClass::Separator),
        tail.len() == 0 || (!is_letter(tail[0]) && !is_ascii_space(tail[0]) && tail[0] != ','
            && !is_digit(tail[0]) && !is_sign(tail[0]) && tail[0] != '.'),
    ensures
        ({
            let number = number_text(whole, fraction);
            let next_number = number_text(next_whole, next_fraction);
            let first = part_text(number, gap, unit);
            let second = part_text(next_number, next_gap, next_unit);
            prefix_read(first + between + second + tail) == Some(
                PrefixRead {
                    negative: false,
                    parts: seq![
                        PartView { number, unit: unit_spelled(unit).unwrap() },
                        PartView {
                            number: next_number,
                            unit: unit_spelled(next_unit).unwrap(),
                        },
                    ],
                    len: first.len() + between.len() + second.len(),
                },
            )
        }),
{
    let number = number_text(whole, fraction);
    let next_number = number_text(next_whole, next_fraction);
    let first = part_text(number, gap, unit);
    let second = part_text(next_number, next_gap, next_unit);
    let next = second + tail;
    let after = between + next;
    lemma_starts(next_whole, next_fraction, next_gap, next_unit, tail);
    lemma_starts(whole, fraction, gap, unit, after);
    if between.len() > 0 {
        assert(after[0] == between[0]);
        assert(in_class(between[0], CharClass::Separator));
    } else {
        assert(after[0] == next[0]);
    }
    lemma_part_text(whole, fraction, gap, unit, after);
    lemma_part_text(next_whole, next_fraction, next_gap, next_unit, tail);
    lemma_front_of_two(
        first,
        between,
        second,
        tail,
        PartView { number, unit: unit_spelled(unit).unwrap() },
        PartView { number: next_number, unit: unit_spelled(next_unit).unwrap() },
    );
}

proof fn lemma_front_of_two(
    first: Seq<char>,
    between: Seq<char>,
    second: Seq<char>,
    tail: Seq<char>,
    part: PartView,
    last: PartView,
)
    requires
        part_read(first + (between + (second + tail))) == (PartRead::Part {
            negative: false,
            part,
            len: first.len(),
        }),
        part_read(second + tail) == (PartRead::Part {
            negative: false,
            part: last,
            len: second.len(),
        }),
        starts_part(first + (between + (second + tail))),
        starts_part(second + tail),
        (second + tail).len() > 0,
        !in_class((second + tail)[0], CharClass::Separator),
        forall|i: int|
            0 <= i < between.len() ==> in_class(#[trigger] between[i], CharClass::Separator),
        tail.len() == 0 || (!is_letter(tail[0]) && !is_ascii_space(tail[0]) && tail[0] != ','
            && !is_digit(tail[0]) && !is_sign(tail[0]) && tail[0] != '.'),
    ensures
        prefix_read(first + between + second + tail) == Some(
            PrefixRead {
                negative: false,
                parts: seq![part, last],
                len: first.len() + between.len() + second.len(),
            },
        ),
{
    let next = second + tail;
    let after = between + next;
    let s = first + after;
    assert(first + between + second + tail =~= s);
    let b = between.len() as int;
    assert(after[b] == next[0]);
    assert forall|i: int| 0 <= i < b implies in_class(after[i], CharClass::Separator) by {
        assert(after[i] == between[i]);
    }
    lemma_run_len(after, CharClass::Separator, b);
    assert(s.skip(first.len() as int) =~= after);
    assert(after.skip(b) =~= next);
    let none = Seq::<PartView>::empty();
    let so_far = none.push(part);
    lemma_prefix_goes_on(s, none, 0, part, first.len(), between.len(), next);
    assert(next.skip(second.len() as int) =~= tail);
    lemma_prefix_ends(next, so_far, first.len() + between.len(), last, second.len(), tail);
    assert(so_far.push(last) =~= seq![part, last]);
}

proof fn lemma_prefix_goes_on(
    s: Seq<char>,
    parts: Seq<PartView>,
    before: nat,
    part: PartView,
    len: nat,
    gap: nat,
    next: Seq<char>,
)
    requires
        part_read(s) == (PartRead::Part { negative: false, part, len }),
        run_len(s.skip(len as int), CharClass::Separator) == gap,
        s.skip(len as int).skip(gap as int) == next,
        starts_part(next),
    ensures
        read_prefix(s, false, parts, before) == read_prefix(
            next,
            false,
            parts.push(part),
            before + len + gap,
        ),
{
}

proof fn lemma_prefix_ends(
    s: Seq<char>,
    parts: Seq<PartView>,
    before: nat,
    part: PartView,
    len: nat,
    tail: Seq<char>,
)
    requires
        part_read(s) == (PartRead::Part { negative: false, part, len }),
        s.skip(len as int) == tail,
        tail.len() == 0 || (!is_letter(tail[0]) && !is_ascii_space(tail[0]) && tail[0] != ','
            && !is_digit(tail[0]) && !is_sign(tail[0]) && tail[0] != '.'),
    ensures
        read_prefix(s, false, parts, before) == Some(
            PrefixRead { negative: false, parts: parts.push(part), len: before + len },
        ),
{
    lemma_run_len(tail, CharClass::Separator, 0);
    assert(tail.skip(0) =~= tail);
    assert(!starts_part(tail));
}

proof fn lemma_starts(
    whole: Seq<char>,
    fraction: Option<Seq<char>>,
    gap: Seq<char>,
    unit: Seq<char>,
    tail: Seq<char>,
)
    requires
        is_part_of_duration(whole, fraction, gap, unit),
    ensures
        ({
            let s = part_text(number_text(whole, fraction), gap, unit) + tail;
            &&& s.len() > 0
            &&& starts_part(s)
            &&& !is_letter(s[0])
            &&& !in_class(s[0], CharClass::Separator)
        }),
{
    let number = number_text(whole, fraction);
    let rest = gap + unit + tail;
    if gap.len() > 0 {
        assert(rest[0] == gap[0]);
    } else {
        assert(rest[0] == unit[0]);
        assert(is_letter(unit[0]));
    }
    lemma_number_length(whole, fraction, rest);
    let s = part_text(number, gap, unit) + tail;
    assert(s =~= number + rest);
    assert(s[0] == number[0]);
}

} // verus!
