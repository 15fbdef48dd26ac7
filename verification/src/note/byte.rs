//! Places in a text by their byte offsets.

use vstd::prelude::*;
use vstd::string::*;
use vstd::utf8::{encode_utf8, is_char_boundary};

verus! {

/// The first position at or after `from` where `hay` holds `needle`.
pub open spec fn first_occurrence(hay: Seq<u8>, needle: Seq<u8>, at: int, from: int) -> bool {
    &&& from <= at <= hay.len() - needle.len()
    &&& hay.subrange(at, at + needle.len()) == needle
    &&& forall|i: int|
        from <= i < at ==> #[trigger] hay.subrange(i, i + needle.len()) != needle
}

/// `hay` holds `needle` nowhere at or after `from`.
pub open spec fn no_occurrence(hay: Seq<u8>, needle: Seq<u8>, from: int) -> bool {
    forall|i: int|
        from <= i <= hay.len() - needle.len() ==> #[trigger] hay.subrange(i, i + needle.len())
            != needle
}

/// Whether `hay` holds `needle` at `at`.
fn holds_at(hay: &[u8], needle: &[u8], at: usize) -> (found: bool)
    requires
        at + needle@.len() <= hay@.len(),
    ensures
        found == (hay@.subrange(at as int, at + needle@.len()) == needle@),
{
    let ghost piece = hay@.subrange(at as int, at + needle@.len());
    let total: usize = hay.len();
    let mut i: usize = 0;
    while i < needle.len()
        invariant
            total == hay@.len(),
            i <= needle@.len(),
            at + needle@.len() <= hay@.len(),
            piece == hay@.subrange(at as int, at + needle@.len()),
            forall|k: int| 0 <= k < i ==> piece[k] == needle@[k],
        decreases needle@.len() - i,
    {
        if hay[at + i] != needle[i] {
            assert(piece[i as int] != needle@[i as int]);
            return false;
        }
        i = i + 1;
    }
    assert(piece =~= needle@);
    true
}

/// The byte offset of the first place where `hay` holds `needle`.
fn find_text(hay: &str, needle: &str) -> (at: Option<usize>)
    ensures
        match at {
            Some(offset) => first_occurrence(
                hay.spec_bytes(),
                needle.spec_bytes(),
                offset as int,
                0,
            ),
            None => no_occurrence(hay.spec_bytes(), needle.spec_bytes(), 0),
        },
{
    let hay_bytes = hay.as_bytes();
    let needle_bytes = needle.as_bytes();
    if needle_bytes.len() > hay_bytes.len() {
        return None;
    }
    let last: usize = hay_bytes.len() - needle_bytes.len();
    let mut at: usize = 0;
    while at <= last
        invariant
            hay_bytes@ == hay.spec_bytes(),
            needle_bytes@ == needle.spec_bytes(),
            last == hay_bytes@.len() - needle_bytes@.len(),
            at <= last + 1,
            forall|i: int|
                0 <= i < at ==> #[trigger] hay_bytes@.subrange(i, i + needle_bytes@.len())
                    != needle_bytes@,
        decreases last + 1 - at,
    {
        if holds_at(hay_bytes, needle_bytes, at) {
            return Some(at);
        }
        if at == last {
            return None;
        }
        at = at + 1;
    }
    None
}

/// A range of bytes in a source text.
#[derive(Copy, Clone, Debug, PartialEq, Eq, Structural)]
pub struct ByteRange {
    start: usize,
    end: usize,
}

/// Contents of a [`ByteRange`].
pub struct ByteRangeView {
    /// Offset of the first byte.
    pub start: usize,
    /// Offset behind the last byte.
    pub end: usize,
}

impl View for ByteRange {
    type V = ByteRangeView;

    closed spec fn view(&self) -> ByteRangeView {
        ByteRangeView { start: self.start, end: self.end }
    }
}

impl ByteRange {
    /// The bytes from `start` up to `end`.
    pub fn new(start: usize, end: usize) -> (range: Self)
        ensures
            range@ == (ByteRangeView { start, end }),
    {
        ByteRange { start, end }
    }

    /// Offset of the first byte.
    pub fn start(&self) -> (start: usize)
        ensures
            start == self@.start,
    {
        self.start
    }

    /// Offset behind the last byte.
    pub fn end(&self) -> (end: usize)
        ensures
            end == self@.end,
    {
        self.end
    }

    /// The range for slicing.
    pub fn range(&self) -> (range: core::ops::Range<usize>)
        ensures
            range.start == self@.start,
            range.end == self@.end,
    {
        self.start..self.end
    }
}

/// A source text that is read by byte offsets.
#[derive(Copy, Clone, Debug)]
pub struct ByteSource<'a> {
    source: &'a str,
}

impl<'a> View for ByteSource<'a> {
    type V = Seq<u8>;

    closed spec fn view(&self) -> Seq<u8> {
        self.source.spec_bytes()
    }
}

impl<'a> ByteSource<'a> {
    /// Reads `source` by byte offsets.
    pub fn new(source: &'a str) -> (bytes: Self)
        ensures
            bytes@ == encode_utf8(source@),
    {
        ByteSource { source }
    }

    /// Number of bytes.
    pub fn len(&self) -> (len: usize)
        ensures
            len == self@.len(),
    {
        self.source.as_bytes().len()
    }

    /// The text from `pos` on, where that is between two characters.
    pub fn from(&self, pos: usize) -> (rest: Option<&'a str>)
        ensures
            match rest {
                Some(text) => pos <= self@.len() && is_char_boundary(self@, pos as int)
                    && encode_utf8(text@)
                    == self@.subrange(pos as int, self@.len() as int),
                None => !is_char_boundary(self@, pos as int),
            },
    {
        proof {
            vstd::utf8::encode_utf8_valid_utf8(self.source@);
        }
        if self.source.is_char_boundary(pos) {
            Some(self.source.split_at(pos).1)
        } else {
            None
        }
    }

    /// The text of `range`, where both ends are between two characters.
    pub fn get(&self, range: core::ops::Range<usize>) -> (text: Option<&'a str>)
        ensures
            match text {
                Some(part) => {
                    &&& range.start <= range.end <= self@.len()
                    &&& is_char_boundary(self@, range.start as int)
                    &&& is_char_boundary(self@, range.end as int)
                    &&& encode_utf8(part@) == self@.subrange(range.start as int, range.end as int)
                },
                None => range.start > range.end || !is_char_boundary(self@, range.start as int)
                    || !is_char_boundary(self@, range.end as int),
            },
    {
        proof {
            vstd::utf8::encode_utf8_valid_utf8(self.source@);
        }
        let start: usize = range.start;
        let end: usize = range.end;
        if start > end || !self.source.is_char_boundary(start) || !self.source.is_char_boundary(
            end,
        ) {
            return None;
        }
        let head = self.source.split_at(end).0;
        proof {
            let whole = self@;
            let part = head.spec_bytes();
            vstd::utf8::encode_utf8_valid_utf8(head@);
            if start < end {
                vstd::utf8::is_char_boundary_iff_not_is_continuation_byte(whole, start as int);
                vstd::utf8::is_char_boundary_iff_not_is_continuation_byte(part, start as int);
                assert(part[start as int] == whole[start as int]);
            } else {
                vstd::utf8::is_char_boundary_start_end_of_seq(part);
            }
        }
        let text = head.split_at(start).1;
        assert(text.spec_bytes() =~= self@.subrange(start as int, end as int));
        Some(text)
    }

    /// The offset of the first `needle` at or after `pos`.
    pub fn find_char_from(&self, pos: usize, needle: char) -> (at: Option<usize>)
        ensures
            match at {
                Some(offset) => is_char_boundary(self@, pos as int) && first_occurrence(
                    self@,
                    encode_utf8(seq![needle]),
                    offset as int,
                    pos as int,
                ),
                None => !is_char_boundary(self@, pos as int) || no_occurrence(
                    self@,
                    encode_utf8(seq![needle]),
                    pos as int,
                ),
            },
    {
        let mut text = String::new();
        text.push(needle);
        assert(text@ =~= seq![needle]);
        self.find_str_from(pos, text.as_str())
    }

    /// The offset behind `ch` at `pos`.
    pub fn advance_char(&self, pos: usize, ch: char) -> (end: usize)
        requires
            pos + encode_utf8(seq![ch]).len() <= usize::MAX,
        ensures
            end == pos + encode_utf8(seq![ch]).len(),
    {
        let mut text = String::new();
        text.push(ch);
        assert(text@ =~= seq![ch]);
        pos + text.as_str().as_bytes().len()
    }

    /// The offset of the first `needle` at or after `pos`.
    pub fn find_str_from(&self, pos: usize, needle: &str) -> (at: Option<usize>)
        ensures
            match at {
                Some(offset) => is_char_boundary(self@, pos as int) && first_occurrence(
                    self@,
                    encode_utf8(needle@),
                    offset as int,
                    pos as int,
                ),
                None => !is_char_boundary(self@, pos as int) || no_occurrence(
                    self@,
                    encode_utf8(needle@),
                    pos as int,
                ),
            },
    {
        let rest = match self.from(pos) {
            Some(rest) => rest,
            None => return None,
        };
        let whole = self.source.as_bytes();
        let n: usize = whole.len();
        let ghost hay = self@;
        let ghost tail = rest.spec_bytes();
        let ghost pattern = needle.spec_bytes();
        proof {
            assert forall|i: int|
                0 <= i <= tail.len() - pattern.len() implies #[trigger] tail.subrange(
                i,
                i + pattern.len(),
            ) == hay.subrange(pos + i, pos + i + pattern.len()) by {
                assert(tail.subrange(i, i + pattern.len()) =~= hay.subrange(
                    pos + i,
                    pos + i + pattern.len(),
                ));
            }
        }
        match find_text(rest, needle) {
            Some(offset) => {
                proof {
                    let at = pos + offset;
                    assert(hay.subrange(at, at + pattern.len()) == pattern) by {
                        assert(tail.subrange(offset as int, offset + pattern.len()) == pattern);
                    }
                    assert forall|i: int| pos <= i < at implies #[trigger] hay.subrange(
                        i,
                        i + pattern.len(),
                    ) != pattern by {
                        assert(tail.subrange(i - pos, i - pos + pattern.len()) == hay.subrange(
                            i,
                            i + pattern.len(),
                        ));
                    }
                }
                Some(pos + offset)
            },
            None => {
                assert forall|i: int| pos <= i <= hay.len() - pattern.len() implies #[trigger]
                    hay.subrange(i, i + pattern.len()) != pattern by {
                    assert(tail.subrange(i - pos, i - pos + pattern.len()) == hay.subrange(
                        i,
                        i + pattern.len(),
                    ));
                }
                None
            },
        }
    }

    /// Whether the text at `pos` starts with `needle`.
    pub fn starts_with(&self, pos: usize, needle: &str) -> (found: bool)
        ensures
            found == (is_char_boundary(self@, pos as int) && pos + encode_utf8(needle@).len()
                <= self@.len() && self@.subrange(
                pos as int,
                pos + encode_utf8(needle@).len(),
            ) == encode_utf8(needle@)),
    {
        let rest = match self.from(pos) {
            Some(rest) => rest,
            None => return false,
        };
        let a = rest.as_bytes();
        let b = needle.as_bytes();
        let n: usize = b.len();
        let ghost hay = self@;
        if a.len() < n {
            return false;
        }
        let mut i: usize = 0;
        while i < n
            invariant
                i <= n,
                n == b@.len(),
                n <= a@.len(),
                hay == self@,
                b@ == encode_utf8(needle@),
                a@ == hay.subrange(pos as int, hay.len() as int),
                0 <= pos <= hay.len(),
                forall|k: int| 0 <= k < i ==> a@[k] == b@[k],
            decreases n - i,
        {
            if a[i] != b[i] {
                proof {
                    if hay.subrange(pos as int, pos + n) == b@ {
                        assert(hay.subrange(pos as int, pos + n)[i as int] == a@[i as int]);
                    }
                }
                return false;
            }
            i = i + 1;
        }
        assert(hay.subrange(pos as int, pos + n) =~= b@);
        true
    }
}

} // verus!
