//! Byte offsets to zero-based (line, column) positions, where a column counts
//! characters (Unicode scalar values) from the start of its line and a line
//! ends at each `\n`. The text is held in a `ropey::Rope`.

use vstd::prelude::*;
use vstd::utf8::encode_scalar;
use crate::model::Span;
use crate::text::{byte_len, byte_offset, lemma_byte_offset_mono};

verus! {

#[verifier::external_type_specification]
#[verifier::external_body]
pub struct ExRope(ropey::Rope);

/// The characters that a rope holds.
pub uninterp spec fn rope_text(r: ropey::Rope) -> Seq<char>;

/// The number of characters of `s` that lie wholly within its first `b` bytes.
pub open spec fn chars_within(s: Seq<char>, b: int) -> nat
    decreases s.len(),
{
    if s.len() == 0 || b < encode_scalar(s[0] as u32).len() {
        0
    } else {
        1 + chars_within(s.drop_first(), b - encode_scalar(s[0] as u32).len())
    }
}

/// The number of line breaks among the first `k` characters of `s`.
pub open spec fn newlines_before(s: Seq<char>, k: int) -> nat
    decreases s.len(),
{
    if k <= 0 || s.len() == 0 {
        0
    } else {
        (if s[0] == '\n' {
            1nat
        } else {
            0nat
        }) + newlines_before(s.drop_first(), k - 1)
    }
}

/// The index of the first character of line `l` of `s`, for a line that exists.
pub open spec fn line_start(s: Seq<char>, l: int) -> int
    decreases s.len(),
{
    if l <= 0 || s.len() == 0 {
        0
    } else if s[0] == '\n' {
        1 + line_start(s.drop_first(), l - 1)
    } else {
        1 + line_start(s.drop_first(), l)
    }
}

/// Relies on `ropey::Rope::from_str`: the rope holds exactly the characters of `s`.
#[verifier::external_body]
fn rope_from_str(s: &str) -> (r: ropey::Rope)
    ensures
        rope_text(r) == s@,
{
    ropey::Rope::from_str(s)
}

/// Relies on `ropey::Rope::byte_to_line`: with only `\n` as a line break, the
/// line of a byte is the number of line breaks before it. It panics past the
/// end, which `requires` leaves out.
#[verifier::external_body]
fn rope_byte_to_line(r: &ropey::Rope, b: usize) -> (l: usize)
    requires
        b <= byte_len(rope_text(*r)),
    ensures
        l == newlines_before(rope_text(*r), chars_within(rope_text(*r), b as int) as int),
{
    r.byte_to_line(b)
}

/// Relies on `ropey::Rope::line_to_byte`: the byte offset where line `l` starts.
/// It panics past the last line, which `requires` leaves out.
#[verifier::external_body]
fn rope_line_to_byte(r: &ropey::Rope, l: usize) -> (b: usize)
    requires
        l <= newlines_before(rope_text(*r), rope_text(*r).len() as int),
    ensures
        b == byte_offset(rope_text(*r), line_start(rope_text(*r), l as int)),
{
    r.line_to_byte(l)
}

/// Relies on `ropey::Rope::byte_to_char`: the index of the character that byte
/// `b` falls in, which is the number of characters wholly before it. It
/// panics past the end, which `requires` leaves out.
#[verifier::external_body]
fn rope_byte_to_char(r: &ropey::Rope, b: usize) -> (c: usize)
    requires
        b <= byte_len(rope_text(*r)),
    ensures
        c == chars_within(rope_text(*r), b as int),
{
    r.byte_to_char(b)
}

proof fn lemma_chars_within_offset(s: Seq<char>, k: int)
    requires
        0 <= k <= s.len(),
    ensures
        chars_within(s, byte_offset(s, k) as int) == k,
    decreases s.len(),
{
    if s.len() > 0 {
        assert(encode_scalar(s[0] as u32).len() >= 1);
        if k > 0 {
            let t = s.take(k);
            assert(t[0] == s[0]);
            assert(t.drop_first() =~= s.drop_first().take(k - 1));
            lemma_chars_within_offset(s.drop_first(), k - 1);
        } else {
            assert(s.take(0) =~= Seq::<char>::empty());
        }
    } else {
        assert(s.take(k) =~= Seq::<char>::empty());
    }
}

proof fn lemma_chars_within_len(s: Seq<char>, b: int)
    ensures
        chars_within(s, b) <= s.len(),
    decreases s.len(),
{
    if s.len() > 0 {
        lemma_chars_within_len(s.drop_first(), b - encode_scalar(s[0] as u32).len());
    }
}

proof fn lemma_newlines_mono(s: Seq<char>, a: int, b: int)
    requires
        a <= b,
    ensures
        newlines_before(s, a) <= newlines_before(s, b),
    decreases s.len(),
{
    if s.len() > 0 && a > 0 {
        lemma_newlines_mono(s.drop_first(), a - 1, b - 1);
    }
}

proof fn lemma_line_start_before(s: Seq<char>, c: int)
    requires
        0 <= c <= s.len(),
    ensures
        0 <= line_start(s, newlines_before(s, c) as int) <= c,
    decreases s.len(),
{
    if c > 0 && s.len() > 0 {
        lemma_line_start_before(s.drop_first(), c - 1);
    }
}

pub proof fn lemma_chars_within_mono(s: Seq<char>, a: int, b: int)
    requires
        a <= b,
    ensures
        chars_within(s, a) <= chars_within(s, b),
    decreases s.len(),
{
    if s.len() > 0 && a >= encode_scalar(s[0] as u32).len() {
        let w = encode_scalar(s[0] as u32).len() as int;
        lemma_chars_within_mono(s.drop_first(), a - w, b - w);
    }
}

/// The line and column of byte offset `off` of `s`.
pub open spec fn position_of(s: Seq<char>, off: int) -> (usize, usize) {
    let c = chars_within(s, off) as int;
    let l = newlines_before(s, c) as int;
    (l as usize, (c - line_start(s, l)) as usize)
}

pub proof fn lemma_position_mono(s: Seq<char>, a: int, b: int)
    requires
        0 <= a <= b,
    ensures
        ({
            let ca = chars_within(s, a) as int;
            let cb = chars_within(s, b) as int;
            &&& ca <= cb
            &&& newlines_before(s, ca) <= newlines_before(s, cb)
            &&& newlines_before(s, ca) == newlines_before(s, cb) ==> line_start(s, newlines_before(s, ca) as int)
                == line_start(s, newlines_before(s, cb) as int)
        }),
{
    lemma_chars_within_mono(s, a, b);
    lemma_newlines_mono(s, chars_within(s, a) as int, chars_within(s, b) as int);
}

/// The source text, indexed for position lookups.
pub struct SourceMap {
    rope: ropey::Rope,
    len: usize,
}

impl SourceMap {
    /// The text the map was built from.
    pub closed spec fn text(&self) -> Seq<char> {
        rope_text(self.rope)
    }

    pub closed spec fn wf(&self) -> bool {
        self.len == byte_len(rope_text(self.rope))
    }

    pub fn new(text: &str) -> (r: SourceMap)
        ensures
            r.text() == text@,
            r.wf(),
            byte_len(text@) <= usize::MAX,
    {
        let len = text.as_bytes().len();
        SourceMap { rope: rope_from_str(text), len }
    }

    /// The length of the text in bytes.
    pub fn len_bytes(&self) -> (r: usize)
        requires
            self.wf(),
        ensures
            r == byte_len(self.text()),
    {
        self.len
    }

    /// The number of characters wholly before byte `off`.
    pub fn char_index(&self, off: usize) -> (r: usize)
        requires
            off <= byte_len(self.text()),
        ensures
            r == chars_within(self.text(), off as int),
    {
        rope_byte_to_char(&self.rope, off)
    }

    /// The line and column of `off`, or of the end of the text for an offset past it.
    pub fn position(&self, off: usize) -> (r: (usize, usize))
        requires
            self.wf(),
        ensures
            r == position_of(self.text(), if off <= byte_len(self.text()) {
                off as int
            } else {
                byte_len(self.text()) as int
            }),
    {
        let o = if off <= self.len {
            off
        } else {
            self.len
        };
        proof {
            lemma_chars_within_len(self.text(), o as int);
            lemma_line_start_before(self.text(), chars_within(self.text(), o as int) as int);
        }
        self.offset_to_lc(o)
    }

    /// The zero-based line of byte offset `off`, and its column in characters
    /// from the start of that line.
    pub fn offset_to_lc(&self, off: usize) -> (r: (usize, usize))
        requires
            off <= byte_len(self.text()),
        ensures
            ({
                let c = chars_within(self.text(), off as int) as int;
                &&& r.0 == newlines_before(self.text(), c)
                &&& r.1 == c - line_start(self.text(), r.0 as int)
            }),
    {
        let ghost s = self.text();
        let ghost c = chars_within(s, off as int) as int;
        proof {
            lemma_chars_within_len(s, off as int);
            lemma_newlines_mono(s, c, s.len() as int);
            lemma_line_start_before(s, c);
        }
        let line = rope_byte_to_line(&self.rope, off);
        let start = rope_line_to_byte(&self.rope, line);
        proof {
            let k = line_start(s, line as int);
            lemma_byte_offset_mono(s, k, s.len() as int);
            assert(s.take(s.len() as int) =~= s);
            lemma_chars_within_offset(s, k);
        }
        let c_off = rope_byte_to_char(&self.rope, off);
        let c_start = rope_byte_to_char(&self.rope, start);
        (line, c_off - c_start)
    }

    /// The positions of the start and end of `span`.
    pub fn span_to_range(&self, span: Span) -> (r: ((usize, usize), (usize, usize)))
        requires
            span.start <= byte_len(self.text()),
            span.end <= byte_len(self.text()),
        ensures
            ({
                let a = chars_within(self.text(), span.start as int) as int;
                let b = chars_within(self.text(), span.end as int) as int;
                &&& r.0.0 == newlines_before(self.text(), a)
                &&& r.0.1 == a - line_start(self.text(), r.0.0 as int)
                &&& r.1.0 == newlines_before(self.text(), b)
                &&& r.1.1 == b - line_start(self.text(), r.1.0 as int)
            }),
    {
        (self.offset_to_lc(span.start), self.offset_to_lc(span.end))
    }
}

} // verus!
