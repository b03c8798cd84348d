//! The lexer: source text to tokens with byte spans, skipping whitespace and
//! line comments, and recovering past characters it does not recognise.

use vstd::prelude::*;
use crate::model::Span;
use crate::text::{
    byte_offset, chars_of, lemma_byte_offset_mono, lemma_byte_offset_step, text_eq, utf8_width,
};
use vstd::utf8::encode_utf8;

verus! {

#[derive(Debug, PartialEq, Eq)]
pub enum Token {
    Type,
    Relations,
    SelfRef,
    Define,
    And,
    Or,
    From,
    As,
    But,
    Not,
    OpenParenthesis,
    CloseParenthesis,
    Identifier(String),
}

pub ghost enum TokenView {
    Type,
    Relations,
    SelfRef,
    Define,
    And,
    Or,
    From,
    As,
    But,
    Not,
    OpenParenthesis,
    CloseParenthesis,
    Identifier(Seq<char>),
}

impl View for Token {
    type V = TokenView;

    open spec fn view(&self) -> TokenView {
        match self {
            Token::Type => TokenView::Type,
            Token::Relations => TokenView::Relations,
            Token::SelfRef => TokenView::SelfRef,
            Token::Define => TokenView::Define,
            Token::And => TokenView::And,
            Token::Or => TokenView::Or,
            Token::From => TokenView::From,
            Token::As => TokenView::As,
            Token::But => TokenView::But,
            Token::Not => TokenView::Not,
            Token::OpenParenthesis => TokenView::OpenParenthesis,
            Token::CloseParenthesis => TokenView::CloseParenthesis,
            Token::Identifier(s) => TokenView::Identifier(s@),
        }
    }
}

impl Clone for Token {
    fn clone(&self) -> (r: Self)
        ensures
            r@ == self@,
    {
        match self {
            Token::Type => Token::Type,
            Token::Relations => Token::Relations,
            Token::SelfRef => Token::SelfRef,
            Token::Define => Token::Define,
            Token::And => Token::And,
            Token::Or => Token::Or,
            Token::From => Token::From,
            Token::As => Token::As,
            Token::But => Token::But,
            Token::Not => Token::Not,
            Token::OpenParenthesis => Token::OpenParenthesis,
            Token::CloseParenthesis => Token::CloseParenthesis,
            Token::Identifier(s) => Token::Identifier(s.clone()),
        }
    }
}

/// A character the lexer did not recognise, by its byte span.
#[derive(Debug, Clone, Copy, PartialEq, Eq, Structural)]
pub struct LexError {
    pub span: Span,
}

pub open spec fn is_ident_start(c: char) -> bool {
    ('a' <= c && c <= 'z') || ('A' <= c && c <= 'Z') || c == '_'
}

pub open spec fn is_ident_char(c: char) -> bool {
    is_ident_start(c) || ('0' <= c && c <= '9')
}

/// Unicode `White_Space`.
pub open spec fn is_space(c: char) -> bool {
    ('\u{9}' <= c && c <= '\u{d}') || c == ' ' || c == '\u{85}' || c == '\u{a0}' || c == '\u{1680}'
        || ('\u{2000}' <= c && c <= '\u{200a}') || c == '\u{2028}' || c == '\u{2029}' || c
        == '\u{202f}' || c == '\u{205f}' || c == '\u{3000}'
}

/// The token that a word spells: a keyword, or else an identifier.
pub open spec fn word_token(w: Seq<char>) -> TokenView {
    if w == "type"@ {
        TokenView::Type
    } else if w == "relations"@ {
        TokenView::Relations
    } else if w == "self"@ {
        TokenView::SelfRef
    } else if w == "define"@ {
        TokenView::Define
    } else if w == "and"@ {
        TokenView::And
    } else if w == "or"@ {
        TokenView::Or
    } else if w == "from"@ {
        TokenView::From
    } else if w == "as"@ {
        TokenView::As
    } else if w == "but"@ {
        TokenView::But
    } else if w == "not"@ {
        TokenView::Not
    } else {
        TokenView::Identifier(w)
    }
}

/// What a segment of the source is.
pub ghost enum SegmentKind {
    Space,
    Comment,
    Punct,
    Word,
    Bad,
}

/// The end of the run of identifier characters that starts at or after `i`.
pub open spec fn word_end(s: Seq<char>, i: int) -> int
    decreases s.len() - i,
{
    if i >= s.len() || !is_ident_char(s[i]) {
        i
    } else {
        word_end(s, i + 1)
    }
}

/// The position of the first newline at or after `i`, or the end.
pub open spec fn line_end(s: Seq<char>, i: int) -> int
    decreases s.len() - i,
{
    if i >= s.len() || s[i] == '\n' {
        i
    } else {
        line_end(s, i + 1)
    }
}

/// The kind of the segment that starts at character `i`.
pub open spec fn segment_kind(s: Seq<char>, i: int) -> SegmentKind {
    if is_space(s[i]) {
        SegmentKind::Space
    } else if s[i] == '/' && i + 1 < s.len() && s[i + 1] == '/' {
        SegmentKind::Comment
    } else if s[i] == '(' || s[i] == ')' {
        SegmentKind::Punct
    } else if is_ident_start(s[i]) {
        SegmentKind::Word
    } else {
        SegmentKind::Bad
    }
}

/// The end of the segment that starts at character `i`: a comment runs to
/// the end of its line, a word over all its identifier characters, anything
/// else is one character.
pub open spec fn segment_end(s: Seq<char>, i: int) -> int {
    match segment_kind(s, i) {
        SegmentKind::Comment => line_end(s, i + 2),
        SegmentKind::Word => word_end(s, i + 1),
        _ => i + 1,
    }
}

/// The byte span of characters `[lo, hi)` of `s`.
pub open spec fn byte_span(s: Seq<char>, lo: int, hi: int) -> Span {
    Span { start: byte_offset(s, lo) as usize, end: byte_offset(s, hi) as usize }
}

/// The token of a punctuation or word segment `[lo, hi)`.
pub open spec fn segment_token(s: Seq<char>, lo: int, hi: int) -> TokenView {
    if s[lo] == '(' {
        TokenView::OpenParenthesis
    } else if s[lo] == ')' {
        TokenView::CloseParenthesis
    } else {
        word_token(s.subrange(lo, hi))
    }
}

pub proof fn lemma_word_end(s: Seq<char>, i: int)
    ensures
        i <= word_end(s, i),
        i <= s.len() ==> word_end(s, i) <= s.len(),
        word_end(s, i) < s.len() ==> !is_ident_char(s[word_end(s, i)]),
        forall|j: int| i <= j < word_end(s, i) ==> is_ident_char(#[trigger] s[j]),
    decreases s.len() - i,
{
    if !(i >= s.len() || !is_ident_char(s[i])) {
        lemma_word_end(s, i + 1);
    }
}

pub proof fn lemma_line_end(s: Seq<char>, i: int)
    ensures
        i <= line_end(s, i),
        i <= s.len() ==> line_end(s, i) <= s.len(),
        line_end(s, i) < s.len() ==> s[line_end(s, i)] == '\n',
        forall|j: int| i <= j < line_end(s, i) ==> #[trigger] s[j] != '\n',
    decreases s.len() - i,
{
    if !(i >= s.len() || s[i] == '\n') {
        lemma_line_end(s, i + 1);
    }
}

pub proof fn lemma_segment_end(s: Seq<char>, i: int)
    requires
        0 <= i < s.len(),
    ensures
        i < segment_end(s, i) <= s.len(),
{
    lemma_word_end(s, i + 1);
    lemma_line_end(s, i + 2);
}

#[via_fn]
proof fn scan_decreases(s: Seq<char>, i: int) {
    if 0 <= i < s.len() {
        lemma_segment_end(s, i);
    }
}

/// The tokens and errors of `s` from character `i` on.
pub open spec fn scan(s: Seq<char>, i: int) -> (Seq<(TokenView, Span)>, Seq<LexError>)
    decreases s.len() - i via scan_decreases
{
    if i < 0 || i >= s.len() {
        (Seq::empty(), Seq::empty())
    } else {
        let e = segment_end(s, i);
        let rest = scan(s, e);
        match segment_kind(s, i) {
            SegmentKind::Punct | SegmentKind::Word => (
                seq![(segment_token(s, i, e), byte_span(s, i, e))] + rest.0,
                rest.1,
            ),
            SegmentKind::Bad => (rest.0, seq![LexError { span: byte_span(s, i, e) }] + rest.1),
            _ => rest,
        }
    }
}

pub open spec fn token_views(ts: Seq<(Token, Span)>) -> Seq<(TokenView, Span)> {
    Seq::new(ts.len(), |i: int| (ts[i].0@, ts[i].1))
}

fn space_char(c: char) -> (r: bool)
    ensures
        r == is_space(c),
{
    ('\u{9}' <= c && c <= '\u{d}') || c == ' ' || c == '\u{85}' || c == '\u{a0}' || c == '\u{1680}'
        || ('\u{2000}' <= c && c <= '\u{200a}') || c == '\u{2028}' || c == '\u{2029}' || c
        == '\u{202f}' || c == '\u{205f}' || c == '\u{3000}'
}

fn ident_start_char(c: char) -> (r: bool)
    ensures
        r == is_ident_start(c),
{
    ('a' <= c && c <= 'z') || ('A' <= c && c <= 'Z') || c == '_'
}

fn ident_char(c: char) -> (r: bool)
    ensures
        r == is_ident_char(c),
{
    ident_start_char(c) || ('0' <= c && c <= '9')
}

/// The token that the word `w` spells.
fn word_to_token(w: &str) -> (r: Token)
    ensures
        r@ == word_token(w@),
{
    if text_eq(w, "type") {
        Token::Type
    } else if text_eq(w, "relations") {
        Token::Relations
    } else if text_eq(w, "self") {
        Token::SelfRef
    } else if text_eq(w, "define") {
        Token::Define
    } else if text_eq(w, "and") {
        Token::And
    } else if text_eq(w, "or") {
        Token::Or
    } else if text_eq(w, "from") {
        Token::From
    } else if text_eq(w, "as") {
        Token::As
    } else if text_eq(w, "but") {
        Token::But
    } else if text_eq(w, "not") {
        Token::Not
    } else {
        Token::Identifier(String::from_str(w))
    }
}

/// The byte offset of character `j`, counted on from that of character `i`.
fn advance_bytes(cs: &Vec<char>, i: usize, j: usize, b: usize) -> (r: usize)
    requires
        i <= j <= cs@.len(),
        b == byte_offset(cs@, i as int),
        byte_offset(cs@, cs@.len() as int) <= usize::MAX,
    ensures
        r == byte_offset(cs@, j as int),
{
    let mut k: usize = i;
    let mut r: usize = b;
    while k < j
        invariant
            i <= k <= j <= cs@.len(),
            r == byte_offset(cs@, k as int),
            byte_offset(cs@, cs@.len() as int) <= usize::MAX,
        decreases j - k,
    {
        proof {
            lemma_byte_offset_step(cs@, k as int);
            lemma_byte_offset_mono(cs@, k + 1, cs@.len() as int);
        }
        r = r + utf8_width(cs[k]);
        k = k + 1;
    }
    r
}

/// Splits `src` into tokens with their byte spans, and the spans of the
/// characters that start no token, whitespace or comment.
pub fn lexer(src: &str) -> (r: (Vec<(Token, Span)>, Vec<LexError>))
    ensures
        token_views(r.0@) == scan(src@, 0).0,
        r.1@ == scan(src@, 0).1,
{
    let ghost s = src@;
    let cs = chars_of(src);
    let total = src.as_bytes().len();
    proof {
        assert(s.take(s.len() as int) =~= s);
    }
    let n = cs.len();
    let mut i: usize = 0;
    let mut b: usize = 0;
    let mut toks: Vec<(Token, Span)> = Vec::new();
    let mut errs: Vec<LexError> = Vec::new();
    proof {
        assert(s.take(0) =~= Seq::<char>::empty());
        assert(encode_utf8(Seq::<char>::empty()) =~= Seq::<u8>::empty());
        assert(token_views(toks@) + scan(s, 0).0 =~= scan(s, 0).0);
        assert(errs@ + scan(s, 0).1 =~= scan(s, 0).1);
    }
    while i < n
        invariant
            s == src@,
            cs@ == s,
            n == s.len(),
            0 <= i <= n,
            b == byte_offset(s, i as int),
            byte_offset(s, n as int) <= usize::MAX,
            token_views(toks@) + scan(s, i as int).0 == scan(s, 0).0,
            errs@ + scan(s, i as int).1 == scan(s, 0).1,
        decreases n - i,
    {
        let c = cs[i];
        let ghost e = segment_end(s, i as int);
        proof {
            lemma_segment_end(s, i as int);
            lemma_word_end(s, i + 1);
            lemma_line_end(s, i + 2);
        }
        let j: usize;
        if space_char(c) {
            j = i + 1;
        } else if c == '/' && i + 1 < n && cs[i + 1] == '/' {
            let mut k: usize = i + 2;
            while k < n && cs[k] != '\n'
                invariant
                    cs@ == s,
                    n == s.len(),
                    i + 2 <= k <= n,
                    line_end(s, i + 2) == line_end(s, k as int),
                decreases n - k,
            {
                k = k + 1;
            }
            j = k;
        } else if c == '(' || c == ')' {
            j = i + 1;
        } else if ident_start_char(c) {
            let mut k: usize = i + 1;
            while k < n && ident_char(cs[k])
                invariant
                    cs@ == s,
                    n == s.len(),
                    i + 1 <= k <= n,
                    word_end(s, i + 1) == word_end(s, k as int),
                decreases n - k,
            {
                k = k + 1;
            }
            j = k;
        } else {
            j = i + 1;
        }
        assert(j == e);
        let nb = advance_bytes(&cs, i, j, b);
        let span = Span { start: b, end: nb };
        let ghost rest = scan(s, j as int);
        if c == '(' && !space_char(c) {
            proof { lemma_push_token(toks@, Token::OpenParenthesis, span); }
            toks.push((Token::OpenParenthesis, span));
        } else if c == ')' {
            proof { lemma_push_token(toks@, Token::CloseParenthesis, span); }
            toks.push((Token::CloseParenthesis, span));
        } else if !space_char(c) && !(c == '/' && i + 1 < n && cs[i + 1] == '/') && ident_start_char(c) {
            let word = src.substring_char(i, j);
            let t = word_to_token(word);
            proof { lemma_push_token(toks@, t, span); }
            toks.push((t, span));
        } else if !space_char(c) && !(c == '/' && i + 1 < n && cs[i + 1] == '/') {
            errs.push(LexError { span });
        }
        proof {
            assert(token_views(toks@) + rest.0 =~= scan(s, 0).0);
            assert(errs@ + rest.1 =~= scan(s, 0).1);
        }
        i = j;
        b = nb;
    }
    proof {
        assert(token_views(toks@) =~= scan(s, 0).0);
        assert(errs@ =~= scan(s, 0).1);
    }
    (toks, errs)
}

proof fn lemma_push_token(ts: Seq<(Token, Span)>, t: Token, span: Span)
    ensures
        token_views(ts.push((t, span))) == token_views(ts).push((t@, span)),
{
    assert(token_views(ts.push((t, span))) =~= token_views(ts).push((t@, span)));
}

#[via_fn]
proof fn segments_decreases(s: Seq<char>, i: int) {
    if 0 <= i < s.len() {
        lemma_segment_end(s, i);
    }
}

/// The character ranges of the segments of `s` from character `i` on.
pub open spec fn segments(s: Seq<char>, i: int) -> Seq<(int, int)>
    decreases s.len() - i via segments_decreases
{
    if i < 0 || i >= s.len() {
        Seq::empty()
    } else {
        seq![(i, segment_end(s, i))] + segments(s, segment_end(s, i))
    }
}

/// The tokens that a list of segments carries, in order.
pub open spec fn token_pieces(s: Seq<char>, segs: Seq<(int, int)>) -> Seq<(TokenView, Span)>
    decreases segs.len(),
{
    if segs.len() == 0 {
        Seq::empty()
    } else {
        let (lo, hi) = segs[0];
        let rest = token_pieces(s, segs.drop_first());
        match segment_kind(s, lo) {
            SegmentKind::Punct | SegmentKind::Word => seq![(segment_token(s, lo, hi), byte_span(s, lo, hi))] + rest,
            _ => rest,
        }
    }
}

/// Characters `[lo, hi)` are skipped between tokens: one whitespace
/// character, or a line comment up to its newline.
pub open spec fn skipped(s: Seq<char>, lo: int, hi: int) -> bool {
    ||| hi == lo + 1 && is_space(s[lo])
    ||| hi >= lo + 2 && s[lo] == '/' && s[lo + 1] == '/' && forall|j: int| lo + 2 <= j < hi ==> #[trigger] s[j] != '\n'
}

proof fn lemma_segments_from(s: Seq<char>, i: int)
    requires
        0 <= i <= s.len(),
    ensures
        segments(s, i).map_values(|p: (int, int)| s.subrange(p.0, p.1)).flatten() == s.subrange(i, s.len() as int),
        scan(s, i).0 == token_pieces(s, segments(s, i)),
        scan(s, i).1.len() == 0 ==> forall|k: int| 0 <= k < segments(s, i).len() ==> {
            let p = #[trigger] segments(s, i)[k];
            &&& i <= p.0 < p.1 <= s.len()
            &&& (segment_kind(s, p.0) is Punct || segment_kind(s, p.0) is Word || skipped(s, p.0, p.1))
        },
    decreases s.len() - i,
{
    let f = |p: (int, int)| s.subrange(p.0, p.1);
    if i == s.len() {
        assert(segments(s, i).map_values(f) =~= Seq::<Seq<char>>::empty());
        assert(s.subrange(i, s.len() as int) =~= Seq::<char>::empty());
    } else {
        let e = segment_end(s, i);
        lemma_segment_end(s, i);
        lemma_line_end(s, i + 2);
        lemma_segments_from(s, e);
        let segs = segments(s, i);
        assert(segs.drop_first() =~= segments(s, e));
        assert(segs.map_values(f).drop_first() =~= segments(s, e).map_values(f));
        assert(s.subrange(i, s.len() as int) =~= s.subrange(i, e) + s.subrange(e, s.len() as int));
        if scan(s, i).1.len() == 0 {
            assert forall|k: int| 0 <= k < segs.len() implies {
                let p = #[trigger] segs[k];
                &&& i <= p.0 < p.1 <= s.len()
                &&& (segment_kind(s, p.0) is Punct || segment_kind(s, p.0) is Word || skipped(s, p.0, p.1))
            } by {
                if k > 0 {
                    assert(segs[k] == segments(s, e)[k - 1]);
                }
            };
        }
    }
}

/// A source without lexical errors is exactly its segments put end to end;
/// each segment carries a token or is skipped whitespace or comment, and the
/// tokens are those of the segments in order.
pub proof fn lemma_tokens_and_gaps_rebuild_source(s: Seq<char>)
    requires
        scan(s, 0).1.len() == 0,
    ensures
        segments(s, 0).map_values(|p: (int, int)| s.subrange(p.0, p.1)).flatten() == s,
        scan(s, 0).0 == token_pieces(s, segments(s, 0)),
        forall|k: int| 0 <= k < segments(s, 0).len() ==> {
            let p = #[trigger] segments(s, 0)[k];
            &&& 0 <= p.0 < p.1 <= s.len()
            &&& (segment_kind(s, p.0) is Punct || segment_kind(s, p.0) is Word || skipped(s, p.0, p.1))
        },
{
    lemma_segments_from(s, 0);
    assert(s.subrange(0, s.len() as int) =~= s);
}

/// The tokens that `scan` yields from character `i` on have well-formed
/// byte spans, in source order, after the offset of character `i`.
pub proof fn lemma_scan_ordered(s: Seq<char>, i: int)
    requires
        crate::text::byte_len(s) <= usize::MAX,
        0 <= i <= s.len(),
    ensures
        ({
            let ts = scan(s, i).0;
            &&& forall|k: int| 0 <= k < ts.len() ==> byte_offset(s, i) <= (#[trigger] ts[k]).1.start <= ts[k].1.end
                <= crate::text::byte_len(s)
            &&& forall|a: int, b: int| 0 <= a < b < ts.len() ==> (#[trigger] ts[a]).1.end <= (#[trigger] ts[b]).1.start
        }),
    decreases s.len() - i,
{
    if i < s.len() {
        let e = segment_end(s, i);
        lemma_segment_end(s, i);
        lemma_scan_ordered(s, e);
        lemma_byte_offset_mono(s, i, e);
        lemma_byte_offset_mono(s, e, s.len() as int);
        assert(s.take(s.len() as int) =~= s);
        let ts = scan(s, i).0;
        let rest = scan(s, e).0;
        if segment_kind(s, i) is Punct || segment_kind(s, i) is Word {
            assert forall|k: int| 0 <= k < ts.len() implies byte_offset(s, i) <= (#[trigger] ts[k]).1.start <= ts[k].1.end
                <= crate::text::byte_len(s) by {
                if k > 0 {
                    assert(ts[k] == rest[k - 1]);
                }
            };
            assert forall|a: int, b: int| 0 <= a < b < ts.len() implies (#[trigger] ts[a]).1.end <= (#[trigger] ts[b]).1.start by {
                assert(ts[b] == rest[b - 1]);
                if a > 0 {
                    assert(ts[a] == rest[a - 1]);
                }
            };
        }
    }
}

} // verus!
