//! Finds the candidate icon names in a text.
//!
//! A candidate is a run of lowercase ASCII letters, digits, hyphens and
//! underscores that starts with `nf-` and has no letter, digit, hyphen or
//! underscore next to it on either side.

use vstd::prelude::*;
use vstd::slice::slice_subrange;

verus! {

/// Whether a byte may stand in an icon name: `a-z`, `0-9`, `-` or `_`.
pub open spec fn is_name_byte(b: u8) -> bool {
    (0x61 <= b <= 0x7a) || (0x30 <= b <= 0x39) || b == 0x2d || b == 0x5f
}

/// Whether a byte may stand in an identifier of the surrounding text: a
/// name byte or `A-Z`.
pub open spec fn is_ident_byte(b: u8) -> bool {
    is_name_byte(b) || (0x41 <= b <= 0x5a)
}

/// The bytes every icon name starts with: `nf-`.
pub open spec fn prefix() -> Seq<u8> {
    seq![0x6e, 0x66, 0x2d]
}

/// Whether the bytes from `start` up to `end` are a candidate name in
/// `text`.
pub open spec fn is_token(text: Seq<u8>, start: int, end: int) -> bool {
    &&& 0 <= start
    &&& start + 3 <= end <= text.len()
    &&& text.subrange(start, start + 3) == prefix()
    &&& forall|i: int| start <= i < end ==> is_name_byte(#[trigger] text[i])
    &&& start == 0 || !is_ident_byte(text[start - 1])
    &&& end == text.len() || !is_ident_byte(text[end])
}

/// A candidate name found in a text: its bytes and where they stand.
#[derive(Debug, PartialEq, Eq)]
pub struct Token<'a> {
    pub text: &'a [u8],
    pub start: usize,
    pub end: usize,
}

impl<'a> Token<'a> {
    /// Whether this token is a candidate name of `text`, with the bytes
    /// that stand there.
    pub open spec fn is_in(self, text: Seq<u8>) -> bool {
        &&& is_token(text, self.start as int, self.end as int)
        &&& self.text@ == text.subrange(self.start as int, self.end as int)
    }
}

/// A stretch of a text: the bytes from `start` up to `end`.
pub struct Span {
    pub start: int,
    pub end: int,
}

/// Whether `spans` are the candidate names of `text`: each is one, they
/// come in ascending order without touching, and no candidate is missing.
pub open spec fn is_scan(text: Seq<u8>, spans: Seq<Span>) -> bool {
    &&& forall|k: int|
        0 <= k < spans.len() ==> is_token(text, (#[trigger] spans[k]).start, spans[k].end)
    &&& forall|k: int, m: int|
        0 <= k < m < spans.len() ==> (#[trigger] spans[k]).end < (#[trigger] spans[m]).start
    &&& forall|start: int, end: int| #[trigger]
        is_token(text, start, end) ==> exists|k: int|
            0 <= k < spans.len() && #[trigger] spans[k] == (Span { start, end })
}

/// The candidate names of `text`, in the order in which they stand.
pub open spec fn scan_spans(text: Seq<u8>) -> Seq<Span> {
    choose|spans: Seq<Span>| is_scan(text, spans)
}

/// Where each token of a list stands.
pub open spec fn spans_of(tokens: Seq<Token>) -> Seq<Span> {
    Seq::new(tokens.len(), |k: int| Span { start: tokens[k].start as int, end: tokens[k].end as int })
}

/// Two candidates that share a byte are the same candidate, and two
/// different candidates have at least one byte between them.
pub proof fn lemma_tokens_apart(text: Seq<u8>, s1: int, e1: int, s2: int, e2: int)
    requires
        is_token(text, s1, e1),
        is_token(text, s2, e2),
        s1 <= s2,
    ensures
        (s1 == s2 && e1 == e2) || e1 < s2,
{
    if s2 <= e1 {
        if s1 < s2 {
            assert(is_name_byte(text[s2 - 1]));
        }
        if e1 < e2 {
            assert(is_name_byte(text[e1]));
        } else if e2 < e1 {
            assert(is_name_byte(text[e2]));
        }
    }
}

/// No candidate starts inside a run of name bytes, after its first byte.
proof fn lemma_none_inside_run(text: Seq<u8>, s: int, e: int, x: int, end: int)
    requires
        0 <= s < x < e <= text.len(),
        forall|i: int| s <= i < e ==> is_name_byte(#[trigger] text[i]),
    ensures
        !is_token(text, x, end),
{
    assert(is_name_byte(text[x - 1]));
}

/// A candidate that starts where a run of name bytes starts ends where the
/// run ends.
proof fn lemma_token_fills_run(text: Seq<u8>, s: int, e: int, end: int)
    requires
        0 <= s < e <= text.len(),
        forall|i: int| s <= i < e ==> is_name_byte(#[trigger] text[i]),
        e == text.len() || !is_name_byte(text[e]),
        is_token(text, s, end),
    ensures
        end == e,
{
    if end < e {
        assert(is_name_byte(text[end]));
    } else if end > e {
        assert(is_name_byte(text[e]));
    }
}

proof fn lemma_scans_agree_up_to(text: Seq<u8>, a: Seq<Span>, b: Seq<Span>, n: int)
    requires
        is_scan(text, a),
        is_scan(text, b),
        0 <= n <= a.len(),
    ensures
        n <= b.len(),
        forall|k: int| 0 <= k < n ==> a[k] == b[k],
    decreases n,
{
    if n > 0 {
        lemma_scans_agree_up_to(text, a, b, n - 1);
        let i = n - 1;
        assert(is_token(text, a[i].start, a[i].end));
        let m = choose|m: int|
            0 <= m < b.len() && #[trigger] b[m] == (Span { start: a[i].start, end: a[i].end });
        if m < i {
            assert(a[m] == b[m]);
            assert(a[m].end < a[i].start);
        } else if m > i {
            assert(is_token(text, b[i].start, b[i].end));
            let w = choose|w: int|
                0 <= w < a.len() && #[trigger] a[w] == (Span { start: b[i].start, end: b[i].end });
            assert(b[i].end < b[m].start);
            if w < i {
                assert(a[w] == b[w]);
                assert(b[w].end < b[i].start);
            } else if w > i {
                assert(a[i].end < a[w].start);
            }
        }
    }
}

/// A text has one list of candidates: two scans of the same text find the
/// same spans in the same order.
pub proof fn lemma_scan_unique(text: Seq<u8>, a: Seq<Span>, b: Seq<Span>)
    requires
        is_scan(text, a),
        is_scan(text, b),
    ensures
        a == b,
{
    lemma_scans_agree_up_to(text, a, b, a.len() as int);
    lemma_scans_agree_up_to(text, b, a, b.len() as int);
    assert(a =~= b);
}

/// Whether a byte may stand in an icon name.
pub fn name_byte(b: u8) -> (yes: bool)
    ensures
        yes == is_name_byte(b),
{
    (0x61 <= b && b <= 0x7a) || (0x30 <= b && b <= 0x39) || b == 0x2d || b == 0x5f
}

/// Whether a byte may stand in an identifier.
pub fn ident_byte(b: u8) -> (yes: bool)
    ensures
        yes == is_ident_byte(b),
{
    name_byte(b) || (0x41 <= b && b <= 0x5a)
}

/// Walks a text from left to right and hands out its candidate names one
/// by one.
pub struct Scanner<'a> {
    text: &'a [u8],
    pos: usize,
}

impl<'a> Scanner<'a> {
    #[verifier::type_invariant]
    spec fn in_text(self) -> bool {
        self.pos <= self.text@.len()
    }

    /// The text that is scanned.
    pub closed spec fn text(self) -> Seq<u8> {
        self.text@
    }

    /// The place up to which the text has been scanned.
    pub closed spec fn position(self) -> int {
        self.pos as int
    }

    /// A scanner at the start of `text`.
    pub fn new(text: &'a [u8]) -> (scanner: Self)
        ensures
            scanner.text() == text@,
            scanner.position() == 0,
    {
        Scanner { text, pos: 0 }
    }

    /// Goes back to the start of the text.
    pub fn restart(&mut self)
        ensures
            final(self).text() == old(self).text(),
            final(self).position() == 0,
    {
        self.pos = 0;
    }

    /// The next candidate: the first that starts at or after the place
    /// scanned so far. The scanner moves to its end; where there is none
    /// left, to the end of the text.
    pub fn next_token(&mut self) -> (next: Option<Token<'a>>)
        ensures
            final(self).text() == old(self).text(),
            0 <= old(self).position() <= final(self).position() <= old(self).text().len(),
            match next {
                Some(token) => {
                    &&& token.is_in(old(self).text())
                    &&& old(self).position() <= token.start
                    &&& final(self).position() == token.end
                    &&& forall|start: int, end: int| #[trigger]
                        is_token(old(self).text(), start, end) && old(self).position() <= start
                            ==> token.start <= start
                },
                None => {
                    &&& final(self).position() == old(self).text().len()
                    &&& forall|start: int, end: int| #[trigger]
                        is_token(old(self).text(), start, end) ==> start < old(self).position()
                },
            },
    {
        proof {
            use_type_invariant(&*self);
        }
        let text: &'a [u8] = self.text;
        let len = text.len();
        let from = self.pos;
        let mut i: usize = from;
        while i < len
            invariant
                from <= i <= len,
                len == text@.len(),
                text@ == self.text@,
                text@ == old(self).text@,
                self.pos == from,
                from == old(self).pos,
                forall|start: int, end: int| #[trigger]
                    is_token(text@, start, end) && from <= start ==> i <= start,
            decreases len - i,
        {
            if !name_byte(text[i]) {
                assert forall|start: int, end: int| #[trigger]
                    is_token(text@, start, end) && from <= start implies i + 1 <= start by {
                    if start == i {
                        assert(is_name_byte(text@[start]));
                    }
                }
                i += 1;
            } else {
                let mut e: usize = i + 1;
                while e < len && name_byte(text[e])
                    invariant
                        i < e <= len,
                        len == text@.len(),
                        forall|k: int| i <= k < e ==> is_name_byte(#[trigger] text@[k]),
                    decreases len - e,
                {
                    e += 1;
                }
                let fits = e - i >= 3 && text[i] == 0x6e && text[i + 1] == 0x66 && text[i + 2]
                    == 0x2d && (i == 0 || !ident_byte(text[i - 1])) && (e == len || !ident_byte(
                    text[e],
                ));
                if fits {
                    assert(text@.subrange(i as int, i + 3) =~= prefix());
                    assert(is_token(text@, i as int, e as int));
                    self.pos = e;
                    return Some(Token { text: slice_subrange(text, i, e), start: i, end: e });
                }
                assert forall|start: int, end: int| #[trigger]
                    is_token(text@, start, end) && from <= start implies e <= start by {
                    if start == i {
                        lemma_token_fills_run(text@, i as int, e as int, end);
                        assert(text@.subrange(start, start + 3)[0] == text@[start]);
                        assert(text@.subrange(start, start + 3)[1] == text@[start + 1]);
                        assert(text@.subrange(start, start + 3)[2] == text@[start + 2]);
                    } else if i < start < e {
                        lemma_none_inside_run(text@, i as int, e as int, start, end);
                    }
                }
                i = e;
            }
        }
        self.pos = len;
        None
    }
}

/// All candidate names of a text, in the order in which they stand.
pub fn scan<'a>(text: &'a [u8]) -> (tokens: Vec<Token<'a>>)
    ensures
        spans_of(tokens@) == scan_spans(text@),
        is_scan(text@, spans_of(tokens@)),
        forall|k: int| 0 <= k < tokens@.len() ==> (#[trigger] tokens@[k]).is_in(text@),
{
    let mut scanner = Scanner::new(text);
    let mut tokens: Vec<Token<'a>> = Vec::new();
    loop
        invariant
            scanner.text() == text@,
            0 <= scanner.position() <= text@.len(),
            forall|k: int| 0 <= k < tokens@.len() ==> (#[trigger] tokens@[k]).is_in(text@),
            forall|k: int| 0 <= k < tokens@.len() ==> (#[trigger] tokens@[k]).end <= scanner.position(),
            forall|k: int, m: int|
                0 <= k < m < tokens@.len() ==> (#[trigger] tokens@[k]).end < (
                #[trigger] tokens@[m]).start,
            forall|start: int, end: int| #[trigger]
                is_token(text@, start, end) && start < scanner.position() ==> exists|k: int|
                    0 <= k < tokens@.len() && (#[trigger] tokens@[k]).start == start
                        && tokens@[k].end == end,
        decreases text@.len() - scanner.position(),
    {
        let ghost before = scanner.position();
        let ghost found = tokens@;
        match scanner.next_token() {
            Some(token) => {
                proof {
                    assert forall|k: int| 0 <= k < found.len() implies (#[trigger] found[k]).end
                        < token.start by {
                        lemma_tokens_apart(
                            text@,
                            found[k].start as int,
                            found[k].end as int,
                            token.start as int,
                            token.end as int,
                        );
                    }
                }
                tokens.push(token);
                proof {
                    let n = found.len() as int;
                    assert(tokens@[n] == token);
                    assert forall|start: int, end: int| #[trigger]
                        is_token(text@, start, end) && start < scanner.position() implies exists|
                        k: int,
                    |
                        0 <= k < tokens@.len() && (#[trigger] tokens@[k]).start == start
                            && tokens@[k].end == end by {
                        if start < before {
                            let k = choose|k: int|
                                0 <= k < found.len() && (#[trigger] found[k]).start == start
                                    && found[k].end == end;
                            assert(tokens@[k] == found[k]);
                        } else {
                            lemma_tokens_apart(
                                text@,
                                token.start as int,
                                token.end as int,
                                start,
                                end,
                            );
                            assert(tokens@[n].start == start && tokens@[n].end == end);
                        }
                    }
                }
            },
            None => {
                proof {
                    let spans = spans_of(tokens@);
                    assert forall|k: int| 0 <= k < spans.len() implies is_token(
                        text@,
                        (#[trigger] spans[k]).start,
                        spans[k].end,
                    ) by {
                        assert(tokens@[k].is_in(text@));
                    }
                    assert forall|k: int, m: int| 0 <= k < m < spans.len() implies (
                    #[trigger] spans[k]).end < (#[trigger] spans[m]).start by {
                        assert(tokens@[k].end < tokens@[m].start);
                    }
                    assert forall|start: int, end: int| #[trigger]
                        is_token(text@, start, end) implies exists|k: int|
                        0 <= k < spans.len() && #[trigger] spans[k] == (Span { start, end }) by {
                        let k = choose|k: int|
                            0 <= k < tokens@.len() && (#[trigger] tokens@[k]).start == start
                                && tokens@[k].end == end;
                        assert(spans[k] == (Span { start, end }));
                    }
                    lemma_scan_unique(text@, spans, scan_spans(text@));
                }
                return tokens;
            },
        }
    }
}

} // verus!
