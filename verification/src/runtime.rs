//! Checks a source text: scans it for candidate names, resolves each one,
//! reports what is wrong and patches what has one safe replacement.

use crate::db::{IconDatabase, IconView};
use crate::distance::distance;
use crate::matcher::{borrowed_views, resolution, MatchResult, MatchView, Matcher};
use crate::patch::{applied, apply_patches, in_order, patch_views, Patch, PatchView};
use crate::ranking::has_clear_best;
use crate::scanner::{is_scan, is_token, scan, scan_spans, spans_of, Span, Token};
use vstd::prelude::*;
use vstd::slice::slice_to_vec;

verus! {

/// How diagnostics are to be written out.
#[derive(Clone, Copy, Debug, PartialEq, Eq)]
pub enum OutputFormat {
    /// For a person to read.
    Console,
    /// For a program to read.
    Json,
}

/// What is wrong with a candidate name.
#[derive(Debug, PartialEq, Eq)]
pub enum DiagnosticKind {
    /// It is no icon name and resembles none.
    Unknown,
    /// It is the name of an obsolete icon; holds the name of the icon to
    /// use in its place, where there is one.
    Obsolete(Option<String>),
    /// It is no icon name but resembles some; holds the closest.
    Typo(String),
}

/// The mathematical value of a [`DiagnosticKind`].
pub enum KindView {
    Unknown,
    Obsolete(Option<Seq<char>>),
    Typo(Seq<char>),
}

impl View for DiagnosticKind {
    type V = KindView;

    open spec fn view(&self) -> KindView {
        match self {
            DiagnosticKind::Unknown => KindView::Unknown,
            DiagnosticKind::Obsolete(Some(name)) => KindView::Obsolete(Some(name@)),
            DiagnosticKind::Obsolete(None) => KindView::Obsolete(None),
            DiagnosticKind::Typo(name) => KindView::Typo(name@),
        }
    }
}

/// A finding about one candidate name: where it stands, what is wrong with
/// it, and its bytes.
#[derive(Debug, PartialEq, Eq)]
pub struct Diagnostic {
    pub start: usize,
    pub end: usize,
    pub kind: DiagnosticKind,
    pub original_text: Vec<u8>,
}

/// The mathematical value of a [`Diagnostic`].
pub struct DiagnosticView {
    pub start: int,
    pub end: int,
    pub kind: KindView,
    pub original_text: Seq<u8>,
}

impl View for Diagnostic {
    type V = DiagnosticView;

    open spec fn view(&self) -> DiagnosticView {
        DiagnosticView {
            start: self.start as int,
            end: self.end as int,
            kind: self.kind@,
            original_text: self.original_text@,
        }
    }
}

/// The views of a list of diagnostics.
pub open spec fn diagnostic_views(diagnostics: Seq<Diagnostic>) -> Seq<DiagnosticView> {
    diagnostics.map_values(|d: Diagnostic| d@)
}

/// What the caller sets for a run of checks, and what the checks have
/// found so far. A check reads none of the settings; it adds its findings
/// to `diagnostics` and changes nothing else.
#[derive(Debug)]
pub struct CheckerContext {
    /// How diagnostics are to be written out.
    pub format: OutputFormat,
    /// Whether patched content is written back without asking.
    pub yes: bool,
    /// Whether replacements are to be applied.
    pub replace: bool,
    /// The findings of the checks so far, in the order in which they were
    /// made.
    pub diagnostics: Vec<Diagnostic>,
}

impl Default for CheckerContext {
    fn default() -> (context: Self)
        ensures
            context.format == OutputFormat::Console,
            !context.yes,
            !context.replace,
            context.diagnostics@.len() == 0,
    {
        CheckerContext {
            format: OutputFormat::Console,
            yes: false,
            replace: false,
            diagnostics: Vec::new(),
        }
    }
}

/// What is wrong with a token that resolved to `result`; `None` for an
/// exact match. A fuzzy match names its first candidate; one without
/// candidates counts as no match.
pub open spec fn kind_of(result: MatchView) -> Option<KindView> {
    match result {
        MatchView::Exact(_) => None,
        MatchView::ObsoleteRedirect(_, new) => Some(KindView::Obsolete(Some(new.name))),
        MatchView::ObsoleteNoReplacement(_) => Some(KindView::Obsolete(None)),
        MatchView::Fuzzy(near) => if near.len() > 0 {
            Some(KindView::Typo(near[0].name))
        } else {
            Some(KindView::Unknown)
        },
        MatchView::NoMatch => Some(KindView::Unknown),
    }
}

/// The bytes to put in place of a token that resolved to `result`: the
/// name of the replacement of an obsolete icon, or the name of the one
/// closest candidate. `None` where nothing is wrong, where nothing is
/// known to put there, or where two candidates are equally close.
pub open spec fn fix_of(token: Seq<u8>, result: MatchView) -> Option<Seq<u8>> {
    match result {
        MatchView::ObsoleteRedirect(_, new) => Some(new.key()),
        MatchView::Fuzzy(near) => if has_clear_best(token, near) {
            Some(near[0].key())
        } else {
            None
        },
        _ => None,
    }
}

/// The findings about the candidates at `spans`, in order.
pub open spec fn diagnostics_of(records: Seq<IconView>, text: Seq<u8>, spans: Seq<Span>) -> Seq<
    DiagnosticView,
>
    decreases spans.len(),
{
    if spans.len() == 0 {
        Seq::empty()
    } else {
        let before = diagnostics_of(records, text, spans.drop_last());
        let span = spans.last();
        let token = text.subrange(span.start, span.end);
        match kind_of(resolution(records, token)) {
            Some(kind) => before.push(
                DiagnosticView { start: span.start, end: span.end, kind, original_text: token },
            ),
            None => before,
        }
    }
}

/// The patches for the candidates at `spans` that have a fix, in order.
pub open spec fn patches_of(records: Seq<IconView>, text: Seq<u8>, spans: Seq<Span>) -> Seq<
    PatchView,
>
    decreases spans.len(),
{
    if spans.len() == 0 {
        Seq::empty()
    } else {
        let before = patches_of(records, text, spans.drop_last());
        let span = spans.last();
        let token = text.subrange(span.start, span.end);
        match fix_of(token, resolution(records, token)) {
            Some(replacement) => before.push(
                PatchView { start: span.start, end: span.end, replacement },
            ),
            None => before,
        }
    }
}

/// The patches for spans that lie in a text in ascending order lie there
/// in ascending order too.
proof fn lemma_patches_in_order(records: Seq<IconView>, text: Seq<u8>, spans: Seq<Span>)
    requires
        forall|k: int|
            0 <= k < spans.len() ==> 0 <= (#[trigger] spans[k]).start <= spans[k].end <= text.len(),
        forall|k: int, m: int|
            0 <= k < m < spans.len() ==> (#[trigger] spans[k]).end <= (#[trigger] spans[m]).start,
    ensures
        in_order(text.len() as int, patches_of(records, text, spans)),
        forall|j: int|
            0 <= j < patches_of(records, text, spans).len() && spans.len() > 0 ==> (
            #[trigger] patches_of(records, text, spans)[j]).end <= spans.last().end,
    decreases spans.len(),
{
    if spans.len() > 0 {
        let front = spans.drop_last();
        assert forall|k: int| 0 <= k < front.len() implies 0 <= (#[trigger] front[k]).start
            <= front[k].end <= text.len() by {
            assert(front[k] == spans[k]);
        }
        assert forall|k: int, m: int| 0 <= k < m < front.len() implies (#[trigger] front[k]).end
            <= (#[trigger] front[m]).start by {
            assert(front[k] == spans[k] && front[m] == spans[m]);
        }
        lemma_patches_in_order(records, text, front);
        let before = patches_of(records, text, front);
        let after = patches_of(records, text, spans);
        let n = spans.len() as int;
        assert forall|j: int| 0 <= j < before.len() implies (#[trigger] before[j]).end
            <= spans[n - 1].start by {
            assert(front.len() > 0);
            assert(front.last() == spans[n - 2]);
            assert(spans[n - 2].end <= spans[n - 1].start);
        }
        assert(spans[n - 1].start <= spans[n - 1].end);
    }
}

/// The finding about a token that resolved to `result`, if anything is
/// wrong with it.
pub fn diagnose(token: &Token, result: &MatchResult) -> (found: Option<Diagnostic>)
    ensures
        match found {
            Some(d) => kind_of(result@) == Some(d@.kind) && d.start == token.start && d.end
                == token.end && d.original_text@ == token.text@,
            None => kind_of(result@) is None,
        },
{
    let kind = match result {
        MatchResult::Exact(_) => {
            return None;
        },
        MatchResult::ObsoleteRedirect(_, new) => DiagnosticKind::Obsolete(Some(new.name.clone())),
        MatchResult::ObsoleteNoReplacement(_) => DiagnosticKind::Obsolete(None),
        MatchResult::Fuzzy(near) => {
            if near.len() > 0 {
                assert(borrowed_views(near@)[0] == near@[0]@);
                DiagnosticKind::Typo(near[0].name.clone())
            } else {
                DiagnosticKind::Unknown
            }
        },
        MatchResult::NoMatch => DiagnosticKind::Unknown,
    };
    Some(
        Diagnostic {
            start: token.start,
            end: token.end,
            kind,
            original_text: slice_to_vec(token.text),
        },
    )
}

/// The patch for a token that resolved to `result`, if it has a fix.
pub fn fix_for(token: &Token, result: &MatchResult) -> (found: Option<Patch>)
    ensures
        match found {
            Some(p) => fix_of(token.text@, result@) == Some(p@.replacement) && p.start
                == token.start && p.end == token.end,
            None => fix_of(token.text@, result@) is None,
        },
{
    let replacement = match result {
        MatchResult::ObsoleteRedirect(_, new) => slice_to_vec(new.key()),
        MatchResult::Fuzzy(near) => {
            if near.len() == 0 {
                return None;
            }
            assert(borrowed_views(near@)[0] == near@[0]@);
            if near.len() >= 2 {
                assert(borrowed_views(near@)[1] == near@[1]@);
                if distance(near[0].key(), token.text) >= distance(near[1].key(), token.text) {
                    return None;
                }
            }
            slice_to_vec(near[0].key())
        },
        _ => {
            return None;
        },
    };
    Some(Patch { start: token.start, end: token.end, replacement })
}

/// The checker: a database and the checks that run against it.
pub struct Runtime {
    db: IconDatabase,
}

impl Runtime {
    /// The records that texts are checked against.
    pub closed spec fn records(self) -> Seq<IconView> {
        self.db.records()
    }

    /// A checker over `db`.
    pub fn new(db: IconDatabase) -> (runtime: Self)
        ensures
            runtime.records() == db.records(),
    {
        Runtime { db }
    }

    /// The database that texts are checked against.
    pub fn database(&self) -> (db: &IconDatabase)
        ensures
            db.records() == self.records(),
    {
        &self.db
    }

    /// Checks a source text. Each candidate name that is not the name of a
    /// current icon gets a diagnostic, added to `context.diagnostics` in
    /// the order of the text. With `apply_fix`, each candidate with a fix
    /// is replaced and the patched text is returned; `None` comes back
    /// where nothing was replaced or `apply_fix` is off.
    pub fn check(&self, context: &mut CheckerContext, source: &[u8], apply_fix: bool) -> (patched:
        Option<Vec<u8>>)
        ensures
            final(context).format == old(context).format,
            final(context).yes == old(context).yes,
            final(context).replace == old(context).replace,
            diagnostic_views(final(context).diagnostics@) == diagnostic_views(
                old(context).diagnostics@,
            ) + diagnostics_of(self.records(), source@, scan_spans(source@)),
            in_order(
                source@.len() as int,
                patches_of(self.records(), source@, scan_spans(source@)),
            ),
            match patched {
                Some(out) => apply_fix && patches_of(
                    self.records(),
                    source@,
                    scan_spans(source@),
                ).len() > 0 && out@ == applied(
                    source@,
                    patches_of(self.records(), source@, scan_spans(source@)),
                ),
                None => !apply_fix || patches_of(
                    self.records(),
                    source@,
                    scan_spans(source@),
                ).len() == 0,
            },
    {
        let tokens = scan(source);
        let matcher = Matcher::new(&self.db);
        let ghost records = self.records();
        let ghost spans = scan_spans(source@);
        let ghost reported = diagnostic_views(context.diagnostics@);
        let mut patches: Vec<Patch> = Vec::new();
        let mut k: usize = 0;
        assert(reported + Seq::<DiagnosticView>::empty() =~= reported);
        assert(patch_views(patches@) =~= Seq::<PatchView>::empty());
        while k < tokens.len()
            invariant
                k <= tokens.len(),
                context.format == old(context).format,
                context.yes == old(context).yes,
                context.replace == old(context).replace,
                records == self.records(),
                matcher.records() == records,
                spans == spans_of(tokens@),
                reported == diagnostic_views(old(context).diagnostics@),
                forall|j: int| 0 <= j < tokens@.len() ==> (#[trigger] tokens@[j]).is_in(source@),
                diagnostic_views(context.diagnostics@) == reported + diagnostics_of(
                    records,
                    source@,
                    spans.take(k as int),
                ),
                patch_views(patches@) == patches_of(records, source@, spans.take(k as int)),
            decreases tokens.len() - k,
        {
            let token = &tokens[k];
            let ghost found = context.diagnostics@;
            let ghost fixes = patches@;
            proof {
                assert(token.is_in(source@));
                assert(spans.take(k + 1).drop_last() =~= spans.take(k as int));
                assert(spans.take(k + 1).last() == spans[k as int]);
                assert(spans[k as int].start == token.start && spans[k as int].end == token.end);
            }
            let result = matcher.resolve(token.text);
            match diagnose(token, &result) {
                Some(d) => {
                    context.diagnostics.push(d);
                    assert(diagnostic_views(context.diagnostics@) =~= diagnostic_views(found).push(
                        d@,
                    ));
                    assert(diagnostic_views(context.diagnostics@) =~= reported + diagnostics_of(
                        records,
                        source@,
                        spans.take(k + 1),
                    ));
                },
                None => {},
            }
            match fix_for(token, &result) {
                Some(p) => {
                    patches.push(p);
                    assert(patch_views(patches@) =~= patch_views(fixes).push(p@));
                },
                None => {},
            }
            k += 1;
        }
        proof {
            assert(spans.take(k as int) =~= spans);
            assert forall|j: int| 0 <= j < spans.len() implies 0 <= (#[trigger] spans[j]).start
                <= spans[j].end <= source@.len() by {
                assert(is_token(source@, spans[j].start, spans[j].end));
            }
            lemma_patches_in_order(records, source@, spans);
        }
        if apply_fix && patches.len() > 0 {
            Some(apply_patches(source, &patches))
        } else {
            None
        }
    }
}

} // verus!
