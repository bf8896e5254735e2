use nerdfix::db::{Icon, IconDatabase};
use nerdfix::matcher::MatchResult;
use nerdfix::patch::{apply_patches, Patch};
use nerdfix::runtime::{
    diagnose, fix_for, CheckerContext, Diagnostic, DiagnosticKind, OutputFormat, Runtime,
};
use nerdfix::scanner::Token;

fn icon(name: &str, codepoint: u32, obsolete: bool) -> Icon {
    Icon { name: name.to_owned(), codepoint, obsolete }
}

fn runtime() -> Runtime {
    let mut db = IconDatabase::new();
    db.insert(icon("nf-cod-account", 0xeb99, false));
    db.insert(icon("nf-mdi-access_point", 0xf501, true));
    db.insert(icon("nf-md-access_point", 0xf0003, false));
    db.insert(icon("nf-fa-book", 1, false));
    db.insert(icon("nf-fa-look", 2, false));
    db.insert(icon("nf-weather-gone", 3, true));
    Runtime::new(db)
}

fn diagnostic(start: usize, text: &str, kind: DiagnosticKind) -> Diagnostic {
    Diagnostic { start, end: start + text.len(), kind, original_text: text.as_bytes().to_vec() }
}

#[test]
fn fix_replaces_a_typo_and_keeps_every_other_byte() {
    let mut db = IconDatabase::new();
    db.insert(icon("nf-cod-account", 0xeb99, false));
    db.insert(icon("nf-mdi-access_point", 0xf501, true));
    let rt = Runtime::new(db);
    let mut context = CheckerContext::default();
    let patched = rt.check(&mut context, b"icon: nf-cod-acount;", true);
    assert_eq!(patched, Some(b"icon: nf-cod-account;".to_vec()));
    assert_eq!(
        context.diagnostics,
        vec![diagnostic(6, "nf-cod-acount", DiagnosticKind::Typo("nf-cod-account".to_owned()))]
    );
}

#[test]
fn check_without_fix_reports_and_returns_nothing() {
    let rt = runtime();
    let mut context = CheckerContext::default();
    let source = b"a nf-cod-acount b nf-mdi-access_point c nf-cod-account d nf-zzzzzzzz nf-fa-hook nf-weather-gone";
    assert_eq!(rt.check(&mut context, source, false), None);
    assert_eq!(
        context.diagnostics,
        vec![
            diagnostic(2, "nf-cod-acount", DiagnosticKind::Typo("nf-cod-account".to_owned())),
            diagnostic(
                18,
                "nf-mdi-access_point",
                DiagnosticKind::Obsolete(Some("nf-md-access_point".to_owned()))
            ),
            diagnostic(57, "nf-zzzzzzzz", DiagnosticKind::Unknown),
            diagnostic(69, "nf-fa-hook", DiagnosticKind::Typo("nf-fa-book".to_owned())),
            diagnostic(80, "nf-weather-gone", DiagnosticKind::Obsolete(None)),
        ]
    );
}

#[test]
fn fix_patches_only_what_has_one_safe_replacement() {
    let rt = runtime();
    let mut context = CheckerContext::default();
    let source = "é nf-cod-acount, nf-mdi-access_point; nf-fa-hook nf-zzzzzzzz\nnf-weather-gone nf-cod-account ü";
    let patched = rt.check(&mut context, source.as_bytes(), true).unwrap();
    assert_eq!(
        String::from_utf8(patched).unwrap(),
        "é nf-cod-account, nf-md-access_point; nf-fa-hook nf-zzzzzzzz\nnf-weather-gone nf-cod-account ü"
    );
    assert_eq!(context.diagnostics.len(), 5);
}

#[test]
fn fix_returns_nothing_where_nothing_was_replaced() {
    let rt = runtime();
    let mut context = CheckerContext::default();
    assert_eq!(rt.check(&mut context, b"nf-cod-account nf-fa-hook nf-zzzzzzzz", true), None);
    assert_eq!(context.diagnostics.len(), 2);
    assert_eq!(rt.check(&mut context, b"", true), None);
    assert_eq!(rt.check(&mut context, b"plain text", true), None);
    assert_eq!(context.diagnostics.len(), 2);
}

#[test]
fn context_gathers_diagnostics_over_several_checks() {
    let rt = runtime();
    let mut context = CheckerContext {
        format: OutputFormat::Json,
        yes: true,
        replace: true,
        diagnostics: Vec::new(),
    };
    rt.check(&mut context, b"nf-cod-acount", false);
    rt.check(&mut context, b"nf-zzzzzzzz", true);
    assert_eq!(
        context.diagnostics,
        vec![
            diagnostic(0, "nf-cod-acount", DiagnosticKind::Typo("nf-cod-account".to_owned())),
            diagnostic(0, "nf-zzzzzzzz", DiagnosticKind::Unknown),
        ]
    );
    assert_eq!(context.format, OutputFormat::Json);
    assert!(context.yes);
    assert!(context.replace);
}

#[test]
fn default_context_is_blank() {
    let context = CheckerContext::default();
    assert_eq!(context.format, OutputFormat::Console);
    assert!(!context.yes);
    assert!(!context.replace);
    assert!(context.diagnostics.is_empty());
}

#[test]
fn runtime_hands_out_its_database() {
    let rt = runtime();
    assert_eq!(rt.database().iter().len(), 6);
    assert_eq!(rt.database().lookup("nf-fa-book"), Some(&icon("nf-fa-book", 1, false)));
}

#[test]
fn diagnose_names_what_is_wrong() {
    let token = Token { text: b"nf-x", start: 3, end: 7 };
    let a = icon("nf-a", 1, false);
    let b = icon("nf-b", 2, true);
    let kind = |result: &MatchResult| diagnose(&token, result).map(|d| d.kind);
    assert_eq!(diagnose(&token, &MatchResult::Exact(&a)), None);
    assert_eq!(
        diagnose(&token, &MatchResult::NoMatch),
        Some(Diagnostic { start: 3, end: 7, kind: DiagnosticKind::Unknown, original_text: b"nf-x".to_vec() })
    );
    assert_eq!(
        kind(&MatchResult::ObsoleteRedirect(&b, &a)),
        Some(DiagnosticKind::Obsolete(Some("nf-a".to_owned())))
    );
    assert_eq!(kind(&MatchResult::ObsoleteNoReplacement(&b)), Some(DiagnosticKind::Obsolete(None)));
    assert_eq!(kind(&MatchResult::Fuzzy(vec![&b, &a])), Some(DiagnosticKind::Typo("nf-b".to_owned())));
    assert_eq!(kind(&MatchResult::Fuzzy(Vec::new())), Some(DiagnosticKind::Unknown));
}

#[test]
fn fix_for_takes_the_one_closest_candidate() {
    let token = Token { text: b"nf-fa-hook", start: 3, end: 13 };
    let book = icon("nf-fa-book", 1, false);
    let look = icon("nf-fa-look", 2, false);
    let boo = icon("nf-fa-boo", 3, false);
    let old = icon("nf-fa-hook", 4, true);
    let patch = |name: &str| Some(Patch { start: 3, end: 13, replacement: name.as_bytes().to_vec() });
    assert_eq!(fix_for(&token, &MatchResult::Fuzzy(vec![&book])), patch("nf-fa-book"));
    assert_eq!(fix_for(&token, &MatchResult::Fuzzy(vec![&book, &boo])), patch("nf-fa-book"));
    assert_eq!(fix_for(&token, &MatchResult::Fuzzy(vec![&book, &look])), None);
    assert_eq!(fix_for(&token, &MatchResult::Fuzzy(Vec::new())), None);
    assert_eq!(fix_for(&token, &MatchResult::ObsoleteRedirect(&old, &look)), patch("nf-fa-look"));
    assert_eq!(fix_for(&token, &MatchResult::ObsoleteNoReplacement(&old)), None);
    assert_eq!(fix_for(&token, &MatchResult::Exact(&book)), None);
    assert_eq!(fix_for(&token, &MatchResult::NoMatch), None);
}

#[test]
fn apply_patches_copies_the_text_between_patches() {
    let patch = |start: usize, end: usize, text: &str| Patch {
        start,
        end,
        replacement: text.as_bytes().to_vec(),
    };
    let text = b"0123456789";
    assert_eq!(apply_patches(text, &Vec::new()), text.to_vec());
    assert_eq!(apply_patches(text, &vec![patch(2, 4, "abcde")]), b"01abcde456789".to_vec());
    assert_eq!(
        apply_patches(text, &vec![patch(0, 1, ""), patch(1, 1, "x"), patch(3, 6, "yy"), patch(9, 10, "zzz")]),
        b"x12yy678zzz".to_vec()
    );
    assert_eq!(apply_patches(text, &vec![patch(0, 10, "")]), Vec::<u8>::new());
    assert_eq!(apply_patches(b"", &vec![patch(0, 0, "new")]), b"new".to_vec());
}

#[test]
fn unpatched_regions_keep_their_length_and_bytes() {
    let rt = runtime();
    let mut context = CheckerContext::default();
    let source = b"<<< nf-cod-acount ||| nf-mdi-access_point >>>";
    let patched = rt.check(&mut context, source, true).unwrap();
    assert_eq!(&patched[..4], &source[..4]);
    assert_eq!(&patched[4..18], b"nf-cod-account");
    assert_eq!(&patched[18..23], &source[17..22]);
    assert_eq!(&patched[23..41], b"nf-md-access_point");
    assert_eq!(&patched[41..], &source[41..]);
    assert_eq!(patched.len(), source.len() + 1 - 1);
}
