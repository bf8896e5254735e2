use nerdfix::db::{Icon, IconDatabase};
use nerdfix::matcher::{MatchResult, Matcher, MAX_CANDIDATES};
use nerdfix::ranking::threshold_of;

fn icon(name: &str, codepoint: u32, obsolete: bool) -> Icon {
    Icon { name: name.to_owned(), codepoint, obsolete }
}

fn database(icons: &[(&str, u32, bool)]) -> IconDatabase {
    let mut db = IconDatabase::new();
    for (name, codepoint, obsolete) in icons {
        db.insert(icon(name, *codepoint, *obsolete));
    }
    db
}

fn names(result: &MatchResult) -> Vec<String> {
    match result {
        MatchResult::Fuzzy(icons) => icons.iter().map(|i| i.name.clone()).collect(),
        _ => panic!("not a fuzzy match: {:?}", result),
    }
}

#[test]
fn example_database_resolves_as_described() {
    let db = database(&[("nf-cod-account", 0xeb99, false), ("nf-mdi-access_point", 0xf501, true)]);
    let matcher = Matcher::new(&db);
    let account = icon("nf-cod-account", 0xeb99, false);
    let access = icon("nf-mdi-access_point", 0xf501, true);
    assert_eq!(matcher.resolve(b"nf-cod-account"), MatchResult::Exact(&account));
    assert_eq!(matcher.resolve(b"nf-cod-acount"), MatchResult::Fuzzy(vec![&account]));
    assert_eq!(matcher.resolve(b"nf-mdi-access_point"), MatchResult::ObsoleteNoReplacement(&access));
}

#[test]
fn every_current_name_resolves_exactly() {
    let db = database(&[("nf-a", 1, false), ("nf-b", 2, true), ("nf-c", 2, false), ("", 3, false)]);
    let matcher = Matcher::new(&db);
    for record in db.iter() {
        let result = matcher.resolve(record.name.as_bytes());
        if record.obsolete {
            assert!(matches!(
                result,
                MatchResult::ObsoleteRedirect(old, _) | MatchResult::ObsoleteNoReplacement(old)
                    if old == record
            ));
        } else {
            assert_eq!(result, MatchResult::Exact(record));
        }
    }
}

#[test]
fn obsolete_name_redirects_to_the_record_with_its_codepoint() {
    let db = database(&[
        ("nf-old-heart", 0xf004, true),
        ("nf-zz-other", 0xf004, true),
        ("nf-fa-heart", 0xf004, false),
        ("nf-fa-heart_alias", 0xf004, false),
    ]);
    let matcher = Matcher::new(&db);
    assert_eq!(
        matcher.resolve(b"nf-old-heart"),
        MatchResult::ObsoleteRedirect(&icon("nf-old-heart", 0xf004, true), &icon("nf-fa-heart", 0xf004, false))
    );
}

#[test]
fn obsolete_name_redirects_to_its_one_closest_neighbour() {
    let db = database(&[
        ("nf-mdi-access_point", 0xf501, true),
        ("nf-md-access_point", 0xf0003, false),
        ("nf-md-access_point_network", 0xf0002, false),
        ("nf-mdi-access_poinx", 0xf777, true),
    ]);
    let matcher = Matcher::new(&db);
    assert_eq!(
        matcher.resolve(b"nf-mdi-access_point"),
        MatchResult::ObsoleteRedirect(
            &icon("nf-mdi-access_point", 0xf501, true),
            &icon("nf-md-access_point", 0xf0003, false)
        )
    );
}

#[test]
fn obsolete_name_with_two_equally_close_neighbours_has_no_replacement() {
    let db = database(&[("nf-old-cat", 1, true), ("nf-old-bat", 2, false), ("nf-old-hat", 3, false)]);
    let matcher = Matcher::new(&db);
    assert_eq!(
        matcher.resolve(b"nf-old-cat"),
        MatchResult::ObsoleteNoReplacement(&icon("nf-old-cat", 1, true))
    );
}

#[test]
fn fuzzy_candidates_come_closest_first_then_in_byte_order() {
    let db = database(&[
        ("nf-fa-bxxk", 1, false),
        ("nf-fa-look", 2, false),
        ("nf-fa-book", 3, false),
        ("nf-fa-Book", 4, false),
        ("nf-fa-boo", 5, false),
        ("nf-fa-cook", 6, false),
    ]);
    let matcher = Matcher::new(&db);
    let result = matcher.resolve(b"nf-fa-hook");
    assert_eq!(
        names(&result),
        vec!["nf-fa-Book", "nf-fa-book", "nf-fa-cook", "nf-fa-look", "nf-fa-boo"]
    );
}

#[test]
fn fuzzy_match_suggests_at_most_five() {
    let db = database(&[
        ("nf-x-g", 1, false),
        ("nf-x-f", 2, false),
        ("nf-x-e", 3, false),
        ("nf-x-d", 4, false),
        ("nf-x-c", 5, false),
        ("nf-x-b", 6, false),
        ("nf-x-a", 7, false),
    ]);
    let matcher = Matcher::new(&db);
    assert_eq!(MAX_CANDIDATES, 5);
    assert_eq!(
        names(&matcher.resolve(b"nf-x-z")),
        vec!["nf-x-a", "nf-x-b", "nf-x-c", "nf-x-d", "nf-x-e"]
    );
}

#[test]
fn fuzzy_matching_is_repeatable() {
    let db = database(&[("nf-fa-look", 2, false), ("nf-fa-book", 3, false), ("nf-fa-cook", 6, true)]);
    let matcher = Matcher::new(&db);
    let first = matcher.resolve(b"nf-fa-hook");
    let second = Matcher::new(&db).resolve(b"nf-fa-hook");
    assert_eq!(first, second);
    assert_eq!(names(&first), vec!["nf-fa-book", "nf-fa-cook", "nf-fa-look"]);
}

#[test]
fn token_beyond_the_threshold_has_no_match() {
    let db = database(&[("nf-cod-account", 0xeb99, false)]);
    let matcher = Matcher::new(&db);
    // 13 bytes allow 4 edits; this token is 5 edits away.
    assert_eq!(matcher.resolve(b"nf-cod-xxxxxt"), MatchResult::NoMatch);
    // 4 edits away.
    assert_eq!(names(&matcher.resolve(b"nf-cod-axxxxnt")), vec!["nf-cod-account"]);
    assert_eq!(matcher.resolve(b""), MatchResult::NoMatch);
    assert_eq!(Matcher::new(&IconDatabase::new()).resolve(b"nf-a"), MatchResult::NoMatch);
}

#[test]
fn matching_is_case_sensitive() {
    let db = database(&[("nf-cod-account", 0xeb99, false)]);
    let matcher = Matcher::new(&db);
    assert_eq!(names(&matcher.resolve(b"nf-cod-Account")), vec!["nf-cod-account"]);
}

#[test]
fn threshold_is_a_quarter_rounded_up() {
    let expected = [0usize, 1, 1, 1, 1, 2, 2, 2, 2, 3];
    for (len, t) in expected.iter().enumerate() {
        assert_eq!(threshold_of(len), *t);
    }
    assert_eq!(threshold_of(13), 4);
    assert_eq!(threshold_of(usize::MAX), usize::MAX / 4 + 1);
}

#[test]
fn obsolete_records_count_as_candidates_but_not_as_replacements() {
    let db = database(&[
        ("nf-fa-look", 2, false),
        ("nf-fa-hook", 3, true),
        ("nf-fa-hoo", 4, false),
        ("something-else", 5, false),
    ]);
    let matcher = Matcher::new(&db);
    assert_eq!(names(&matcher.resolve(b"nf-fa-hooks")), vec!["nf-fa-hook", "nf-fa-hoo", "nf-fa-look"]);
    assert_eq!(
        matcher.resolve(b"nf-fa-hook"),
        MatchResult::ObsoleteNoReplacement(&icon("nf-fa-hook", 3, true))
    );
}
