use nerdfix::db::{Icon, IconDatabase};
use nerdfix::error::Error;

fn icon(name: &str, codepoint: u32, obsolete: bool) -> Icon {
    Icon { name: name.to_owned(), codepoint, obsolete }
}

fn sample() -> IconDatabase {
    let mut db = IconDatabase::new();
    db.insert(icon("nf-cod-account", 0xeb99, false));
    db.insert(icon("nf-mdi-access_point", 0xf501, true));
    db.insert(icon("nf-md-access_point", 0xf0003, false));
    db
}

fn sheet(entries: &[(&str, &str)]) -> String {
    let mut html = String::from("<div id=\"glyphCheatSheet\">");
    for (name, codepoint) in entries {
        html.push_str(&format!(
            "<div><div class=\"class-name\">{}</div><div class=\"codepoint\">{}</div></div>",
            name, codepoint
        ));
    }
    html.push_str("</div>");
    html
}

#[test]
fn new_database_is_empty() {
    let db = IconDatabase::new();
    assert!(db.iter().is_empty());
    assert_eq!(db.lookup("nf-cod-account"), None);
}

#[test]
fn lookup_finds_a_record_by_its_exact_name() {
    let db = sample();
    assert_eq!(db.lookup("nf-cod-account"), Some(&icon("nf-cod-account", 0xeb99, false)));
    assert_eq!(db.lookup("nf-mdi-access_point"), Some(&icon("nf-mdi-access_point", 0xf501, true)));
    assert_eq!(db.lookup("nf-cod-accoun"), None);
    assert_eq!(db.lookup("NF-COD-ACCOUNT"), None);
    assert_eq!(db.lookup(""), None);
}

#[test]
fn iteration_keeps_the_order_of_insertion() {
    let db = sample();
    let names: Vec<&str> = db.iter().iter().map(|i| i.name.as_str()).collect();
    assert_eq!(names, vec!["nf-cod-account", "nf-mdi-access_point", "nf-md-access_point"]);
}

#[test]
fn insert_overwrites_the_earlier_record_in_place() {
    let mut db = sample();
    db.insert(icon("nf-cod-account", 0x1234, true));
    assert_eq!(db.iter().len(), 3);
    assert_eq!(db.iter()[0], icon("nf-cod-account", 0x1234, true));
    assert_eq!(db.lookup("nf-cod-account"), Some(&icon("nf-cod-account", 0x1234, true)));
    assert_eq!(db.iter()[1], icon("nf-mdi-access_point", 0xf501, true));
}

#[test]
fn merge_takes_icons_first_to_last() {
    let mut db = IconDatabase::new();
    db.merge(vec![icon("nf-a", 1, false), icon("nf-b", 2, false), icon("nf-a", 3, true)]);
    assert_eq!(db.iter().to_vec(), vec![icon("nf-a", 3, true), icon("nf-b", 2, false)]);
}

#[test]
fn later_documents_win_over_earlier_ones() {
    let first = sheet(&[("nf-a", "f001"), ("nf-b", "f002")]);
    let second = sheet(&[("nf-b", "e002"), ("nf-c", "e003")]);
    let db = IconDatabase::load_from_documents(&vec![first.clone(), second.clone()]).unwrap();
    assert_eq!(
        db.iter().to_vec(),
        vec![icon("nf-a", 0xf001, false), icon("nf-b", 0xe002, false), icon("nf-c", 0xe003, false)]
    );
    let other = IconDatabase::load_from_documents(&vec![second, first]).unwrap();
    assert_eq!(other.lookup("nf-b"), Some(&icon("nf-b", 0xf002, false)));
    assert_eq!(
        other.iter().to_vec(),
        vec![icon("nf-b", 0xf002, false), icon("nf-c", 0xe003, false), icon("nf-a", 0xf001, false)]
    );
}

#[test]
fn no_documents_give_an_empty_database() {
    let db = IconDatabase::load_from_documents(&Vec::new()).unwrap();
    assert!(db.iter().is_empty());
}

#[test]
fn a_document_without_entries_fails_the_load() {
    let good = sheet(&[("nf-a", "f001")]);
    let res = IconDatabase::load_from_documents(&vec![good, "<p>no sheet</p>".to_owned()]);
    assert_eq!(res.err(), Some(Error::ParseFailure));
}

#[test]
fn save_writes_the_snapshot_format() {
    let mut db = IconDatabase::new();
    db.insert(icon("nf-a", 0xf000, true));
    let expected: Vec<u8> = vec![
        0x4e, 0x46, 0x49, 0x58, 0x01, // NFIX, version 1
        1, 0, 0, 0, 0, 0, 0, 0, // one record
        4, 0, 0, 0, 0, 0, 0, 0, // name length
        0x6e, 0x66, 0x2d, 0x61, // nf-a
        0x00, 0xf0, 0x00, 0x00, // codepoint
        1, // obsolete
    ];
    assert_eq!(db.save(), expected);
    assert_eq!(IconDatabase::new().save(), vec![0x4e, 0x46, 0x49, 0x58, 0x01, 0, 0, 0, 0, 0, 0, 0, 0]);
}

#[test]
fn save_is_reproducible() {
    assert_eq!(sample().save(), sample().save());
}

#[test]
fn snapshot_round_trip_keeps_every_record() {
    let mut db = sample();
    db.insert(icon("", 0, false));
    db.insert(icon("nf-é-ünï", u32::MAX, true));
    let loaded = IconDatabase::load_from_cache(&db.save()).unwrap();
    assert_eq!(loaded.iter().to_vec(), db.iter().to_vec());
    assert_eq!(loaded.save(), db.save());
}

#[test]
fn load_merges_repeated_names_of_a_snapshot() {
    let mut bytes: Vec<u8> = vec![0x4e, 0x46, 0x49, 0x58, 0x01, 2, 0, 0, 0, 0, 0, 0, 0];
    for (codepoint, flag) in [(1u8, 0u8), (2, 1)] {
        bytes.extend_from_slice(&[1, 0, 0, 0, 0, 0, 0, 0, b'x', codepoint, 0, 0, 0, flag]);
    }
    let db = IconDatabase::load_from_cache(&bytes).unwrap();
    assert_eq!(db.iter().to_vec(), vec![icon("x", 2, true)]);
}

#[test]
fn corrupt_snapshots_are_refused() {
    let good = sample().save();
    let corrupt = |bytes: Vec<u8>| {
        assert_eq!(IconDatabase::load_from_cache(&bytes).err(), Some(Error::CorruptCache));
    };
    corrupt(Vec::new());
    corrupt(b"NFIX".to_vec());
    corrupt(good[..good.len() - 1].to_vec());
    let mut longer = good.clone();
    longer.push(0);
    corrupt(longer);
    let mut magic = good.clone();
    magic[0] = b'X';
    corrupt(magic);
    let mut version = good.clone();
    version[4] = 2;
    corrupt(version);
    let mut count = good.clone();
    count[5] = 4;
    corrupt(count);
    let mut fewer = good.clone();
    fewer[5] = 2;
    corrupt(fewer);
    let mut flag = good.clone();
    let last = flag.len() - 1;
    flag[last] = 2;
    corrupt(flag);
    let mut name = good.clone();
    name[21] = 0xff;
    corrupt(name);
    let mut length = good.clone();
    length[20] = 0xff;
    corrupt(length);
}
