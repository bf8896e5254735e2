use nerdfix::db::Icon;
use nerdfix::error::Error;
use nerdfix::parser::{icon_from_texts, parse, Parser};

const CHEAT_SHEET: &str = r#"
<div id="glyphCheatSheet" class="nerd-font-cheat-sheet">
  <div class="column">
    <div class="nf nf-cod-account center"></div>
    <div class="class-name">nf-cod-account</div><div title="Copy Hex Code to Clipboard" class="codepoint">eb99</div>
  </div>
  <div class="column">
    <div class="nf nf-cod-activate_breakpoints center"></div>
    <div class="class-name">nf-cod-activate_breakpoints</div><div title="Copy Hex Code to Clipboard" class="codepoint">ea97</div>
  </div>
  <div class="column">
    <span class="corner-red"></span><span class="corner-text">obsolete</span>
    <div class="nf nf-mdi-access_point center"></div>
    <div class="class-name">nf-mdi-access_point</div><div title="Copy Hex Code to Clipboard" class="codepoint">f501</div>
  </div>
  <div class="column">
    <span class="corner-red"></span><span class="corner-text">obsolete</span>
    <div class="nf nf-mdi-access_point_network center"></div>
    <div class="class-name">nf-mdi-access_point_network</div><div title="Copy Hex Code to Clipboard" class="codepoint">f502</div>
  </div>
</div>"#;

fn icon(name: &str, codepoint: u32, obsolete: bool) -> Icon {
    Icon { name: name.to_owned(), codepoint, obsolete }
}

#[test]
fn parser() {
    let icons = parse(CHEAT_SHEET).unwrap();
    let expected = vec![
        icon("nf-cod-account", 0xeb99, false),
        icon("nf-cod-activate_breakpoints", 0xea97, false),
        icon("nf-mdi-access_point", 0xf501, true),
        icon("nf-mdi-access_point_network", 0xf502, true),
    ];
    assert_eq!(icons, expected);
}

#[test]
fn parse_skips_entries_without_name_or_codepoint() {
    let sheet = r#"<div id="glyphCheatSheet">
      <div><div class="class-name">nf-a</div></div>
      <div><div class="codepoint">f000</div></div>
      <div><div class="class-name">nf-b</div><div class="codepoint">xyz</div></div>
      <div><div class="class-name">  nf-c  </div><div class="codepoint">F00c</div></div>
    </div>"#;
    assert_eq!(parse(sheet).unwrap(), vec![icon("nf-c", 0xf00c, false)]);
}

#[test]
fn parse_fails_on_a_sheet_without_entries() {
    assert_eq!(parse("<p>nothing here</p>"), Err(Error::ParseFailure));
    assert_eq!(parse(""), Err(Error::ParseFailure));
    let other_id = r#"<div id="other"><div><div class="class-name">nf-a</div><div class="codepoint">1</div></div></div>"#;
    assert_eq!(parse(other_id), Err(Error::ParseFailure));
}

#[test]
fn parser_keeps_what_it_found_before() {
    let mut parser = Parser::new(CHEAT_SHEET);
    assert_eq!(parser.parse(), Ok(()));
    assert_eq!(parser.parse(), Ok(()));
    let mut empty = Parser::new("<p></p>");
    assert_eq!(empty.parse(), Err(Error::ParseFailure));
}

#[test]
fn icon_from_texts_reads_the_three_texts() {
    let some = |s: &str| Some(s.to_owned());
    assert_eq!(
        icon_from_texts(some(" nf-x\n"), some("eb99"), some("obsolete")),
        Some(icon("nf-x", 0xeb99, true))
    );
    assert_eq!(
        icon_from_texts(some("nf-x"), some("+1F"), some("new")),
        Some(icon("nf-x", 0x1f, false))
    );
    assert_eq!(icon_from_texts(some("nf-x"), some("0"), None), Some(icon("nf-x", 0, false)));
    assert_eq!(icon_from_texts(None, some("eb99"), None), None);
    assert_eq!(icon_from_texts(some("nf-x"), None, None), None);
    assert_eq!(icon_from_texts(some("nf-x"), some(" eb99"), None), None);
    assert_eq!(icon_from_texts(some("nf-x"), some("100000000"), None), None);
    assert_eq!(icon_from_texts(some("nf-x"), some("ffffffff"), None), Some(icon("nf-x", u32::MAX, false)));
    assert_eq!(icon_from_texts(some("nf-x"), some(""), None), None);
    assert_eq!(icon_from_texts(some("nf-x"), some("+"), None), None);
    assert_eq!(icon_from_texts(some("nf-x"), some("-1"), None), None);
}

#[test]
fn entries_are_the_element_children_of_the_sheet() {
    let sheet = r#"<div id="glyphCheatSheet">
      loose text <!-- a comment -->
      <div><div class="class-name">nf-a</div><div class="codepoint">1</div></div>
      <div><div><div class="class-name">nf-b</div><div class="codepoint">2</div></div></div>
    </div>
    <section id="glyphCheatSheet"><p><span class="class-name">nf-c</span><span class="codepoint">3</span></p></section>
    <div id="glyphcheatsheet"><div><div class="class-name">nf-d</div><div class="codepoint">4</div></div></div>
    <div class="glyphCheatSheet"><div><div class="class-name">nf-e</div><div class="codepoint">5</div></div></div>"#;
    assert_eq!(
        parse(sheet).unwrap(),
        vec![icon("nf-a", 1, false), icon("nf-b", 2, false), icon("nf-c", 3, false)]
    );
}

#[test]
fn an_entry_takes_the_first_text_of_each_class() {
    let sheet = r#"<div id="glyphCheatSheet"><div>
      <div class="other class-name extra">nf-first</div><div class="class-name">nf-second</div>
      <div class="codepoint">a</div><div class="codepoint">b</div>
      <span class="corner-text">new</span><span class="corner-text">obsolete</span>
    </div></div>"#;
    assert_eq!(parse(sheet).unwrap(), vec![icon("nf-first", 0xa, false)]);
}
