//! Reads icon records from the Nerd Fonts cheat sheet, an HTML page.

use crate::bytes::str_eq;
use crate::db::{icon_views, Icon, IconView};
use crate::error::{Error, Result};
use crate::text::{hex_value, parse_hex, trim, trimmed};
use select::document::Document;
use select::predicate::{Attr, Class, Element, Predicate, Text};
use vstd::prelude::*;
use vstd::string::StringSliceAdditionalSpecFns;
use vstd::utf8::encode_utf8;

verus! {

/// A parsed HTML document of the `select` crate: a list of nodes.
#[verifier::external_type_specification]
#[verifier::external_body]
pub struct ExDocument(select::document::Document);

/// One attribute of an element: its name, by its local part, and its
/// value.
pub struct AttrView {
    pub name: Seq<char>,
    pub value: Seq<char>,
}

/// What a node of a document holds: a text, an element with its name, by
/// its local part, and its attributes in their order, or a comment.
pub enum NodeData {
    Text(Seq<char>),
    Element(Seq<char>, Seq<AttrView>),
    Comment(Seq<char>),
}

/// One node of a document as plain values: its own index, the indices of
/// the nodes it is linked to, and what it holds.
pub struct NodeView {
    pub index: usize,
    pub parent: Option<usize>,
    pub prev: Option<usize>,
    pub next: Option<usize>,
    pub first_child: Option<usize>,
    pub last_child: Option<usize>,
    pub data: NodeData,
}

/// The nodes that a document holds, in the order of its field `nodes`.
pub uninterp spec fn document_nodes(doc: Document) -> Seq<NodeView>;

/// The nodes of the document that the HTML parser makes of a text.
pub uninterp spec fn html_nodes(html: Seq<char>) -> Seq<NodeView>;

/// The text of the first text node below node `node`, in document order,
/// whose parent carries the class `class`; `None` where there is no such
/// text node or no node `node`.
pub uninterp spec fn first_class_text(nodes: Seq<NodeView>, node: usize, class: Seq<char>) -> Option<Seq<char>>;

/// The value of the first attribute among `attrs` that has the name
/// `name`.
pub open spec fn first_attr(attrs: Seq<AttrView>, name: Seq<char>) -> Option<Seq<char>>
    decreases attrs.len(),
{
    if attrs.len() == 0 {
        None
    } else if attrs.first().name == name {
        Some(attrs.first().value)
    } else {
        first_attr(attrs.drop_first(), name)
    }
}

/// The value that a node has for the attribute `name`: that of its first
/// attribute of that name, where the node is an element.
pub open spec fn attr_of(node: NodeView, name: Seq<char>) -> Option<Seq<char>> {
    match node.data {
        NodeData::Element(_, attrs) => first_attr(attrs, name),
        _ => None,
    }
}

/// Whether node `i` is an element whose parent has the attribute `attr`
/// with the value `value`.
pub open spec fn is_element_child(
    nodes: Seq<NodeView>,
    i: int,
    attr: Seq<char>,
    value: Seq<char>,
) -> bool {
    &&& 0 <= i < nodes.len()
    &&& nodes[i].data is Element
    &&& nodes[i].parent is Some
    &&& nodes[i].parent->0 < nodes.len()
    &&& attr_of(nodes[nodes[i].parent->0 as int], attr) == Some(value)
}

/// The indices below `n`, in ascending order, of the element nodes whose
/// parent has the attribute `attr` with the value `value`.
pub open spec fn element_children_below(
    nodes: Seq<NodeView>,
    attr: Seq<char>,
    value: Seq<char>,
    n: int,
) -> Seq<usize>
    decreases n,
{
    if n <= 0 {
        Seq::empty()
    } else if is_element_child(nodes, n - 1, attr, value) {
        element_children_below(nodes, attr, value, n - 1).push((n - 1) as usize)
    } else {
        element_children_below(nodes, attr, value, n - 1)
    }
}

/// The indices, in ascending order, of the element nodes whose parent has
/// the attribute `attr` with the value `value`.
pub open spec fn element_children(
    nodes: Seq<NodeView>,
    attr: Seq<char>,
    value: Seq<char>,
) -> Seq<usize> {
    element_children_below(nodes, attr, value, nodes.len() as int)
}

/// The most bytes that a text handed to the HTML parser may have: a third
/// of what 32 bits count.
pub const MAX_SHEET_BYTES: usize = 0x5555_5555;

/// Whether a text is short enough for the HTML parser: three times its
/// length in bytes fits 32 bits. The parser keeps text in buffers of at
/// most that many bytes, and may write three bytes for one that it reads.
pub open spec fn fits_parser(html: Seq<char>) -> bool {
    3 * encode_utf8(html).len() <= u32::MAX
}

/// Whether a document is the parse of some text.
pub open spec fn is_parsed(doc: Document) -> bool {
    exists|html: Seq<char>| document_nodes(doc) == html_nodes(html)
}

/// Calls `Document::from` on a `&str`, which parses the text as HTML. The
/// contract names the nodes of the document that comes back; nothing is
/// claimed of what they are. It leaves out the texts that are too long
/// for the parser's buffers, on which the call panics.
#[verifier::external_body]
fn parse_document(html: &str) -> (doc: Document)
    requires
        3 * html.spec_bytes().len() <= u32::MAX,
    ensures
        document_nodes(doc) == html_nodes(html@),
{
    Document::from(html)
}

/// Calls `Document::find` with the predicate `Attr(attr, value).child(Element)`
/// and collects the index of each node found. The search goes through the
/// nodes in the order of their indices and keeps a node where it is an
/// element, has a parent, and the parent's first attribute with the local
/// name `attr` has the value `value`; the contract says so. It asks for a
/// document that a parse made: in one put together by hand a parent link
/// could point outside the document.
#[verifier::external_body]
fn find_element_children(doc: &Document, attr: &str, value: &str) -> (found: Vec<usize>)
    requires
        is_parsed(*doc),
    ensures
        found@ == element_children(document_nodes(*doc), attr@, value@),
{
    doc.find(Attr(attr, value).child(Element)).map(|node| node.index()).collect()
}

/// Calls `Document::nth` for node `node`, then `Node::find` with the
/// predicate `Class(class).child(Text)`, and takes the text of the first
/// node found. The contract names that text. It asks for a document that a
/// parse made, as the search follows the links between the nodes.
#[verifier::external_body]
fn find_class_text(doc: &Document, node: usize, class: &str) -> (text: Option<String>)
    requires
        is_parsed(*doc),
    ensures
        match text {
            Some(t) => first_class_text(document_nodes(*doc), node, class@) == Some(t@),
            None => first_class_text(document_nodes(*doc), node, class@) is None,
        },
{
    let found = doc.nth(node)?.find(Class(class).child(Text)).next()?;
    found.as_text().map(|t| t.to_owned())
}

/// The icon that an entry of the cheat sheet stands for, from the texts of
/// its name, its codepoint and its corner label. An entry without a name,
/// without a codepoint, or with a codepoint that is no hexadecimal number
/// stands for none. The name loses the white space around it; the icon is
/// obsolete where the corner label reads `obsolete`.
pub open spec fn texts_icon(
    name: Option<Seq<char>>,
    codepoint: Option<Seq<char>>,
    corner: Option<Seq<char>>,
) -> Option<IconView> {
    if name is Some && codepoint is Some && hex_value(codepoint->0) is Some {
        Some(
            IconView {
                name: trimmed(name->0),
                codepoint: hex_value(codepoint->0)->0,
                obsolete: corner == Some("obsolete"@),
            },
        )
    } else {
        None
    }
}

/// The icon of the entry at node `entry`.
pub open spec fn entry_icon(nodes: Seq<NodeView>, entry: usize) -> Option<IconView> {
    texts_icon(
        first_class_text(nodes, entry, "class-name"@),
        first_class_text(nodes, entry, "codepoint"@),
        first_class_text(nodes, entry, "corner-text"@),
    )
}

/// The icons of the entries `entries`, in order, entries that stand for
/// none left out.
pub open spec fn entries_icons(nodes: Seq<NodeView>, entries: Seq<usize>) -> Seq<IconView>
    decreases entries.len(),
{
    if entries.len() == 0 {
        Seq::empty()
    } else {
        let before = entries_icons(nodes, entries.drop_last());
        match entry_icon(nodes, entries.last()) {
            Some(icon) => before.push(icon),
            None => before,
        }
    }
}

/// The icons of a cheat sheet: one for each usable entry among the element
/// children of the node with the id `glyphCheatSheet`.
pub open spec fn cheat_sheet_icons(html: Seq<char>) -> Seq<IconView> {
    let nodes = html_nodes(html);
    entries_icons(nodes, element_children(nodes, "id"@, "glyphCheatSheet"@))
}

/// What parsing a cheat sheet gives: its icons, where the text is short
/// enough for the parser and holds a usable entry; `None` otherwise.
pub open spec fn parsed_icons(html: Seq<char>) -> Option<Seq<IconView>> {
    if fits_parser(html) && cheat_sheet_icons(html).len() > 0 {
        Some(cheat_sheet_icons(html))
    } else {
        None
    }
}

/// Builds the icon of an entry from the texts found in it.
pub fn icon_from_texts(
    name: Option<String>,
    codepoint: Option<String>,
    corner: Option<String>,
) -> (icon: Option<Icon>)
    ensures
        match icon {
            Some(i) => texts_icon(text_view(name), text_view(codepoint), text_view(corner)) == Some(i@),
            None => texts_icon(text_view(name), text_view(codepoint), text_view(corner)) is None,
        },
{
    let name = match name {
        Some(n) => n,
        None => return None,
    };
    let codepoint = match codepoint {
        Some(c) => c,
        None => return None,
    };
    let codepoint = match parse_hex(codepoint.as_str()) {
        Some(c) => c,
        None => return None,
    };
    let obsolete = match corner {
        Some(c) => str_eq(c.as_str(), "obsolete"),
        None => false,
    };
    Some(Icon { name: trim(name.as_str()), codepoint, obsolete })
}

/// The characters of an optional text.
pub open spec fn text_view(text: Option<String>) -> Option<Seq<char>> {
    match text {
        Some(t) => Some(t@),
        None => None,
    }
}

/// Parses a cheat sheet and returns its icons in document order.
///
/// Fails with `ParseFailure` where the sheet holds no usable entry, or has
/// more than `MAX_SHEET_BYTES` bytes.
pub fn parse(s: &str) -> (res: Result<Vec<Icon>>)
    ensures
        match res {
            Ok(icons) => parsed_icons(s@) == Some(icon_views(icons@)),
            Err(e) => e == Error::ParseFailure && parsed_icons(s@) is None,
        },
{
    if s.as_bytes().len() > MAX_SHEET_BYTES {
        return Err(Error::ParseFailure);
    }
    let mut parser = Parser::new(s);
    match parser.parse() {
        Ok(()) => {
            assert(Seq::<IconView>::empty() + cheat_sheet_icons(s@) =~= cheat_sheet_icons(s@));
            Ok(parser.icons)
        },
        Err(e) => Err(e),
    }
}

/// A text and the document that the HTML parser made of it.
struct Sheet<'a> {
    document: Document,
    source: &'a str,
}

impl<'a> Sheet<'a> {
    #[verifier::type_invariant]
    spec fn parsed_from_source(self) -> bool {
        document_nodes(self.document) == html_nodes(self.source@)
    }
}

/// A cheat sheet that has been read as HTML, and the icons taken from it so
/// far.
pub struct Parser<'a> {
    sheet: Sheet<'a>,
    icons: Vec<Icon>,
}

impl<'a> Parser<'a> {
    /// The text of the cheat sheet.
    pub closed spec fn source(self) -> Seq<char> {
        self.sheet.source@
    }

    /// The icons taken from the sheet so far.
    pub closed spec fn found(self) -> Seq<IconView> {
        icon_views(self.icons@)
    }

    /// Reads `s` as HTML; no icon is taken from it yet. The text must be
    /// short enough for the HTML parser.
    pub fn new(s: &'a str) -> (parser: Self)
        requires
            fits_parser(s@),
        ensures
            parser.source() == s@,
            parser.found() == Seq::<IconView>::empty(),
    {
        let sheet = Sheet { document: parse_document(s), source: s };
        let parser = Self { sheet, icons: Vec::new() };
        assert(parser.found() =~= Seq::<IconView>::empty());
        parser
    }

    /// Takes the icons of the sheet, in document order, and adds them to
    /// those found so far.
    ///
    /// Fails with `ParseFailure`, and adds nothing, where the sheet holds
    /// no usable entry.
    pub fn parse(&mut self) -> (res: Result<()>)
        ensures
            final(self).source() == old(self).source(),
            cheat_sheet_icons(old(self).source()).len() > 0 ==> res is Ok && final(self).found()
                == old(self).found() + cheat_sheet_icons(old(self).source()),
            cheat_sheet_icons(old(self).source()).len() == 0 ==> res == Err::<(), Error>(
                Error::ParseFailure,
            ) && final(self).found() == old(self).found(),
    {
        proof {
            use_type_invariant(&self.sheet);
        }
        let document = &self.sheet.document;
        let ghost nodes = html_nodes(self.sheet.source@);
        let entries = find_element_children(document, "id", "glyphCheatSheet");
        let mut icons: Vec<Icon> = Vec::new();
        let mut i: usize = 0;
        while i < entries.len()
            invariant
                i <= entries.len(),
                is_parsed(*document),
                document_nodes(*document) == nodes,
                icon_views(icons@) == entries_icons(nodes, entries@.take(i as int)),
            decreases entries.len() - i,
        {
            let entry = entries[i];
            let name = find_class_text(document, entry, "class-name");
            let codepoint = find_class_text(document, entry, "codepoint");
            let corner = find_class_text(document, entry, "corner-text");
            proof {
                assert(entries@.take(i + 1).drop_last() =~= entries@.take(i as int));
            }
            match icon_from_texts(name, codepoint, corner) {
                Some(icon) => {
                    icons.push(icon);
                    assert(icon_views(icons@) =~= entries_icons(nodes, entries@.take(i + 1)));
                },
                None => {},
            }
            i += 1;
        }
        assert(entries@.take(i as int) =~= entries@);
        if icons.len() == 0 {
            return Err(Error::ParseFailure);
        }
        let ghost before = self.icons@;
        self.icons.append(&mut icons);
        assert(icon_views(self.icons@) =~= icon_views(before) + cheat_sheet_icons(self.sheet.source@));
        Ok(())
    }
}

} // verus!
