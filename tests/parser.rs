use htmlparse::chars::CharClass;
use htmlparse::dom::{AttrMap, ElementData, Node};
use htmlparse::parser::{HTMLParser, ParseError, ScanError};
use htmlparse::token::{HTMLToken, TagMeta};

fn parse(html: &str) -> Result<Vec<Node>, ParseError> {
    HTMLParser::new(html.to_string()).parse()
}

fn element(n: &Node) -> &ElementData {
    match n {
        Node::Element(e) => e,
        Node::Text(t) => panic!("expected an element, found text {:?}", t),
    }
}

fn text(n: &Node) -> &str {
    match n {
        Node::Text(t) => t.as_str(),
        Node::Element(e) => panic!("expected text, found element {:?}", e.tag_name),
    }
}

fn attr(e: &ElementData, name: &str) -> Option<String> {
    e.attributes.get(&name.to_string())
}

#[test]
fn parse_tag() {
    let html = "<a class=\"id\" href=\"https://abundance.com\"></a>";
    let mut parser = HTMLParser::new(html.to_string());
    let tag = parser.next_token();
    match tag {
        Ok(Some(HTMLToken::OpenTag(TagMeta { name, attributes }))) => {
            assert_eq!(name, "a");
            assert_eq!(attributes.len(), 2);
            assert_eq!(attributes.get(&"class".to_string()), Some("id".to_string()));
            assert_eq!(
                attributes.get(&"href".to_string()),
                Some("https://abundance.com".to_string())
            );
        }
        other => panic!("unexpected token {:?}", other),
    }
}

#[test]
fn create_tree() {
    let html = "<HEADER>
  <TITLE>The World Wide Web project</TITLE>
  <NEXTID N=\"55\">
</HEADER>
            </yam>
";
    let mut parser = HTMLParser::new(html.to_string());
    let tree = parser.parse();

    println!("tree - {:?}", tree);
    let tree = tree.unwrap();
    assert_eq!(tree.len(), 1);
    let header = element(&tree[0]);
    assert_eq!(header.tag_name, "HEADER");
    assert_eq!(header.children.len(), 2);
    let title = element(&header.children[0]);
    assert_eq!(title.tag_name, "TITLE");
    assert_eq!(text(&title.children[0]), "The World Wide Web project");
    let next_id = element(&header.children[1]);
    assert_eq!(next_id.tag_name, "NEXTID");
    assert_eq!(attr(next_id, "N"), Some("55".to_string()));
    assert!(next_id.children.is_empty());
}

#[test]
fn attribute_value_excludes_closing_quote() {
    let tree = parse("<a href=\"x\">").unwrap();
    assert_eq!(tree.len(), 1);
    let a = element(&tree[0]);
    assert_eq!(a.tag_name, "a");
    assert_eq!(attr(a, "href"), Some("x".to_string()));
    assert_eq!(a.attributes.len(), 1);
}

#[test]
fn comment_is_suppressed() {
    let tree = parse("<!-- hi --><b>x</b>").unwrap();
    assert_eq!(tree.len(), 1);
    let b = element(&tree[0]);
    assert_eq!(b.tag_name, "b");
    assert_eq!(b.children.len(), 1);
    assert_eq!(text(&b.children[0]), "x");
}

#[test]
fn mismatched_close_recovery() {
    let tree = parse("<a><b>text</a>").unwrap();
    assert_eq!(tree.len(), 1);
    let a = element(&tree[0]);
    assert_eq!(a.tag_name, "a");
    assert_eq!(a.children.len(), 2);
    let b = element(&a.children[0]);
    assert_eq!(b.tag_name, "b");
    assert!(b.children.is_empty());
    assert_eq!(text(&a.children[1]), "text");
}

#[test]
fn unmatched_close_is_a_no_op() {
    let tree = parse("</z>hello").unwrap();
    assert_eq!(tree.len(), 1);
    assert_eq!(text(&tree[0]), "hello");
}

#[test]
fn directive_is_captured() {
    let tree = parse("<!DOCTYPE html>").unwrap();
    assert_eq!(tree.len(), 1);
    let d = element(&tree[0]);
    assert_eq!(d.tag_name, "directive");
    assert!(d.children.is_empty());
    assert_eq!(attr(d, "text"), Some("DOCTYPE html".to_string()));
}

#[test]
fn whitespace_only_text_gives_no_node() {
    let tree = parse("<a>   </a>").unwrap();
    assert_eq!(tree.len(), 1);
    let a = element(&tree[0]);
    assert_eq!(a.tag_name, "a");
    assert!(a.children.is_empty());
    let tree = parse("<a>\t\n </a>").unwrap();
    assert!(element(&tree[0]).children.is_empty());
}

#[test]
fn well_formed_input_needs_no_repair() {
    let html = "<a><b>x</b><c y=\"1\">z</c></a>";
    let repaired = parse(html).unwrap();
    let mut parser = HTMLParser::new(html.to_string());
    let tokens = parser.tokenize().unwrap();
    let unrepaired = parser.create_dom_tree(tokens);
    assert_eq!(repaired, unrepaired);
}

#[test]
fn parsing_twice_gives_equal_forests() {
    let html = "<p>one<b>two</p><i x=\"y\">three";
    assert_eq!(parse(html), parse(html));
}

#[test]
fn reclassification_only_touches_tags_above_the_match() {
    let tree = parse("<x><a><b><c></a>tail</x>").unwrap();
    assert_eq!(tree.len(), 1);
    let x = element(&tree[0]);
    assert_eq!(x.tag_name, "x");
    assert_eq!(x.children.len(), 2);
    let a = element(&x.children[0]);
    assert_eq!(a.tag_name, "a");
    assert_eq!(a.children.len(), 2);
    assert_eq!(element(&a.children[0]).tag_name, "b");
    assert!(element(&a.children[0]).children.is_empty());
    assert_eq!(element(&a.children[1]).tag_name, "c");
    assert!(element(&a.children[1]).children.is_empty());
    assert_eq!(text(&x.children[1]), "tail");
}

#[test]
fn repair_deletes_and_reclassifies_tokens() {
    let mut parser = HTMLParser::new("<a><b></a></q><>".to_string());
    let tokens = parser.tokenize().unwrap();
    assert_eq!(tokens.len(), 5);
    let repaired = htmlparse::repair::repair_tokens(&tokens);
    assert_eq!(repaired.len(), 3);
    assert!(matches!(&repaired[0], HTMLToken::OpenTag(m) if m.name == "a"));
    assert!(matches!(&repaired[1], HTMLToken::SelfClose(m) if m.name == "b"));
    assert!(matches!(&repaired[2], HTMLToken::CloseTag(n) if n == "a"));
}

#[test]
fn unterminated_quote_is_malformed() {
    assert_eq!(parse("<a href=\"x>"), Err(ParseError::MalformedMarkup));
}

#[test]
fn unterminated_tag_is_dropped() {
    assert_eq!(parse("<abc").unwrap(), Vec::new());
    assert_eq!(parse("<!-- never closed").unwrap(), Vec::new());
    let tree = parse("hi<b").unwrap();
    assert_eq!(tree.len(), 1);
    assert_eq!(text(&tree[0]), "hi");
}

#[test]
fn empty_input_gives_empty_forest() {
    assert_eq!(parse("").unwrap(), Vec::new());
    assert_eq!(parse("   \n").unwrap(), Vec::new());
}

#[test]
fn stray_greater_than_is_skipped() {
    let tree = parse("a > b").unwrap();
    assert_eq!(tree.len(), 2);
    assert_eq!(text(&tree[0]), "a ");
    assert_eq!(text(&tree[1]), " b");
}

#[test]
fn open_elements_are_flushed_bottom_first() {
    let tree = parse("<a>hi<b>yo").unwrap();
    assert_eq!(tree.len(), 2);
    let a = element(&tree[0]);
    assert_eq!(a.tag_name, "a");
    assert_eq!(a.children.len(), 1);
    assert_eq!(text(&a.children[0]), "hi");
    let b = element(&tree[1]);
    assert_eq!(b.tag_name, "b");
    assert_eq!(text(&b.children[0]), "yo");
}

#[test]
fn close_tag_name_keeps_only_alphanumerics() {
    let mut parser = HTMLParser::new("</ di-v >".to_string());
    match parser.next_token() {
        Ok(Some(HTMLToken::CloseTag(n))) => assert_eq!(n, "div"),
        other => panic!("unexpected token {:?}", other),
    }
    let tree = parse("<div>x</ div >").unwrap();
    assert_eq!(tree.len(), 1);
    assert_eq!(element(&tree[0]).children.len(), 1);
}

#[test]
fn repeated_attribute_keeps_last_value() {
    let tree = parse("<a x=\"1\" y=2 x=\"3\">").unwrap();
    let a = element(&tree[0]);
    assert_eq!(a.attributes.len(), 2);
    assert_eq!(attr(a, "x"), Some("3".to_string()));
    assert_eq!(attr(a, "y"), Some("2".to_string()));
    assert_eq!(attr(a, "z"), None);
}

#[test]
fn multibyte_text_is_read_by_character() {
    let tree = parse("<p>héllo wörld</p>").unwrap();
    let p = element(&tree[0]);
    assert_eq!(text(&p.children[0]), "héllo wörld");
    let mut parser = HTMLParser::new("é<b>".to_string());
    assert_eq!(parser.peek_at_n(1), Some('<'));
}

#[test]
fn cursor_operations() {
    let mut p = HTMLParser::new("ab1 <x".to_string());
    assert_eq!(p.peek(), Some('a'));
    assert!(p.starts_with('a'));
    assert!(!p.starts_with('b'));
    assert_eq!(p.peek_at_n(2), Some('1'));
    assert_eq!(p.peek_at_n(6), None);
    assert_eq!(p.peek_to_n(3), Some("ab1".to_string()));
    assert_eq!(p.peek_to_n(7), None);
    assert_eq!(p.next(), Some('a'));
    assert_eq!(p.next_n(2), Some("b1".to_string()));
    assert_eq!(p.next_n(9), None);
    assert_eq!(p.next_while(CharClass::Whitespace), " ");
    assert_eq!(p.next_while(CharClass::Alnum), "");
    assert_eq!(p.next_while_inc(CharClass::NotGt), Err(ScanError::UnterminatedScan));
    assert_eq!(p.peek(), None);
    assert_eq!(p.next(), None);
    let mut q = HTMLParser::new("abc>def".to_string());
    assert_eq!(q.peek_while(CharClass::NotGt), Some("abc".to_string()));
    assert_eq!(q.peek_while(CharClass::NotAngle), Some("abc".to_string()));
    assert_eq!(HTMLParser::new("abc".to_string()).peek_while(CharClass::Alnum), None);
    assert_eq!(q.peek(), Some('a'));
    assert_eq!(q.next_while_inc(CharClass::NotGt), Ok("abc>".to_string()));
    assert_eq!(q.next_while(CharClass::NotAlnum), "");
    assert_eq!(q.next_while(CharClass::Alnum), "def");
}

#[test]
fn attr_map_insert_and_lookup() {
    let mut m = AttrMap::new();
    assert_eq!(m.len(), 0);
    m.insert("k".to_string(), "v".to_string());
    m.insert("j".to_string(), "w".to_string());
    m.insert("k".to_string(), "u".to_string());
    assert_eq!(m.len(), 2);
    assert_eq!(m.get(&"k".to_string()), Some("u".to_string()));
    assert_eq!(m.get(&"j".to_string()), Some("w".to_string()));
    assert_eq!(m.duplicate(), m);
}

#[test]
fn node_constructors() {
    let t = Node::text("x".to_string());
    assert_eq!(t, Node::Text("x".to_string()));
    let e = Node::element(ElementData {
        tag_name: "p".to_string(),
        attributes: AttrMap::new(),
        children: vec![t],
    });
    assert_eq!(element(&e).children.len(), 1);
}
