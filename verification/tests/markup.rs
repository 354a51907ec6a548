use nparser::arena::{Arena, NodeData, NodeId};
use nparser::document::JsDocument;
use nparser::parser::{is_attr_name_char, is_name_char, is_void, ParseError, Parser};

fn parse(html: &str) -> JsDocument {
    match JsDocument::parse(html.to_string()) {
        Ok(doc) => doc,
        Err(e) => panic!("{}", e.to_string()),
    }
}

fn fault(html: &str) -> ParseError {
    match JsDocument::parse(html.to_string()) {
        Ok(_) => panic!("parsed"),
        Err(e) => e,
    }
}

fn round_trip(html: &str) -> String {
    parse(html).serialize()
}

#[test]
fn self_closing_tag_makes_a_childless_node() {
    let doc = parse("<widget foo=\"bar\"/>after");
    let root = doc.document_element();
    let kids = root.children(&doc.arena);
    assert_eq!(kids.len(), 2);
    assert_eq!(kids[0].tag_name(&doc.arena), Some("widget".to_string()));
    assert_eq!(kids[0].children(&doc.arena).len(), 0);
    assert_eq!(kids[0].get_attribute(&doc.arena, "foo".to_string()), Some("bar".to_string()));
    assert_eq!(kids[1].text_content(&doc.arena), "after");
    assert_eq!(doc.serialize(), "<widget foo=\"bar\"></widget>after");
}

#[test]
fn boolean_attribute_is_not_an_empty_value() {
    assert_eq!(round_trip("<input disabled>"), "<input disabled/>");
    assert_eq!(round_trip("<input disabled=\"\">"), "<input disabled=\"\"/>");
    assert_eq!(round_trip("<component attr></component>"), "<component attr></component>");
    let doc = parse("<i a b=''></i>");
    let e = doc.query_selector("i".to_string()).unwrap();
    assert!(e.has_attribute(&doc.arena, "a".to_string()));
    assert_eq!(e.get_attribute(&doc.arena, "a".to_string()), None);
    assert_eq!(e.get_attribute(&doc.arena, "b".to_string()), Some(String::new()));
}

#[test]
fn special_characters_are_kept() {
    let html = "<p t=\"a<b&&c>d\">x > y & z &amp; {{ v }}</p>";
    assert_eq!(round_trip(html), html);
    let doc = parse(html);
    assert_eq!(doc.document_element().text_content(&doc.arena), "x > y & z &amp; {{ v }}");
}

#[test]
fn comment_becomes_a_text_node() {
    let html = "a<!-- <b> & -- > -->c<d></d>";
    let doc = parse(html);
    let kids = doc.document_element().children(&doc.arena);
    assert_eq!(kids.len(), 4);
    assert_eq!(kids[1].node_type(&doc.arena), 3);
    assert_eq!(kids[1].text_content(&doc.arena), "<!-- <b> & -- > -->");
    assert_eq!(doc.serialize(), html);
}

#[test]
fn open_comment_reaches_to_the_end() {
    assert_eq!(round_trip("x<!-- <p></p>"), "x<!-- <p></p>");
    assert_eq!(round_trip("<!--->"), "<!--->");
    // Inside an element the end tag is written behind it.
    let doc = parse("<a><!-- x");
    assert_eq!(doc.serialize(), "<a><!-- x</a>");
    assert_eq!(round_trip(&doc.serialize()), "<a><!-- x</a></a>");
}

#[test]
fn canonical_markup_is_kept_letter_for_letter() {
    let html = "<!-- head --><html lang=\"en\"><body class=\"a b\" n:route=\"/x\"><br/>text\n \
                <my-tag x.y=\"1\" bool></my-tag>é日本</body></html>\n";
    assert_eq!(round_trip(html), html);
}

#[test]
fn writing_and_parsing_again_changes_nothing() {
    for html in [
        "<A HREF='x y' Checked>t</a>",
        "<ul><li>1</li><li>2</li></ul>",
        "<p>a<br>b<img src=x>c",
        "<a  b = c  d= 'e' / >",
        "<x a='1' A='2'/>",
        "</>",
        "",
    ] {
        let once = round_trip(html);
        assert_eq!(round_trip(&once), once);
    }
}

#[test]
fn value_with_a_double_quote_is_not_read_back() {
    let doc = parse("<a b='x\"y'></a>");
    let e = doc.query_selector("a".to_string()).unwrap();
    assert_eq!(e.get_attribute(&doc.arena, "b".to_string()), Some("x\"y".to_string()));
    assert_eq!(doc.serialize(), "<a b=\"x\"y\"></a>");
    let again = parse(&doc.serialize());
    let e = again.query_selector("a".to_string()).unwrap();
    assert_eq!(e.get_attribute(&again.arena, "b".to_string()), Some("x".to_string()));
}

#[test]
fn names_are_put_in_lower_case_and_values_are_not() {
    assert_eq!(round_trip("<DIV Class=\"Big\" X></div>"), "<div class=\"Big\" x></div>");
    // Only ASCII letters have their case changed.
    assert_eq!(round_trip("<É></É>"), "<É></É>");
}

#[test]
fn void_elements_have_no_content() {
    assert_eq!(round_trip("<br>x"), "<br/>x");
    assert_eq!(round_trip("<BR/>x"), "<br/>x");
    let doc = parse("<p><input><hr></p>");
    assert_eq!(doc.serialize(), "<p><input/><hr/></p>");
    for tag in [
        "area", "base", "br", "col", "embed", "hr", "img", "input", "link", "meta", "param",
        "source", "track", "wbr",
    ] {
        assert!(is_void(tag));
    }
    assert!(!is_void("div"));
    assert!(!is_void("BR"));
}

#[test]
fn attribute_values_with_and_without_quotes() {
    let doc = parse("<a p=1 q='2 3' r=\"4>5\" s = six t=></a>");
    let e = doc.query_selector("a".to_string()).unwrap();
    let get = |n: &str| e.get_attribute(&doc.arena, n.to_string());
    assert_eq!(get("p"), Some("1".to_string()));
    assert_eq!(get("q"), Some("2 3".to_string()));
    assert_eq!(get("r"), Some("4>5".to_string()));
    assert_eq!(get("s"), Some("six".to_string()));
    assert_eq!(get("t"), Some(String::new()));
}

#[test]
fn unquoted_value_ends_at_a_slash() {
    let doc = parse("<a href=x/>rest");
    assert_eq!(doc.serialize(), "<a href=\"x\"></a>rest");
    let doc = parse("<a href=x/y>z</a>");
    assert_eq!(doc.serialize(), "<a href=\"x\">/y>z</a>");
}

#[test]
fn later_attribute_of_the_same_name_wins() {
    assert_eq!(round_trip("<x a='1' b A='2'></x>"), "<x a=\"2\" b></x>");
}

#[test]
fn unclosed_elements_end_with_the_text() {
    assert_eq!(round_trip("<a><b>x"), "<a><b>x</b></a>");
    assert_eq!(round_trip("<a><b>x</></a>"), "<a><b>x</b></a>");
    assert_eq!(round_trip("<a>x</ a >y"), "<a>x</a>y");
}

#[test]
fn stray_closing_tag_ends_the_document() {
    assert_eq!(round_trip("a</b>c"), "a");
    assert_eq!(round_trip("</b>"), "");
}

#[test]
fn stray_character_in_a_tag_begins_the_content() {
    assert_eq!(round_trip("<a \"x\">t</a>"), "<a>\"x\">t</a>");
    assert_eq!(round_trip("<a / b>t</a>"), "<a>/ b>t</a>");
}

#[test]
fn mismatched_tag_is_a_fault() {
    let e = fault("<a>x</b>");
    assert_eq!(
        e,
        ParseError::MismatchedTag { opened: "a".to_string(), closed: "b".to_string() }
    );
    assert_eq!(e.to_string(), "Mismatched tag: opened <a>, closed </b>");
    // The closing name is compared as it stands.
    let e = fault("<A></A>");
    assert_eq!(
        e,
        ParseError::MismatchedTag { opened: "a".to_string(), closed: "A".to_string() }
    );
}

#[test]
fn text_that_ends_in_a_tag_is_a_fault() {
    for html in ["<a", "<a ", "<a b", "<a b=", "<a b='x", "<p><a b=\"x\""] {
        assert_eq!(fault(html), ParseError::UnexpectedEof);
    }
    assert_eq!(ParseError::UnexpectedEof.to_string(), "Unexpected end of input");
}

#[test]
fn missing_tag_name_is_a_fault() {
    for html in ["<", "< a>", "<!doctype html>", "a <= b", "<>"] {
        assert_eq!(fault(html), ParseError::InvalidTagName(String::new()));
    }
    assert_eq!(fault("<").to_string(), "Invalid tag name: \"\"");
    assert_eq!(
        ParseError::InvalidTagName("a\"b\n".to_string()).to_string(),
        "Invalid tag name: \"a\\\"b\\n\""
    );
}

#[test]
fn parser_reports_the_closing_tag_and_keeps_partial_content() {
    let mut arena = Arena::new();
    let root = arena.root;
    let r = Parser::new("a<b></b></c>d".to_string()).parse_children(&mut arena, root);
    assert_eq!(r, Ok(Some("c".to_string())));
    assert_eq!(arena.inner_html(root), "a<b></b>");

    let mut arena = Arena::new();
    let r = Parser::new("a<b>x<c y".to_string()).parse_children(&mut arena, root);
    assert_eq!(r, Err(ParseError::UnexpectedEof));
    assert_eq!(arena.inner_html(root), "a<b>x</b>");

    let mut arena = Arena::new();
    let r = Parser::new(String::new()).parse_children(&mut arena, root);
    assert_eq!(r, Ok(None));
}

#[test]
fn parser_goes_on_behind_a_closing_tag() {
    let mut arena = Arena::new();
    let root = arena.root;
    let mut parser = Parser::new("a</x>b</y>".to_string());
    assert_eq!(parser.parse_children(&mut arena, root), Ok(Some("x".to_string())));
    assert_eq!(parser.parse_children(&mut arena, root), Ok(Some("y".to_string())));
    assert_eq!(parser.parse_children(&mut arena, root), Ok(None));
    assert_eq!(arena.inner_html(root), "ab");
}

#[test]
fn characters_of_names() {
    for c in ['a', 'Z', '7', '-', '_', ':', '.', 'é', '日', '٣'] {
        assert!(is_name_char(c));
    }
    for c in [' ', '/', '>', '<', '=', '!', '\u{3000}', '€'] {
        assert!(!is_name_char(c));
    }
    for c in ['@', ':', '<', '[', '!', '\u{A0}'] {
        assert!(is_attr_name_char(c));
    }
    for c in ['=', '>', '/', '"', '\'', ' ', '\t', '\n', '\u{C}', '\r'] {
        assert!(!is_attr_name_char(c));
    }
}

#[test]
fn new_nodes_are_numbered_in_document_order() {
    let mut arena = Arena::new();
    let root = arena.root;
    let r = Parser::new("<p>hi".to_string()).parse_children(&mut arena, root);
    assert_eq!(r, Ok(None));
    assert_eq!(arena.nodes.len(), 3);
    assert_eq!(arena.get(root).children, vec![NodeId(1)]);
    assert_eq!(arena.get(NodeId(1)).children, vec![NodeId(2)]);
    assert!(matches!(&arena.get(NodeId(2)).data, NodeData::Text(s) if s == "hi"));

    let doc = parse("a<b>c<d/><!--e--></b>f");
    assert_eq!(doc.root, 0);
    let all: Vec<usize> = doc.arena.walk_descendants(root).iter().map(|id| id.0).collect();
    assert_eq!(all, [1, 2, 3, 4, 5, 6]);
    assert_eq!(doc.arena.nodes.len(), 7);
}

#[test]
fn nothing_but_what_was_read_is_added() {
    let mut arena = Arena::new();
    let root = arena.root;
    let r = Parser::new("a</p>b".to_string()).parse_children(&mut arena, root);
    assert_eq!(r, Ok(Some("p".to_string())));
    assert_eq!(arena.nodes.len(), 2);
    assert_eq!(arena.get(NodeId(1)).parent, Some(root));

    let mut arena = Arena::new();
    let r = Parser::new("<widget foo=\"bar\"/>".to_string()).parse_children(&mut arena, root);
    assert_eq!(r, Ok(None));
    assert_eq!(arena.nodes.len(), 2);
    assert!(arena.get(NodeId(1)).children.is_empty());

    // After a fault, too.
    let mut arena = Arena::new();
    let r = Parser::new("x<y>z</w>".to_string()).parse_children(&mut arena, root);
    assert!(r.is_err());
    assert_eq!(arena.nodes.len(), 4);
}
