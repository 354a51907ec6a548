use nparser::attrs::Attrs;
use nparser::document::{JsDocument, JsElement};
use nparser::parser::ParseError;

fn parse(html: &str) -> JsDocument {
    JsDocument::parse(html.to_string()).unwrap()
}

fn find(doc: &JsDocument, selector: &str) -> JsElement {
    doc.query_selector(selector.to_string()).unwrap()
}

#[test]
fn attributes_are_set_read_and_removed() {
    let mut doc = parse("<a x=\"1\" y></a>");
    let e = find(&doc, "a");
    e.set_attribute(&mut doc.arena, "z".to_string(), Some("3".to_string()));
    e.set_attribute(&mut doc.arena, "x".to_string(), None);
    assert_eq!(doc.serialize(), "<a x y z=\"3\"></a>");
    assert!(e.has_attribute(&doc.arena, "x".to_string()));
    assert_eq!(e.get_attribute(&doc.arena, "x".to_string()), None);
    assert_eq!(e.get_attribute(&doc.arena, "z".to_string()), Some("3".to_string()));
    e.remove_attribute(&mut doc.arena, "y".to_string());
    e.remove_attribute(&mut doc.arena, "missing".to_string());
    assert!(!e.has_attribute(&doc.arena, "y".to_string()));
    assert_eq!(doc.serialize(), "<a x z=\"3\"></a>");
}

#[test]
fn setting_twice_is_setting_once() {
    let mut a = Attrs::new();
    a.insert("n".to_string(), Some("1".to_string()));
    a.insert("m".to_string(), None);
    a.insert("n".to_string(), Some("2".to_string()));
    assert_eq!(a.len(), 2);
    assert_eq!(a.get("n"), Some(&Some("2".to_string())));
    assert_eq!(a.get("m"), Some(&None));
    assert_eq!(a.get("k"), None);
    assert_eq!(a.name_at(0), "n");
    assert_eq!(a.value_at(1), &None);
    let mut b = a.clone();
    b.insert("new".to_string(), None);
    b.remove("new");
    assert_eq!(b.len(), 2);
    assert!(b.contains_key("n") && b.contains_key("m") && !b.contains_key("new"));
}

#[test]
fn attribute_names_are_taken_as_they_are() {
    let mut doc = parse("<a></a>");
    let e = find(&doc, "a");
    e.set_attribute(&mut doc.arena, "X".to_string(), None);
    assert!(e.has_attribute(&doc.arena, "X".to_string()));
    assert!(!e.has_attribute(&doc.arena, "x".to_string()));
}

#[test]
fn nodes_that_are_no_elements_have_no_attributes() {
    let mut doc = parse("text");
    let root = doc.document_element();
    let text = root.children(&doc.arena)[0];
    for node in [root, text] {
        node.set_attribute(&mut doc.arena, "a".to_string(), Some("b".to_string()));
        assert!(!node.has_attribute(&doc.arena, "a".to_string()));
        assert_eq!(node.get_attribute(&doc.arena, "a".to_string()), None);
        node.remove_attribute(&mut doc.arena, "a".to_string());
        assert_eq!(node.tag_name(&doc.arena), None);
    }
    assert_eq!(doc.serialize(), "text");
}

#[test]
fn kinds_of_nodes() {
    let doc = parse("<p>t</p>");
    let root = doc.document_element();
    let p = find(&doc, "p");
    let t = p.children(&doc.arena)[0];
    assert_eq!(root.node_type(&doc.arena), 9);
    assert_eq!(p.node_type(&doc.arena), 1);
    assert_eq!(t.node_type(&doc.arena), 3);
    assert_eq!(p.tag_name(&doc.arena), Some("p".to_string()));
    assert_eq!(root.parent(&doc.arena), None);
    assert_eq!(p.parent(&doc.arena), Some(root));
    assert_eq!(t.parent(&doc.arena), Some(p));
}

#[test]
fn text_content_joins_all_texts() {
    let doc = parse("a<b>c<!--d--><e>f</e></b><br>g");
    assert_eq!(doc.document_element().text_content(&doc.arena), "ac<!--d-->fg");
    let b = find(&doc, "b");
    assert_eq!(b.text_content(&doc.arena), "c<!--d-->f");
}

#[test]
fn text_of_texts_is_the_inner_markup() {
    let doc = parse("<p>a<!--b-->c</p>");
    let p = find(&doc, "p");
    assert_eq!(p.text_content(&doc.arena), p.get_inner_html(&doc.arena));
}

#[test]
fn inner_html_is_replaced() {
    let mut doc = parse("<ul><li>1</li><li>2</li></ul><p>k</p>");
    let ul = find(&doc, "ul");
    let li = find(&doc, "li");
    let p = find(&doc, "p");
    assert_eq!(ul.set_inner_html(&mut doc.arena, "<b x>y</b>z".to_string()), Ok(()));
    assert_eq!(ul.get_inner_html(&doc.arena), "<b x>y</b>z");
    assert_eq!(doc.serialize(), "<ul><b x>y</b>z</ul><p>k</p>");
    // The old content is apart, and what is outside stays.
    assert_eq!(li.parent(&doc.arena), None);
    assert_eq!(li.children(&doc.arena).len(), 0);
    assert_eq!(li.tag_name(&doc.arena), Some("li".to_string()));
    assert_eq!(p.outer_html(&doc.arena), "<p>k</p>");
    assert_eq!(find(&doc, "b").parent(&doc.arena), Some(ul));
}

#[test]
fn rewriting_the_content_leaves_it_as_it_was() {
    let mut doc = parse("<div><p a=\"1\">x<!--c--></p><br></div>");
    let div = find(&doc, "div");
    let inner = div.get_inner_html(&doc.arena);
    let before = doc.serialize();
    assert_eq!(div.set_inner_html(&mut doc.arena, inner), Ok(()));
    assert_eq!(doc.serialize(), before);
}

#[test]
fn fault_in_inner_html_leaves_what_was_read() {
    let mut doc = parse("<div>old</div>");
    let div = find(&doc, "div");
    let r = div.set_inner_html(&mut doc.arena, "new<b>c</i>d".to_string());
    assert_eq!(
        r,
        Err(ParseError::MismatchedTag { opened: "b".to_string(), closed: "i".to_string() })
    );
    assert_eq!(doc.serialize(), "<div>new<b>c</b></div>");
    assert_eq!(div.set_inner_html(&mut doc.arena, "a</x>b".to_string()), Ok(()));
    assert_eq!(doc.serialize(), "<div>a</div>");
}

#[test]
fn inner_html_of_the_document_and_of_a_text() {
    let mut doc = parse("<a></a>");
    let root = doc.document_element();
    assert_eq!(root.set_inner_html(&mut doc.arena, "x<c/>".to_string()), Ok(()));
    assert_eq!(doc.serialize(), "x<c></c>");
    assert_eq!(root.outer_html(&doc.arena), doc.serialize());
    // A text takes children, but is written as its text.
    let text = root.children(&doc.arena)[0];
    assert_eq!(text.set_inner_html(&mut doc.arena, "<d></d>".to_string()), Ok(()));
    assert_eq!(text.outer_html(&doc.arena), "x");
    assert_eq!(text.get_inner_html(&doc.arena), "<d></d>");
}

#[test]
fn emptied_content() {
    let mut doc = parse("<br><p>x</p>");
    let p = find(&doc, "p");
    assert_eq!(p.set_inner_html(&mut doc.arena, String::new()), Ok(()));
    assert_eq!(doc.serialize(), "<br/><p></p>");
}

#[test]
fn missing_name_in_inner_html() {
    let mut doc = parse("<div>old</div>");
    let div = find(&doc, "div");
    let r = div.set_inner_html(&mut doc.arena, "x<".to_string());
    assert_eq!(r.unwrap_err().to_string(), "Invalid tag name: \"\"");
    assert_eq!(div.get_inner_html(&doc.arena), "x");
}

#[test]
fn new_content_is_numbered_on() {
    let mut doc = parse("<div><i>1</i></div><p></p>");
    let div = find(&doc, "div");
    let n = doc.arena.nodes.len();
    assert_eq!(div.set_inner_html(&mut doc.arena, "<a>x</a>y".to_string()), Ok(()));
    assert_eq!(doc.arena.nodes.len(), n + 3);
    let ids: Vec<usize> = div.children(&doc.arena).iter().map(|e| e.id).collect();
    assert_eq!(ids, [n, n + 2]);
}
