use nparser::document::{JsDocument, JsElement};
use nparser::selector::Selector;
use nparser::arena::NodeId;

const PAGE: &str = "<div id=\"top\" class=\"a b\"><p class=\"b\" n:route=\"/x\">1<span>2</span></p>\
                    <section><p lang=\"en-GB\" data-x.y>3</p></section></div>\
                    <p id=\"last\" title=\"one two\">4</p>";

fn parse(html: &str) -> JsDocument {
    JsDocument::parse(html.to_string()).unwrap()
}

/// The texts of all nodes that match.
fn texts(selector: &str) -> Vec<String> {
    let doc = parse(PAGE);
    doc.query_selector_all(selector.to_string())
        .into_iter()
        .map(|e: JsElement| e.text_content(&doc.arena))
        .collect()
}

fn tags(html: &str, selector: &str) -> Vec<String> {
    let doc = parse(html);
    doc.query_selector_all(selector.to_string())
        .into_iter()
        .map(|e: JsElement| e.tag_name(&doc.arena).unwrap())
        .collect()
}

#[test]
fn star_matches_every_element() {
    assert_eq!(tags("<a><b>t</b><!--c--></a><d/>", "*"), ["a", "b", "d"]);
}

#[test]
fn names_match_in_any_case() {
    assert_eq!(texts("p"), ["12", "3", "4"]);
    assert_eq!(texts("P"), ["12", "3", "4"]);
    assert_eq!(texts("pp"), Vec::<String>::new());
}

#[test]
fn id_and_class() {
    assert_eq!(texts("#last"), ["4"]);
    assert_eq!(texts("#Last"), Vec::<String>::new());
    assert_eq!(texts(".b"), ["123", "12"]);
    assert_eq!(texts(".a"), ["123"]);
    assert_eq!(texts("*.b#top"), ["123"]);
    assert_eq!(texts("#top[class]"), ["123"]);
    assert_eq!(texts("div#top"), ["123"]);
    // A dot belongs to the name before it.
    assert_eq!(texts(".a.b"), Vec::<String>::new());
    assert_eq!(texts("p.b"), Vec::<String>::new());
    assert_eq!(tags("<p.b></p.b>", "p.b"), ["p.b"]);
}

#[test]
fn attribute_is_there() {
    assert_eq!(texts("[data-x.y]"), ["3"]);
    assert_eq!(texts("[n:route]"), ["12"]);
    assert_eq!(texts("[ID]"), ["123", "4"]);
    assert_eq!(texts("p[title]"), ["4"]);
}

#[test]
fn attribute_comparisons() {
    assert_eq!(texts("[lang=\"en-GB\"]"), ["3"]);
    assert_eq!(texts("[lang=en-GB]"), ["3"]);
    assert_eq!(texts("[lang='en-gb']"), Vec::<String>::new());
    assert_eq!(texts("[title~=\"two\"]"), ["4"]);
    assert_eq!(texts("[title~=\"tw\"]"), Vec::<String>::new());
    assert_eq!(texts("[lang^=\"en\"]"), ["3"]);
    assert_eq!(texts("[lang^=\"n\"]"), Vec::<String>::new());
    assert_eq!(texts("[lang$=\"GB\"]"), ["3"]);
    assert_eq!(texts("[lang$=\"G\"]"), Vec::<String>::new());
    assert_eq!(texts("[title*=\"e t\"]"), ["4"]);
    assert_eq!(texts("[title*=\"x\"]"), Vec::<String>::new());
    assert_eq!(texts("[ title ]"), Vec::<String>::new());
    assert_eq!(texts("[title = 'one two' ]"), ["4"]);
    // A boolean attribute has no value to compare.
    assert_eq!(texts("[data-x.y=\"\"]"), Vec::<String>::new());
    // An unknown comparison leaves the selector without a meaning.
    assert_eq!(texts("[title|=\"one\"]"), Vec::<String>::new());
    assert_eq!(texts("[title"), Vec::<String>::new());
    // The closing quote and bracket may be missing.
    assert_eq!(texts("[title='one two"), ["4"]);
}

#[test]
fn descendants_and_children() {
    assert_eq!(texts("div p"), ["12", "3"]);
    assert_eq!(texts("div > p"), ["12"]);
    assert_eq!(texts("div>p"), ["12"]);
    assert_eq!(texts("div  \t section>p"), ["3"]);
    assert_eq!(texts("div section p"), ["3"]);
    assert_eq!(texts("section span"), Vec::<String>::new());
    assert_eq!(texts("p > span"), ["2"]);
}

#[test]
fn greater_sign_at_the_ends() {
    assert_eq!(texts("> span"), ["2"]);
    assert_eq!(texts("span >"), ["2"]);
    assert_eq!(texts(">"), Vec::<String>::new());
}

#[test]
fn comma_is_or() {
    assert_eq!(texts("span, #last"), ["2", "4"]);
    assert_eq!(texts(" span ,,?, section p "), ["2", "3"]);
    // Commas separate selectors even between quotes.
    assert_eq!(tags("<a x=\"1,2\"></a>", "[x=\"1,2\"]"), Vec::<String>::new());
}

#[test]
fn selectors_without_meaning_match_nothing() {
    for selector in ["", "  ", "?", "a!b", "a + b", "a::before()", "[=]x["] {
        assert_eq!(tags("<a><b></b></a>", selector), Vec::<String>::new());
    }
}

#[test]
fn outer_white_space_is_dropped() {
    assert_eq!(texts("\u{3000}\n span\u{A0}"), ["2"]);
}

#[test]
fn descendant_finds_any_ancestor() {
    assert_eq!(tags("<x><a><b><a><c></c></a></b></a></x>", "x a c"), ["c"]);
    assert_eq!(tags("<a><b><a><c></c></a></b></a>", "a b c"), ["c"]);
}

#[test]
fn nearest_ancestor_is_not_given_up() {
    // The outer `b` is a child of `a`, but the nearest `b` is not.
    assert_eq!(tags("<a><b><i><b><c></c></b></i></b></a>", "a > b c"), Vec::<String>::new());
    assert_eq!(tags("<a><b><i><c></c></i></b></a>", "a > b c"), ["c"]);
}

#[test]
fn first_match_is_the_first_of_all() {
    let doc = parse(PAGE);
    for selector in ["p", "*", "div p", "#last, span", "zzz"] {
        let all = doc.query_selector_all(selector.to_string());
        assert_eq!(doc.query_selector(selector.to_string()), all.first().copied());
    }
}

#[test]
fn queries_look_below_their_start() {
    let doc = parse(PAGE);
    let div = doc.query_selector("div".to_string()).unwrap();
    assert_eq!(div.query_selector(&doc.arena, "div".to_string()), None);
    assert_eq!(div.query_selector_all(&doc.arena, "p".to_string()).len(), 2);
    // The parts of a selector are looked for above the start, too.
    let section = doc.query_selector("section".to_string()).unwrap();
    assert_eq!(section.query_selector_all(&doc.arena, "div p".to_string()).len(), 1);
}

#[test]
fn selectors_match_elements_alone() {
    let doc = parse("<a>t</a>");
    let any = Selector::parse("*");
    assert!(!any.matches(&doc.arena, NodeId(0)));
    assert!(any.matches(&doc.arena, NodeId(1)));
    assert!(!any.matches(&doc.arena, NodeId(2)));
}

#[test]
fn boolean_attribute_passes_no_comparison() {
    let html = "<a k></a>";
    assert_eq!(tags(html, "[k]"), ["a"]);
    for sign in ["", "~", "^", "$", "*"] {
        assert_eq!(tags(html, &format!("[k{}=\"\"]", sign)), Vec::<String>::new());
    }
}

#[test]
fn id_and_class_are_attribute_tests() {
    assert_eq!(texts("#last"), texts("[id=\"last\"]"));
    assert_eq!(texts(".b"), texts("[class~=\"b\"]"));
}

#[test]
fn equal_values_pass_the_weaker_tests() {
    for sign in ["", "^", "$", "*"] {
        assert_eq!(texts(&format!("[lang{}=\"en-GB\"]", sign)), ["3"]);
    }
    assert_eq!(texts("[lang]"), ["3"]);
}
