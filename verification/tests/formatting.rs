use coil::json::{json, lay_out};
use coil::xml::{xml, xml_pieces, Piece};

#[test]
fn json_is_indented_keeping_order_numbers_and_escapes() {
    let text = r#"{"b":1.50,"a":[1, 2,{}],"s":"x\"y, {z}: ","e":[],
            "n":{"deep":  null}}"#;
    let formatted = json(text, "  ", "\n").unwrap();
    assert_eq!(
        formatted,
        "{\n  \"b\": 1.50,\n  \"a\": [\n    1,\n    2,\n    {}\n  ],\n  \"s\": \"x\\\"y, {z}: \",\n  \"e\": [],\n  \"n\": {\n    \"deep\": null\n  }\n}\n"
    );
    assert_eq!(json(&formatted, "  ", "\n").unwrap(), formatted);
}

#[test]
fn invalid_json_is_refused() {
    assert!(json("{\"a\": 1,}", "  ", "\n").is_err());
    assert!(json("{\"a\": 1}\n{\"b\": 2}\n", "  ", "\n").is_err());
}

#[test]
fn refused_json_says_why() {
    let why = json("[1", "  ", "\n").unwrap_err();
    assert!(why.starts_with("Not valid JSON, left as it was: "));
    assert!(why.contains("EOF while parsing a list"));
}

#[test]
fn json_is_laid_out_with_the_indent_and_newline_given() {
    assert_eq!(json("[1,[]]", "\t", "\r\n").unwrap(), "[\r\n\t1,\r\n\t[]\r\n]\r\n");
    assert_eq!(lay_out("[1,[]]", "\t", "\r\n"), "[\r\n\t1,\r\n\t[]\r\n]\r\n");
}

#[test]
fn formatted_json_holds_the_same_value() {
    let text = "{\"a\":[1,{\"b\":\"c d\"}], \"e\":1e3}";
    let formatted = json(text, "    ", "\n").unwrap();
    let before: serde_json::Value = serde_json::from_str(text).unwrap();
    let after: serde_json::Value = serde_json::from_str(&formatted).unwrap();
    assert_eq!(before, after);
}

#[test]
fn xml_is_indented_keeping_text_elements_on_one_line() {
    let text = "<?xml version=\"1.0\"?><root a=\"x > y\"><!-- note --><name>  Golf </name>\
            <empty/><list><item>1</item><item></item></list><![CDATA[<raw>]]></root>";
    let formatted = xml(text, "  ", "\n").unwrap();
    assert_eq!(
        formatted,
        "<?xml version=\"1.0\"?>\n<root a=\"x > y\">\n  <!-- note -->\n  <name>Golf</name>\n  <empty/>\n  <list>\n    <item>1</item>\n    <item></item>\n  </list>\n  <![CDATA[<raw>]]>\n</root>\n"
    );
    assert_eq!(xml(&formatted, "  ", "\n").unwrap(), formatted);
}

#[test]
fn unbalanced_xml_is_refused() {
    assert!(xml("<a><b></a>", "  ", "\n").is_err());
    assert!(xml("<a>", "  ", "\n").is_err());
    assert!(xml("<a><!-- open </a>", "  ", "\n").is_err());
}

#[test]
fn a_tag_without_a_name_is_refused() {
    assert_eq!(
        xml("< a></a>", "  ", "\n").unwrap_err(),
        "Not valid XML, left as it was: a tag with no name"
    );
}

#[test]
fn only_json_and_xml_are_formatted() {
    assert_eq!(coil::format::format("json", "[ ]", "  ", "\n"), Some(Ok("[]\n".to_string())));
    assert_eq!(coil::format::format("xml", "<a/>", "  ", "\n"), Some(Ok("<a/>\n".to_string())));
    assert!(coil::format::format("xml", "<a>", "  ", "\n").unwrap().is_err());
    assert_eq!(coil::format::format("rust", "fn main() {}", "  ", "\n"), None);
}

fn spelled(text: &str) -> Vec<String> {
    let spell = |chars: &[char]| chars.iter().collect::<String>().trim().to_string();
    xml_pieces(text)
        .unwrap()
        .iter()
        .map(|piece| match piece {
            Piece::Open { text, .. } | Piece::Close { text, .. } => spell(text),
            Piece::Whole(text) | Piece::Text(text) => spell(text),
        })
        .collect()
}

#[test]
fn formatted_xml_holds_the_same_pieces() {
    let text = "<a><!-- x --><b k=\"1\"> t </b><c/></a>";
    let formatted = xml(text, "\t", "\r\n").unwrap();
    assert_eq!(spelled(text), spelled(&formatted));
}

#[test]
fn a_doctype_may_hold_declarations_in_its_brackets() {
    let text = "<!DOCTYPE r [<!ELEMENT r ANY>]><r/>";
    let pieces = xml_pieces(text).unwrap();
    assert_eq!(pieces.len(), 2);
    assert!(pieces.iter().all(|piece| matches!(piece, Piece::Whole(_))));
    assert_eq!(spelled(text), ["<!DOCTYPE r [<!ELEMENT r ANY>]>", "<r/>"]);
    let formatted = xml(text, "  ", "\n").unwrap();
    assert_eq!(formatted, "<!DOCTYPE r [<!ELEMENT r ANY>]>\n<r/>\n");
    assert_eq!(xml(&formatted, "  ", "\n").unwrap(), formatted);
}

#[test]
fn a_bracket_in_a_tag_holds_no_other() {
    let refused = "Not valid XML, left as it was: unterminated tag";
    assert_eq!(xml("<a [<b>]></a>", "  ", "\n").unwrap_err(), refused);
    assert_eq!(xml("<!DOCTYPE r <a>", "  ", "\n").unwrap_err(), refused);
    assert_eq!(xml("<!DOCTYPE r [<a>", "  ", "\n").unwrap_err(), refused);
}
