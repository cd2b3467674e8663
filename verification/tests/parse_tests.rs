use xml_disassembler::Entry;
use xml_disassembler::Node;
use xml_disassembler::build_xml_string;
use xml_disassembler::extract_xml_declaration_from_raw;
use xml_disassembler::extract_xmlns_from_raw;
use xml_disassembler::parse_text_value;
use xml_disassembler::parse_xml_from_str;
use xml_disassembler::parse_xml_with_cdata;
use xml_disassembler::strip_whitespace_text_nodes;

fn s(v: &str) -> Node {
    Node::Str(v.to_string())
}

fn ent(k: &str, v: Node) -> Entry {
    Entry { key: k.to_string(), val: v }
}

fn obj(pairs: Vec<(&str, Node)>) -> Node {
    Node::Obj(pairs.into_iter().map(|(k, v)| ent(k, v)).collect())
}

#[test]
fn parse_xml_with_cdata_simple_element() {
    let xml = r#"<root><a>hello</a></root>"#;
    let v = parse_xml_with_cdata(xml).unwrap();
    let root = v.get("root").unwrap();
    let a = root.get("a").unwrap();
    assert_eq!(a.get("#text").unwrap().as_str().unwrap(), "hello");
}

#[test]
fn parse_xml_with_cdata_preserves_cdata() {
    let xml = r#"<root><x><![CDATA[<escaped>]]></x></root>"#;
    let v = parse_xml_with_cdata(xml).unwrap();
    let x = v.get("root").unwrap().get("x").unwrap();
    assert_eq!(x.get("#cdata").unwrap().as_str().unwrap(), "<escaped>");
}

#[test]
fn parse_xml_with_cdata_empty_element() {
    let xml = r#"<root><empty/></root>"#;
    let v = parse_xml_with_cdata(xml).unwrap();
    let root = v.get("root").unwrap();
    assert!(root.get("empty").is_some());
}

#[test]
fn parse_xml_with_cdata_comment() {
    let xml = r#"<root><!-- comment --><a>1</a></root>"#;
    let v = parse_xml_with_cdata(xml).unwrap();
    let root = v.get("root").unwrap();
    assert!(root.get("#comment").or(root.get("a")).is_some());
}

#[test]
fn parse_xml_with_cdata_attributes() {
    let xml = r#"<root id="x"><a>1</a></root>"#;
    let v = parse_xml_with_cdata(xml).unwrap();
    let root = v.get("root").unwrap();
    assert_eq!(root.get("@id").unwrap().as_str().unwrap(), "x");
}

#[test]
fn parse_xml_with_cdata_multiple_children() {
    let xml = r#"<r><n>42</n><b>true</b></r>"#;
    let v = parse_xml_with_cdata(xml).unwrap();
    let r = v.get("r").unwrap();
    assert!(r.get("n").is_some());
    assert!(r.get("b").is_some());
}

#[test]
fn parse_xml_with_cdata_text_tail_after_comment() {
    let xml = r#"<r><!-- comment -->tail</r>"#;
    let v = parse_xml_with_cdata(xml).unwrap();
    let r = v.get("r").unwrap();
    assert_eq!(r.get("#comment").unwrap().as_str().unwrap(), " comment ");
    assert_eq!(r.get("#text-tail").unwrap().as_str().unwrap(), "tail");
}

#[test]
fn parse_xml_with_cdata_empty_root_returns_empty_object() {
    let xml = r#"<root></root>"#;
    let v = parse_xml_with_cdata(xml).unwrap();
    let root = v.get("root").unwrap();
    assert!(root.as_obj().unwrap().is_empty());
}

#[test]
fn parse_xml_with_cdata_mixed_content_appends_text() {
    let xml = r#"<r><a>hello<x/>world</a></r>"#;
    let v = parse_xml_with_cdata(xml).unwrap();
    let a = v.get("r").unwrap().get("a").unwrap();
    let t = a.get("#text").unwrap().as_str().unwrap().clone();
    assert!(t.contains("hello") && t.contains("world"));
}

#[test]
fn parse_xml_with_cdata_appends_multiple_cdata_sections() {
    let xml = r#"<r><x><![CDATA[a]]><![CDATA[b]]></x></r>"#;
    let v = parse_xml_with_cdata(xml).unwrap();
    let x = v.get("r").unwrap().get("x").unwrap();
    assert_eq!(x.get("#cdata").unwrap().as_str().unwrap(), "ab");
}

#[test]
fn parse_xml_with_cdata_invalid_returns_err() {
    let result = parse_xml_with_cdata("<<");
    assert!(result.is_err());
}

#[test]
fn parse_xml_with_cdata_duplicate_sibling_elements_become_array() {
    let xml = r#"<r><item>a</item><item>b</item></r>"#;
    let v = parse_xml_with_cdata(xml).unwrap();
    let items = v.get("r").unwrap().get("item").unwrap().as_arr().unwrap();
    assert_eq!(items.len(), 2);
    assert_eq!(items[0].get("#text").unwrap().as_str().unwrap(), "a");
    assert_eq!(items[1].get("#text").unwrap().as_str().unwrap(), "b");
}

#[test]
fn parse_xml_with_cdata_empty_element_with_attributes() {
    let xml = r#"<r><empty id="x"/></r>"#;
    let v = parse_xml_with_cdata(xml).unwrap();
    let empty = v.get("r").unwrap().get("empty").unwrap();
    assert_eq!(empty.get("@id").unwrap().as_str().unwrap(), "x");
}

#[test]
fn parse_text_value_number_bool_and_leading_zero() {
    assert!(parse_text_value("", true).as_str().map(|s| s.is_empty()) == Some(true));
    assert!(parse_text_value("42", false).as_u64() == Some(42));
    assert!(parse_text_value("42", true).as_u64() == Some(42));
    assert_eq!(parse_text_value("0", true).as_str().unwrap(), "0");
    assert!(parse_text_value("0", false).as_u64() == Some(0));
    assert_eq!(parse_text_value("01", true).as_str().unwrap(), "01");
    assert!(
        parse_text_value("2.5", true)
            .decimal_text()
            .map(|t| (t.parse::<f64>().unwrap() - 2.5).abs() < 1e-9)
            == Some(true)
    );
    assert!(
        parse_text_value("0.5", false)
            .decimal_text()
            .map(|t| (t.parse::<f64>().unwrap() - 0.5).abs() < 1e-9)
            == Some(true)
    );
    assert_eq!(parse_text_value("0.5", true).as_str().unwrap(), "0.5");
    assert!(parse_text_value("true", true).as_bool() == Some(true));
    assert!(parse_text_value("false", true).as_bool() == Some(false));
    assert_eq!(parse_text_value("hello", true).as_str().unwrap(), "hello");
}

#[test]
fn strips_empty_text_nodes_from_array() {
    let input = Node::Arr(vec![
        obj(vec![("#text", s("   "))]),
        obj(vec![("#text", s("keep me"))]),
    ]);
    let result = strip_whitespace_text_nodes(&input);
    let arr = result.as_arr().unwrap();
    assert_eq!(arr.len(), 1);
    assert_eq!(arr[0].get("#text").unwrap().as_str().unwrap(), "keep me");
}

#[test]
fn preserves_non_empty_text() {
    let input = obj(vec![("#text", s("  content  "))]);
    let result = strip_whitespace_text_nodes(&input);
    assert_eq!(result.get("#text").unwrap().as_str().unwrap(), "  content  ");
}

#[test]
fn leaves_primitive_unchanged() {
    let input = s("hello");
    let result = strip_whitespace_text_nodes(&input);
    assert_eq!(result, s("hello"));
}

#[test]
fn preserves_empty_text_when_element_has_cdata() {
    let input = obj(vec![("#cdata", s("content")), ("#text", s("   "))]);
    let result = strip_whitespace_text_nodes(&input);
    assert_eq!(result.get("#cdata").unwrap().as_str().unwrap(), "content");
    assert_eq!(result.get("#text").unwrap().as_str().unwrap(), "   ");
}

#[test]
fn preserves_null_special_keys() {
    let input = obj(vec![("#text", Node::Null)]);
    let result = strip_whitespace_text_nodes(&input);
    assert!(result.get("#text").map(|v| v.is_null()) == Some(true));
}

#[test]
fn preserves_null_cdata_comment_and_text_tail_keys() {
    let input = obj(vec![
        ("#cdata", Node::Null),
        ("#comment", Node::Null),
        ("#text-tail", Node::Null),
        ("a", s("b")),
    ]);
    let result = strip_whitespace_text_nodes(&input);
    assert!(result.get("#cdata").map(|v| v.is_null()) == Some(true));
    assert!(result.get("#comment").map(|v| v.is_null()) == Some(true));
    assert!(result.get("#text-tail").map(|v| v.is_null()) == Some(true));
    assert_eq!(result.get("a").unwrap().as_str().unwrap(), "b");
}

#[test]
fn extract_xmlns_from_raw_finds_namespace() {
    let xml = r#"<root xmlns="http://soap.sforce.com/2006/04/metadata"><a/></root>"#;
    assert_eq!(
        extract_xmlns_from_raw(xml),
        Some("http://soap.sforce.com/2006/04/metadata".to_string())
    );
}

#[test]
fn extract_xmlns_from_raw_returns_none_when_absent() {
    let xml = r#"<root><a/></root>"#;
    assert_eq!(extract_xmlns_from_raw(xml), None);
}

#[test]
fn extract_xml_declaration_from_raw_parses_version_and_encoding() {
    let xml = r#"<?xml version="1.0" encoding="UTF-8"?><root/>"#;
    let decl = extract_xml_declaration_from_raw(xml).unwrap();
    assert_eq!(decl.get("@version").unwrap().as_str().unwrap(), "1.0");
    assert_eq!(decl.get("@encoding").unwrap().as_str().unwrap(), "UTF-8");
}

#[test]
fn extract_xml_declaration_from_raw_parses_standalone() {
    let xml = r#"<?xml version="1.0" encoding="UTF-8" standalone="yes"?><root/>"#;
    let decl = extract_xml_declaration_from_raw(xml).unwrap();
    assert_eq!(decl.get("@standalone").unwrap().as_str().unwrap(), "yes");
}

#[test]
fn extract_xml_declaration_from_raw_returns_none_without_declaration() {
    let xml = r#"<root/>"#;
    assert!(extract_xml_declaration_from_raw(xml).is_none());
}

#[test]
fn extract_xml_declaration_from_raw_returns_none_when_version_missing() {
    let xml = r#"<?xml encoding="UTF-8"?><root/>"#;
    assert!(extract_xml_declaration_from_raw(xml).is_none());
}

#[test]
fn parse_xml_from_str_invalid_xml_returns_none() {
    let result = parse_xml_from_str("<<", "test.xml");
    assert!(result.is_none());
}

#[test]
fn sibling_grouping_keeps_order_and_values() {
    let v = parse_xml_with_cdata("<r><item>a</item><item>b</item></r>").unwrap();
    let items = v.get("r").unwrap().get("item").unwrap().as_arr().unwrap();
    assert_eq!(items.len(), 2);
    assert_eq!(items[0].get("#text").unwrap().as_str().unwrap(), "a");
    assert_eq!(items[1].get("#text").unwrap().as_str().unwrap(), "b");
}

#[test]
fn normalize_is_idempotent_on_parsed_document() {
    let v = parse_xml_from_str(
        "<r>\n    <a>x</a>\n    <b><![CDATA[k]]></b>\n</r>",
        "mem",
    )
    .unwrap();
    let once = strip_whitespace_text_nodes(&v);
    let twice = strip_whitespace_text_nodes(&once);
    assert_eq!(once, twice);
}

#[test]
fn whitespace_only_text_without_cdata_is_dropped() {
    let input = obj(vec![("#text", s("   "))]);
    let result = strip_whitespace_text_nodes(&input);
    assert!(result.get("#text").is_none());
}

#[test]
fn whitespace_beside_cdata_survives_normalization() {
    let v = parse_xml_with_cdata("<r><x>\n    <![CDATA[payload]]>\n</x></r>").unwrap();
    let n = strip_whitespace_text_nodes(&v);
    let x = n.get("r").unwrap().get("x").unwrap();
    assert!(x.get("#text").is_some());
    assert_eq!(x.get("#cdata").unwrap().as_str().unwrap(), "payload");
}

#[test]
fn numeric_character_reference_resolves() {
    let v = parse_xml_with_cdata("<r><a>&#65;&#x42;</a></r>").unwrap();
    let a = v.get("r").unwrap().get("a").unwrap();
    assert_eq!(a.get("#text").unwrap().as_str().unwrap(), "AB");
}

#[test]
fn named_entities_resolve_in_text_and_attributes() {
    let v = parse_xml_with_cdata(r#"<r><a k="&lt;&amp;&quot;">x &gt; y</a></r>"#).unwrap();
    let a = v.get("r").unwrap().get("a").unwrap();
    assert_eq!(a.get("@k").unwrap().as_str().unwrap(), "<&\"");
    assert_eq!(a.get("#text").unwrap().as_str().unwrap(), "x > y");
}

#[test]
fn round_trip_document_is_byte_identical() {
    let original = "<Root xmlns=\"http://example.com\">\n    <first>\n        <name>one</name>\n        <flag>true</flag>\n    </first>\n    <second>plain</second>\n</Root>";
    let parsed = parse_xml_from_str(original, "mem").unwrap();
    let out = build_xml_string(&parsed);
    assert_eq!(out, original);
}

#[test]
fn round_trip_with_recovered_declaration() {
    let original = "<?xml version=\"1.0\" encoding=\"UTF-8\"?>\n<Root>\n    <first>\n        <name>one</name>\n    </first>\n</Root>";
    let parsed = parse_xml_from_str(original, "mem").unwrap();
    let decl = xml_disassembler::extract_xml_declaration_from_raw(original).unwrap();
    let doc = match parsed {
        Node::Obj(mut es) => {
            es.insert(0, ent("?xml", decl));
            Node::Obj(es)
        },
        other => other,
    };
    let out = build_xml_string(&doc);
    assert_eq!(out, original);
}

#[test]
fn round_trip_comment_and_tail_text() {
    let original = "<Root>\n    <note>lead<!-- why -->tail</note>\n</Root>";
    let parsed = parse_xml_from_str(original, "mem").unwrap();
    let out = build_xml_string(&parsed);
    assert_eq!(out, original);
}

#[test]
fn round_trip_cdata_block() {
    let original = "<Root>\n    <data>\n    <![CDATA[<raw&data>]]>\n    </data>\n</Root>";
    let parsed = parse_xml_from_str(original, "mem").unwrap();
    let out = build_xml_string(&parsed);
    assert_eq!(out, original);
}

#[test]
fn unclosed_element_is_an_error() {
    assert!(parse_xml_with_cdata("<a><b></b>").is_err());
    assert!(parse_xml_with_cdata("<a></wrong>").is_err());
}

