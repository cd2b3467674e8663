use xml_disassembler::Entry;
use xml_disassembler::Node;
use xml_disassembler::ReassembleXmlFileHandler;
use xml_disassembler::build_xml_string;
use xml_disassembler::capture_xmlns_from_root;
use xml_disassembler::extract_root_attributes;
use xml_disassembler::looks_like_hash;
use xml_disassembler::merge_xml_elements;
use xml_disassembler::normalize_path_unix;
use xml_disassembler::parse_unique_id_element;
use xml_disassembler::parse_xml_from_str;
use xml_disassembler::path_segment_from_file_pattern;
use xml_disassembler::plan_disassembly;
use xml_disassembler::reorder_root_keys;
use xml_disassembler::strip_root_and_build_xml;
use xml_disassembler::multi_level::file_matches_rule;
use xml_disassembler::multi_level::has_element_to_strip;
use xml_disassembler::multi_level::key_order_from_node;
use xml_disassembler::multi_level::key_order_to_node;
use xml_disassembler::reassemble::collect_segment_as_array;
use xml_disassembler::reassemble::reassemble_document;

fn s(v: &str) -> Node {
    Node::Str(v.to_string())
}

fn ent(k: &str, v: Node) -> Entry {
    Entry { key: k.to_string(), val: v }
}

fn obj(pairs: Vec<(&str, Node)>) -> Node {
    Node::Obj(pairs.into_iter().map(|(k, v)| ent(k, v)).collect())
}

#[test]
fn leaves_unix_paths_unchanged() {
    assert_eq!(normalize_path_unix("foo/bar/baz"), "foo/bar/baz");
}

#[test]
fn converts_backslashes_to_forward() {
    assert_eq!(normalize_path_unix(r"foo\bar\baz"), "foo/bar/baz");
}

#[test]
fn strips_windows_extended_prefix() {
    assert_eq!(
        normalize_path_unix(r"\\?\C:\Users\file.xml"),
        "C:/Users/file.xml"
    );
}

#[test]
fn path_segment_from_file_pattern_strips_suffix() {
    assert_eq!(
        path_segment_from_file_pattern("programProcesses-meta"),
        "programProcesses"
    );
}

#[test]
fn path_segment_from_file_pattern_no_dash() {
    assert_eq!(path_segment_from_file_pattern("foo"), "foo");
}

#[test]
fn finds_direct_field() {
    let el = obj(vec![("name", s("Get_Info")), ("label", s("Get Info"))]);
    assert_eq!(parse_unique_id_element(&el, Some("name")), "Get_Info");
}

#[test]
fn finds_deeply_nested_field() {
    let el = obj(vec![
        ("connector", obj(vec![("targetReference", s("X"))])),
        ("value", obj(vec![("elementReference", s("accts.accounts"))])),
    ]);
    assert_eq!(
        parse_unique_id_element(&el, Some("elementReference")),
        "accts.accounts"
    );
}

#[test]
fn prefers_real_id_over_hash_from_first_child() {
    let el = obj(vec![
        (
            "connector",
            obj(vec![("targetReference", s("Update_If_Existing"))]),
        ),
        ("value", obj(vec![("elementReference", s("accts.accounts"))])),
    ]);
    let result = parse_unique_id_element(&el, Some("elementReference"));
    assert_eq!(result, "accts.accounts");
}

#[test]
fn finds_id_in_array_element() {
    let el = obj(vec![(
        "items",
        Node::Arr(vec![
            obj(vec![("other", s("x"))]),
            obj(vec![("name", s("NestedName"))]),
        ]),
    )]);
    assert_eq!(parse_unique_id_element(&el, Some("name")), "NestedName");
}

#[test]
fn hash_fallback_is_hash_shaped_and_content_dependent() {
    let a = obj(vec![("k", s("v"))]);
    let b = obj(vec![("k", s("w"))]);
    let ha = parse_unique_id_element(&a, None);
    let hb = parse_unique_id_element(&b, None);
    assert!(looks_like_hash(&ha));
    assert!(looks_like_hash(&hb));
    assert_ne!(ha, hb);
    let ha2 = parse_unique_id_element(&a, None);
    assert_eq!(ha, ha2);
}

#[test]
fn extracts_at_prefixed_attributes() {
    let element = obj(vec![
        ("@xmlns", s("http://example.com")),
        ("@version", s("1.0")),
        ("child", s("ignored")),
    ]);
    let attrs = extract_root_attributes(&element);
    assert_eq!(
        attrs.get("@xmlns").unwrap().as_str().unwrap(),
        "http://example.com"
    );
    assert_eq!(attrs.get("@version").unwrap().as_str().unwrap(), "1.0");
    assert!(attrs.get("child").is_none());
}

#[test]
fn returns_empty_for_non_object() {
    let element = s("string");
    let attrs = extract_root_attributes(&element);
    assert!(attrs.as_obj().unwrap().is_empty());
}

#[test]
fn converts_xmlns_to_at_xmlns() {
    let element = obj(vec![
        ("xmlns", s("http://ns.example.com")),
        ("child", obj(vec![])),
    ]);
    let attrs = extract_root_attributes(&element);
    assert_eq!(
        attrs.get("@xmlns").unwrap().as_str().unwrap(),
        "http://ns.example.com"
    );
}

#[test]
fn merge_empty_returns_none() {
    assert!(merge_xml_elements(&Vec::new()).is_none());
}

#[test]
fn merge_single_element_preserves_structure() {
    let el = obj(vec![
        (
            "?xml",
            obj(vec![("@version", s("1.0")), ("@encoding", s("UTF-8"))]),
        ),
        (
            "Root",
            obj(vec![("@xmlns", s("http://example.com")), ("child", s("a"))]),
        ),
    ]);
    let merged = merge_xml_elements(&vec![el]).unwrap();
    assert!(merged.get("?xml").is_some());
    let root = merged.get("Root").unwrap();
    assert_eq!(root.get("child").unwrap().as_str().unwrap(), "a");
    assert_eq!(
        root.get("@xmlns").unwrap().as_str().unwrap(),
        "http://example.com"
    );
}

#[test]
fn merge_two_elements_combines_nested_objects_into_array() {
    let a = obj(vec![("Root", obj(vec![("section", obj(vec![("name", s("first"))]))]))]);
    let b = obj(vec![("Root", obj(vec![("section", obj(vec![("name", s("second"))]))]))]);
    let merged = merge_xml_elements(&vec![a, b]).unwrap();
    let sections = merged
        .get("Root")
        .unwrap()
        .get("section")
        .unwrap()
        .as_arr()
        .unwrap();
    assert_eq!(sections.len(), 2);
    assert_eq!(sections[0].get("name").unwrap().as_str().unwrap(), "first");
    assert_eq!(sections[1].get("name").unwrap().as_str().unwrap(), "second");
}

#[test]
fn merge_scalar_child_keeps_first_value() {
    let a = obj(vec![("Root", obj(vec![("flag", s("one"))]))]);
    let b = obj(vec![("Root", obj(vec![("flag", s("two"))]))]);
    let merged = merge_xml_elements(&vec![a, b]).unwrap();
    assert_eq!(
        merged.get("Root").unwrap().get("flag").unwrap().as_str().unwrap(),
        "one"
    );
}

#[test]
fn reorder_root_keys_reorders_and_appends_extra() {
    let el = obj(vec![
        ("?xml", obj(vec![("@version", s("1.0"))])),
        (
            "Root",
            obj(vec![("z", s("last")), ("a", s("first")), ("m", s("mid"))]),
        ),
    ]);
    let reordered = reorder_root_keys(&el, &vec!["a".to_string(), "m".to_string()]).unwrap();
    let root = reordered.get("Root").unwrap();
    let keys: Vec<String> = root
        .as_obj()
        .unwrap()
        .iter()
        .filter(|e| !e.key.starts_with('@'))
        .map(|e| e.key.clone())
        .collect();
    assert_eq!(keys, ["a", "m", "z"]);
}

#[test]
fn key_order_restoration_orders_merge_output() {
    let frag_first = parse_xml_from_str("<Root><first>1</first></Root>", "mem").unwrap();
    let frag_second = parse_xml_from_str("<Root><second>2</second></Root>", "mem").unwrap();
    let manifest = vec!["second".to_string(), "first".to_string()];
    let out = reassemble_document(&vec![frag_first, frag_second], Some(&manifest)).unwrap();
    let second_at = out.find("<second>").unwrap();
    let first_at = out.find("<first>").unwrap();
    assert!(second_at < first_at);
}

#[test]
fn key_order_record_round_trips() {
    let keys = vec!["second".to_string(), "first".to_string()];
    let node = key_order_to_node(&keys);
    let back = key_order_from_node(&node).unwrap();
    assert_eq!(back, keys);
}

#[test]
fn build_xml_string_non_object_returns_empty() {
    assert!(build_xml_string(&Node::Arr(vec![])).is_empty());
    assert!(build_xml_string(&Node::Null).is_empty());
}

#[test]
fn build_xml_string_simple_root() {
    let el = obj(vec![
        (
            "?xml",
            obj(vec![("@version", s("1.0")), ("@encoding", s("UTF-8"))]),
        ),
        ("root", obj(vec![("child", s("value"))])),
    ]);
    let out = build_xml_string(&el);
    assert!(out.contains("<?xml"));
    assert!(out.contains("<root>"));
    assert!(out.contains("<child>value</child>"));
    assert!(out.contains("</root>"));
}

#[test]
fn build_xml_string_with_attributes() {
    let el = obj(vec![(
        "root",
        obj(vec![("@xmlns", s("http://example.com")), ("a", s("b"))]),
    )]);
    let out = build_xml_string(&el);
    assert!(out.contains("xmlns"));
    assert!(out.contains("http://example.com"));
    assert!(out.contains("<a>b</a>"));
}

#[test]
fn build_xml_string_with_array() {
    let el = obj(vec![(
        "root",
        obj(vec![(
            "item",
            Node::Arr(vec![obj(vec![("x", s("1"))]), obj(vec![("x", s("2"))])]),
        )]),
    )]);
    let out = build_xml_string(&el);
    assert!(out.contains("<item>"));
    assert!(out.contains("<x>1</x>"));
    assert!(out.contains("<x>2</x>"));
}

#[test]
fn build_xml_string_without_declaration() {
    let el = obj(vec![("root", obj(vec![("a", s("b"))]))]);
    let out = build_xml_string(&el);
    assert!(!out.contains("<?xml"));
    assert!(out.contains("<root>"));
}

#[test]
fn build_xml_string_with_text_comment_cdata() {
    let root = obj(vec![
        ("#text", s("text")),
        ("#comment", s(" a comment ")),
        ("#cdata", s("<cdata>")),
    ]);
    let el = obj(vec![("?xml", obj(vec![("@version", s("1.0"))])), ("root", root)]);
    let out = build_xml_string(&el);
    assert!(out.contains("text"));
    assert!(out.contains("<!--"));
    assert!(out.contains(" a comment "));
    assert!(out.contains("<![CDATA["));
    assert!(out.contains("<cdata>"));
}

#[test]
fn build_xml_string_with_declaration_encoding_standalone() {
    let el = obj(vec![
        (
            "?xml",
            obj(vec![
                ("@version", s("1.0")),
                ("@encoding", s("UTF-8")),
                ("@standalone", s("yes")),
            ]),
        ),
        ("root", obj(vec![("a", s("b"))])),
    ]);
    let out = build_xml_string(&el);
    assert!(out.contains("<?xml"));
    assert!(out.contains("UTF-8"));
    assert!(out.contains("standalone"));
    assert!(out.contains("<root>"));
}

#[test]
fn build_xml_string_primitive_sibling_children() {
    let el = obj(vec![(
        "root",
        obj(vec![
            ("obj", obj(vec![("x", s("1"))])),
            ("num", Node::UInt(42)),
            ("flag", Node::Bool(true)),
        ]),
    )]);
    let out = build_xml_string(&el);
    assert!(out.contains("<obj>"));
    assert!(out.contains("<num>42</num>"));
    assert!(out.contains("<flag>true</flag>"));
}

#[test]
fn build_xml_string_null_child_value() {
    let el = obj(vec![("root", obj(vec![("empty", Node::Null)]))]);
    let out = build_xml_string(&el);
    assert!(out.contains("<empty>"));
    assert!(out.contains("</empty>"));
}

#[test]
fn build_xml_string_cdata_only_no_text_or_comment() {
    let root = obj(vec![("#cdata", s("only cdata content"))]);
    let el = obj(vec![("?xml", obj(vec![("@version", s("1.0"))])), ("root", root)]);
    let out = build_xml_string(&el);
    assert!(out.contains("<![CDATA["));
    assert!(out.contains("only cdata content"));
}

#[test]
fn build_xml_string_declaration_only_defaults_root_key() {
    let el = obj(vec![(
        "?xml",
        obj(vec![("@version", s("1.0")), ("@encoding", s("UTF-8"))]),
    )]);
    let out = build_xml_string(&el);
    assert!(out.contains("<?xml"));
    assert!(out.contains("<root>"));
}

#[test]
fn build_xml_string_declaration_non_object_skips_decl_write() {
    let el = obj(vec![("?xml", s("not-an-object")), ("root", obj(vec![("a", s("b"))]))]);
    let out = build_xml_string(&el);
    assert!(!out.contains("<?xml"));
    assert!(out.contains("<root>"));
}

#[test]
fn build_xml_string_root_value_array_sibling_elements() {
    let el = obj(vec![(
        "root",
        Node::Arr(vec![obj(vec![("a", s("1"))]), obj(vec![("b", s("2"))])]),
    )]);
    let out = build_xml_string(&el);
    assert!(out.contains("<root>"));
    assert!(out.contains("<a>1</a>"));
    assert!(out.contains("<b>2</b>"));
    assert!(out.contains("</root>"));
}

#[test]
fn build_xml_string_root_value_primitive() {
    let el = obj(vec![("root", Node::UInt(42))]);
    let out = build_xml_string(&el);
    assert!(out.contains("<root>42</root>"));
}

#[test]
fn build_xml_string_attribute_value_object_uses_serde_fallback() {
    let el = obj(vec![(
        "root",
        obj(vec![
            ("@complex", obj(vec![("nested", Node::Bool(true))])),
            ("child", s("v")),
        ]),
    )]);
    let out = build_xml_string(&el);
    assert!(out.contains("child"));
    assert!(out.contains("v"));
}

#[test]
fn strip_root_when_element_is_root() {
    let parsed = parse_xml_from_str(
        "<Wrapper><processes><p>1</p></processes></Wrapper>",
        "mem",
    )
    .unwrap();
    let out = strip_root_and_build_xml(&parsed, "Wrapper").unwrap();
    assert!(!out.contains("<Wrapper>"));
    assert!(out.contains("<processes>"));
    assert!(out.contains("<p>1</p>"));
}

#[test]
fn strip_root_when_element_is_child_splices_content() {
    let parsed = parse_xml_from_str(
        "<Root><keep>x</keep><strip><inner>y</inner></strip></Root>",
        "mem",
    )
    .unwrap();
    let out = strip_root_and_build_xml(&parsed, "strip").unwrap();
    assert!(out.contains("<Root>"));
    assert!(out.contains("<keep>x</keep>"));
    assert!(out.contains("<inner>y</inner>"));
    assert!(!out.contains("<strip>"));
}

#[test]
fn strip_root_missing_element_returns_none() {
    let parsed = parse_xml_from_str("<Root><a>1</a></Root>", "mem").unwrap();
    assert!(strip_root_and_build_xml(&parsed, "absent").is_none());
}

#[test]
fn capture_xmlns_from_root_reads_namespace_attribute() {
    let parsed = parse_xml_from_str(
        "<Root xmlns=\"http://example.com\"><a><b>1</b></a></Root>",
        "mem",
    )
    .unwrap();
    assert_eq!(
        capture_xmlns_from_root(&parsed),
        Some("http://example.com".to_string())
    );
    let plain = parse_xml_from_str("<Root><a>1</a></Root>", "mem").unwrap();
    assert_eq!(capture_xmlns_from_root(&plain), None);
}

#[test]
fn file_matching_needs_markup_extension_and_pattern() {
    assert!(file_matches_rule(
        "x.programProcesses-meta.xml",
        "dir/x.xml",
        "programProcesses-meta"
    ));
    assert!(!file_matches_rule(
        "x.programProcesses-meta.json",
        "dir/x.json",
        "programProcesses-meta"
    ));
    assert!(!file_matches_rule("other.xml", "dir/other.xml", "programProcesses-meta"));
    assert!(file_matches_rule(
        "a.xml",
        "dir/programProcesses-meta/a.xml",
        "programProcesses-meta"
    ));
}

#[test]
fn detects_element_to_strip_as_root_or_child() {
    let as_root = parse_xml_from_str("<Setup><x><y>1</y></x></Setup>", "mem").unwrap();
    assert!(has_element_to_strip(&as_root, "Setup"));
    assert!(has_element_to_strip(&as_root, "x"));
    assert!(!has_element_to_strip(&as_root, "y"));
}

#[test]
fn plan_unique_id_strategy_names_nested_fragments() {
    let xml = "<Root xmlns=\"http://example.com\"><apex><name>One</name><flag>a</flag></apex><note>n</note></Root>";
    let plan = plan_disassembly(xml, "Doc", Some("name"), false, "xml").unwrap();
    assert_eq!(plan.key_order, vec!["apex".to_string(), "note".to_string()]);
    assert_eq!(plan.fragments.len(), 2);
    assert_eq!(plan.fragments[0].subdirectory, Some("apex".to_string()));
    assert!(plan.fragments[0].file_name.ends_with(".apex-meta.xml"));
    let id = plan.fragments[0].file_name.split('.').next().unwrap();
    assert!(looks_like_hash(id));
    let nested = build_xml_string(&plan.fragments[0].doc);
    assert!(nested.contains("<Root xmlns=\"http://example.com\">"));
    assert!(nested.contains("<name>One</name>"));
    assert_eq!(plan.fragments[1].subdirectory, None);
    assert_eq!(plan.fragments[1].file_name, "Doc.xml");
    let leaf = build_xml_string(&plan.fragments[1].doc);
    assert!(leaf.contains("<note>n</note>"));
}

#[test]
fn plan_grouped_strategy_buffers_by_tag() {
    let xml = "<Root><apex><name>One</name></apex><apex><name>Two</name></apex></Root>";
    let plan = plan_disassembly(xml, "Doc", Some("name"), true, "xml").unwrap();
    assert_eq!(plan.fragments.len(), 1);
    assert_eq!(plan.fragments[0].file_name, "apex.xml");
    let text = build_xml_string(&plan.fragments[0].doc);
    assert!(text.contains("<name>One</name>"));
    assert!(text.contains("<name>Two</name>"));
}

#[test]
fn all_leaf_document_plans_to_nothing() {
    let xml = "<Root><a>1</a><b>2</b></Root>";
    assert!(plan_disassembly(xml, "Doc", None, false, "xml").is_none());
}

#[test]
fn unparsable_document_plans_to_nothing() {
    assert!(plan_disassembly("<<", "Doc", None, false, "xml").is_none());
}

#[test]
fn collect_segment_wraps_files_as_array() {
    let f1 = parse_xml_from_str(
        "<Setup><process><name>A</name><v>1</v></process></Setup>",
        "mem",
    )
    .unwrap();
    let f2 = parse_xml_from_str(
        "<Setup><process><name>B</name><v>2</v></process></Setup>",
        "mem",
    )
    .unwrap();
    let doc = collect_segment_as_array(&vec![f1, f2], "process", true).unwrap();
    let arr = doc.get("Setup").unwrap().get("process").unwrap().as_arr().unwrap();
    assert_eq!(arr.len(), 2);
    assert_eq!(
        arr[0].get("name").unwrap().get("#text").unwrap().as_str().unwrap(),
        "A"
    );
    assert_eq!(
        arr[1].get("name").unwrap().get("#text").unwrap().as_str().unwrap(),
        "B"
    );
}

#[test]
fn multi_level_strip_and_collect_round_trip() {
    let original = "<Setup>\n    <processes>\n        <process>\n            <name>A</name>\n            <step>\n                <id>s1</id>\n            </step>\n        </process>\n    </processes>\n</Setup>";
    let parsed = parse_xml_from_str(original, "mem").unwrap();
    let stripped = strip_root_and_build_xml(&parsed, "processes").unwrap();
    let reparsed = parse_xml_from_str(&stripped, "mem").unwrap();
    let collected = collect_segment_as_array(&vec![reparsed], "process", false).unwrap();
    let arr = collected.get("Setup").unwrap().get("process").unwrap().as_arr().unwrap();
    assert_eq!(arr.len(), 1);
    assert_eq!(
        arr[0].get("process").unwrap().get("name").unwrap().get("#text").unwrap().as_str().unwrap(),
        "A"
    );
}

#[test]
fn reassemble_document_merges_and_serializes() {
    let f1 = parse_xml_from_str(
        "<?xml version=\"1.0\" encoding=\"UTF-8\"?>\n<Root><a><x>1</x></a></Root>",
        "mem",
    )
    .unwrap();
    let f2 = parse_xml_from_str("<Root><b>2</b></Root>", "mem").unwrap();
    let out = reassemble_document(&vec![f1, f2], None).unwrap();
    assert!(out.starts_with("<?xml version=\"1.0\" encoding=\"UTF-8\"?>"));
    assert!(out.contains("<x>1</x>"));
    assert!(out.contains("<b>2</b>"));
}

#[test]
fn reassemble_document_of_nothing_is_none() {
    assert!(reassemble_document(&Vec::new(), None).is_none());
}

#[test]
fn handler_recognizes_parsable_files_and_output_paths() {
    let h = ReassembleXmlFileHandler::new();
    assert!(h.is_parsable_file("a.xml"));
    assert!(h.is_parsable_file("a.JSON"));
    assert!(h.is_parsable_file("a.yaml"));
    assert!(h.is_parsable_file("a.yml"));
    assert!(h.is_parsable_file("a.json5"));
    assert!(!h.is_parsable_file("a.txt"));
    assert_eq!(h.get_output_path("out/HR_Admin", None), "out/HR_Admin.xml");
    assert_eq!(h.get_output_path("HR_Admin", Some("json")), "HR_Admin.json");
}

#[test]
fn looks_like_hash_requires_eight_lowercase_hex_chars() {
    assert!(looks_like_hash("a1b2c3d4"));
    assert!(!looks_like_hash("ABCDEF01"));
    assert!(!looks_like_hash("a1b2c3d"));
    assert!(!looks_like_hash("a1b2c3d4e"));
    assert!(!looks_like_hash("a1b2c3g4"));
}

#[test]
fn uppercase_hex_field_value_is_a_genuine_identifier() {
    let el = obj(vec![("value", obj(vec![("name", s("ABCDEF01"))]))]);
    assert_eq!(parse_unique_id_element(&el, Some("name")), "ABCDEF01");
}

#[test]
fn empty_nested_field_value_falls_back_to_content_hash() {
    let el = obj(vec![("a", obj(vec![("name", s(""))]))]);
    let id = parse_unique_id_element(&el, Some("name"));
    assert!(!id.is_empty());
    assert!(looks_like_hash(&id));
}

#[test]
fn parse_with_metadata_recovers_declaration_and_namespace() {
    let text = "<?xml version=\"1.0\" encoding=\"UTF-8\"?>\n<Root xmlns=\"http://example.com\">\n    <a>\n        <b>1</b>\n    </a>\n</Root>";
    let doc = xml_disassembler::parse_xml_with_metadata(text, "mem").unwrap();
    let decl = doc.get("?xml").unwrap();
    assert_eq!(decl.get("@version").unwrap().as_str().unwrap(), "1.0");
    assert_eq!(
        doc.get("Root").unwrap().get("@xmlns").unwrap().as_str().unwrap(),
        "http://example.com"
    );
    let out = build_xml_string(&doc);
    assert_eq!(out, text);
}

#[test]
fn parse_with_metadata_keeps_existing_namespace() {
    let text = "<Root xmlns=\"http://one.example\"><a><b>1</b></a></Root>";
    let doc = xml_disassembler::parse_xml_with_metadata(text, "mem").unwrap();
    let root = doc.get("Root").unwrap();
    let xmlns_count = root
        .as_obj()
        .unwrap()
        .iter()
        .filter(|e| e.key == "@xmlns")
        .count();
    assert_eq!(xmlns_count, 1);
}

#[test]
fn first_stripped_fragment_records_the_rule() {
    let rule = xml_disassembler::MultiLevelRule {
        file_pattern: "programProcesses-meta".to_string(),
        root_to_strip: "Setup".to_string(),
        unique_id_elements: "name".to_string(),
        path_segment: String::new(),
        wrap_root_element: String::new(),
        wrap_xmlns: String::new(),
    };
    let parsed = parse_xml_from_str("<Setup><p><q>1</q></p></Setup>", "mem").unwrap();
    let config = xml_disassembler::MultiLevelConfig { rules: Vec::new() };
    let config =
        xml_disassembler::extend_multi_level_config(config, &rule, &parsed, "http://ns.example");
    assert_eq!(config.rules.len(), 1);
    assert_eq!(config.rules[0].path_segment, "programProcesses");
    assert_eq!(config.rules[0].wrap_root_element, "Setup");
    assert_eq!(config.rules[0].wrap_xmlns, "http://ns.example");
    let config =
        xml_disassembler::extend_multi_level_config(config, &rule, &parsed, "http://other.example");
    assert_eq!(config.rules.len(), 1);
    assert_eq!(config.rules[0].wrap_xmlns, "http://ns.example");
}

#[test]
fn segment_file_is_rewritten_into_wrap_shape() {
    let parsed = parse_xml_from_str("<process><name>A</name><v><w>1</w></v></process>", "mem")
        .unwrap();
    let out = xml_disassembler::ensure_segment_file_text(
        &parsed,
        "Setup",
        "process",
        "http://ns.example",
    )
    .unwrap();
    assert!(out.contains("<Setup xmlns=\"http://ns.example\">"));
    assert!(out.contains("<process>"));
    assert!(out.contains("<name>A</name>"));
    let reparsed = parse_xml_from_str(&out, "mem").unwrap();
    assert!(
        xml_disassembler::ensure_segment_file_text(&reparsed, "Setup", "process", "http://ns.example")
            .is_none()
    );
}
