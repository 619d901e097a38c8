use xml_proc::xml_generator::{escape_str, XMLElement};

#[test]
fn write_xml() {
    let mut root = XMLElement::new("root");
    let mut child1 = XMLElement::new("child1");
    let inner1 = XMLElement::new("inner");
    child1.add_child(inner1);
    let mut inner2 = XMLElement::new("inner");
    inner2.add_text("Example Text\nNew line");
    child1.add_child(inner2);
    root.add_child(child1);
    let mut child2 = XMLElement::new("child2");
    child2.add_attribute("at1", "test &");
    child2.add_attribute("at2", "test <");
    child2.add_attribute("at3", "test \"");
    let mut inner3 = XMLElement::new("inner");
    inner3.add_attribute("test", "example");
    child2.add_child(inner3);
    root.add_child(child2);
    let mut child3 = XMLElement::new("child3");
    child3.add_text("&< &");
    root.add_child(child3);
    let mut child4 = XMLElement::new("child4");
    child4.add_attribute("non-str-attribute", &5.to_string());
    child4.add_text(&6.to_string());
    root.add_child(child4);

    let expected = r#"<?xml version = "1.0" encoding = "UTF-8"?>
<root>
	<child1>
		<inner />
		<inner>Example Text
New line</inner>
	</child1>
	<child2 at1="test &amp;" at2="test &lt;" at3="test &quot;">
		<inner test="example" />
	</child2>
	<child3>&amp;&lt; &amp;</child3>
	<child4 non-str-attribute="5">6</child4>
</root>
"#;
    assert_eq!(
        root.to_string(),
        expected,
        "Attempt to write XML did not give expected results."
    );
}

#[test]
fn escape_str_replaces_all_five() {
    assert_eq!(escape_str("a&b\"c'd<e>f"), "a&amp;b&quot;c&apos;d&lt;e&gt;f");
    assert_eq!(escape_str("plain text"), "plain text");
    assert_eq!(escape_str(""), "");
    assert_eq!(escape_str("é<ü"), "é&lt;ü");
}

#[test]
fn attributes_come_out_sorted_by_key() {
    let mut e = XMLElement::new("e");
    e.add_attribute("zeta", "1");
    e.add_attribute("alpha", "2");
    e.add_attribute("Beta", "3");
    e.add_attribute("mid", "4");
    assert_eq!(
        e.to_string(),
        "<?xml version = \"1.0\" encoding = \"UTF-8\"?>\n<e Beta=\"3\" alpha=\"2\" mid=\"4\" zeta=\"1\" />\n"
    );
}

#[test]
fn attribute_set_twice_keeps_last_value() {
    let mut e = XMLElement::new("e");
    e.add_attribute("k", "first");
    e.add_attribute("other", "x");
    e.add_attribute("k", "second & last");
    assert_eq!(
        e.to_string(),
        "<?xml version = \"1.0\" encoding = \"UTF-8\"?>\n<e k=\"second &amp; last\" other=\"x\" />\n"
    );
}

#[test]
fn attribute_keys_order_by_bytes() {
    let mut e = XMLElement::new("e");
    e.add_attribute("é", "1");
    e.add_attribute("z", "2");
    e.add_attribute("ab", "3");
    e.add_attribute("a", "4");
    assert_eq!(
        e.to_string(),
        "<?xml version = \"1.0\" encoding = \"UTF-8\"?>\n<e a=\"4\" ab=\"3\" z=\"2\" é=\"1\" />\n"
    );
}

#[test]
fn write_appends_to_existing_text() {
    let e = XMLElement::new("x");
    let mut out = String::from("before\n");
    e.write(&mut out);
    assert_eq!(out, "before\n<?xml version = \"1.0\" encoding = \"UTF-8\"?>\n<x />\n");
}

#[test]
fn nested_elements_are_indented_by_tabs() {
    let mut a = XMLElement::new("a");
    let mut b = XMLElement::new("b");
    let mut c = XMLElement::new("c");
    c.add_text("deep");
    b.add_child(c);
    a.add_child(b);
    assert_eq!(
        a.to_string(),
        "<?xml version = \"1.0\" encoding = \"UTF-8\"?>\n<a>\n\t<b>\n\t\t<c>deep</c>\n\t</b>\n</a>\n"
    );
}

#[test]
fn text_with_quotes_is_escaped() {
    let mut e = XMLElement::new("t");
    e.add_text("it's \"x\" > y");
    assert_eq!(
        e.to_string(),
        "<?xml version = \"1.0\" encoding = \"UTF-8\"?>\n<t>it&apos;s &quot;x&quot; &gt; y</t>\n"
    );
}

#[test]
fn clone_is_an_independent_copy() {
    let mut a = XMLElement::new("a");
    a.add_attribute("k", "v<");
    let mut b = XMLElement::new("b");
    b.add_text("t");
    a.add_child(b);
    let mut copy = a.clone();
    assert_eq!(copy, a);
    assert_eq!(copy.to_string(), a.to_string());
    copy.add_child(XMLElement::new("c"));
    assert_ne!(copy.to_string(), a.to_string());
    assert_eq!(
        a.to_string(),
        "<?xml version = \"1.0\" encoding = \"UTF-8\"?>\n<a k=\"v&lt;\">\n\t<b>t</b>\n</a>\n"
    );
}

#[test]
fn text_after_attributes_is_accepted() {
    let mut e = XMLElement::new("n");
    e.add_attribute("a", "1");
    e.add_text("t");
    e.add_attribute("b", "2");
    assert_eq!(
        e.to_string(),
        "<?xml version = \"1.0\" encoding = \"UTF-8\"?>\n<n a=\"1\" b=\"2\">t</n>\n"
    );
}

#[test]
fn children_come_out_in_call_order() {
    let mut e = XMLElement::new("p");
    e.add_child(XMLElement::new("x"));
    e.add_attribute("k", "v");
    e.add_child(XMLElement::new("y"));
    assert_eq!(
        e.to_string(),
        "<?xml version = \"1.0\" encoding = \"UTF-8\"?>\n<p k=\"v\">\n\t<x />\n\t<y />\n</p>\n"
    );
}
