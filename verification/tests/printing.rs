use jval::Json;
use jval::Spacing;

fn sample() -> Json {
    Json::Object(vec![
        ("list".into(), Json::Array(vec![
            Json::Number("1".to_string()),
            Json::Boolean(true),
        ])),
        ("name".into(), Json::String("value".into())),
    ])
}

#[test]
fn compact_forms() {
    assert_eq!(Json::Null.print(&Spacing::Compact), "null");
    assert_eq!(Json::Boolean(true).print(&Spacing::Compact), "true");
    assert_eq!(Json::Boolean(false).print(&Spacing::Compact), "false");
    assert_eq!(Json::Number("-3.5".to_string()).print(&Spacing::Compact), "-3.5");
    assert_eq!(Json::String("hi".into()).print(&Spacing::Compact), "\"hi\"");
    assert_eq!(
        sample().print(&Spacing::Compact),
        "{\"list\":[1,true],\"name\":\"value\"}"
    );
}

#[test]
fn empty_array_and_object_print_bare_under_every_policy() {
    for sp in [Spacing::Compact, Spacing::TabIndent, Spacing::SpaceIndent(2), Spacing::SpaceIndent(0)] {
        assert_eq!(Json::Array(Vec::new()).print(&sp), "[]");
        assert_eq!(Json::Object(Vec::new()).print(&sp), "{}");
    }
}

#[test]
fn single_element_array_stays_on_one_line() {
    let one = Json::Array(vec![Json::Number("7".to_string())]);
    assert_eq!(one.print(&Spacing::SpaceIndent(2)), "[ 7 ]");
    assert_eq!(one.print(&Spacing::TabIndent), "[ 7 ]");
    // even when the element is a container, it prints compactly
    let nested = Json::Array(vec![sample()]);
    assert_eq!(
        nested.print(&Spacing::SpaceIndent(2)),
        "[ {\"list\":[1,true],\"name\":\"value\"} ]"
    );
}

#[test]
fn space_indenting() {
    assert_eq!(
        sample().print(&Spacing::SpaceIndent(2)),
        "{\n  \"list\": [\n    1,\n    true\n  ],\n  \"name\": \"value\"\n}"
    );
}

#[test]
fn tab_indenting() {
    assert_eq!(
        sample().print(&Spacing::TabIndent),
        "{\n\t\"list\": [\n\t\t1,\n\t\ttrue\n\t],\n\t\"name\": \"value\"\n}"
    );
}

#[test]
fn printing_is_deterministic() {
    let t = sample();
    for sp in [Spacing::Compact, Spacing::TabIndent, Spacing::SpaceIndent(3)] {
        assert_eq!(t.print(&sp), t.print(&sp));
    }
}
