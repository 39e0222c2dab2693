use json_fsm::{parse, pretty_print, JSON};

fn obj_get<'a>(members: &'a [(String, JSON)], key: &str) -> Option<&'a JSON> {
    members.iter().find(|(k, _)| k == key).map(|(_, v)| v)
}

#[test]
fn test_parse() {
    let text = String::from("{\"results\": [1, 2.5, \"x\", true, null], \"n\": -7}");
    match parse(&text) {
        Ok(JSON::Obj(members)) => {
            assert_eq!(members.len(), 2);
            match obj_get(&members, "results") {
                Some(JSON::Lst(items)) => assert_eq!(items.len(), 5),
                other => panic!("unexpected {:?}", other),
            }
            assert!(matches!(obj_get(&members, "n"), Some(JSON::Int(-7))));
        }
        other => panic!("unexpected {:?}", other),
    }
}

#[test]
fn test_pretty_print() {
    let text = String::from("{\"a\": [1, {\"b\": null}], \"c\": \"d\"}");
    let json = parse(&text).unwrap();
    let r = pretty_print(&json, 0, "  ");
    assert_eq!(
        r,
        Ok(String::from("{\n  \"a\": [\n    1,\n    {\n      \"b\": null\n    }\n  ],\n  \"c\": \"d\"\n}"))
    );
}
