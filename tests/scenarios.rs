use json_fsm::{parse, pretty_print, ParseErr, JSON};

fn p(text: &str) -> Result<JSON, ParseErr> {
    parse(&String::from(text))
}

fn err_of(text: &str) -> ParseErr {
    match p(text) {
        Err(e) => e,
        Ok(v) => panic!("expected a failure, got {:?}", v),
    }
}

fn s(text: &str) -> String {
    String::from(text)
}

#[test]
fn leading_zeros_are_refused() {
    let e = err_of("[00]");
    assert_eq!(e.message(), "Too many 0 on front!");
    assert_eq!((e.line(), e.column()), (1, 4));
    assert_eq!(err_of("[007]").message(), "Too many 0 on front!");
    assert_eq!(err_of("{\"a\": 00}").message(), "Too many 0 on front!");
    assert!(p("00").is_err());
    assert!(p("007").is_err());
}

#[test]
fn single_zero_and_fraction_are_accepted() {
    assert_eq!(p("[0]").unwrap(), JSON::Lst(vec![JSON::Int(0)]));
    assert_eq!(p("[0.5]").unwrap(), JSON::Lst(vec![JSON::Flt(s("0.5"))]));
}

#[test]
fn escaped_newline_is_kept() {
    let v = p("[\"a\\nb\"]").unwrap();
    assert_eq!(v, JSON::Lst(vec![JSON::Str(s("a\nb"))]));
    if let JSON::Lst(items) = &v {
        if let JSON::Str(t) = &items[0] {
            assert_eq!(t.chars().count(), 3);
        }
    }
    let out = pretty_print(&v, 0, "  ").unwrap();
    assert!(out.contains("a\nb"));
}

#[test]
fn unknown_escape_is_refused_at_its_character() {
    let e = err_of("[\"\\q\"]");
    assert_eq!(e.message(), "Unavailable Escape Character");
    assert_eq!((e.line(), e.column()), (1, 4));
}

#[test]
fn every_escape_of_the_table() {
    let v = p("[\"\\b\\f\\n\\t\\r\\\\\\\"\"]").unwrap();
    assert_eq!(v, JSON::Lst(vec![JSON::Str(s("\u{8}\u{c}\n\t\r\\\""))]));
}

#[test]
fn duplicate_keys_last_write_wins() {
    let v = p("{\"a\":1,\"a\":2}").unwrap();
    assert_eq!(v, JSON::Obj(vec![(s("a"), JSON::Int(2))]));
    let w = p("{\"a\":1,\"b\":true,\"a\":\"x\"}").unwrap();
    assert_eq!(
        w,
        JSON::Obj(vec![(s("a"), JSON::Str(s("x"))), (s("b"), JSON::Bol(true))])
    );
}

#[test]
fn bare_scalar_root_is_refused() {
    let e = err_of("42");
    assert_eq!(e.message(), "Expected '{' or '['.");
    assert_eq!((e.line(), e.column()), (1, 1));
    assert_eq!(p("[42]").unwrap(), JSON::Lst(vec![JSON::Int(42)]));
}

#[test]
fn unclosed_object_is_incomplete() {
    let e = err_of("{\"a\":1");
    assert_eq!(e.message(), "Incomplete JSON structure");
    assert_eq!((e.line(), e.column()), (1, 6));
    assert_eq!(err_of("[1, [2]").message(), "Incomplete JSON structure");
    assert_eq!(err_of("").message(), "Incomplete JSON structure");
}

#[test]
fn mismatched_bracket_is_named() {
    let e = err_of("[1,2}");
    assert_eq!(e.message(), "Unexpected '}'! You are inside a List, not an Object!");
    assert_eq!((e.line(), e.column()), (1, 5));
    let f = err_of("{\"a\":1]");
    assert_eq!(f.message(), "Unexpected ']'! You are inside an Object, not a List!");
    assert_eq!((f.line(), f.column()), (1, 7));
    assert_eq!(err_of("[\"x\" }").message(), "Unexpected '}'! You are inside a List, not an Object!");
}

#[test]
fn second_root_is_refused() {
    let e = err_of("{} {}");
    assert_eq!(e.message(), "Any character after the end of root container is not allowed.");
    assert_eq!((e.line(), e.column()), (1, 4));
    assert!(p("{}\n\n  ").is_ok());
}

#[test]
fn whitespace_between_tokens_changes_nothing() {
    let tight = p("{\"a\":[1,2,{\"b\":null}],\"c\":\"d e\"}").unwrap();
    let loose = p(" \n{ \"a\" :\t[ 1 ,\r\n 2 , { \"b\" : null } ] , \"c\" : \"d e\" }\n ").unwrap();
    assert_eq!(tight, loose);
}

#[test]
fn nested_containers_close_in_order() {
    let v = p("[[1],[[]],{\"k\":[true,false]},{}]").unwrap();
    assert_eq!(
        v,
        JSON::Lst(vec![
            JSON::Lst(vec![JSON::Int(1)]),
            JSON::Lst(vec![JSON::Lst(vec![])]),
            JSON::Obj(vec![(s("k"), JSON::Lst(vec![JSON::Bol(true), JSON::Bol(false)]))]),
            JSON::Obj(vec![]),
        ])
    );
}

#[test]
fn numbers_follow_std_parsers() {
    let v = p("[-9223372036854775808, 9223372036854775807, 9223372036854775808, 1e5, -2.5E-3, -inf, nan, -0]").unwrap();
    assert_eq!(
        v,
        JSON::Lst(vec![
            JSON::Int(i64::MIN),
            JSON::Int(i64::MAX),
            JSON::Flt(s("9223372036854775808")),
            JSON::Flt(s("1e5")),
            JSON::Flt(s("-2.5E-3")),
            JSON::Flt(s("-inf")),
            JSON::Flt(s("nan")),
            JSON::Int(0),
        ])
    );
    if let JSON::Lst(items) = &v {
        if let JSON::Flt(t) = &items[4] {
            assert_eq!(t.parse::<f64>().unwrap(), -0.0025f64);
        }
    }
}

#[test]
fn bad_primitives_are_refused() {
    assert_eq!(err_of("[nul]").message(), "Unparsable primitive data");
    assert_eq!(err_of("[1.2.3]").message(), "Unparsable primitive data");
    assert_eq!(err_of("[-]").message(), "Unparsable primitive data");
    assert_eq!(err_of("[1e]").message(), "Unparsable primitive data");
}

#[test]
fn grammar_errors_have_their_messages() {
    assert_eq!(err_of("{1:2}").message(), "Expected a String value as key.");
    assert_eq!(err_of("{\"a\" 1}").message(), "Expected ':' followed by value of given key");
    assert_eq!(err_of("{\"a\": x}").message(), "Expected value to be number, string, true, false or null");
    assert_eq!(err_of("[1,]").message(), "Expected value to be number, string, true, false or null");
    assert_eq!(err_of("[\"a\" \"b\"]").message(), "Expected ',' or the closing bracket after a value");
    assert_eq!(err_of("{\"a\":1,}").message(), "Expected a String value as key.");
}

#[test]
fn error_positions_count_lines() {
    let e = err_of("{\n  \"a\": 1,\n  \"b\" 2\n}");
    assert_eq!((e.line(), e.column()), (3, 8));
    assert_eq!(e.to_text(), "Line[3], Char[8]: Expected ':' followed by value of given key");
}

#[test]
fn pretty_print_layout() {
    let v = p("[1,\"q\\\"\\\\\",[],{}]").unwrap();
    assert_eq!(
        pretty_print(&v, 0, "\t").unwrap(),
        "[\n\t1,\n\t\"q\\\"\\\\\",\n\t[\n\t],\n\t{\n\t}\n]"
    );
    assert_eq!(pretty_print(&JSON::Lst(vec![]), 0, "  ").unwrap(), "[\n]");
    assert_eq!(pretty_print(&JSON::Lst(vec![JSON::Int(-12)]), 1, "  ").unwrap(), "[\n    -12\n  ]");
}

#[test]
fn pretty_print_refuses_scalars() {
    assert_eq!(pretty_print(&JSON::Int(3), 0, "  "), Err(s("Expected a JSON list or object")));
    assert_eq!(pretty_print(&JSON::Nul, 0, "  "), Err(s("Expected a JSON list or object")));
}

#[test]
fn printed_tree_parses_back_to_itself() {
    let text = "{\"a\":[1,-2,3.5e1,{\"b\":[]}],\"s\":\"x\\\"y\\\\z\\nw\",\"t\":true,\"f\":false,\"n\":null}";
    let v = p(text).unwrap();
    let out = pretty_print(&v, 0, "  ").unwrap();
    assert_eq!(p(&out).unwrap(), v);
}

#[test]
fn whitespace_at_every_token_boundary() {
    let text = "{\"a\":[1,-2.5e3,\"x y\",true],\"b\":{\"c\":null,\"d\":[]},\"e\":\"q\\\"\"}";
    let expected = p(text).unwrap();
    let chars: Vec<char> = text.chars().collect();
    let prim = |c: char| !matches!(c, '{' | '}' | '[' | ']' | ',' | ':' | '"');
    let mut in_string = false;
    let mut escaped = false;
    for i in 0..=chars.len() {
        let boundary = !in_string
            && !(i > 0 && i < chars.len() && prim(chars[i - 1]) && prim(chars[i]));
        if boundary {
            for w in [" ", "\n", "\t\r\n "] {
                let mut t: String = chars[..i].iter().collect();
                t.push_str(w);
                t.extend(chars[i..].iter());
                assert_eq!(p(&t).unwrap(), expected, "{:?}", t);
            }
        }
        if i < chars.len() {
            let c = chars[i];
            if in_string {
                if escaped {
                    escaped = false;
                } else if c == '\\' {
                    escaped = true;
                } else if c == '"' {
                    in_string = false;
                }
            } else if c == '"' {
                in_string = true;
            }
        }
    }
}

#[test]
fn printed_tree_parses_back_with_any_whitespace_indent() {
    let text = "[{\"k\":[[],{}],\"z\":-0.0},\"\\\\\",[null,[false,1e-7]],{\"a\":{\"b\":{\"c\":[9223372036854775807]}}}]";
    let v = p(text).unwrap();
    for ind in ["", " ", "\t", "\r\n", "    "] {
        let out = pretty_print(&v, 0, ind).unwrap();
        assert_eq!(p(&out).unwrap(), v, "{:?}", out);
    }
}

#[test]
fn whitespace_at_all_token_boundaries_at_once() {
    let text = "{\"a\":[1,-2.5e3,\"x y\",true],\"b\":{\"c\":null,\"d\":[]},\"e\":\"q\\\"\"}";
    let expected = p(text).unwrap();
    let chars: Vec<char> = text.chars().collect();
    let prim = |c: char| !matches!(c, '{' | '}' | '[' | ']' | ',' | ':' | '"');
    let runs = [" ", "\n", "\t\r\n ", ""];
    let mut out = String::new();
    let mut in_string = false;
    let mut escaped = false;
    for i in 0..=chars.len() {
        let boundary = !in_string
            && !(i > 0 && i < chars.len() && prim(chars[i - 1]) && prim(chars[i]));
        if boundary {
            out.push_str(runs[i % runs.len()]);
        }
        if i < chars.len() {
            let c = chars[i];
            out.push(c);
            if in_string {
                if escaped {
                    escaped = false;
                } else if c == '\\' {
                    escaped = true;
                } else if c == '"' {
                    in_string = false;
                }
            } else if c == '"' {
                in_string = true;
            }
        }
    }
    assert_eq!(p(&out).unwrap(), expected, "{:?}", out);
    assert!(p(&format!("{} {{", out)).is_err());
}
