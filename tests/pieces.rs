use json_fsm::machine::{Context, SubState};
use json_fsm::parser::{inside_what, pack_entry, pack_list, pack_object, Parser, Pending};
use json_fsm::scalar::{get_esc_char, is_float, parse_int, primitive_parse};
use json_fsm::text::{chars_of, string_of};
use json_fsm::{Fault, ParseErr, JSON};

fn cs(t: &str) -> Vec<char> {
    t.chars().collect()
}

fn s(t: &str) -> String {
    String::from(t)
}

#[test]
fn escape_table() {
    assert_eq!(get_esc_char('b'), Some('\u{8}'));
    assert_eq!(get_esc_char('f'), Some('\u{c}'));
    assert_eq!(get_esc_char('n'), Some('\n'));
    assert_eq!(get_esc_char('t'), Some('\t'));
    assert_eq!(get_esc_char('r'), Some('\r'));
    assert_eq!(get_esc_char('\\'), Some('\\'));
    assert_eq!(get_esc_char('"'), Some('"'));
    assert_eq!(get_esc_char('q'), None);
    assert_eq!(get_esc_char('/'), None);
}

#[test]
fn integer_texts() {
    assert_eq!(parse_int(&cs("0")), Some(0));
    assert_eq!(parse_int(&cs("-17")), Some(-17));
    assert_eq!(parse_int(&cs("+17")), Some(17));
    assert_eq!(parse_int(&cs("007")), Some(7));
    assert_eq!(parse_int(&cs("9223372036854775807")), Some(i64::MAX));
    assert_eq!(parse_int(&cs("-9223372036854775808")), Some(i64::MIN));
    assert_eq!(parse_int(&cs("9223372036854775808")), None);
    assert_eq!(parse_int(&cs("-9223372036854775809")), None);
    assert_eq!(parse_int(&cs("123456789012345678901234567890")), None);
    assert_eq!(parse_int(&cs("")), None);
    assert_eq!(parse_int(&cs("-")), None);
    assert_eq!(parse_int(&cs("1.0")), None);
    assert_eq!(parse_int(&cs("1a")), None);
}

#[test]
fn float_texts_agree_with_std() {
    for t in ["1.5", "-0.25", "1e10", "1E-3", "2.e5", ".5", "-.5e+2", "5.", "inf", "-Infinity", "NaN", "+nan", "12"] {
        assert!(is_float(&cs(t)), "{}", t);
        assert!(t.parse::<f64>().is_ok(), "{}", t);
    }
    for t in ["", ".", "-", "e5", "1e", "1e+", "1.2.3", "1..2", "infin", "nana", "0x10", "1_0", "1e5.0", "--1"] {
        assert!(!is_float(&cs(t)), "{}", t);
        assert!(t.parse::<f64>().is_err(), "{}", t);
    }
}

#[test]
fn primitive_texts() {
    assert_eq!(primitive_parse(&cs("null")), Ok(JSON::Nul));
    assert_eq!(primitive_parse(&cs("true")), Ok(JSON::Bol(true)));
    assert_eq!(primitive_parse(&cs("false")), Ok(JSON::Bol(false)));
    assert_eq!(primitive_parse(&cs("-42")), Ok(JSON::Int(-42)));
    assert_eq!(primitive_parse(&cs("4.2")), Ok(JSON::Flt(s("4.2"))));
    assert_eq!(primitive_parse(&cs("00")), Err(Fault::LeadingZeros));
    assert_eq!(primitive_parse(&cs("00.5")), Err(Fault::LeadingZeros));
    assert_eq!(primitive_parse(&cs("-00")), Ok(JSON::Int(0)));
    assert_eq!(primitive_parse(&cs("nul")), Err(Fault::Unparsable));
    assert_eq!(primitive_parse(&cs("True")), Err(Fault::Unparsable));
}

#[test]
fn text_conversions() {
    assert_eq!(chars_of("añb"), vec!['a', 'ñ', 'b']);
    assert_eq!(string_of(&vec!['x', 'é', '\n']), s("xé\n"));
}

#[test]
fn context_is_read_from_the_stack() {
    assert_eq!(inside_what(&vec![]), Context::Start);
    assert_eq!(inside_what(&vec![Pending::Value(JSON::Nul)]), Context::Finished);
    assert_eq!(inside_what(&vec![Pending::OpenArray, Pending::Value(JSON::Nul)]), Context::Array);
    assert_eq!(
        inside_what(&vec![Pending::OpenArray, Pending::OpenObject, Pending::Key(s("k"))]),
        Context::Object
    );
}

#[test]
fn packing_an_object() {
    let mut mem = vec![
        Pending::OpenObject,
        Pending::Entry(s("a"), JSON::Int(1)),
        Pending::Entry(s("b"), JSON::Int(2)),
        Pending::Entry(s("a"), JSON::Int(3)),
    ];
    assert_eq!(pack_object(&mut mem), Ok(()));
    assert_eq!(
        mem,
        vec![Pending::Value(JSON::Obj(vec![(s("a"), JSON::Int(3)), (s("b"), JSON::Int(2))]))]
    );
    let mut nested = vec![Pending::OpenObject, Pending::Key(s("k")), Pending::OpenObject];
    assert_eq!(pack_object(&mut nested), Ok(()));
    assert_eq!(
        nested,
        vec![Pending::OpenObject, Pending::Key(s("k")), Pending::Value(JSON::Obj(vec![]))]
    );
    assert_eq!(pack_entry(&mut nested), Ok(()));
    assert_eq!(nested, vec![Pending::OpenObject, Pending::Entry(s("k"), JSON::Obj(vec![]))]);
    let mut bad = vec![Pending::OpenObject, Pending::Value(JSON::Int(1))];
    assert_eq!(pack_object(&mut bad), Err(Fault::Leftovers));
    let mut none: Vec<Pending> = vec![];
    assert_eq!(pack_object(&mut none), Err(Fault::Leftovers));
}

#[test]
fn packing_a_list() {
    let mut mem = vec![Pending::OpenArray, Pending::Value(JSON::Int(1)), Pending::Value(JSON::Int(2))];
    assert_eq!(pack_list(&mut mem), Ok(()));
    assert_eq!(mem, vec![Pending::Value(JSON::Lst(vec![JSON::Int(1), JSON::Int(2)]))]);
    let mut inner = vec![Pending::OpenObject, Pending::Key(s("x")), Pending::OpenArray];
    assert_eq!(pack_list(&mut inner), Ok(()));
    assert_eq!(
        inner,
        vec![Pending::OpenObject, Pending::Key(s("x")), Pending::Value(JSON::Lst(vec![]))]
    );
    let mut keyed = vec![Pending::OpenArray, Pending::Key(s("k"))];
    assert_eq!(pack_list(&mut keyed), Err(Fault::KeyInList));
    let mut entry = vec![Pending::OpenArray, Pending::Entry(s("k"), JSON::Nul)];
    assert_eq!(pack_list(&mut entry), Err(Fault::KeyInList));
    let mut obj = vec![Pending::OpenObject, Pending::Value(JSON::Nul)];
    assert_eq!(pack_list(&mut obj), Err(Fault::ObjectCloseInList));
    let mut none: Vec<Pending> = vec![];
    assert_eq!(pack_list(&mut none), Err(Fault::Leftovers));
}

#[test]
fn packing_an_entry() {
    let mut mem = vec![Pending::OpenObject, Pending::Key(s("k")), Pending::Value(JSON::Bol(true))];
    assert_eq!(pack_entry(&mut mem), Ok(()));
    assert_eq!(mem, vec![Pending::OpenObject, Pending::Entry(s("k"), JSON::Bol(true))]);
    let mut bare = vec![Pending::Key(s("k")), Pending::Value(JSON::Nul)];
    assert_eq!(pack_entry(&mut bare), Ok(()));
    assert_eq!(bare, vec![Pending::Entry(s("k"), JSON::Nul)]);
    let mut empty: Vec<Pending> = vec![];
    assert_eq!(pack_entry(&mut empty), Err(Fault::MissingValue));
    let mut no_value = vec![Pending::OpenObject, Pending::Key(s("k"))];
    assert_eq!(pack_entry(&mut no_value), Err(Fault::MissingValue));
    let mut no_key = vec![Pending::OpenArray, Pending::Value(JSON::Nul)];
    assert_eq!(pack_entry(&mut no_key), Err(Fault::MissingKey));
    let mut alone = vec![Pending::Value(JSON::Nul)];
    assert_eq!(pack_entry(&mut alone), Err(Fault::MissingKey));
}

#[test]
fn stepping_the_machine() {
    let mut p = Parser::new();
    for c in "{\"k\": [1".chars() {
        assert_eq!(p.step(c), Ok(()));
    }
    assert_eq!(p.ctx, Context::Array);
    assert_eq!(p.sub, SubState::BuildingPrimitive);
    assert_eq!(p.text, vec!['1']);
    assert_eq!(p.step(' '), Ok(()));
    assert_eq!(p.sub, SubState::PrimitiveClosed);
    assert_eq!(p.step('}'), Err(Fault::ObjectCloseInList));
}

#[test]
fn error_value_and_text() {
    let e = ParseErr::e(2, 9, s("Incomplete JSON structure"));
    assert_eq!((e.line(), e.column(), e.message()), (2, 9, "Incomplete JSON structure"));
    assert_eq!(e.to_text(), "Line[2], Char[9]: Incomplete JSON structure");
    assert_eq!(Fault::BadEscape.text(), "Unavailable Escape Character");
    assert_eq!(Fault::RootCount.text(), "There is no or more than one JSON structure in a single file");
}
