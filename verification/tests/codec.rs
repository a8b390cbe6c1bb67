use graph_json::deflate::clone_primitive;
use graph_json::keys::{escape_key, is_marker_key, key_equal, key_less, unescape_key};
use graph_json::{
    deflate, deflate_bounded, dumps, from_json, inflate, is_escape_key, loads, new_array,
    new_null, new_number, new_object, new_string, parse, to_json, CodecError, GArray, GNode,
    GObject, GraphValue, JsonValue, MAX_REF_ID,
};

fn num(i: i64) -> serde_json::Number {
    serde_json::Number::from(i)
}

fn jnum(i: i64) -> JsonValue {
    JsonValue::Number(num(i))
}

fn jobj(members: Vec<(&str, JsonValue)>) -> JsonValue {
    JsonValue::Object(members.into_iter().map(|(k, v)| (k.to_string(), v)).collect())
}

fn member(graph: &GraphValue, node: usize, key: &str) -> usize {
    match graph.node(node).unwrap() {
        GNode::Object(GObject(members)) => members.iter().find(|(k, _)| k == key).unwrap().1,
        _ => panic!("not an object"),
    }
}

fn element(graph: &GraphValue, node: usize, index: usize) -> usize {
    match graph.node(node).unwrap() {
        GNode::Array(GArray(items)) => items[index],
        _ => panic!("not an array"),
    }
}

fn keys_of(graph: &GraphValue, node: usize) -> Vec<String> {
    match graph.node(node).unwrap() {
        GNode::Object(GObject(members)) => members.iter().map(|(k, _)| k.clone()).collect(),
        _ => panic!("not an object"),
    }
}

#[test]
fn shared_leaf_object_gets_one_id() {
    let mut g = new_object();
    let l = g.add_object();
    let one = g.add_number(num(1));
    assert!(g.insert(l, "a".to_string(), one));
    assert!(g.insert(0, "x".to_string(), l));
    assert!(g.insert(0, "y".to_string(), l));
    let expected = jobj(vec![
        ("x", jobj(vec![("#", jnum(1)), ("a", jnum(1))])),
        ("y", jobj(vec![("#", jnum(1))])),
    ]);
    assert_eq!(deflate(&g).unwrap(), expected);
    assert_eq!(dumps(&g).unwrap(), r##"{"x":{"#":1,"a":1},"y":{"#":1}}"##);
}

#[test]
fn self_reference_is_marked_on_the_root() {
    let mut g = new_object();
    assert!(g.insert(0, "self".to_string(), 0));
    assert_eq!(dumps(&g).unwrap(), r##"{"#":1,"self":{"#":1}}"##);
}

#[test]
fn duplicate_definition_is_rejected() {
    let r = loads(r##"{"#": 1, "child": {"#": 1, "v": 0}}"##);
    assert_eq!(r.err(), Some(CodecError::DuplicateRef));
}

#[test]
fn reference_without_definition_is_rejected() {
    let r = loads(r##"{"#": 5}"##);
    assert_eq!(r.err(), Some(CodecError::UnknownRef));
}

#[test]
fn literal_hash_key_is_escaped_and_restored() {
    let mut g = new_object();
    let x = g.add_string("x".to_string());
    assert!(g.insert(0, "#".to_string(), x));
    let text = dumps(&g).unwrap();
    assert_eq!(text, r###"{"##":"x"}"###);
    let back = loads(&text).unwrap();
    assert_eq!(keys_of(&back, back.root()), vec!["#".to_string()]);
    let v = member(&back, back.root(), "#");
    assert!(matches!(back.node(v), Some(GNode::String(s)) if s == "x"));
}

#[test]
fn tree_round_trip_is_structurally_equal() {
    let text = r###"{"":0,"#!":[1,-2,3.5,"s",null,true,false],"##":{"#":{"##":[]}},"a":{"b":{"c":[[],{}]}},"z":18446744073709551615}"###;
    let doc = parse(text).unwrap();
    let g = from_json(&doc);
    assert_eq!(to_json(&g), doc);
    let encoded = deflate(&g).unwrap();
    let back = inflate(&encoded).unwrap();
    assert_eq!(to_json(&back), doc);
}

#[test]
fn escaping_changes_member_order() {
    let mut g = new_object();
    let a = g.add_number(num(1));
    let b = g.add_number(num(2));
    assert!(g.insert(0, "#".to_string(), a));
    assert!(g.insert(0, "#!".to_string(), b));
    assert_eq!(keys_of(&g, 0), vec!["#".to_string(), "#!".to_string()]);
    let text = dumps(&g).unwrap();
    assert_eq!(text, r###"{"#!":2,"##":1}"###);
    let back = loads(&text).unwrap();
    assert_eq!(keys_of(&back, back.root()), vec!["#".to_string(), "#!".to_string()]);
}

#[test]
fn sharing_survives_a_round_trip() {
    let mut g = new_array();
    let shared = g.add_object();
    let other = g.add_object();
    let v = g.add_number(num(7));
    let w = g.add_number(num(7));
    assert!(g.insert(shared, "v".to_string(), v));
    assert!(g.insert(other, "v".to_string(), w));
    let holder = g.add_object();
    assert!(g.insert(holder, "first".to_string(), shared));
    assert!(g.insert(holder, "second".to_string(), other));
    assert!(g.insert(holder, "third".to_string(), shared));
    assert!(g.push(0, holder));
    assert!(g.push(0, shared));
    let text = dumps(&g).unwrap();
    assert_eq!(
        text,
        r##"[{"first":{"#":1,"v":7},"second":{"v":7},"third":{"#":1}},{"#":1}]"##
    );
    let back = loads(&text).unwrap();
    let root = back.root();
    let holder = element(&back, root, 0);
    let first = member(&back, holder, "first");
    let second = member(&back, holder, "second");
    let third = member(&back, holder, "third");
    let last = element(&back, root, 1);
    assert_eq!(first, third);
    assert_eq!(first, last);
    assert_ne!(first, second);
}

#[test]
fn cycle_survives_a_round_trip() {
    let mut g = new_object();
    let inner = g.add_array();
    assert!(g.insert(0, "items".to_string(), inner));
    assert!(g.push(inner, 0));
    assert!(g.push(inner, inner));
    let text = dumps(&g).unwrap();
    assert_eq!(text, r##"{"#":1,"items":[{"#":2},{"#":1},{"#":2}]}"##);
    let back = loads(&text).unwrap();
    let root = back.root();
    let items = member(&back, root, "items");
    assert_eq!(element(&back, items, 0), root);
    assert_eq!(element(&back, items, 1), items);
    assert_eq!(member(&back, element(&back, items, 0), "items"), items);
}

#[test]
fn ids_follow_the_order_of_second_visits() {
    let mut g = new_array();
    let a = g.add_object();
    let b = g.add_object();
    let na = g.add_string("a".to_string());
    let nb = g.add_string("b".to_string());
    assert!(g.insert(a, "n".to_string(), na));
    assert!(g.insert(b, "n".to_string(), nb));
    assert!(g.push(0, a));
    assert!(g.push(0, b));
    assert!(g.push(0, b));
    assert!(g.push(0, a));
    assert_eq!(
        dumps(&g).unwrap(),
        r##"[{"#":2,"n":"a"},{"#":1,"n":"b"},{"#":1},{"#":2}]"##
    );
}

#[test]
fn shared_array_carries_its_marker_first() {
    let mut g = new_array();
    let l = g.add_array();
    let one = g.add_number(num(1));
    let two = g.add_number(num(2));
    assert!(g.push(l, one));
    assert!(g.push(l, two));
    assert!(g.push(0, l));
    assert!(g.push(0, l));
    assert!(g.push(0, l));
    assert_eq!(dumps(&g).unwrap(), r##"[[{"#":1},1,2],{"#":1},{"#":1}]"##);
}

#[test]
fn shared_leaves_are_copied() {
    let mut g = new_array();
    let s = g.add_string("s".to_string());
    assert!(g.push(0, s));
    assert!(g.push(0, s));
    assert_eq!(dumps(&g).unwrap(), r##"["s","s"]"##);
    let back = loads(r##"["s","s"]"##).unwrap();
    assert_ne!(element(&back, back.root(), 0), element(&back, back.root(), 1));
}

#[test]
fn encoding_fails_when_ids_run_out() {
    let mut g = new_array();
    let a = g.add_object();
    let b = g.add_object();
    assert!(g.push(0, a));
    assert!(g.push(0, b));
    assert!(g.push(0, a));
    assert!(g.push(0, b));
    assert_eq!(deflate_bounded(&g, 1).err(), Some(CodecError::RefIdOverflow));
    assert_eq!(deflate_bounded(&g, 0).err(), Some(CodecError::RefIdOverflow));
    assert!(deflate_bounded(&g, 2).is_ok());
    assert!(deflate(&g).is_ok());
    let tree = new_array();
    assert_eq!(deflate_bounded(&tree, 0).unwrap(), JsonValue::Array(vec![]));
}

#[test]
fn reference_ids_have_a_range() {
    assert_eq!(MAX_REF_ID, 2_147_483_647);
    assert!(loads(r##"{"#": 2147483647, "a": 1}"##).is_ok());
    for text in [
        r##"{"#": 2147483648, "a": 1}"##,
        r##"{"#": 0, "a": 1}"##,
        r##"{"#": -3, "a": 1}"##,
        r##"{"#": 1.0, "a": 1}"##,
        r##"{"#": "1", "a": 1}"##,
        r##"{"#": null}"##,
        r##"[{"#": 1e0}, 1]"##,
    ] {
        assert_eq!(loads(text).err(), Some(CodecError::InvalidRefId), "{}", text);
    }
}

#[test]
fn array_form_reference_returns_the_defined_node() {
    let back = loads(r##"[[{"#": 1}, 5], [{"#": 1}], {"#": 1}]"##).unwrap();
    let root = back.root();
    let first = element(&back, root, 0);
    assert_eq!(first, element(&back, root, 1));
    assert_eq!(first, element(&back, root, 2));
    assert!(matches!(back.node(first), Some(GNode::Array(GArray(items))) if items.len() == 1));
    assert_eq!(
        loads(r##"[[{"#": 1}, 5], [{"#": 1}, 6]]"##).err(),
        Some(CodecError::DuplicateRef)
    );
}

#[test]
fn forward_reference_is_filled_in_place() {
    let back = loads(r##"[{"#": 9}, {"#": 9, "k": [{"#": 9}]}]"##);
    assert_eq!(back.err(), Some(CodecError::DuplicateRef));
    let back = loads(r##"{"a": {"#": 9}, "b": [{"#": 8}, {"#": 9}]}"##);
    assert_eq!(back.err(), Some(CodecError::UnknownRef));
    let back = loads(r##"{"a": {"#": 9}, "b": {"#": 9, "k": {"#": 9}}}"##).unwrap();
    let a = member(&back, back.root(), "a");
    let b = member(&back, back.root(), "b");
    assert_eq!(a, b);
    assert_eq!(member(&back, a, "k"), a);
}

#[test]
fn first_failure_in_document_order_wins() {
    assert_eq!(
        loads(r##"{"a": {"#": 0}, "b": {"#": 1, "c": {"#": 1, "d": 1}}}"##).err(),
        Some(CodecError::InvalidRefId)
    );
    assert_eq!(
        loads(r##"{"a": {"#": 1, "c": {"#": 1, "d": 1}}, "b": {"#": 0}}"##).err(),
        Some(CodecError::DuplicateRef)
    );
    assert_eq!(
        loads(r##"{"a": {"#": 7}, "b": {"#": 0}}"##).err(),
        Some(CodecError::InvalidRefId)
    );
}

#[test]
fn malformed_text_is_a_syntax_error() {
    match loads("{\"a\": ") {
        Err(CodecError::Syntax(message)) => assert!(!message.is_empty()),
        other => panic!("unexpected {:?}", other.map(|g| g.len())),
    }
    assert!(matches!(parse("[1,]"), Err(CodecError::Syntax(_))));
    assert_eq!(CodecError::UnknownRef.message(), "unknown ref id");
    assert_eq!(CodecError::InvalidRefId.message(), "invalid ref id");
    assert_eq!(CodecError::DuplicateRef.message(), "ref object with extra members");
    assert_eq!(CodecError::RefIdOverflow.message(), "ref id overflow");
    assert_eq!(CodecError::Syntax("m".to_string()).message(), "m");
}

#[test]
fn keys_of_hashes_are_escaped() {
    assert!(is_escape_key("#"));
    assert!(is_escape_key("####"));
    assert!(!is_escape_key(""));
    assert!(!is_escape_key("#a"));
    assert!(!is_escape_key("a#"));
    assert!(!is_escape_key("#\u{e9}"));
    assert_eq!(escape_key("#"), "##");
    assert_eq!(escape_key("##"), "###");
    assert_eq!(escape_key("a"), "a");
    assert_eq!(escape_key(""), "");
    assert_eq!(unescape_key("##"), "#");
    assert_eq!(unescape_key("#"), "");
    assert_eq!(unescape_key("x#"), "x#");
    for key in ["#", "##", "#####", "", "k", "#k", "\u{1f600}#"] {
        assert_eq!(unescape_key(&escape_key(key)), key);
    }
    assert!(is_marker_key("#"));
    assert!(!is_marker_key("##"));
    assert!(!is_marker_key(""));
}

#[test]
fn keys_compare_as_their_bytes() {
    let keys = ["", "#", "#!", "##", "a", "ab", "b", "\u{e9}", "\u{1f600}"];
    for a in keys {
        for b in keys {
            assert_eq!(key_less(a, b), a < b, "{:?} {:?}", a, b);
            assert_eq!(key_equal(a, b), a == b, "{:?} {:?}", a, b);
        }
    }
}

#[test]
fn members_are_kept_in_key_order() {
    let mut g = new_object();
    for key in ["b", "a", "c", "a"] {
        let n = g.add_string(key.to_string());
        assert!(g.insert(0, key.to_string(), n));
    }
    assert_eq!(keys_of(&g, 0), vec!["a".to_string(), "b".to_string(), "c".to_string()]);
    assert_eq!(member(&g, 0, "a"), 4);
    assert_eq!(dumps(&g).unwrap(), r##"{"a":"a","b":"b","c":"c"}"##);
    assert!(!g.insert(1, "x".to_string(), 0));
    assert!(!g.insert(0, "x".to_string(), 99));
    assert!(!g.push(0, 1));
    assert!(!g.set_root(99));
    assert!(g.set_root(1));
    assert_eq!(g.root(), 1);
    assert_eq!(dumps(&g).unwrap(), r##""b""##);
}

#[test]
fn from_json_settles_members() {
    let doc = JsonValue::Object(vec![
        ("b".to_string(), jnum(1)),
        ("a".to_string(), jnum(2)),
        ("b".to_string(), jnum(3)),
    ]);
    let g = from_json(&doc);
    assert_eq!(
        to_json(&g),
        JsonValue::Object(vec![("a".to_string(), jnum(2)), ("b".to_string(), jnum(3))])
    );
}

#[test]
fn leaves_round_trip() {
    assert_eq!(dumps(&new_null()).unwrap(), "null");
    assert_eq!(dumps(&new_string("a\"b".to_string())).unwrap(), r#""a\"b""#);
    assert_eq!(dumps(&new_number(num(-5))).unwrap(), "-5");
    let g = loads("1.25").unwrap();
    assert_eq!(dumps(&g).unwrap(), "1.25");
    assert_eq!(g.len(), 1);
    let g = loads("18446744073709551615").unwrap();
    assert_eq!(dumps(&g).unwrap(), "18446744073709551615");
}

#[test]
fn from_json_makes_one_node_for_each_tree_node() {
    let doc = parse(r##"{"a": [1, [2, 3], {"b": null}], "c": "d"}"##).unwrap();
    let g = from_json(&doc);
    assert_eq!(g.len(), 9);
    assert_eq!(g.root(), 8);
    let a = member(&g, g.root(), "a");
    assert_ne!(element(&g, a, 0), element(&g, a, 1));
    let text = dumps(&g).unwrap();
    assert_eq!(text, r##"{"a":[1,[2,3],{"b":null}],"c":"d"}"##);
    let back = loads(&text).unwrap();
    assert_eq!(to_json(&back), doc);
    assert_eq!(back.root(), 0);
    assert_eq!(back.len(), 9);
}

#[test]
fn leaves_are_copied_by_value() {
    assert!(matches!(clone_primitive(&GNode::Null), GNode::Null));
    assert!(matches!(clone_primitive(&GNode::Bool(true)), GNode::Bool(true)));
    assert!(matches!(clone_primitive(&GNode::String("s".to_string())), GNode::String(s) if s == "s"));
    assert!(
        matches!(clone_primitive(&GNode::Number(num(-7))), GNode::Number(n) if n.as_i64() == Some(-7))
    );
}

#[test]
fn members_are_found_by_key() {
    let mut g = new_object();
    let a = g.add_null();
    let b = g.add_null();
    assert!(g.insert(0, "k".to_string(), a));
    assert!(g.insert(0, "#".to_string(), b));
    match g.node(0) {
        Some(GNode::Object(o)) => {
            assert_eq!(o.get("k"), Some(a));
            assert_eq!(o.get("#"), Some(b));
            assert_eq!(o.get("##"), None);
        }
        _ => panic!("not an object"),
    }
    assert!(g.node(3).is_none());
}

#[test]
fn shared_empty_object_reads_as_a_reference() {
    let mut g = new_object();
    let e = g.add_object();
    assert!(g.insert(0, "a".to_string(), e));
    assert!(g.insert(0, "b".to_string(), e));
    let text = dumps(&g).unwrap();
    assert_eq!(text, r##"{"a":{"#":1},"b":{"#":1}}"##);
    assert_eq!(loads(&text).err(), Some(CodecError::UnknownRef));
}

#[test]
fn array_that_begins_with_a_reference_reads_as_marked() {
    let mut g = new_array();
    let l = g.add_object();
    let one = g.add_number(num(1));
    assert!(g.insert(l, "a".to_string(), one));
    let inner = g.add_array();
    let seven = g.add_number(num(7));
    assert!(g.push(inner, l));
    assert!(g.push(inner, seven));
    assert!(g.push(0, l));
    assert!(g.push(0, inner));
    let text = dumps(&g).unwrap();
    assert_eq!(text, r##"[{"#":1,"a":1},[{"#":1},7]]"##);
    assert_eq!(loads(&text).err(), Some(CodecError::DuplicateRef));
}

#[test]
fn key_order_may_put_a_reference_before_its_definition() {
    let mut g = new_object();
    let l = g.add_object();
    let one = g.add_number(num(1));
    assert!(g.insert(l, "a".to_string(), one));
    assert!(g.insert(0, "#".to_string(), l));
    assert!(g.insert(0, "#!".to_string(), l));
    let text = dumps(&g).unwrap();
    assert_eq!(text, r###"{"#!":{"#":1},"##":{"#":1,"a":1}}"###);
    let back = loads(&text).unwrap();
    let first = member(&back, back.root(), "#");
    let second = member(&back, back.root(), "#!");
    assert_eq!(first, second);
    assert_eq!(keys_of(&back, first), vec!["a".to_string()]);
}
