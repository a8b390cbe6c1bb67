use graph_json::{inflate, parse, to_json, GArray, GNode, GObject, GraphValue, JsonValue};

fn resolve(graph: &GraphValue, pointer: &str) -> usize {
    let mut cur = graph.root();
    if pointer != "/" {
        for part in pointer.trim_start_matches('/').split('/') {
            let part = part.replace("~1", "/").replace("~0", "~");
            cur = match graph.node(cur).unwrap() {
                GNode::Array(GArray(items)) => {
                    let idx: usize = part.parse().unwrap();
                    items[idx]
                }
                GNode::Object(GObject(members)) => {
                    members.iter().find(|(k, _)| *k == part).unwrap().1
                }
                _ => panic!("not container"),
            };
        }
    }
    cur
}

fn has_key(value: &JsonValue, key: &str) -> bool {
    match value {
        JsonValue::Object(members) => members.iter().any(|(k, _)| k == key),
        _ => false,
    }
}

fn correct_case(name: &str, doc: &str, aliases: &[&[&str]], expect_keys: &[(&str, &[&str])]) {
    let doc = parse(doc).unwrap();
    let mut obj = inflate(&doc).unwrap();
    for group in aliases {
        let mut iter = group.iter();
        let first = resolve(&obj, iter.next().unwrap());
        for p in iter {
            let target = resolve(&obj, p);
            assert!(first == target, "alias mismatch in {}", name);
        }
    }
    for (path, keys) in expect_keys {
        let target = resolve(&obj, path);
        assert!(obj.set_root(target));
        let json = to_json(&obj);
        for k in keys.iter() {
            assert!(has_key(&json, k), "missing key {} in {}", k, name);
        }
    }
}

#[test]
fn test_correct_cases() {
    correct_case(
        "shared-object",
        r##"{"x": {"#": 1, "a": 1}, "y": {"#": 1}}"##,
        &[&["/x", "/y"]],
        &[("/x", &["a"])],
    );
    correct_case(
        "self-cycle",
        r##"{"#": 1, "self": {"#": 1}}"##,
        &[&["/", "/self", "/self/self"]],
        &[],
    );
    correct_case(
        "forward-reference",
        r##"{"a": {"#": 1}, "b": {"#": 1, "v": 2}}"##,
        &[&["/a", "/b"]],
        &[("/a", &["v"])],
    );
    correct_case(
        "shared-array",
        r##"[[{"#": 1}, 5, 6], {"#": 1}]"##,
        &[&["/0", "/1"]],
        &[],
    );
    correct_case(
        "array-cycle",
        r##"[{"#": 1}, {"#": 1}, [{"#": 1}]]"##,
        &[&["/", "/0", "/1", "/0/0"]],
        &[],
    );
    correct_case(
        "escaped-keys",
        r####"{"##": {"k": 1}, "###": {"k": 2}, "a#": {"k": 3}}"####,
        &[],
        &[("/", &["#", "##", "a#"]), ("/#", &["k"])],
    );
    correct_case(
        "two-ids",
        r##"{"p": {"#": 2, "q": {"#": 1, "r": {"#": 2}}}, "s": {"#": 1}}"##,
        &[&["/p", "/p/q/r"], &["/p/q", "/s"]],
        &[],
    );
    correct_case("plain", r##"{"a": [1, 2.5, "x", null, true], "b": {}}"##, &[], &[("/", &["a", "b"])]);
}

#[test]
fn test_invalid_cases() {
    let mut cases: Vec<(&str, String)> = vec![
        ("unknown-ref", r##"{"#": 5}"##.to_string()),
        ("unknown-nested", r##"{"a": {"#": 1, "b": {"#": 2}}}"##.to_string()),
        ("duplicate-owner", r##"{"#": 1, "child": {"#": 1, "v": 0}}"##.to_string()),
        ("zero-id", r##"{"a": {"#": 0, "v": 1}}"##.to_string()),
        ("negative-id", r##"{"#": -1}"##.to_string()),
        ("float-id", r##"{"#": 1.0}"##.to_string()),
        ("string-id", r##"{"#": "1"}"##.to_string()),
        ("huge-id", r##"{"#": 2147483648}"##.to_string()),
        ("array-ref-with-content", r##"[[{"#": 1}, 1], [{"#": 1}, 2]]"##.to_string()),
        ("array-after-placeholder", r##"[{"a": {"#": 1}}, [{"#": 1}, 2]]"##.to_string()),
    ];
    let ref_with_extras = r##"{"first": {"#": 3, "v": 1}}"##;
    let with_owner = format!(
        "{}, \"owner\": {{\"#\": {}, \"v\": 0}}}}",
        &ref_with_extras[..ref_with_extras.len() - 1],
        3
    );
    cases.push(("ref-with-extras", with_owner));
    for (name, text) in cases {
        let doc = parse(&text).unwrap();
        assert!(inflate(&doc).is_err(), "invalid case {} succeeded", name);
    }
}
