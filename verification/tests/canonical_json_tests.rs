use deep_space::canonical_json::{
    bytes_less, push_item, push_member, to_canonical_json, write_json, write_text, EncodeError,
    Json,
};
use serde_json::Value;

fn text(s: &str) -> Json {
    Json::Text(s.to_string())
}

fn object(members: Vec<(&str, Json)>) -> Json {
    Json::Object(members.into_iter().map(|(key, value)| (key.to_string(), value)).collect())
}

fn encoded(value: &Json) -> String {
    String::from_utf8(to_canonical_json(value).expect("no encoding")).expect("no text")
}

/// The same tree for the other encoder; `None` where the tree holds a blob.
fn mirror(value: &Json) -> Option<Value> {
    Some(match value {
        Json::Null => Value::Null,
        Json::Text(s) => Value::String(s.clone()),
        Json::List(items) => {
            let mut list = Vec::new();
            for item in items {
                list.push(mirror(item)?);
            }
            Value::Array(list)
        }
        Json::Object(members) => {
            let mut map = serde_json::Map::new();
            for (key, member) in members {
                map.insert(key.clone(), mirror(member)?);
            }
            Value::Object(map)
        }
        Json::Raw(_) => return None,
    })
}

#[test]
fn null_text_and_empty_collections() {
    assert_eq!(encoded(&Json::Null), "null");
    assert_eq!(encoded(&text("")), "\"\"");
    assert_eq!(encoded(&text("abc")), "\"abc\"");
    assert_eq!(encoded(&Json::List(vec![])), "[]");
    assert_eq!(encoded(&Json::Object(vec![])), "{}");
}

#[test]
fn lists_keep_their_order() {
    let list = Json::List(vec![text("b"), text("a"), Json::Null, text("c")]);
    assert_eq!(encoded(&list), "[\"b\",\"a\",null,\"c\"]");
    assert_eq!(encoded(&Json::List(vec![text("only")])), "[\"only\"]");
}

#[test]
fn members_are_written_by_ascending_key() {
    let value = object(vec![
        ("sequence", text("6")),
        ("msgs", Json::List(vec![])),
        ("memo", text("5")),
        ("fee", text("4")),
        ("chain_id", text("2")),
        ("account_number", text("1")),
    ]);
    assert_eq!(
        encoded(&value),
        "{\"account_number\":\"1\",\"chain_id\":\"2\",\"fee\":\"4\",\"memo\":\"5\",\"msgs\":[],\"sequence\":\"6\"}"
    );
    assert_eq!(encoded(&object(vec![("k", text("v"))])), "{\"k\":\"v\"}");
}

#[test]
fn keys_are_ordered_byte_by_byte() {
    let value = object(vec![
        ("b", text("1")),
        ("aa", text("2")),
        ("a", text("3")),
        ("", text("4")),
        ("B", text("5")),
        ("\u{e9}", text("6")),
        ("ab", text("7")),
        ("a\u{0}", text("8")),
        ("~", text("9")),
        ("\u{10000}", text("10")),
        ("\u{ffff}", text("11")),
    ]);
    assert_eq!(
        encoded(&value),
        "{\"\":\"4\",\"B\":\"5\",\"a\":\"3\",\"a\\u0000\":\"8\",\"aa\":\"2\",\"ab\":\"7\",\"b\":\"1\",\"~\":\"9\",\"\u{e9}\":\"6\",\"\u{ffff}\":\"11\",\"\u{10000}\":\"10\"}"
    );
}

#[test]
fn the_order_in_which_members_are_given_does_not_matter() {
    let keys = ["type", "value", "amount", "denom", "gas"];
    let mut orders: Vec<Vec<usize>> = Vec::new();
    // every order of five members
    let mut stack: Vec<Vec<usize>> = vec![vec![]];
    while let Some(partial) = stack.pop() {
        if partial.len() == keys.len() {
            orders.push(partial);
            continue;
        }
        for next in 0..keys.len() {
            if !partial.contains(&next) {
                let mut longer = partial.clone();
                longer.push(next);
                stack.push(longer);
            }
        }
    }
    assert_eq!(orders.len(), 120);
    let expected =
        "{\"amount\":\"v2\",\"denom\":\"v3\",\"gas\":\"v4\",\"type\":\"v0\",\"value\":\"v1\"}";
    for order in orders {
        let mut members: Vec<(String, Json)> = Vec::new();
        for index in order {
            members.push((keys[index].to_string(), Json::Text(format!("v{}", index))));
        }
        assert_eq!(encoded(&Json::Object(members)), expected);
    }
}

#[test]
fn nested_objects_are_ordered_at_every_level() {
    let first = object(vec![
        ("z", object(vec![("b", text("1")), ("a", Json::List(vec![object(vec![
            ("y", Json::Null),
            ("x", Json::Null),
        ])]))])),
        ("m", text("2")),
    ]);
    let second = object(vec![
        ("m", text("2")),
        ("z", object(vec![("a", Json::List(vec![object(vec![
            ("x", Json::Null),
            ("y", Json::Null),
        ])])), ("b", text("1"))])),
    ]);
    let expected = "{\"m\":\"2\",\"z\":{\"a\":[{\"x\":null,\"y\":null}],\"b\":\"1\"}}";
    assert_eq!(encoded(&first), expected);
    assert_eq!(encoded(&second), expected);
}

#[test]
fn strings_are_escaped() {
    assert_eq!(encoded(&text("\"")), "\"\\\"\"");
    assert_eq!(encoded(&text("\\")), "\"\\\\\"");
    assert_eq!(encoded(&text("\u{8}\u{c}\n\r\t")), "\"\\b\\f\\n\\r\\t\"");
    assert_eq!(encoded(&text("\u{0}\u{1}\u{b}\u{e}\u{1f}")), "\"\\u0000\\u0001\\u000b\\u000e\\u001f\"");
    assert_eq!(encoded(&text("\u{1a}\u{10}")), "\"\\u001a\\u0010\"");
    assert_eq!(encoded(&text(" /\u{7f}")), "\" /\u{7f}\"");
    assert_eq!(encoded(&text("h\u{e9}llo \u{4e16}\u{754c} \u{1f600}")), "\"h\u{e9}llo \u{4e16}\u{754c} \u{1f600}\"");
    assert_eq!(encoded(&object(vec![("a\"b\n", text("c"))])), "{\"a\\\"b\\n\":\"c\"}");
}

#[test]
fn every_ascii_character_is_escaped_as_the_other_encoder_does() {
    for code in 0u32..0x80 {
        let c = char::from_u32(code).unwrap();
        let s: String = [c, 'x', c].iter().collect();
        let expected = serde_json::to_string(&Value::String(s.clone())).unwrap();
        assert_eq!(encoded(&Json::Text(s)), expected, "character {}", code);
    }
}

#[test]
fn blobs_are_copied_as_they_are() {
    let blob = b"{\"b\":1, \"a\":\"\\n\"}".to_vec();
    let value = object(vec![("msgs", Json::List(vec![Json::Raw(blob.clone()), Json::Raw(b"7".to_vec())]))]);
    assert_eq!(encoded(&value), "{\"msgs\":[{\"b\":1, \"a\":\"\\n\"},7]}");
    assert_eq!(to_canonical_json(&Json::Raw(blob.clone())), Ok(blob));
    assert_eq!(to_canonical_json(&Json::Raw(Vec::new())), Ok(Vec::new()));
    assert_eq!(
        to_canonical_json(&Json::Raw("h\u{e9}\u{1f600}".as_bytes().to_vec())),
        Ok("h\u{e9}\u{1f600}".as_bytes().to_vec())
    );
}

#[test]
fn a_blob_that_is_not_utf8_has_no_encoding() {
    for bad in [vec![0xffu8], vec![b'a', 0x80], vec![0xc3], vec![0xed, 0xa0, 0x80], vec![0xc0, 0x80]] {
        assert_eq!(to_canonical_json(&Json::Raw(bad.clone())), Err(EncodeError::Unrepresentable));
        let nested = object(vec![("a", Json::List(vec![text("x"), Json::Raw(bad)]))]);
        assert_eq!(to_canonical_json(&nested), Err(EncodeError::Unrepresentable));
    }
}

#[test]
fn a_key_named_twice_has_no_encoding() {
    let twice = object(vec![("a", text("1")), ("b", text("2")), ("a", text("3"))]);
    assert_eq!(to_canonical_json(&twice), Err(EncodeError::Unrepresentable));
    let same_value = object(vec![("a", text("1")), ("a", text("1"))]);
    assert_eq!(to_canonical_json(&same_value), Err(EncodeError::Unrepresentable));
    let nested = Json::List(vec![object(vec![("k", object(vec![("", Json::Null), ("", Json::Null)]))])]);
    assert_eq!(to_canonical_json(&nested), Err(EncodeError::Unrepresentable));
    let distinct = object(vec![("a", text("1")), ("A", text("1")), ("a ", text("1"))]);
    assert_eq!(encoded(&distinct), "{\"A\":\"1\",\"a\":\"1\",\"a \":\"1\"}");
}

#[test]
fn write_json_appends() {
    let mut out = b"prefix".to_vec();
    assert_eq!(write_json(&Json::List(vec![Json::Null]), &mut out), Ok(()));
    assert_eq!(out, b"prefix[null]".to_vec());
    assert_eq!(write_json(&text("x"), &mut out), Ok(()));
    assert_eq!(out, b"prefix[null]\"x\"".to_vec());
    let mut out = Vec::new();
    write_text(b"a\"b", &mut out);
    write_text(b"", &mut out);
    assert_eq!(out, b"\"a\\\"b\"\"\"".to_vec());
}

#[test]
fn the_builders_add_at_the_end() {
    let mut members: Vec<(String, Json)> = Vec::new();
    push_member(&mut members, "b", Json::Null);
    push_member(&mut members, "a", text("x"));
    assert_eq!(members.len(), 2);
    assert_eq!(members[0].0, "b");
    assert_eq!(members[1].0, "a");
    let mut items: Vec<Json> = Vec::new();
    push_item(&mut items, text("1"));
    push_item(&mut items, Json::Object(members));
    assert_eq!(encoded(&Json::List(items)), "[\"1\",{\"a\":\"x\",\"b\":null}]");
}

#[test]
fn the_order_of_byte_strings() {
    assert!(bytes_less(b"", b"a"));
    assert!(!bytes_less(b"", b""));
    assert!(!bytes_less(b"a", b""));
    assert!(bytes_less(b"a", b"b"));
    assert!(!bytes_less(b"b", b"a"));
    assert!(!bytes_less(b"a", b"a"));
    assert!(bytes_less(b"a", b"aa"));
    assert!(!bytes_less(b"aa", b"a"));
    assert!(bytes_less(b"ab", b"b"));
    assert!(bytes_less(b"Z", b"a"));
    assert!(bytes_less(&[0x7f], &[0x80]));
    assert!(bytes_less(&[1, 2, 3], &[1, 2, 4]));
    assert!(!bytes_less(&[1, 2, 4], &[1, 2, 3]));
}

#[test]
fn random_trees_are_written_as_the_other_encoder_writes_them() {
    let mut state: u64 = 0x2545_f491_4f6c_dd1d;
    let mut next = move |bound: u64| -> u64 {
        state ^= state << 13;
        state ^= state >> 7;
        state ^= state << 17;
        state % bound
    };
    fn word(next: &mut dyn FnMut(u64) -> u64) -> String {
        let alphabet: Vec<char> =
            "ab\"\\\n\t\u{1} _AZ09\u{e9}\u{4e16}\u{1f600}/{}[]:,".chars().collect();
        let length = next(6) as usize;
        (0..length).map(|_| alphabet[next(alphabet.len() as u64) as usize]).collect()
    }
    fn tree(depth: u32, next: &mut dyn FnMut(u64) -> u64) -> Json {
        let kind = if depth == 0 { next(2) } else { next(4) };
        match kind {
            0 => Json::Null,
            1 => Json::Text(word(next)),
            2 => {
                let length = next(5);
                Json::List((0..length).map(|_| tree(depth - 1, next)).collect())
            }
            _ => {
                let length = next(6);
                let mut members: Vec<(String, Json)> = Vec::new();
                for _ in 0..length {
                    let key = word(next);
                    if members.iter().all(|(other, _)| *other != key) {
                        members.push((key, tree(depth - 1, next)));
                    }
                }
                Json::Object(members)
            }
        }
    }
    for _ in 0..300 {
        let value = tree(4, &mut next);
        let expected = serde_json::to_vec(&mirror(&value).unwrap()).unwrap();
        let bytes = to_canonical_json(&value).unwrap();
        assert_eq!(String::from_utf8(bytes.clone()).unwrap(), String::from_utf8(expected).unwrap());
        let parsed: Value = serde_json::from_slice(&bytes).unwrap();
        assert_eq!(parsed, mirror(&value).unwrap());
    }
}
