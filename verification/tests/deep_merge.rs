use stargate::deep_merge::deep_merge;
use stargate::json::{Json, JsonNumber, JsonObject};

fn from_serde(value: &serde_json::Value) -> Json {
    match value {
        serde_json::Value::Null => Json::Null,
        serde_json::Value::Bool(b) => Json::Bool(*b),
        serde_json::Value::Number(n) => {
            if let Some(u) = n.as_u64() {
                Json::Number(JsonNumber::PosInt(u))
            } else if let Some(i) = n.as_i64() {
                Json::Number(JsonNumber::NegInt(i))
            } else {
                Json::Number(JsonNumber::Float(n.as_f64().unwrap().to_bits()))
            }
        }
        serde_json::Value::String(s) => Json::String(s.clone()),
        serde_json::Value::Array(items) => Json::Array(items.iter().map(from_serde).collect()),
        serde_json::Value::Object(entries) => {
            let mut object = JsonObject::new();
            for (key, value) in entries {
                object.insert(key.clone(), from_serde(value));
            }
            Json::Object(object)
        }
    }
}

fn to_serde(value: &Json) -> serde_json::Value {
    match value {
        Json::Null => serde_json::Value::Null,
        Json::Bool(b) => serde_json::Value::Bool(*b),
        Json::Number(JsonNumber::PosInt(u)) => serde_json::Value::from(*u),
        Json::Number(JsonNumber::NegInt(i)) => serde_json::Value::from(*i),
        Json::Number(JsonNumber::Float(bits)) => serde_json::Value::from(f64::from_bits(*bits)),
        Json::String(s) => serde_json::Value::String(s.clone()),
        Json::Array(items) => serde_json::Value::Array(items.iter().map(to_serde).collect()),
        Json::Object(object) => {
            let mut entries = serde_json::Map::new();
            for member in object.members() {
                entries.insert(member.key.clone(), to_serde(&member.value));
            }
            serde_json::Value::Object(entries)
        }
    }
}

fn json(text: &str) -> Json {
    from_serde(&serde_json::from_str::<serde_json::Value>(text).unwrap())
}

fn text(value: &Json) -> String {
    to_serde(value).to_string()
}

#[test]
fn it_should_merge_objects() {
    let mut first = json(r#"{"value1":"a","value2":"b"}"#);
    let second = json(r#"{"value1":"a","value2":"c","value3":"d"}"#);

    deep_merge(&mut first, second);

    assert_eq!(r#"{"value1":"a","value2":"c","value3":"d"}"#, text(&first));
}

#[test]
fn it_should_merge_objects_in_arrays() {
    let mut first = json(r#"[{"value":"a","value2":"a+"},{"value":"b"}]"#);
    let second = json(r#"[{"value":"b"},{"value":"c"}]"#);

    deep_merge(&mut first, second);
    assert_eq!(r#"[{"value":"b","value2":"a+"},{"value":"c"}]"#, text(&first));
}

#[test]
fn it_should_merge_nested_objects() {
    let mut first = json(r#"{"a":1,"b":{"someProperty":1,"overwrittenProperty":"clean"}}"#);
    let second = json(r#"{"b":{"overwrittenProperty":"dirty","newProperty":"new"},"c":4}"#);

    deep_merge(&mut first, second);

    assert_eq!(
        json(
            r#"{"a":1,"b":{"someProperty":1,"overwrittenProperty":"dirty","newProperty":"new"},"c":4}"#
        ),
        first
    );
}

#[test]
fn it_should_merge_nested_objects_in_arrays() {
    let mut first = json(r#"{"a":1,"b":[{"c":1,"d":2}]}"#);

    let second = json(r#"{"e":2,"b":[{"f":3}]}"#);

    deep_merge(&mut first, second);

    assert_eq!(r#"{"a":1,"b":[{"c":1,"d":2,"f":3}],"e":2}"#, text(&first));
}

#[test]
fn merging_null_changes_nothing() {
    let mut target = json(r#"{"a":[1,2]}"#);
    deep_merge(&mut target, Json::Null);
    assert_eq!(r#"{"a":[1,2]}"#, text(&target));
}

#[test]
fn merging_an_equal_value_changes_nothing() {
    let mut target = json(r#"{"a":[1,{"b":null}],"c":"d"}"#);
    deep_merge(&mut target, json(r#"{"c":"d","a":[1,{"b":null}]}"#));
    assert_eq!(r#"{"a":[1,{"b":null}],"c":"d"}"#, text(&target));
}

#[test]
fn merging_into_null_gives_the_source() {
    let mut target = Json::Null;
    deep_merge(&mut target, json(r#"{"x":1}"#));
    assert_eq!(r#"{"x":1}"#, text(&target));
}

#[test]
fn a_null_field_of_the_source_overwrites() {
    let mut target = json(r#"{"a":1,"b":2}"#);
    deep_merge(&mut target, json(r#"{"a":null}"#));
    assert_eq!(r#"{"a":null,"b":2}"#, text(&target));
}

#[test]
fn a_null_field_of_the_target_is_assigned() {
    let mut target = json(r#"{"a":null}"#);
    deep_merge(&mut target, json(r#"{"a":{"b":1}}"#));
    assert_eq!(r#"{"a":{"b":1}}"#, text(&target));
}

#[test]
fn a_scalar_gives_way_to_a_composite() {
    let mut target = json(r#"{"a":5}"#);
    deep_merge(&mut target, json(r#"{"a":[1]}"#));
    assert_eq!(r#"{"a":[1]}"#, text(&target));
}

#[test]
fn mismatched_types_give_the_source() {
    let mut target = json(r#"[1,2,3]"#);
    deep_merge(&mut target, json(r#"{"a":1}"#));
    assert_eq!(r#"{"a":1}"#, text(&target));
    let mut scalar = json("1");
    deep_merge(&mut scalar, json(r#""x""#));
    assert_eq!(r#""x""#, text(&scalar));
}

#[test]
fn the_longer_target_keeps_its_tail() {
    let mut target = json(r#"[{"a":1},{"a":2},{"a":3}]"#);
    deep_merge(&mut target, json(r#"[{"b":1}]"#));
    assert_eq!(r#"[{"a":1,"b":1},{"a":2},{"a":3}]"#, text(&target));
}

#[test]
fn the_longer_source_adds_its_tail() {
    let mut target = json(r#"[{"a":1}]"#);
    deep_merge(&mut target, json(r#"[{"b":1},{"b":2},3]"#));
    assert_eq!(r#"[{"a":1,"b":1},{"b":2},3]"#, text(&target));
}

#[test]
fn null_elements_of_the_source_leave_the_target_elements() {
    let mut target = json(r#"[1,2]"#);
    deep_merge(&mut target, json(r#"[null,3]"#));
    assert_eq!(r#"[1,3]"#, text(&target));
}

#[test]
fn merged_objects_have_the_keys_of_both() {
    let mut target = json(r#"{"a":1,"b":{"x":1}}"#);
    deep_merge(&mut target, json(r#"{"b":{"y":2},"c":null}"#));
    match &target {
        Json::Object(object) => {
            let mut keys: Vec<String> =
                object.members().iter().map(|member| member.key.clone()).collect();
            keys.sort();
            assert_eq!(keys, vec!["a".to_string(), "b".to_string(), "c".to_string()]);
        }
        _ => panic!("an object was expected"),
    }
}

#[test]
fn arrays_of_equal_length_merge_position_by_position() {
    let mut target = json(r#"[{"a":1},5,null]"#);
    deep_merge(&mut target, json(r#"[{"a":2},null,"z"]"#));
    assert_eq!(r#"[{"a":2},5,"z"]"#, text(&target));
}

#[test]
fn numbers_are_equal_by_value() {
    assert_eq!(json("5"), Json::Number(JsonNumber::PosInt(5)));
    assert_eq!(json("-5"), Json::Number(JsonNumber::NegInt(-5)));
    assert_ne!(json("1"), json("1.0"));
    assert_eq!(json("1.5"), json("1.5"));
    assert_eq!(Json::Number(JsonNumber::NegInt(7)), Json::Number(JsonNumber::PosInt(7)));
}

#[test]
fn objects_are_equal_whatever_the_order_of_their_keys() {
    let mut one = JsonObject::new();
    one.insert("a".to_string(), Json::Bool(true));
    one.insert("b".to_string(), Json::Null);
    let mut other = JsonObject::new();
    other.insert("b".to_string(), Json::Null);
    other.insert("a".to_string(), Json::Bool(true));
    assert_eq!(Json::Object(one), Json::Object(other));
}

#[test]
fn insert_replaces_the_value_of_a_key() {
    let mut object = JsonObject::new();
    object.insert("a".to_string(), Json::Bool(true));
    object.insert("a".to_string(), Json::Bool(false));
    assert_eq!(object.len(), 1);
    assert_eq!(object.get(&"a".to_string()), Some(&Json::Bool(false)));
    assert!(object.get(&"b".to_string()).is_none());
    assert!(object.contains_key(&"a".to_string()));
}

#[test]
fn a_clone_is_equal_to_what_was_cloned() {
    let first = json(r#"{"a":[1,"x",{"b":null}],"c":-2.5}"#);
    let copy = first.clone();
    assert_eq!(copy, first);
    assert_eq!(text(&copy), r#"{"a":[1,"x",{"b":null}],"c":-2.5}"#);
}

#[test]
fn take_leaves_null() {
    let mut value = json(r#"[1]"#);
    let taken = value.take();
    assert!(value.is_null());
    assert!(taken.is_array());
    assert!(!taken.is_object());
}
