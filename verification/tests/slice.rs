use stargate::handle::{merge_at, JsonSliceValue, Step};
use stargate::json::{Json, JsonNumber, JsonObject};
use stargate::slice::{checked_slice_at_path, is_wildcard, slice_and_clone_at_path};

fn slice_from_serde(value: &serde_json::Value) -> Json {
    match value {
        serde_json::Value::Null => Json::Null,
        serde_json::Value::Bool(b) => Json::Bool(*b),
        serde_json::Value::Number(n) => {
            if let Some(u) = n.as_u64() {
                Json::Number(JsonNumber::PosInt(u))
            } else if let Some(i) = n.as_i64() {
                Json::Number(JsonNumber::NegInt(i))
            } else {
                Json::Number(JsonNumber::Float(n.as_f64().unwrap().to_bits()))
            }
        }
        serde_json::Value::String(s) => Json::String(s.clone()),
        serde_json::Value::Array(items) => Json::Array(items.iter().map(slice_from_serde).collect()),
        serde_json::Value::Object(entries) => {
            let mut object = JsonObject::new();
            for (key, value) in entries {
                object.insert(key.clone(), slice_from_serde(value));
            }
            Json::Object(object)
        }
    }
}

fn slice_to_serde(value: &Json) -> serde_json::Value {
    match value {
        Json::Null => serde_json::Value::Null,
        Json::Bool(b) => serde_json::Value::Bool(*b),
        Json::Number(JsonNumber::PosInt(u)) => serde_json::Value::from(*u),
        Json::Number(JsonNumber::NegInt(i)) => serde_json::Value::from(*i),
        Json::Number(JsonNumber::Float(bits)) => serde_json::Value::from(f64::from_bits(*bits)),
        Json::String(s) => serde_json::Value::String(s.clone()),
        Json::Array(items) => serde_json::Value::Array(items.iter().map(slice_to_serde).collect()),
        Json::Object(object) => {
            let mut entries = serde_json::Map::new();
            for member in object.members() {
                entries.insert(member.key.clone(), slice_to_serde(&member.value));
            }
            serde_json::Value::Object(entries)
        }
    }
}

fn value(text: &str) -> Json {
    slice_from_serde(&serde_json::from_str::<serde_json::Value>(text).unwrap())
}

fn shown(value: &Json) -> String {
    slice_to_serde(value).to_string()
}

fn path(segments: &[&str]) -> Vec<String> {
    segments.iter().map(|segment| segment.to_string()).collect()
}

/// What each handle of a flattened slice shows, as text; nothing shows as
/// `null`.
fn leaves(slices: &[JsonSliceValue<'_>]) -> Vec<String> {
    slices
        .iter()
        .map(|slice| match slice {
            JsonSliceValue::Value { value, .. } => shown(value),
            JsonSliceValue::Null => "null".to_string(),
            JsonSliceValue::Array(_) => panic!("a flattened slice holds no lists"),
        })
        .collect()
}

/// The leaves of a value: an array gives those of its elements.
fn leaves_of_value(value: &Json) -> Vec<String> {
    match value {
        Json::Array(items) => items.iter().flat_map(leaves_of_value).collect(),
        other => vec![shown(other)],
    }
}

const REVIEWS: &str = r#"{
    "me": {
        "__typename": "User",
        "id": "1",
        "reviews": [
            { "product": { "__typename": "Furniture" } },
            { "product": { "__typename": "Furniture" } },
            {
                "product": {
                    "__typename": "Book",
                    "isbn": "0201633612",
                    "similarBooks": [
                        {
                            "__typename": "Book",
                            "isbn": "0201633612",
                            "title": "DesignPatterns",
                            "year": 1995
                        },
                        {
                            "__typename": "Book",
                            "isbn": "0136291554",
                            "title": "ObjectOrientedSoftwareConstruction",
                            "year": 1997
                        }
                    ]
                }
            }
        ]
    }
}"#;

#[test]
fn test_slice_by_path() {
    let json = value(REVIEWS);
    let jsvm = JsonSliceValue::new(&json);
    let path: Vec<String> = vec!["me", "reviews", "@", "product", "similarBooks", "@"]
        .into_iter()
        .map(String::from)
        .collect();
    println!("{:?}", jsvm.slice_by_path(&path));
}

#[test]
fn slicing_reviews_finds_the_similar_books() {
    let json = value(REVIEWS);
    let path = path(&["me", "reviews", "@", "product", "similarBooks", "@"]);
    let slice = JsonSliceValue::new(&json).slice_by_path(&path);
    let found = leaves(&slice.flatten());
    assert_eq!(
        found,
        vec![
            "null".to_string(),
            "null".to_string(),
            r#"{"__typename":"Book","isbn":"0201633612","title":"DesignPatterns","year":1995}"#
                .to_string(),
            r#"{"__typename":"Book","isbn":"0136291554","title":"ObjectOrientedSoftwareConstruction","year":1997}"#
                .to_string(),
        ]
    );
    // Two furniture products have no similar books: the wildcard after the
    // missing field is never reached for them.
    let copy = slice_and_clone_at_path(&json, &path);
    assert_eq!(leaves_of_value(&copy), found);
}

#[test]
fn the_empty_path_selects_the_value() {
    let json = value(r#"{"a":[1,2]}"#);
    assert_eq!(shown(&slice_and_clone_at_path(&json, &[])), r#"{"a":[1,2]}"#);
}

#[test]
fn a_missing_field_selects_null() {
    let json = value(r#"{"a":{"b":1}}"#);
    assert_eq!(shown(&slice_and_clone_at_path(&json, &path(&["x", "y", "@"]))), "null");
    assert_eq!(shown(&slice_and_clone_at_path(&json, &path(&["a", "c"]))), "null");
    assert_eq!(shown(&slice_and_clone_at_path(&json, &path(&["a", "b", "c"]))), "null");
}

#[test]
fn a_field_selects_inside_the_field() {
    let json = value(r#"{"a":{"b":[1,"x"]}}"#);
    assert_eq!(shown(&slice_and_clone_at_path(&json, &path(&["a", "b"]))), r#"[1,"x"]"#);
}

#[test]
fn a_wildcard_selects_inside_every_element() {
    let json = value(r#"{"top":[{"n":1},{"n":2},{"m":3}]}"#);
    assert_eq!(
        shown(&slice_and_clone_at_path(&json, &path(&["top", "@", "n"]))),
        "[1,2,null]"
    );
}

#[test]
fn nested_wildcards_flatten_across_levels() {
    let json = value(r#"{"a":[{"b":[{"c":1},{"c":2}]},{"b":[]},{"b":[{"c":3}]}]}"#);
    assert_eq!(
        shown(&slice_and_clone_at_path(&json, &path(&["a", "@", "b", "@", "c"]))),
        "[1,2,3]"
    );
}

#[test]
fn a_wildcard_on_what_is_no_array_cannot_be_followed() {
    let json = value(r#"{"a":{"b":1},"n":null}"#);
    assert!(checked_slice_at_path(&json, &path(&["a", "@"])).is_none());
    assert!(checked_slice_at_path(&json, &path(&["n", "@"])).is_none());
    assert!(checked_slice_at_path(&json, &path(&["a", "b"])).is_some());
    assert!(JsonSliceValue::new(&json).checked_slice_by_path(&path(&["a", "@"])).is_none());
}

#[test]
fn a_field_name_on_a_list_cannot_be_followed_by_handles() {
    let json = value(r#"{"a":[{"b":1}]}"#);
    assert!(JsonSliceValue::new(&json).checked_slice_by_path(&path(&["a", "b"])).is_none());
    assert_eq!(shown(&checked_slice_at_path(&json, &path(&["a", "b"])).unwrap()), "null");
}

#[test]
fn only_the_at_sign_is_the_wildcard() {
    assert!(is_wildcard(&"@".to_string()));
    assert!(!is_wildcard(&"@@".to_string()));
    assert!(!is_wildcard(&"".to_string()));
    assert!(!is_wildcard(&"a".to_string()));
}

#[test]
fn the_two_ways_to_slice_agree() {
    let documents = [
        r#"{"top":[{"a":1},{"a":[2,3]},{"b":4}]}"#,
        r#"{"top":[[{"a":1}],[{"a":2},{"a":3}]]}"#,
        r#"{"top":{"a":{"b":[1,[2,[3]]]}}}"#,
        r#"[{"top":1},{"top":null}]"#,
    ];
    let paths: [&[&str]; 6] =
        [&[], &["top"], &["top", "@"], &["top", "@", "a"], &["top", "a", "b"], &["@", "top"]];
    let mut compared = 0;
    for text in documents.iter() {
        let json = value(text);
        for segments in paths.iter() {
            let path = path(segments);
            if let Some(slice) = JsonSliceValue::new(&json).checked_slice_by_path(&path) {
                let copy = checked_slice_at_path(&json, &path).unwrap();
                assert_eq!(leaves(&slice.flatten()), leaves_of_value(&copy));
                compared += 1;
            }
        }
    }
    assert!(compared >= 10);
}

#[test]
fn handles_remember_their_places() {
    let json = value(r#"{"top":[{"a":1},{"a":2}]}"#);
    let slice = JsonSliceValue::new(&json).slice_by_path(&path(&["top", "@"]));
    let leaves = slice.flatten();
    assert_eq!(leaves.len(), 2);
    match &leaves[1] {
        JsonSliceValue::Value { place, .. } => {
            assert_eq!(place.len(), 2);
            assert!(matches!(&place[0], Step::Key(key) if key == "top"));
            assert!(matches!(&place[1], Step::Index(1)));
        }
        _ => panic!("a handle was expected"),
    }
}

#[test]
fn get_mut_leads_into_a_field() {
    let json = value(r#"{"a":{"b":[1,2]}}"#);
    let inner = JsonSliceValue::new(&json).get_mut(&"a".to_string()).unwrap();
    let list = inner.get_mut(&"b".to_string()).unwrap();
    assert!(matches!(&list, JsonSliceValue::Array(items) if items.len() == 2));
    assert!(list.get_mut(&"c".to_string()).is_none());
    assert!(JsonSliceValue::new(&json).get_mut(&"x".to_string()).is_none());
}

#[test]
fn merge_at_writes_at_the_place() {
    let mut json = value(r#"{"top":[{"a":1},{"a":2}]}"#);
    let place = vec![Step::Key("top".to_string()), Step::Index(1)];
    merge_at(&mut json, &place, value(r#"{"b":3}"#));
    assert_eq!(shown(&json), r#"{"top":[{"a":1},{"a":2,"b":3}]}"#);
    merge_at(&mut json, &[], value(r#"{"c":4}"#));
    assert_eq!(shown(&json), r#"{"c":4,"top":[{"a":1},{"a":2,"b":3}]}"#);
}

#[test]
fn merge_at_a_place_that_is_not_there_changes_nothing() {
    let mut json = value(r#"{"top":[{"a":1}]}"#);
    merge_at(&mut json, &[Step::Key("top".to_string()), Step::Index(5)], value("1"));
    merge_at(&mut json, &[Step::Key("nope".to_string())], value("1"));
    merge_at(&mut json, &[Step::Index(0)], value("1"));
    assert_eq!(shown(&json), r#"{"top":[{"a":1}]}"#);
}
