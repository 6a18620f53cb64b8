//! Slicing a JSON document along a response path.
//!
//! A response path is a list of segments. A segment is a field name, or the
//! wildcard `@`, which stands for every element of the array at that point.
use crate::json::{Json, JsonValue};
use vstd::prelude::*;
use vstd::string::StrSliceExecFns;

verus! {

/// The wildcard segment.
pub open spec fn wildcard() -> Seq<char> {
    seq!['@']
}

/// The segments of a path, as values.
pub open spec fn path_keys(path: Seq<String>) -> Seq<Seq<char>> {
    Seq::new(path.len(), |i: int| path[i]@)
}

/// The values of a list of documents.
pub open spec fn values_of(items: Seq<Json>) -> Seq<JsonValue> {
    Seq::new(items.len(), |i: int| items[i]@)
}

/// The elements of an array, or the value itself where it is no array.
pub open spec fn spliced(value: JsonValue) -> Seq<JsonValue> {
    match value {
        JsonValue::Array(items) => items,
        _ => seq![value],
    }
}

/// The part of `value` that `path` selects, or `None` where the path puts a
/// wildcard on something that is no array.
///
/// The empty path selects the value. A field name selects inside the field
/// of that name, and null where there is no such field. A wildcard selects
/// inside every element of an array and lays the results out in one array,
/// one level deep: a result that is itself an array gives its elements.
pub open spec fn sliced(value: JsonValue, path: Seq<Seq<char>>) -> Option<JsonValue>
    decreases path.len(), 0nat,
{
    if path.len() == 0 {
        Some(value)
    } else if path[0] == wildcard() {
        match value {
            JsonValue::Array(items) => match sliced_each(items, path.drop_first()) {
                Some(parts) => Some(JsonValue::Array(parts)),
                None => None,
            },
            _ => None,
        }
    } else {
        match value.member(path[0]) {
            Some(inner) => sliced(inner, path.drop_first()),
            None => Some(JsonValue::Null),
        }
    }
}

/// What `path` selects in each of `items`, spliced together in order.
pub open spec fn sliced_each(items: Seq<JsonValue>, path: Seq<Seq<char>>) -> Option<
    Seq<JsonValue>,
>
    decreases path.len(), items.len() + 1,
{
    if items.len() == 0 {
        Some(Seq::empty())
    } else {
        match (sliced_each(items.drop_last(), path), sliced(items.last(), path)) {
            (Some(front), Some(last)) => Some(front + spliced(last)),
            _ => None,
        }
    }
}

/// Whether `segment` is the wildcard.
pub fn is_wildcard(segment: &String) -> (b: bool)
    ensures
        b == (segment@ == wildcard()),
{
    let text = segment.as_str();
    if text.unicode_len() == 1 {
        let c = text.get_char(0);
        assert(c == '@' ==> segment@ =~= wildcard());
        c == '@'
    } else {
        false
    }
}

/// The part of `value` that the segments of `path` from `from` on select,
/// or `None` where they put a wildcard on something that is no array.
fn slice_from(value: &Json, path: &[String], from: usize) -> (slice: Option<Json>)
    requires
        from <= path@.len(),
    ensures
        match slice {
            Some(part) => sliced(value@, path_keys(path@.skip(from as int))) == Some(part@),
            None => sliced(value@, path_keys(path@.skip(from as int))) is None,
        },
    decreases path@.len() - from,
{
    let ghost keys = path_keys(path@.skip(from as int));
    if from == path.len() {
        return Some(value.clone());
    }
    let ghost rest = path_keys(path@.skip(from + 1));
    assert(path@.len() == path.len());
    proof {
        assert(keys[0] == path@[from as int]@);
        assert(keys.drop_first() =~= rest);
    }
    if is_wildcard(&path[from]) {
        match value {
            Json::Array(items) => {
                let ghost elements = value@->Array_0;
                let mut parts: Vec<Json> = Vec::new();
                let mut i: usize = 0;
                while i < items.len()
                    invariant
                        i <= items@.len(),
                        from < path@.len() <= usize::MAX,
                        keys == path_keys(path@.skip(from as int)),
                        keys.len() > 0 && keys[0] == wildcard() && keys.drop_first() == rest,
                        rest == path_keys(path@.skip(from + 1)),
                        value@ == JsonValue::Array(elements),
                        elements.len() == items@.len(),
                        forall|j: int| 0 <= j < items@.len() ==> elements[j] == (#[trigger] items@[j])@,
                        sliced_each(elements.take(i as int), rest) == Some(values_of(parts@)),
                    decreases items@.len() - i,
                {
                    proof {
                        assert(elements.take(i + 1).drop_last() =~= elements.take(i as int));
                        assert(elements.take(i + 1).last() == items@[i as int]@);
                    }
                    match slice_from(&items[i], path, from + 1) {
                        Some(Json::Array(inner)) => {
                            let ghost before = parts@;
                            let ghost added = inner@;
                            let mut inner = inner;
                            assert(values_of(added) =~= Json::Array(inner)@->Array_0);
                            parts.append(&mut inner);
                            assert(values_of(parts@) =~= values_of(before) + values_of(added));
                        },
                        Some(part) => {
                            let ghost before = parts@;
                            parts.push(part);
                            assert(values_of(parts@) =~= values_of(before) + seq![part@]);
                        },
                        None => {
                            proof {
                                lemma_sliced_each_fails(elements, rest, i as int);
                            }
                            return None;
                        },
                    }
                    i += 1;
                }
                proof {
                    assert(elements.take(items@.len() as int) =~= elements);
                    assert(Json::Array(parts)@->Array_0 =~= values_of(parts@));
                }
                Some(Json::Array(parts))
            },
            _ => None,
        }
    } else {
        match value.get(&path[from]) {
            Some(inner) => slice_from(inner, path, from + 1),
            None => Some(Json::Null),
        }
    }
}

/// Where the path fails on one element it fails on the whole list.
proof fn lemma_sliced_each_fails(items: Seq<JsonValue>, path: Seq<Seq<char>>, at: int)
    requires
        0 <= at < items.len(),
        sliced(items[at], path) is None,
    ensures
        sliced_each(items, path) is None,
    decreases items.len(),
{
    if at < items.len() - 1 {
        assert(items.drop_last()[at] == items[at]);
        lemma_sliced_each_fails(items.drop_last(), path, at);
    }
}

/// Whether `path` can be followed through `value`: it puts no wildcard on
/// something that is no array.
pub open spec fn path_applies(value: JsonValue, path: Seq<Seq<char>>) -> bool {
    sliced(value, path) is Some
}

/// A copy of the part of `value` that `path` selects, or `None` where the
/// path cannot be followed.
pub fn checked_slice_at_path(value: &Json, path: &[String]) -> (slice: Option<Json>)
    ensures
        match slice {
            Some(part) => sliced(value@, path_keys(path@)) == Some(part@),
            None => !path_applies(value@, path_keys(path@)),
        },
{
    assert(path@.skip(0) =~= path@);
    slice_from(value, path, 0)
}

/// A copy of the part of `value` that `path` selects.
pub fn slice_and_clone_at_path(value: &Json, path: &[String]) -> (slice: Json)
    requires
        path_applies(value@, path_keys(path@)),
    ensures
        Some(slice@) == sliced(value@, path_keys(path@)),
{
    match checked_slice_at_path(value, path) {
        Some(part) => part,
        None => Json::Null,
    }
}

} // verus!
