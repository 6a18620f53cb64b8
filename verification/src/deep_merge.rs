//! Merging one JSON document into another.
//!
//! Objects merge key by key and arrays merge position by position; where the
//! two sides cannot be combined the source replaces the target.
use crate::json::{
    distinct_keys, find_key, has_key, lemma_members_push, lemma_members_update,
    lemma_members_value, members_value, Json, JsonObject, JsonValue, Member,
};
use vstd::prelude::*;

verus! {

/// What an object holds under one key after `source` was merged under it.
/// `target` is what it held before, if it had the key.
pub open spec fn merged_entry(target: Option<JsonValue>, source: JsonValue) -> JsonValue
    decreases source, 1nat,
{
    match target {
        None => source,
        Some(held) => if held is Null || !source.is_composite() {
            source
        } else {
            merged(held, source)
        },
    }
}

/// The result of merging `source` into `target`.
///
/// A null source changes nothing, and neither does a source equal to the
/// target. Two objects give the object with the keys of both, each key of
/// the source merged under its key. Two arrays are merged position by
/// position, and the longer one keeps its tail. Anything else gives the
/// source.
pub open spec fn merged(target: JsonValue, source: JsonValue) -> JsonValue
    decreases source, 0nat,
{
    if source is Null || target == source {
        target
    } else {
        match (target, source) {
            (JsonValue::Object(held), JsonValue::Object(added)) => JsonValue::Object(
                Map::new(
                    |k: Seq<char>| held.contains_key(k) || added.contains_key(k),
                    |k: Seq<char>|
                        if added.contains_key(k) {
                            merged_entry(
                                if held.contains_key(k) {
                                    Some(held[k])
                                } else {
                                    None
                                },
                                added[k],
                            )
                        } else {
                            held[k]
                        },
                ),
            ),
            (JsonValue::Array(held), JsonValue::Array(added)) => JsonValue::Array(
                Seq::new(
                    if held.len() >= added.len() {
                        held.len()
                    } else {
                        added.len()
                    },
                    |i: int|
                        if 0 <= i < held.len() && i < added.len() {
                            merged(held[i], added[i])
                        } else if 0 <= i < held.len() {
                            held[i]
                        } else {
                            added[i]
                        },
                ),
            ),
            _ => source,
        }
    }
}

/// The map that `merged` gives for two objects that differ.
pub open spec fn merged_maps(
    held: Map<Seq<char>, JsonValue>,
    added: Map<Seq<char>, JsonValue>,
) -> Map<Seq<char>, JsonValue> {
    Map::new(
        |k: Seq<char>| held.contains_key(k) || added.contains_key(k),
        |k: Seq<char>|
            if added.contains_key(k) {
                merged_entry(
                    if held.contains_key(k) {
                        Some(held[k])
                    } else {
                        None
                    },
                    added[k],
                )
            } else {
                held[k]
            },
    )
}

/// Merging an object into an object gives an object whose keys are the keys
/// of the two: none is lost and none is invented.
pub proof fn merged_objects_have_the_keys_of_both(target: JsonValue, source: JsonValue)
    requires
        target is Object,
        source is Object,
    ensures
        merged(target, source) is Object,
        merged(target, source)->Object_0.dom() == target->Object_0.dom().union(
            source->Object_0.dom(),
        ),
{
    assert(merged(target, source)->Object_0.dom() =~= target->Object_0.dom().union(
        source->Object_0.dom(),
    ));
}

/// Merging an array into an array works position by position: the result is
/// as long as the longer of the two, a position that both have holds the
/// merge of their two elements there, and a position that only one has
/// holds that one's element. For arrays of equal length, then, element `i`
/// of the result depends on nothing but element `i` of either side.
pub proof fn merged_arrays_go_by_position(target: JsonValue, source: JsonValue, i: int)
    requires
        target is Array,
        source is Array,
        0 <= i,
        i < target->Array_0.len() || i < source->Array_0.len(),
    ensures
        merged(target, source) is Array,
        merged(target, source)->Array_0.len() == if target->Array_0.len() >= source->Array_0.len() {
            target->Array_0.len()
        } else {
            source->Array_0.len()
        },
        merged(target, source)->Array_0[i] == if i < target->Array_0.len() && i
            < source->Array_0.len() {
            merged(target->Array_0[i], source->Array_0[i])
        } else if i < target->Array_0.len() {
            target->Array_0[i]
        } else {
            source->Array_0[i]
        },
{
}

/// A field of the source that holds a scalar, neither null nor composite,
/// holds that scalar after the merge, whatever the target was.
pub proof fn merged_takes_the_scalars_of_the_source(
    target: JsonValue,
    source: JsonValue,
    key: Seq<char>,
)
    requires
        source.member(key) is Some,
        !(source.member(key)->0 is Null),
        !source.member(key)->0.is_composite(),
    ensures
        merged(target, source).member(key) == source.member(key),
{
    if target != source && target is Object {
        let held = target->Object_0;
        let added = source->Object_0;
        let mine = if held.contains_key(key) {
            Some(held[key])
        } else {
            None
        };
        assert(merged_entry(mine, added[key]) == added[key]);
        assert(merged(target, source)->Object_0[key] == merged_entry(mine, added[key]));
    }
}

/// Merging an object into an object gives the object of `merged_maps`,
/// also where the two are equal.
proof fn lemma_merged_objects(target: JsonValue, source: JsonValue)
    requires
        target is Object,
        source is Object,
    ensures
        merged(target, source) == JsonValue::Object(
            merged_maps(target->Object_0, source->Object_0),
        ),
{
    let held = target->Object_0;
    let added = source->Object_0;
    if target == source {
        assert forall|k: Seq<char>| held.contains_key(k) implies #[trigger] merged_maps(
            held,
            added,
        )[k] == held[k] by {
            assert(merged_entry(Some(held[k]), held[k]) == held[k]);
        }
        assert(merged_maps(held, added) =~= held);
    } else {
        assert(merged(target, source)->Object_0 =~= merged_maps(held, added));
    }
}

/// The order in which two answers come in does not matter where they speak
/// of different fields: merging two objects that share no key into a
/// target that is null or an object gives the same whichever goes first.
pub proof fn merges_of_separate_fields_commute(
    target: JsonValue,
    first: JsonValue,
    second: JsonValue,
)
    requires
        target is Null || target is Object,
        first is Object,
        second is Object,
        first->Object_0.dom().disjoint(second->Object_0.dom()),
    ensures
        merged(merged(target, first), second) == merged(merged(target, second), first),
{
    let one = first->Object_0;
    let two = second->Object_0;
    if target is Null {
        lemma_merged_objects(first, second);
        lemma_merged_objects(second, first);
        assert forall|k: Seq<char>| #[trigger]
            merged_maps(one, two).contains_key(k) implies merged_maps(one, two)[k] == merged_maps(
            two,
            one,
        )[k] by {
            if two.contains_key(k) {
                assert(!one.contains_key(k));
                assert(merged_entry(None, two[k]) == two[k]);
            } else {
                assert(merged_entry(None, one[k]) == one[k]);
            }
        }
        assert(merged_maps(one, two) =~= merged_maps(two, one));
    } else {
        let held = target->Object_0;
        lemma_merged_objects(target, first);
        lemma_merged_objects(target, second);
        let with_one = merged_maps(held, one);
        let with_two = merged_maps(held, two);
        lemma_merged_objects(JsonValue::Object(with_one), second);
        lemma_merged_objects(JsonValue::Object(with_two), first);
        assert forall|k: Seq<char>| #[trigger]
            merged_maps(with_one, two).contains_key(k) implies merged_maps(with_one, two)[k]
            == merged_maps(with_two, one)[k] by {
            if two.contains_key(k) {
                assert(!one.contains_key(k));
                assert(with_one.contains_key(k) == held.contains_key(k));
                if held.contains_key(k) {
                    assert(with_one[k] == held[k]);
                }
            } else if one.contains_key(k) {
                assert(with_two.contains_key(k) == held.contains_key(k));
                if held.contains_key(k) {
                    assert(with_two[k] == held[k]);
                }
            }
        }
        assert(merged_maps(with_one, two) =~= merged_maps(with_two, one));
    }
}

/// Merging one more entry into an object: what `merged_maps` gives once
/// `key` is added to the source is what it gave before, with `key` merged.
proof fn lemma_merged_maps_insert(
    held: Map<Seq<char>, JsonValue>,
    added: Map<Seq<char>, JsonValue>,
    key: Seq<char>,
    value: JsonValue,
)
    requires
        !added.contains_key(key),
    ensures
        merged_maps(held, added.insert(key, value)) == merged_maps(held, added).insert(
            key,
            merged_entry(
                if merged_maps(held, added).contains_key(key) {
                    Some(merged_maps(held, added)[key])
                } else {
                    None
                },
                value,
            ),
        ),
{
    assert(merged_maps(held, added.insert(key, value)) =~= merged_maps(held, added).insert(
        key,
        merged_entry(
            if merged_maps(held, added).contains_key(key) {
                Some(merged_maps(held, added)[key])
            } else {
                None
            },
            value,
        ),
    ));
}

/// Merges `source` into `target`.
pub fn deep_merge(target: &mut Json, source: Json)
    ensures
        final(target)@ == merged(old(target)@, source@),
    decreases source,
{
    if source.is_null() || target.same(&source) {
        return ;
    }
    let ghost before = target@;
    match source {
        Json::Object(added) => {
            match target.take() {
                Json::Object(held) => {
                    let ghost held_map = held@;
                    let ghost added_map = added@;
                    let mut members = held.into_members();
                    let additions = added.into_members();
                    let ghost entries = additions@;
                    proof {
                        assert(entries.take(0) =~= Seq::<Member>::empty());
                        assert(merged_maps(held_map, Map::empty()) =~= held_map);
                    }
                    for entry in it: additions
                        invariant
                            it.seq() == entries,
                            distinct_keys(entries),
                            distinct_keys(members@),
                            source is Object && source->Object_0 == added,
                            forall|i: int|
                                0 <= i < entries.len() ==> decreases_to!(added => #[trigger] entries[i]),
                            members_value(members@) == merged_maps(
                                held_map,
                                members_value(entries.take(it.index() as int)),
                            ),
                    {
                        let ghost n = it.index() as int;
                        let ghost done = members_value(entries.take(n));
                        let ghost current = members_value(members@);
                        proof {
                            assert(entries.take(n + 1).drop_last() =~= entries.take(n));
                            assert(entries.take(n + 1).last() == entries[n]);
                            lemma_members_value(entries.take(n));
                            if has_key(entries.take(n), entry.key@) {
                                let j = choose|j: int|
                                    0 <= j < n && (#[trigger] entries.take(n)[j]).key@ == entry.key@;
                                assert(entries[j].key@ == entries[n].key@);
                            }
                            lemma_merged_maps_insert(held_map, done, entry.key@, entry.value@);
                            lemma_members_value(members@);
                            assert(decreases_to!(added => entries[n]));
                        }
                        let Member { key, value } = entry;
                        let ghost old_members = members@;
                        let ghost held_here = if current.contains_key(key@) {
                            Some(current[key@])
                        } else {
                            None
                        };
                        match find_key(&members, &key) {
                            Some(p) => {
                                assert(has_key(old_members, key@));
                                assert(current[old_members[p as int].key@] == old_members[p as int].value@);
                                if !members[p].value.is_null() && (value.is_object()
                                    || value.is_array()) {
                                    deep_merge(&mut members[p].value, value);
                                } else {
                                    members[p].value = value;
                                }
                                proof {
                                    assert(members@ =~= old_members.update(
                                        p as int,
                                        members@[p as int],
                                    ));
                                    assert(members@[p as int].key == old_members[p as int].key);
                                    assert(members@[p as int].value@ == merged_entry(
                                        held_here,
                                        value@,
                                    ));
                                    lemma_members_update(
                                        old_members,
                                        p as int,
                                        members@[p as int],
                                    );
                                }
                            },
                            None => {
                                proof {
                                    lemma_members_push(old_members, Member { key, value });
                                }
                                members.push(Member { key, value });
                            },
                        }
                        assert(members_value(members@) == current.insert(
                            key@,
                            merged_entry(held_here, value@),
                        ));
                        assert(members_value(entries.take(n + 1)) == done.insert(key@, value@));
                    }
                    proof {
                        assert(entries.take(entries.len() as int) =~= entries);
                        assert(merged(before, source@)->Object_0 =~= merged_maps(
                            held_map,
                            added_map,
                        ));
                    }
                    *target = Json::Object(JsonObject::from_members(members));
                },
                _ => {
                    *target = Json::Object(added);
                },
            }
        },
        Json::Array(added) => {
            match target.take() {
                Json::Array(held) => {
                    let mut held = held;
                    let ghost held_items = held@;
                    let ghost added_items = added@;
                    let mut i: usize = 0;
                    assert(added_items.len() == added.len());
                    for item in it: added
                        invariant
                            it.seq() == added_items,
                            i == it.index(),
                            added_items.len() <= usize::MAX,
                            source is Array && source->Array_0 == added,
                            held@.len() == if held_items.len() >= i {
                                held_items.len()
                            } else {
                                i as nat
                            },
                            forall|j: int|
                                0 <= j < held@.len() ==> (#[trigger] held@[j])@ == if j < i && j
                                    < held_items.len() {
                                    merged(held_items[j]@, added_items[j]@)
                                } else if j < held_items.len() {
                                    held_items[j]@
                                } else {
                                    added_items[j]@
                                },
                    {
                        if i < held.len() {
                            deep_merge(&mut held[i], item);
                        } else {
                            held.push(item);
                        }
                        i += 1;
                    }
                    *target = Json::Array(held);
                    proof {
                        assert(target@->Array_0 =~= merged(before, source@)->Array_0);
                    }
                },
                _ => {
                    *target = Json::Array(added);
                },
            }
        },
        other => {
            *target = other;
        },
    }
}

} // verus!
