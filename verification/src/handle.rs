//! Handles on the parts of a JSON document that a response path selects.
//!
//! A handle shows one value of the document and remembers its place: the
//! steps that lead to it from the root. A place stays good while the
//! document is changed elsewhere, so a list of handles says where to write
//! without holding the document.
use crate::deep_merge::{deep_merge, merged};
use crate::json::{
    find_key, lemma_members_update, lemma_members_value, Json, JsonObject, JsonValue,
};
use crate::slice::{is_wildcard, path_keys, sliced, sliced_each, spliced, wildcard};
use vstd::prelude::*;

verus! {

/// One step down into a document: into the field of an object, or to an
/// element of an array.
#[derive(Debug)]
pub enum Step {
    Key(String),
    Index(usize),
}

/// The value of a [`Step`].
pub enum StepValue {
    Key(Seq<char>),
    Index(int),
}

impl View for Step {
    type V = StepValue;

    open spec fn view(&self) -> StepValue {
        match self {
            Step::Key(key) => StepValue::Key(key@),
            Step::Index(index) => StepValue::Index(*index as int),
        }
    }
}

/// The steps of a place, as values.
pub open spec fn place_value(place: Seq<Step>) -> Seq<StepValue> {
    Seq::new(place.len(), |i: int| place[i]@)
}

/// The value that stands at `place` in `document`, if the steps can be
/// taken.
pub open spec fn resolved(document: JsonValue, place: Seq<StepValue>) -> Option<JsonValue>
    decreases place.len(),
{
    if place.len() == 0 {
        Some(document)
    } else {
        match (place[0], document) {
            (StepValue::Key(key), JsonValue::Object(entries)) => if entries.contains_key(key) {
                resolved(entries[key], place.drop_first())
            } else {
                None
            },
            (StepValue::Index(index), JsonValue::Array(items)) => if 0 <= index < items.len() {
                resolved(items[index], place.drop_first())
            } else {
                None
            },
            _ => None,
        }
    }
}

/// A view into a document: one value with its place, a list of views, or
/// nothing.
#[derive(Debug)]
pub enum JsonSliceValue<'a> {
    Value { value: &'a Json, place: Vec<Step> },
    Array(Vec<JsonSliceValue<'a>>),
    Null,
}

/// The value of a [`JsonSliceValue`].
pub enum SliceValue {
    Value(JsonValue, Seq<StepValue>),
    Array(Seq<SliceValue>),
    Null,
}

impl<'a> View for JsonSliceValue<'a> {
    type V = SliceValue;

    open spec fn view(&self) -> SliceValue
        decreases self,
    {
        match self {
            JsonSliceValue::Value { value, place } => SliceValue::Value(value@, place_value(place@)),
            JsonSliceValue::Array(items) => SliceValue::Array(
                Seq::new(
                    items@.len(),
                    |i: int|
                        if 0 <= i < items@.len() {
                            items@[i]@
                        } else {
                            SliceValue::Null
                        },
                ),
            ),
            JsonSliceValue::Null => SliceValue::Null,
        }
    }
}

/// The views of a list of slices.
pub open spec fn slices_of(items: Seq<JsonSliceValue<'_>>) -> Seq<SliceValue> {
    Seq::new(items.len(), |i: int| items[i]@)
}

/// The view of all of `value`, which stands at `place`: an array gives the
/// list of the views of its elements, anything else one handle.
pub open spec fn whole(value: JsonValue, place: Seq<StepValue>) -> SliceValue
    decreases value,
{
    match value {
        JsonValue::Array(items) => SliceValue::Array(
            Seq::new(
                items.len(),
                |i: int|
                    if 0 <= i < items.len() {
                        whole(items[i], place.push(StepValue::Index(i)))
                    } else {
                        SliceValue::Null
                    },
            ),
        ),
        _ => SliceValue::Value(value, place),
    }
}

/// What is left of `slice` when `path` is followed from it, or `None` where
/// the path cannot be followed: where it puts a wildcard on something that
/// is no list, or a field name on a list.
///
/// A field name leads from a handle to the view of the field of that name,
/// and to nothing where there is no such field. A wildcard leads from a
/// list to the list of what the rest of the path leaves of each item.
/// From nothing every path leads to nothing.
pub open spec fn narrowed(slice: SliceValue, path: Seq<Seq<char>>) -> Option<SliceValue>
    decreases path.len(), 0nat,
{
    if path.len() == 0 {
        Some(slice)
    } else if slice is Null {
        Some(SliceValue::Null)
    } else if path[0] == wildcard() {
        match slice {
            SliceValue::Array(items) => match narrowed_each(items, path.drop_first()) {
                Some(parts) => Some(SliceValue::Array(parts)),
                None => None,
            },
            _ => None,
        }
    } else {
        match slice {
            SliceValue::Value(value, place) => match value.member(path[0]) {
                Some(inner) => narrowed(
                    whole(inner, place.push(StepValue::Key(path[0]))),
                    path.drop_first(),
                ),
                None => Some(SliceValue::Null),
            },
            _ => None,
        }
    }
}

/// What is left of each of `items` when `path` is followed from it.
pub open spec fn narrowed_each(items: Seq<SliceValue>, path: Seq<Seq<char>>) -> Option<
    Seq<SliceValue>,
>
    decreases path.len(), items.len() + 1,
{
    if items.len() == 0 {
        Some(Seq::empty())
    } else {
        match (narrowed_each(items.drop_last(), path), narrowed(items.last(), path)) {
            (Some(front), Some(last)) => Some(front.push(last)),
            _ => None,
        }
    }
}

/// The handles of `slice` in order, lists laid out flat: every item of the
/// result is a handle or nothing.
pub open spec fn flat(slice: SliceValue) -> Seq<SliceValue>
    decreases slice,
{
    match slice {
        SliceValue::Array(items) => flat_each(items),
        _ => seq![slice],
    }
}

/// The handles of each of `items`, one after the other.
pub open spec fn flat_each(items: Seq<SliceValue>) -> Seq<SliceValue>
    decreases items,
{
    if items.len() == 0 {
        Seq::empty()
    } else {
        flat_each(items.drop_last()) + flat(items.last())
    }
}

fn copy_place(place: &Vec<Step>) -> (copy: Vec<Step>)
    ensures
        place_value(copy@) == place_value(place@),
{
    let mut copy: Vec<Step> = Vec::new();
    let mut i: usize = 0;
    while i < place.len()
        invariant
            i <= place@.len(),
            copy@.len() == i,
            forall|j: int| 0 <= j < i ==> (#[trigger] copy@[j])@ == place@[j]@,
        decreases place@.len() - i,
    {
        let step = match &place[i] {
            Step::Key(key) => Step::Key(key.clone()),
            Step::Index(index) => Step::Index(*index),
        };
        copy.push(step);
        i += 1;
    }
    assert(place_value(copy@) =~= place_value(place@));
    copy
}

impl<'a> JsonSliceValue<'a> {
    /// The view of all of `value`, taken as the root of its document.
    pub fn new(value: &'a Json) -> (slice: Self)
        ensures
            slice@ == whole(value@, Seq::empty()),
    {
        assert(place_value(Seq::<Step>::empty()) =~= Seq::<StepValue>::empty());
        Self::at(value, Vec::new())
    }

    /// The view of all of `value`, which stands at `place`.
    pub fn at(value: &'a Json, place: Vec<Step>) -> (slice: Self)
        ensures
            slice@ == whole(value@, place_value(place@)),
        decreases value,
    {
        match value {
            Json::Array(items) => {
                let mut slices: Vec<JsonSliceValue<'a>> = Vec::new();
                let mut i: usize = 0;
                while i < items.len()
                    invariant
                        i <= items@.len(),
                        slices@.len() == i,
                        value is Array && value->Array_0 == items,
                        forall|j: int|
                            0 <= j < i ==> (#[trigger] slices@[j])@ == whole(
                                items@[j]@,
                                place_value(place@).push(StepValue::Index(j)),
                            ),
                    decreases items@.len() - i,
                {
                    let mut inner = copy_place(&place);
                    let ghost before = inner@;
                    inner.push(Step::Index(i));
                    assert(place_value(inner@) =~= place_value(before).push(
                        StepValue::Index(i as int),
                    ));
                    let slice = Self::at(&items[i], inner);
                    slices.push(slice);
                    i += 1;
                }
                assert(JsonSliceValue::Array(slices)@->Array_0 =~= whole(
                    value@,
                    place_value(place@),
                )->Array_0);
                JsonSliceValue::Array(slices)
            },
            _ => JsonSliceValue::Value { value, place },
        }
    }

    /// From a handle on an object, the view of its field `key`, if it has
    /// that field.
    pub fn get_mut(self, key: &String) -> (field: Option<Self>)
        ensures
            match self@ {
                SliceValue::Value(value, place) => match value.member(key@) {
                    Some(inner) => field is Some && field->0@ == whole(
                        inner,
                        place.push(StepValue::Key(key@)),
                    ),
                    None => field is None,
                },
                _ => field is None,
            },
    {
        match self {
            JsonSliceValue::Value { value, place } => match value.get(key) {
                Some(inner) => {
                    let mut place = place;
                    let ghost before = place@;
                    place.push(Step::Key(key.clone()));
                    assert(place_value(place@) =~= place_value(before).push(
                        StepValue::Key(key@),
                    ));
                    Some(Self::at(inner, place))
                },
                None => None,
            },
            _ => None,
        }
    }

    /// What is left of this slice when the segments of `path` from `from`
    /// on are followed, or `None` where they cannot be followed.
    fn narrow_from(self, path: &[String], from: usize) -> (slice: Option<Self>)
        requires
            from <= path@.len(),
        ensures
            match slice {
                Some(part) => narrowed(self@, path_keys(path@.skip(from as int))) == Some(part@),
                None => narrowed(self@, path_keys(path@.skip(from as int))) is None,
            },
        decreases path@.len() - from,
    {
        let ghost keys = path_keys(path@.skip(from as int));
        if from == path.len() {
            return Some(self);
        }
        let ghost rest = path_keys(path@.skip(from + 1));
        assert(path@.len() == path.len());
        proof {
            assert(keys[0] == path@[from as int]@);
            assert(keys.drop_first() =~= rest);
        }
        let ghost model = self@;
        match self {
            JsonSliceValue::Null => Some(JsonSliceValue::Null),
            JsonSliceValue::Value { value, place } => {
                if is_wildcard(&path[from]) {
                    None
                } else {
                    let handle = JsonSliceValue::Value { value, place };
                    match handle.get_mut(&path[from]) {
                        Some(field) => field.narrow_from(path, from + 1),
                        None => Some(JsonSliceValue::Null),
                    }
                }
            },
            JsonSliceValue::Array(items) => {
                if !is_wildcard(&path[from]) {
                    return None;
                }
                let ghost all = model->Array_0;
                let ghost given = items@;
                let mut parts: Vec<JsonSliceValue<'a>> = Vec::new();
                assert(all.take(0) =~= Seq::<SliceValue>::empty());
                assert(slices_of(parts@) =~= Seq::<SliceValue>::empty());
                for item in it: items
                    invariant
                        it.seq() == given,
                        from < path@.len() <= usize::MAX,
                        keys == path_keys(path@.skip(from as int)),
                        keys.len() > 0 && keys[0] == wildcard() && keys.drop_first() == rest,
                        rest == path_keys(path@.skip(from + 1)),
                        model == self@,
                        model == SliceValue::Array(all),
                        all.len() == given.len(),
                        forall|j: int| 0 <= j < given.len() ==> all[j] == (#[trigger] given[j])@,
                        narrowed_each(all.take(it.index() as int), rest) == Some(slices_of(parts@)),
                {
                    let ghost n = it.index() as int;
                    proof {
                        assert(all.take(n + 1).drop_last() =~= all.take(n));
                        assert(all.take(n + 1).last() == given[n]@);
                    }
                    match item.narrow_from(path, from + 1) {
                        Some(part) => {
                            let ghost before = parts@;
                            parts.push(part);
                            assert(slices_of(parts@) =~= slices_of(before).push(part@));
                        },
                        None => {
                            proof {
                                lemma_narrowed_each_fails(all, rest, n);
                            }
                            return None;
                        },
                    }
                }
                proof {
                    assert(all.take(given.len() as int) =~= all);
                    assert(JsonSliceValue::Array(parts)@->Array_0 =~= slices_of(parts@));
                }
                Some(JsonSliceValue::Array(parts))
            },
        }
    }

    /// What is left of this slice when `path` is followed from it, or `None`
    /// where the path cannot be followed.
    pub fn checked_slice_by_path(self, path: &[String]) -> (slice: Option<Self>)
        ensures
            match slice {
                Some(part) => narrowed(self@, path_keys(path@)) == Some(part@),
                None => narrowed(self@, path_keys(path@)) is None,
            },
    {
        assert(path@.skip(0) =~= path@);
        self.narrow_from(path, 0)
    }

    /// What is left of this slice when `path` is followed from it.
    pub fn slice_by_path(self, path: &[String]) -> (slice: Self)
        requires
            narrowed(self@, path_keys(path@)) is Some,
        ensures
            Some(slice@) == narrowed(self@, path_keys(path@)),
    {
        match self.checked_slice_by_path(path) {
            Some(part) => part,
            None => JsonSliceValue::Null,
        }
    }

    /// The handles of this slice in order, lists laid out flat.
    pub fn flatten(self) -> (leaves: Vec<JsonSliceValue<'a>>)
        ensures
            slices_of(leaves@) == flat(self@),
    {
        let mut leaves: Vec<JsonSliceValue<'a>> = Vec::new();
        assert(slices_of(leaves@) =~= Seq::<SliceValue>::empty());
        self.flatten_into(&mut leaves);
        assert(Seq::<SliceValue>::empty() + flat(self@) =~= flat(self@));
        leaves
    }

    fn flatten_into(self, leaves: &mut Vec<JsonSliceValue<'a>>)
        ensures
            slices_of(final(leaves)@) == slices_of(old(leaves)@) + flat(self@),
        decreases self,
    {
        let ghost model = self@;
        let ghost start = slices_of(leaves@);
        match self {
            JsonSliceValue::Array(items) => {
                let ghost all = model->Array_0;
                let ghost given = items@;
                assert(all.take(0) =~= Seq::<SliceValue>::empty());
                assert(start + Seq::<SliceValue>::empty() =~= start);
                for item in it: items
                    invariant
                        it.seq() == given,
                        self is Array && self->Array_0 == items,
                        model == SliceValue::Array(all),
                        all.len() == given.len(),
                        forall|j: int| 0 <= j < given.len() ==> all[j] == (#[trigger] given[j])@,
                        slices_of(leaves@) == start + flat_each(all.take(it.index() as int)),
                {
                    let ghost n = it.index() as int;
                    let ghost before = slices_of(leaves@);
                    proof {
                        assert(all.take(n + 1).drop_last() =~= all.take(n));
                        assert(all.take(n + 1).last() == given[n]@);
                    }
                    item.flatten_into(leaves);
                    assert(slices_of(leaves@) =~= start + flat_each(all.take(n + 1)));
                }
                assert(all.take(given.len() as int) =~= all);
            },
            other => {
                let ghost before = leaves@;
                leaves.push(other);
                assert(slices_of(leaves@) =~= slices_of(before) + seq![model]);
            },
        }
    }
}

/// Where the path fails on one item it fails on the whole list.
proof fn lemma_narrowed_each_fails(items: Seq<SliceValue>, path: Seq<Seq<char>>, at: int)
    requires
        0 <= at < items.len(),
        narrowed(items[at], path) is None,
    ensures
        narrowed_each(items, path) is None,
    decreases items.len(),
{
    if at < items.len() - 1 {
        assert(items.drop_last()[at] == items[at]);
        lemma_narrowed_each_fails(items.drop_last(), path, at);
    }
}

/// The values of `value` that are no arrays, in order: an array gives those
/// of its elements, one after the other, and anything else gives itself.
pub open spec fn leaves(value: JsonValue) -> Seq<JsonValue>
    decreases value,
{
    match value {
        JsonValue::Array(items) => leaves_each(items),
        _ => seq![value],
    }
}

/// The leaves of each of `items`, one after the other.
pub open spec fn leaves_each(items: Seq<JsonValue>) -> Seq<JsonValue>
    decreases items,
{
    if items.len() == 0 {
        Seq::empty()
    } else {
        leaves_each(items.drop_last()) + leaves(items.last())
    }
}

/// The value that a handle shows; nothing shows null.
pub open spec fn shown(leaf: SliceValue) -> JsonValue {
    match leaf {
        SliceValue::Value(value, _) => value,
        _ => JsonValue::Null,
    }
}

/// The values that a list of handles shows.
pub open spec fn shown_each(handles: Seq<SliceValue>) -> Seq<JsonValue> {
    Seq::new(handles.len(), |i: int| shown(handles[i]))
}

proof fn lemma_leaves_each_concat(a: Seq<JsonValue>, b: Seq<JsonValue>)
    ensures
        leaves_each(a + b) == leaves_each(a) + leaves_each(b),
    decreases b.len(),
{
    if b.len() == 0 {
        assert(a + b =~= a);
        assert(leaves_each(a) + Seq::<JsonValue>::empty() =~= leaves_each(a));
    } else {
        assert((a + b).drop_last() =~= a + b.drop_last());
        assert((a + b).last() == b.last());
        lemma_leaves_each_concat(a, b.drop_last());
        assert(leaves_each(a + b) =~= leaves_each(a) + leaves_each(b));
    }
}

proof fn lemma_leaves_of_spliced(value: JsonValue)
    ensures
        leaves_each(spliced(value)) == leaves(value),
{
    if !(value is Array) {
        let one = seq![value];
        assert(one.drop_last() =~= Seq::<JsonValue>::empty());
        assert(one.last() == value);
        assert(leaves_each(one.drop_last()) =~= Seq::<JsonValue>::empty());
        assert(leaves_each(one) =~= leaves(value));
    }
}

proof fn lemma_whole_shows_leaves(value: JsonValue, place: Seq<StepValue>)
    ensures
        shown_each(flat(whole(value, place))) == leaves(value),
    decreases value,
        if value is Array {
            value->Array_0.len() + 1
        } else {
            0
        },
{
    match value {
        JsonValue::Array(items) => {
            lemma_whole_items_show_leaves(value, place, items.len() as int);
            assert(whole(value, place)->Array_0.take(items.len() as int) =~= whole(
                value,
                place,
            )->Array_0);
            assert(items.take(items.len() as int) =~= items);
        },
        _ => {
            assert(shown_each(flat(whole(value, place))) =~= leaves(value));
        },
    }
}

proof fn lemma_whole_items_show_leaves(value: JsonValue, place: Seq<StepValue>, n: int)
    requires
        value is Array,
        0 <= n <= value->Array_0.len(),
    ensures
        shown_each(flat_each(whole(value, place)->Array_0.take(n))) == leaves_each(
            value->Array_0.take(n),
        ),
    decreases value, n,
{
    let items = value->Array_0;
    let slices = whole(value, place)->Array_0;
    if n == 0 {
        assert(shown_each(flat_each(slices.take(0))) =~= leaves_each(items.take(0)));
    } else {
        lemma_whole_items_show_leaves(value, place, n - 1);
        assert(slices.take(n).drop_last() =~= slices.take(n - 1));
        assert(items.take(n).drop_last() =~= items.take(n - 1));
        lemma_whole_shows_leaves(items[n - 1], place.push(StepValue::Index(n - 1)));
        assert(shown_each(flat_each(slices.take(n - 1)) + flat(slices[n - 1])) =~= shown_each(
            flat_each(slices.take(n - 1)),
        ) + shown_each(flat(slices[n - 1])));
    }
}

proof fn lemma_narrowed_shows_sliced(value: JsonValue, place: Seq<StepValue>, path: Seq<Seq<char>>)
    requires
        narrowed(whole(value, place), path) is Some,
    ensures
        sliced(value, path) is Some,
        shown_each(flat(narrowed(whole(value, place), path)->0)) == leaves(
            sliced(value, path)->0,
        ),
    decreases path.len(), 0nat,
{
    if path.len() == 0 {
        lemma_whole_shows_leaves(value, place);
    } else if path[0] == wildcard() {
        let items = value->Array_0;
        let slices = whole(value, place)->Array_0;
        assert(slices.take(items.len() as int) =~= slices);
        assert(items.take(items.len() as int) =~= items);
        lemma_narrowed_items_show_sliced(value, place, path.drop_first(), items.len() as int);
    } else {
        match value.member(path[0]) {
            Some(inner) => {
                lemma_narrowed_shows_sliced(
                    inner,
                    place.push(StepValue::Key(path[0])),
                    path.drop_first(),
                );
            },
            None => {
                assert(shown_each(flat(SliceValue::Null)) =~= leaves(JsonValue::Null));
            },
        }
    }
}

proof fn lemma_narrowed_items_show_sliced(
    value: JsonValue,
    place: Seq<StepValue>,
    path: Seq<Seq<char>>,
    n: int,
)
    requires
        value is Array,
        0 <= n <= value->Array_0.len(),
        narrowed_each(whole(value, place)->Array_0.take(n), path) is Some,
    ensures
        sliced_each(value->Array_0.take(n), path) is Some,
        shown_each(flat_each(narrowed_each(whole(value, place)->Array_0.take(n), path)->0))
            == leaves_each(sliced_each(value->Array_0.take(n), path)->0),
    decreases path.len(), n + 1,
{
    let items = value->Array_0;
    let slices = whole(value, place)->Array_0;
    if n == 0 {
        assert(shown_each(flat_each(Seq::<SliceValue>::empty())) =~= leaves_each(
            Seq::<JsonValue>::empty(),
        ));
    } else {
        assert(slices.take(n).drop_last() =~= slices.take(n - 1));
        assert(items.take(n).drop_last() =~= items.take(n - 1));
        lemma_narrowed_items_show_sliced(value, place, path, n - 1);
        lemma_narrowed_shows_sliced(items[n - 1], place.push(StepValue::Index(n - 1)), path);
        let front = narrowed_each(slices.take(n - 1), path)->0;
        let last = narrowed(slices[n - 1], path)->0;
        let parts = sliced_each(items.take(n - 1), path)->0;
        let part = sliced(items[n - 1], path)->0;
        assert(front.push(last).drop_last() =~= front);
        assert(shown_each(flat_each(front) + flat(last)) =~= shown_each(flat_each(front))
            + shown_each(flat(last)));
        lemma_leaves_each_concat(parts, spliced(part));
        lemma_leaves_of_spliced(part);
    }
}

/// The two ways to slice agree. Where a path can be followed through the
/// handles on a document, it can be followed through the document, and the
/// handles that it leaves show, one by one and in order, the leaves of what
/// it selects in the document.
pub proof fn slices_agree(value: JsonValue, path: Seq<Seq<char>>)
    requires
        narrowed(whole(value, Seq::empty()), path) is Some,
    ensures
        sliced(value, path) is Some,
        shown_each(flat(narrowed(whole(value, Seq::empty()), path)->0)) == leaves(
            sliced(value, path)->0,
        ),
{
    lemma_narrowed_shows_sliced(value, Seq::empty(), path);
}

/// The document after `source` was merged into the value that stands at
/// `place`. Where nothing stands at `place` the document is as it was.
pub open spec fn merged_at(document: JsonValue, place: Seq<StepValue>, source: JsonValue) -> JsonValue
    decreases place.len(),
{
    if place.len() == 0 {
        merged(document, source)
    } else {
        match (place[0], document) {
            (StepValue::Key(key), JsonValue::Object(entries)) => if entries.contains_key(key) {
                JsonValue::Object(
                    entries.insert(key, merged_at(entries[key], place.drop_first(), source)),
                )
            } else {
                document
            },
            (StepValue::Index(index), JsonValue::Array(items)) => if 0 <= index < items.len() {
                JsonValue::Array(
                    items.update(index, merged_at(items[index], place.drop_first(), source)),
                )
            } else {
                document
            },
            _ => document,
        }
    }
}

fn merge_from(document: &mut Json, place: &[Step], from: usize, source: Json)
    requires
        from <= place@.len(),
    ensures
        final(document)@ == merged_at(
            old(document)@,
            place_value(place@.skip(from as int)),
            source@,
        ),
    decreases place@.len() - from,
{
    let ghost steps = place_value(place@.skip(from as int));
    if from == place.len() {
        deep_merge(document, source);
        return ;
    }
    let ghost rest = place_value(place@.skip(from + 1));
    assert(place@.len() == place.len());
    proof {
        assert(steps[0] == place@[from as int]@);
        assert(steps.drop_first() =~= rest);
    }
    let ghost before = document@;
    match &place[from] {
        Step::Key(key) => {
            if !document.is_object() {
                return ;
            }
            match document.take() {
                Json::Object(object) => {
                    let mut members = object.into_members();
                    let ghost entries = members@;
                    proof {
                        lemma_members_value(entries);
                    }
                    match find_key(&members, key) {
                        Some(p) => {
                            assert(crate::json::has_key(entries, key@));
                            merge_from(&mut members[p].value, place, from + 1, source);
                            proof {
                                assert(members@ =~= entries.update(p as int, members@[p as int]));
                                assert(members@[p as int].key == entries[p as int].key);
                                lemma_members_update(entries, p as int, members@[p as int]);
                            }
                        },
                        None => {},
                    }
                    *document = Json::Object(JsonObject::from_members(members));
                    assert(document@->Object_0 =~= merged_at(before, steps, source@)->Object_0);
                },
                other => {
                    *document = other;
                },
            }
        },
        Step::Index(index) => {
            if !document.is_array() {
                return ;
            }
            match document.take() {
                Json::Array(items) => {
                    let mut items = items;
                    let ghost elements = before->Array_0;
                    if *index < items.len() {
                        merge_from(&mut items[*index], place, from + 1, source);
                    }
                    *document = Json::Array(items);
                    assert(document@->Array_0 =~= merged_at(before, steps, source@)->Array_0);
                },
                other => {
                    *document = other;
                },
            }
        },
    }
}

/// Merges `source` into the value that stands at `place` in `document`.
/// Where nothing stands there the document stays as it is.
pub fn merge_at(document: &mut Json, place: &[Step], source: Json)
    ensures
        final(document)@ == merged_at(old(document)@, place_value(place@), source@),
{
    assert(place@.skip(0) =~= place@);
    merge_from(document, place, 0, source);
}

/// Whether every handle of `slice` shows what stands at its place in
/// `document`.
pub open spec fn points_into(slice: SliceValue, document: JsonValue) -> bool
    decreases slice,
{
    match slice {
        SliceValue::Value(value, place) => resolved(document, place) == Some(value),
        SliceValue::Array(items) => forall|i: int|
            0 <= i < items.len() ==> points_into(#[trigger] items[i], document),
        SliceValue::Null => true,
    }
}

/// One more step from a place leads where that step leads from the value at
/// the place.
proof fn lemma_resolved_push(document: JsonValue, place: Seq<StepValue>, step: StepValue)
    ensures
        resolved(document, place.push(step)) == match resolved(document, place) {
            Some(value) => resolved(value, seq![step]),
            None => None,
        },
    decreases place.len(),
{
    if place.len() == 0 {
        assert(place.push(step) =~= seq![step]);
    } else {
        assert(place.push(step).drop_first() =~= place.drop_first().push(step));
        assert(place.push(step)[0] == place[0]);
        match (place[0], document) {
            (StepValue::Key(key), JsonValue::Object(entries)) => {
                if entries.contains_key(key) {
                    lemma_resolved_push(entries[key], place.drop_first(), step);
                }
            },
            (StepValue::Index(index), JsonValue::Array(items)) => {
                if 0 <= index < items.len() {
                    lemma_resolved_push(items[index], place.drop_first(), step);
                }
            },
            _ => {},
        }
    }
}

proof fn lemma_whole_points_into(document: JsonValue, value: JsonValue, place: Seq<StepValue>)
    requires
        resolved(document, place) == Some(value),
    ensures
        points_into(whole(value, place), document),
    decreases value,
{
    match value {
        JsonValue::Array(items) => {
            let slices = whole(value, place)->Array_0;
            assert forall|i: int| 0 <= i < slices.len() implies points_into(
                #[trigger] slices[i],
                document,
            ) by {
                let step = StepValue::Index(i);
                lemma_resolved_push(document, place, step);
                assert(seq![step].drop_first() =~= Seq::<StepValue>::empty());
                assert(seq![step][0] == step);
                assert(resolved(items[i], Seq::<StepValue>::empty()) == Some(items[i]));
                assert(resolved(value, seq![step]) == Some(items[i]));
                lemma_whole_points_into(document, items[i], place.push(step));
            }
        },
        _ => {},
    }
}

/// What `narrowed_each` gives, item by item.
proof fn lemma_narrowed_each(items: Seq<SliceValue>, path: Seq<Seq<char>>)
    requires
        narrowed_each(items, path) is Some,
    ensures
        narrowed_each(items, path)->0.len() == items.len(),
        forall|i: int|
            0 <= i < items.len() ==> narrowed(#[trigger] items[i], path) == Some(
                narrowed_each(items, path)->0[i],
            ),
    decreases items.len(),
{
    if items.len() > 0 {
        lemma_narrowed_each(items.drop_last(), path);
        assert forall|i: int| 0 <= i < items.len() implies narrowed(#[trigger] items[i], path)
            == Some(narrowed_each(items, path)->0[i]) by {
            if i < items.len() - 1 {
                assert(items.drop_last()[i] == items[i]);
            }
        }
    }
}

proof fn lemma_narrowed_points_into(document: JsonValue, slice: SliceValue, path: Seq<Seq<char>>)
    requires
        points_into(slice, document),
        narrowed(slice, path) is Some,
    ensures
        points_into(narrowed(slice, path)->0, document),
    decreases path.len(),
{
    if path.len() == 0 || slice is Null {
    } else if path[0] == wildcard() {
        let items = slice->Array_0;
        let parts = narrowed_each(items, path.drop_first())->0;
        lemma_narrowed_each(items, path.drop_first());
        assert forall|i: int| 0 <= i < parts.len() implies points_into(
            #[trigger] parts[i],
            document,
        ) by {
            assert(points_into(items[i], document));
            lemma_narrowed_points_into(document, items[i], path.drop_first());
        }
    } else {
        let value = slice->Value_0;
        let place = slice->Value_1;
        match value.member(path[0]) {
            Some(inner) => {
                let step = StepValue::Key(path[0]);
                lemma_resolved_push(document, place, step);
                assert(seq![step].drop_first() =~= Seq::<StepValue>::empty());
                assert(seq![step][0] == step);
                assert(resolved(inner, Seq::<StepValue>::empty()) == Some(inner));
                assert(resolved(value, seq![step]) == Some(inner));
                lemma_whole_points_into(document, inner, place.push(step));
                lemma_narrowed_points_into(
                    document,
                    whole(inner, place.push(step)),
                    path.drop_first(),
                );
            },
            None => {},
        }
    }
}

proof fn lemma_flat_points_into(document: JsonValue, slice: SliceValue)
    requires
        points_into(slice, document),
    ensures
        forall|i: int|
            0 <= i < flat(slice).len() ==> !((#[trigger] flat(slice)[i]) is Array) && points_into(
                flat(slice)[i],
                document,
            ),
    decreases slice,
        if slice is Array {
            slice->Array_0.len() + 1
        } else {
            0
        },
{
    if slice is Array {
        lemma_flat_each_points_into(document, slice, slice->Array_0.len() as int);
        assert(slice->Array_0.take(slice->Array_0.len() as int) =~= slice->Array_0);
    }
}

proof fn lemma_flat_each_points_into(document: JsonValue, slice: SliceValue, n: int)
    requires
        slice is Array,
        0 <= n <= slice->Array_0.len(),
        points_into(slice, document),
    ensures
        forall|i: int|
            0 <= i < flat_each(slice->Array_0.take(n)).len() ==> !((#[trigger] flat_each(
                slice->Array_0.take(n),
            )[i]) is Array) && points_into(flat_each(slice->Array_0.take(n))[i], document),
    decreases slice, n,
{
    let items = slice->Array_0;
    if n > 0 {
        lemma_flat_each_points_into(document, slice, n - 1);
        assert(items.take(n).drop_last() =~= items.take(n - 1));
        assert(items.take(n).last() == items[n - 1]);
        assert(points_into(items[n - 1], document));
        lemma_flat_points_into(document, items[n - 1]);
    }
}

/// Handles show what stands at their places. Where a path can be followed
/// through the handles on a document, every handle that it leaves shows the
/// value that stands at the handle's place in the document, and none of
/// what is left flat is a list.
pub proof fn handles_point_into_the_document(document: JsonValue, path: Seq<Seq<char>>, i: int)
    requires
        narrowed(whole(document, Seq::empty()), path) is Some,
        0 <= i < flat(narrowed(whole(document, Seq::empty()), path)->0).len(),
    ensures
        ({
            let leaf = flat(narrowed(whole(document, Seq::empty()), path)->0)[i];
            match leaf {
                SliceValue::Value(value, place) => resolved(document, place) == Some(value),
                SliceValue::Array(_) => false,
                SliceValue::Null => true,
            }
        }),
{
    lemma_whole_points_into(document, document, Seq::empty());
    lemma_narrowed_points_into(document, whole(document, Seq::empty()), path);
    lemma_flat_points_into(document, narrowed(whole(document, Seq::empty()), path)->0);
    let leaf = flat(narrowed(whole(document, Seq::empty()), path)->0)[i];
    assert(points_into(leaf, document));
}

/// Whether `place` begins with the steps of `prefix`.
pub open spec fn starts_with(place: Seq<StepValue>, prefix: Seq<StepValue>) -> bool {
    prefix.len() <= place.len() && place.take(prefix.len() as int) == prefix
}

/// Whether two places part ways: after the same steps, the one goes to one
/// element of an array and the other to another. Neither then lies on the
/// way to the other.
pub open spec fn apart(one: Seq<StepValue>, other: Seq<StepValue>) -> bool {
    exists|k: int|
        0 <= k < one.len() && k < other.len() && #[trigger] one.take(k) == other.take(k)
            && one[k] is Index && other[k] is Index && one[k] != other[k]
}

/// A merge at one place leaves what stands at a place apart from it.
pub proof fn lemma_merged_at_apart(
    document: JsonValue,
    place: Seq<StepValue>,
    other: Seq<StepValue>,
    source: JsonValue,
)
    requires
        apart(place, other),
    ensures
        resolved(merged_at(document, place, source), other) == resolved(document, other),
    decreases place.len(),
{
    let k = choose|k: int|
        0 <= k < place.len() && k < other.len() && #[trigger] place.take(k) == other.take(k)
            && place[k] is Index && other[k] is Index && place[k] != other[k];
    if k == 0 {
        match document {
            JsonValue::Array(items) => {
                let a = place[0]->Index_0;
                let b = other[0]->Index_0;
                if 0 <= a < items.len() && 0 <= b < items.len() {
                    let after = items.update(a, merged_at(items[a], place.drop_first(), source));
                    assert(after[b] == items[b]);
                }
            },
            _ => {},
        }
    } else {
        assert(place.take(k)[0] == other.take(k)[0]);
        assert(place[0] == other[0]);
        let rest = place.drop_first();
        let others = other.drop_first();
        assert(rest.take(k - 1) =~= place.take(k).drop_first());
        assert(others.take(k - 1) =~= other.take(k).drop_first());
        assert(rest[k - 1] == place[k] && others[k - 1] == other[k]);
        assert(apart(rest, others));
        match (place[0], document) {
            (StepValue::Key(key), JsonValue::Object(entries)) => {
                if entries.contains_key(key) {
                    lemma_merged_at_apart(entries[key], rest, others, source);
                }
            },
            (StepValue::Index(index), JsonValue::Array(items)) => {
                if 0 <= index < items.len() {
                    lemma_merged_at_apart(items[index], rest, others, source);
                }
            },
            _ => {},
        }
    }
}

/// A merge at a place puts the merged value at that place.
pub proof fn lemma_merged_at_place(document: JsonValue, place: Seq<StepValue>, source: JsonValue)
    requires
        resolved(document, place) is Some,
    ensures
        resolved(merged_at(document, place, source), place) == Some(
            merged(resolved(document, place)->0, source),
        ),
    decreases place.len(),
{
    if place.len() > 0 {
        match (place[0], document) {
            (StepValue::Key(key), JsonValue::Object(entries)) => {
                lemma_merged_at_place(entries[key], place.drop_first(), source);
            },
            (StepValue::Index(index), JsonValue::Array(items)) => {
                lemma_merged_at_place(items[index], place.drop_first(), source);
            },
            _ => {},
        }
    }
}

/// Whether the places of `slice` are laid out as slicing lays them out:
/// every place begins with `prefix`, and the items of a list go through
/// the elements of one array, item `a` through element `a`.
pub open spec fn tidy(slice: SliceValue, prefix: Seq<StepValue>) -> bool
    decreases slice,
{
    match slice {
        SliceValue::Value(_, place) => starts_with(place, prefix),
        SliceValue::Array(items) => exists|base: Seq<StepValue>| #[trigger]
            starts_with(base, prefix) && forall|a: int|
                0 <= a < items.len() ==> tidy(
                    #[trigger] items[a],
                    base.push(StepValue::Index(a)),
                ),
        SliceValue::Null => true,
    }
}

proof fn lemma_starts_with_trans(
    place: Seq<StepValue>,
    middle: Seq<StepValue>,
    prefix: Seq<StepValue>,
)
    requires
        starts_with(place, middle),
        starts_with(middle, prefix),
    ensures
        starts_with(place, prefix),
{
    assert(place.take(prefix.len() as int) =~= middle.take(prefix.len() as int)) by {
        assert forall|i: int| 0 <= i < prefix.len() implies place[i] == middle[i] by {
            assert(place.take(middle.len() as int)[i] == middle[i]);
        }
    }
}

proof fn lemma_tidy_weaken(slice: SliceValue, longer: Seq<StepValue>, prefix: Seq<StepValue>)
    requires
        tidy(slice, longer),
        starts_with(longer, prefix),
    ensures
        tidy(slice, prefix),
{
    match slice {
        SliceValue::Value(_, place) => {
            lemma_starts_with_trans(place, longer, prefix);
        },
        SliceValue::Array(items) => {
            let base = choose|base: Seq<StepValue>| #[trigger]
                starts_with(base, longer) && forall|a: int|
                    0 <= a < items.len() ==> tidy(
                        #[trigger] items[a],
                        base.push(StepValue::Index(a)),
                    );
            lemma_starts_with_trans(base, longer, prefix);
            assert(starts_with(base, prefix));
        },
        SliceValue::Null => {},
    }
}

proof fn lemma_whole_tidy(value: JsonValue, place: Seq<StepValue>)
    ensures
        tidy(whole(value, place), place),
    decreases value,
{
    assert(place.take(place.len() as int) =~= place);
    match value {
        JsonValue::Array(items) => {
            let slices = whole(value, place)->Array_0;
            assert forall|a: int| 0 <= a < slices.len() implies tidy(
                #[trigger] slices[a],
                place.push(StepValue::Index(a)),
            ) by {
                lemma_whole_tidy(items[a], place.push(StepValue::Index(a)));
            }
            assert(starts_with(place, place));
        },
        _ => {},
    }
}

proof fn lemma_narrowed_tidy(slice: SliceValue, prefix: Seq<StepValue>, path: Seq<Seq<char>>)
    requires
        tidy(slice, prefix),
        narrowed(slice, path) is Some,
    ensures
        tidy(narrowed(slice, path)->0, prefix),
    decreases path.len(),
{
    if path.len() == 0 || slice is Null {
    } else if path[0] == wildcard() {
        let items = slice->Array_0;
        let parts = narrowed_each(items, path.drop_first())->0;
        lemma_narrowed_each(items, path.drop_first());
        let base = choose|base: Seq<StepValue>| #[trigger]
            starts_with(base, prefix) && forall|a: int|
                0 <= a < items.len() ==> tidy(
                    #[trigger] items[a],
                    base.push(StepValue::Index(a)),
                );
        assert forall|a: int| 0 <= a < parts.len() implies tidy(
            #[trigger] parts[a],
            base.push(StepValue::Index(a)),
        ) by {
            assert(tidy(items[a], base.push(StepValue::Index(a))));
            lemma_narrowed_tidy(items[a], base.push(StepValue::Index(a)), path.drop_first());
        }
        assert(starts_with(base, prefix));
    } else {
        let value = slice->Value_0;
        let place = slice->Value_1;
        match value.member(path[0]) {
            Some(inner) => {
                let longer = place.push(StepValue::Key(path[0]));
                lemma_whole_tidy(inner, longer);
                assert(longer.take(place.len() as int) =~= place);
                lemma_starts_with_trans(longer, place, prefix);
                lemma_tidy_weaken(whole(inner, longer), longer, prefix);
                lemma_narrowed_tidy(whole(inner, longer), prefix, path.drop_first());
            },
            None => {},
        }
    }
}

/// Whether `place` goes through one of the first `n` elements of the array
/// at `base`.
pub open spec fn through(place: Seq<StepValue>, base: Seq<StepValue>, n: int) -> bool {
    exists|a: int| 0 <= a < n && #[trigger] starts_with(place, base.push(StepValue::Index(a)))
}

proof fn lemma_branches_apart(
    one: Seq<StepValue>,
    other: Seq<StepValue>,
    base: Seq<StepValue>,
    a: int,
    b: int,
)
    requires
        a != b,
        starts_with(one, base.push(StepValue::Index(a))),
        starts_with(other, base.push(StepValue::Index(b))),
    ensures
        apart(one, other),
{
    let k = base.len() as int;
    let left = base.push(StepValue::Index(a));
    let right = base.push(StepValue::Index(b));
    assert(one.take(k + 1)[k] == left[k]);
    assert(other.take(k + 1)[k] == right[k]);
    assert(one.take(k) =~= base) by {
        assert forall|i: int| 0 <= i < k implies one[i] == base[i] by {
            assert(one.take(k + 1)[i] == left[i]);
        }
    }
    assert(other.take(k) =~= base) by {
        assert forall|i: int| 0 <= i < k implies other[i] == base[i] by {
            assert(other.take(k + 1)[i] == right[i]);
        }
    }
    assert(one.take(k) == other.take(k));
}

/// The handles of a tidy slice have places that begin with the prefix, and
/// any two of them are apart.
proof fn lemma_flat_apart(slice: SliceValue, prefix: Seq<StepValue>)
    requires
        tidy(slice, prefix),
    ensures
        forall|i: int|
            0 <= i < flat(slice).len() && (#[trigger] flat(slice)[i]) is Value ==> starts_with(
                flat(slice)[i]->Value_1,
                prefix,
            ),
        forall|i: int, j: int|
            0 <= i < j < flat(slice).len() && (#[trigger] flat(slice)[i]) is Value && (
            #[trigger] flat(slice)[j]) is Value ==> apart(
                flat(slice)[i]->Value_1,
                flat(slice)[j]->Value_1,
            ),
    decreases slice,
        if slice is Array {
            slice->Array_0.len() + 1
        } else {
            0
        },
{
    if slice is Array {
        let items = slice->Array_0;
        let base = choose|base: Seq<StepValue>| #[trigger]
            starts_with(base, prefix) && forall|a: int|
                0 <= a < items.len() ==> tidy(
                    #[trigger] items[a],
                    base.push(StepValue::Index(a)),
                );
        lemma_flat_each_apart(slice, base, items.len() as int);
        assert(items.take(items.len() as int) =~= items);
        assert forall|i: int|
            0 <= i < flat(slice).len() && (#[trigger] flat(slice)[i]) is Value implies starts_with(
            flat(slice)[i]->Value_1,
            prefix,
        ) by {
            let place = flat(slice)[i]->Value_1;
            let a = choose|a: int|
                0 <= a < items.len() && #[trigger] starts_with(
                    place,
                    base.push(StepValue::Index(a)),
                );
            let longer = base.push(StepValue::Index(a));
            assert(longer.take(base.len() as int) =~= base);
            lemma_starts_with_trans(longer, base, prefix);
            lemma_starts_with_trans(place, longer, prefix);
        }
    }
}

proof fn lemma_flat_each_apart(slice: SliceValue, base: Seq<StepValue>, n: int)
    requires
        slice is Array,
        0 <= n <= slice->Array_0.len(),
        forall|a: int|
            0 <= a < slice->Array_0.len() ==> tidy(
                #[trigger] slice->Array_0[a],
                base.push(StepValue::Index(a)),
            ),
    ensures
        forall|i: int|
            0 <= i < flat_each(slice->Array_0.take(n)).len() && (#[trigger] flat_each(
                slice->Array_0.take(n),
            )[i]) is Value ==> through(flat_each(slice->Array_0.take(n))[i]->Value_1, base, n),
        forall|i: int, j: int|
            0 <= i < j < flat_each(slice->Array_0.take(n)).len() && (#[trigger] flat_each(
                slice->Array_0.take(n),
            )[i]) is Value && (#[trigger] flat_each(slice->Array_0.take(n))[j]) is Value ==> apart(
                flat_each(slice->Array_0.take(n))[i]->Value_1,
                flat_each(slice->Array_0.take(n))[j]->Value_1,
            ),
    decreases slice, n,
{
    let items = slice->Array_0;
    if n > 0 {
        lemma_flat_each_apart(slice, base, n - 1);
        assert(items.take(n).drop_last() =~= items.take(n - 1));
        assert(items.take(n).last() == items[n - 1]);
        let longer = base.push(StepValue::Index(n - 1));
        assert(tidy(items[n - 1], longer));
        lemma_flat_apart(items[n - 1], longer);
        let front = flat_each(items.take(n - 1));
        let last = flat(items[n - 1]);
        let all = flat_each(items.take(n));
        assert(all == front + last);
        assert forall|i: int| 0 <= i < all.len() && (#[trigger] all[i]) is Value implies through(
            all[i]->Value_1,
            base,
            n,
        ) by {
            if i < front.len() {
                assert(all[i] == front[i]);
                let a = choose|a: int|
                    0 <= a < n - 1 && #[trigger] starts_with(
                        front[i]->Value_1,
                        base.push(StepValue::Index(a)),
                    );
                assert(starts_with(all[i]->Value_1, base.push(StepValue::Index(a))));
            } else {
                assert(all[i] == last[i - front.len()]);
                assert(starts_with(all[i]->Value_1, base.push(StepValue::Index(n - 1))));
            }
        }
        assert forall|i: int, j: int|
            0 <= i < j < all.len() && (#[trigger] all[i]) is Value && (#[trigger] all[j])
                is Value implies apart(all[i]->Value_1, all[j]->Value_1) by {
            if j < front.len() {
                assert(all[i] == front[i] && all[j] == front[j]);
            } else if i >= front.len() {
                assert(all[i] == last[i - front.len()] && all[j] == last[j - front.len()]);
            } else {
                assert(all[i] == front[i] && all[j] == last[j - front.len()]);
                let a = choose|a: int|
                    0 <= a < n - 1 && #[trigger] starts_with(
                        front[i]->Value_1,
                        base.push(StepValue::Index(a)),
                    );
                lemma_branches_apart(all[i]->Value_1, all[j]->Value_1, base, a, n - 1);
            }
        }
    }
}

/// No handle stands in the way of another: of the handles that a path
/// leaves of a document, any two have places that are apart.
pub proof fn handles_are_apart(document: JsonValue, path: Seq<Seq<char>>, i: int, j: int)
    requires
        narrowed(whole(document, Seq::empty()), path) is Some,
        0 <= i < j < flat(narrowed(whole(document, Seq::empty()), path)->0).len(),
        flat(narrowed(whole(document, Seq::empty()), path)->0)[i] is Value,
        flat(narrowed(whole(document, Seq::empty()), path)->0)[j] is Value,
    ensures
        apart(
            flat(narrowed(whole(document, Seq::empty()), path)->0)[i]->Value_1,
            flat(narrowed(whole(document, Seq::empty()), path)->0)[j]->Value_1,
        ),
{
    lemma_whole_tidy(document, Seq::empty());
    lemma_narrowed_tidy(whole(document, Seq::empty()), Seq::empty(), path);
    lemma_flat_apart(narrowed(whole(document, Seq::empty()), path)->0, Seq::empty());
}

} // verus!
