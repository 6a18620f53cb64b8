//! JSON documents and their mathematical values.
//!
//! A [`Json`] is a tree that owns its strings, arrays and objects. Its view,
//! a [`JsonValue`], is the value that the tree denotes: arrays are sequences
//! and objects are finite maps from keys to values, so two documents whose
//! objects list the same entries in another order have the same view.
use vstd::prelude::*;
use vstd::std_specs::cmp::PartialEqSpecImpl;

verus! {

/// A JSON number: a non-negative integer, a negative integer, or a finite
/// binary64 value kept as its bit pattern.
#[derive(Clone, Copy, Debug)]
pub enum JsonNumber {
    PosInt(u64),
    NegInt(i64),
    Float(u64),
}

/// The value of a JSON number: an integer, or the bit pattern of a binary64
/// value. Two floats are the same number when their bit patterns are.
pub enum NumberValue {
    Integer(int),
    Float(int),
}

impl View for JsonNumber {
    type V = NumberValue;

    open spec fn view(&self) -> NumberValue {
        match self {
            JsonNumber::PosInt(n) => NumberValue::Integer(*n as int),
            JsonNumber::NegInt(n) => NumberValue::Integer(*n as int),
            JsonNumber::Float(bits) => NumberValue::Float(*bits as int),
        }
    }
}

impl JsonNumber {
    /// Whether the two are the same number.
    pub fn same(&self, other: &JsonNumber) -> (equal: bool)
        ensures
            equal == (self@ == other@),
    {
        match (self, other) {
            (JsonNumber::PosInt(a), JsonNumber::PosInt(b)) => *a == *b,
            (JsonNumber::NegInt(a), JsonNumber::NegInt(b)) => *a == *b,
            (JsonNumber::PosInt(a), JsonNumber::NegInt(b)) => *b >= 0 && *a == *b as u64,
            (JsonNumber::NegInt(a), JsonNumber::PosInt(b)) => *a >= 0 && *a as u64 == *b,
            (JsonNumber::Float(a), JsonNumber::Float(b)) => *a == *b,
            _ => false,
        }
    }
}

/// The value that a JSON document denotes.
pub enum JsonValue {
    Null,
    Bool(bool),
    Number(NumberValue),
    String(Seq<char>),
    Array(Seq<JsonValue>),
    Object(Map<Seq<char>, JsonValue>),
}

impl JsonValue {
    /// Arrays and objects are composite; everything else is a scalar or null.
    pub open spec fn is_composite(self) -> bool {
        self is Array || self is Object
    }

    /// The value under `key`, where `self` is an object that has that key.
    pub open spec fn member(self, key: Seq<char>) -> Option<JsonValue> {
        match self {
            JsonValue::Object(m) => if m.contains_key(key) {
                Some(m[key])
            } else {
                None
            },
            _ => None,
        }
    }
}

/// One `key: value` entry of a JSON object.
#[derive(Debug)]
pub struct Member {
    pub key: String,
    pub value: Json,
}

/// A JSON object: entries with pairwise different keys.
#[derive(Debug)]
pub struct JsonObject {
    members: Vec<Member>,
}

/// A JSON document.
#[derive(Debug)]
pub enum Json {
    Null,
    Bool(bool),
    Number(JsonNumber),
    String(String),
    Array(Vec<Json>),
    Object(JsonObject),
}

/// No two entries of `members` have the same key.
pub open spec fn distinct_keys(members: Seq<Member>) -> bool {
    forall|i: int, j: int|
        0 <= i < j < members.len() ==> (#[trigger] members[i]).key@ != (#[trigger] members[j]).key@
}

/// `key` is the key of one of the entries of `members`.
pub open spec fn has_key(members: Seq<Member>, key: Seq<char>) -> bool {
    exists|i: int| 0 <= i < members.len() && (#[trigger] members[i]).key@ == key
}

/// The map that a list of entries denotes. Where a key occurs twice the
/// later entry counts; an object never holds such a list.
pub open spec fn members_value(members: Seq<Member>) -> Map<Seq<char>, JsonValue>
    decreases members,
{
    if members.len() == 0 {
        Map::empty()
    } else {
        members_value(members.drop_last()).insert(members.last().key@, members.last().value@)
    }
}

impl View for JsonObject {
    type V = Map<Seq<char>, JsonValue>;

    closed spec fn view(&self) -> Map<Seq<char>, JsonValue>
        decreases self,
    {
        members_value(self.members@)
    }
}

impl View for Json {
    type V = JsonValue;

    open spec fn view(&self) -> JsonValue
        decreases self,
    {
        match self {
            Json::Null => JsonValue::Null,
            Json::Bool(b) => JsonValue::Bool(*b),
            Json::Number(n) => JsonValue::Number(n@),
            Json::String(s) => JsonValue::String(s@),
            Json::Array(items) => JsonValue::Array(
                Seq::new(
                    items@.len(),
                    |i: int|
                        if 0 <= i < items@.len() {
                            items@[i]@
                        } else {
                            JsonValue::Null
                        },
                ),
            ),
            Json::Object(object) => JsonValue::Object(object@),
        }
    }
}

/// What `members_value` is, entry by entry, for a list with distinct keys.
pub proof fn lemma_members_value(members: Seq<Member>)
    requires
        distinct_keys(members),
    ensures
        members_value(members).dom().finite(),
        members_value(members).dom().len() == members.len(),
        forall|k: Seq<char>| #[trigger] members_value(members).contains_key(k) <==> has_key(members, k),
        forall|i: int|
            0 <= i < members.len() ==> members_value(members)[(#[trigger] members[i]).key@]
                == members[i].value@,
    decreases members.len(),
{
    if members.len() > 0 {
        let front = members.drop_last();
        let last = members.last();
        lemma_members_value(front);
        let m = members_value(front);
        assert(members_value(members) == m.insert(last.key@, last.value@));
        assert forall|k: Seq<char>| #[trigger]
            members_value(members).contains_key(k) <==> has_key(members, k) by {
            if has_key(members, k) {
                let i = choose|i: int| 0 <= i < members.len() && (#[trigger] members[i]).key@ == k;
                if i < members.len() - 1 {
                    assert(front[i].key@ == k);
                    assert(has_key(front, k));
                    assert(m.contains_key(k));
                }
            }
            if members_value(members).contains_key(k) && k != last.key@ {
                assert(m.contains_key(k));
                assert(has_key(front, k));
                let i = choose|i: int| 0 <= i < front.len() && (#[trigger] front[i]).key@ == k;
                assert(members[i].key@ == k);
            }
            if k == last.key@ {
                assert(members[members.len() - 1].key@ == k);
            }
        }
        assert(!m.contains_key(last.key@)) by {
            if has_key(front, last.key@) {
                let i = choose|i: int|
                    0 <= i < front.len() && (#[trigger] front[i]).key@ == last.key@;
                assert(members[i].key@ == members[members.len() - 1].key@);
            }
        }
        assert forall|i: int| 0 <= i < members.len() implies members_value(members)[(
        #[trigger] members[i]).key@] == members[i].value@ by {
            if i < members.len() - 1 {
                assert(front[i] == members[i]);
                assert(members[i].key@ != members[members.len() - 1].key@);
            }
        }
    }
}

/// Appending an entry whose key is new keeps the keys distinct and inserts
/// the entry into the map.
pub proof fn lemma_members_push(members: Seq<Member>, entry: Member)
    requires
        distinct_keys(members),
        !has_key(members, entry.key@),
    ensures
        distinct_keys(members.push(entry)),
        members_value(members.push(entry)) == members_value(members).insert(
            entry.key@,
            entry.value@,
        ),
{
    let longer = members.push(entry);
    assert(longer.drop_last() =~= members);
    assert forall|i: int, j: int| 0 <= i < j < longer.len() implies (#[trigger] longer[i]).key@ != (
    #[trigger] longer[j]).key@ by {
        if j == members.len() {
            assert(members[i].key@ == longer[i].key@);
        } else {
            assert(members[i] == longer[i] && members[j] == longer[j]);
        }
    }
}

/// Replacing the value of the entry at `index` keeps the keys distinct and
/// overwrites that key in the map.
pub proof fn lemma_members_update(members: Seq<Member>, index: int, entry: Member)
    requires
        distinct_keys(members),
        0 <= index < members.len(),
        entry.key@ == members[index].key@,
    ensures
        distinct_keys(members.update(index, entry)),
        members_value(members.update(index, entry)) == members_value(members).insert(
            entry.key@,
            entry.value@,
        ),
{
    let changed = members.update(index, entry);
    assert forall|i: int, j: int| 0 <= i < j < changed.len() implies (#[trigger] changed[i]).key@
        != (#[trigger] changed[j]).key@ by {
        assert(members[i].key@ == changed[i].key@);
        assert(members[j].key@ == changed[j].key@);
    }
    lemma_members_value(members);
    lemma_members_value(changed);
    let before = members_value(members);
    let after = members_value(changed);
    assert forall|k: Seq<char>| after.contains_key(k) <==> before.insert(
        entry.key@,
        entry.value@,
    ).contains_key(k) by {
        if has_key(changed, k) {
            let i = choose|i: int| 0 <= i < changed.len() && (#[trigger] changed[i]).key@ == k;
            assert(members[i].key@ == k);
        }
        if has_key(members, k) {
            let i = choose|i: int| 0 <= i < members.len() && (#[trigger] members[i]).key@ == k;
            assert(changed[i].key@ == k);
        }
        if k == entry.key@ {
            assert(changed[index].key@ == k);
        }
    }
    assert forall|k: Seq<char>| after.contains_key(k) implies after[k] == before.insert(
        entry.key@,
        entry.value@,
    )[k] by {
        let i = choose|i: int| 0 <= i < changed.len() && (#[trigger] changed[i]).key@ == k;
        assert(after[changed[i].key@] == changed[i].value@);
        if i != index {
            assert(members[i] == changed[i]);
            assert(before[members[i].key@] == members[i].value@);
            if i < index {
                assert(members[i].key@ != members[index].key@);
            } else {
                assert(members[index].key@ != members[i].key@);
            }
        }
    }
    assert(after =~= before.insert(entry.key@, entry.value@));
}

/// The place of the entry under `key` in `members`, if there is one.
pub fn find_key(members: &Vec<Member>, key: &String) -> (found: Option<usize>)
    ensures
        match found {
            Some(i) => i < members@.len() && members@[i as int].key@ == key@,
            None => !has_key(members@, key@),
        },
{
    let mut i: usize = 0;
    while i < members.len()
        invariant
            i <= members@.len(),
            forall|j: int| 0 <= j < i ==> (#[trigger] members@[j]).key@ != key@,
        decreases members@.len() - i,
    {
        if members[i].key == *key {
            return Some(i);
        }
        i += 1;
    }
    None
}

impl JsonObject {
    #[verifier::type_invariant]
    spec fn keys_are_distinct(self) -> bool {
        distinct_keys(self.members@)
    }

    /// The object without entries.
    pub fn new() -> (object: JsonObject)
        ensures
            object@ == Map::<Seq<char>, JsonValue>::empty(),
    {
        JsonObject { members: Vec::new() }
    }

    /// The number of entries.
    pub fn len(&self) -> (n: usize)
        ensures
            n == self@.dom().len(),
            self@.dom().finite(),
    {
        proof {
            use_type_invariant(self);
            lemma_members_value(self.members@);
        }
        self.members.len()
    }

    /// The entries, in the order in which this object lists them.
    pub fn members(&self) -> (members: &Vec<Member>)
        ensures
            distinct_keys(members@),
            members_value(members@) == self@,
            forall|i: int| 0 <= i < members@.len() ==> decreases_to!(self => #[trigger] members@[i]),
    {
        proof {
            use_type_invariant(self);
        }
        &self.members
    }

    /// Gives up the object for its entries.
    pub fn into_members(self) -> (members: Vec<Member>)
        ensures
            distinct_keys(members@),
            members_value(members@) == self@,
            forall|i: int| 0 <= i < members@.len() ==> decreases_to!(self => #[trigger] members@[i]),
    {
        proof {
            use_type_invariant(&self);
        }
        self.members
    }

    /// Whether the object has an entry under `key`.
    pub fn contains_key(&self, key: &String) -> (found: bool)
        ensures
            found == self@.contains_key(key@),
    {
        proof {
            use_type_invariant(self);
            lemma_members_value(self.members@);
        }
        find_key(&self.members, key).is_some()
    }

    /// The value under `key`, if the object has that key.
    pub fn get(&self, key: &String) -> (found: Option<&Json>)
        ensures
            match found {
                Some(value) => self@.contains_key(key@) && value@ == self@[key@],
                None => !self@.contains_key(key@),
            },
    {
        proof {
            use_type_invariant(self);
            lemma_members_value(self.members@);
        }
        match find_key(&self.members, key) {
            Some(i) => Some(&self.members[i].value),
            None => None,
        }
    }

    /// Puts `value` under `key`, in place of the value that was there, if
    /// any.
    pub fn insert(&mut self, key: String, value: Json)
        ensures
            final(self)@ == old(self)@.insert(key@, value@),
    {
        proof {
            use_type_invariant(&*self);
        }
        let found = find_key(&self.members, &key);
        let mut members: Vec<Member> = Vec::new();
        core::mem::swap(&mut self.members, &mut members);
        let ghost before = members@;
        match found {
            Some(i) => {
                let ghost entry = Member { key: before[i as int].key, value };
                proof {
                    lemma_members_update(before, i as int, entry);
                }
                members[i].value = value;
                assert(members@ =~= before.update(i as int, entry));
            },
            None => {
                proof {
                    lemma_members_push(before, Member { key, value });
                }
                members.push(Member { key, value });
            },
        }
        core::mem::swap(&mut self.members, &mut members);
    }

    /// Whether the two objects have the same keys with the same values.
    pub fn same(&self, other: &JsonObject) -> (equal: bool)
        ensures
            equal == (self@ == other@),
        decreases self, 0nat,
    {
        proof {
            use_type_invariant(self);
            use_type_invariant(other);
            lemma_members_value(self.members@);
            lemma_members_value(other.members@);
        }
        if self.members.len() != other.members.len() {
            return false;
        }
        let mut i: usize = 0;
        while i < self.members.len()
            invariant
                i <= self.members@.len(),
                self.members@.len() == other.members@.len(),
                distinct_keys(self.members@),
                distinct_keys(other.members@),
                forall|j: int|
                    0 <= j < i ==> other@.contains_key((#[trigger] self.members@[j]).key@)
                        && other@[self.members@[j].key@] == self.members@[j].value@,
            decreases self.members@.len() - i,
        {
            let entry = &self.members[i];
            proof {
                lemma_members_value(self.members@);
                lemma_members_value(other.members@);
                assert(has_key(self.members@, entry.key@));
            }
            match other.get(&entry.key) {
                Some(value) => {
                    if !entry.value.same(value) {
                        assert(self@[entry.key@] != other@[entry.key@]);
                        return false;
                    }
                },
                None => {
                    assert(self@.contains_key(entry.key@));
                    return false;
                },
            }
            i += 1;
        }
        proof {
            lemma_members_value(self.members@);
            lemma_members_value(other.members@);
            assert forall|k: Seq<char>| self@.contains_key(k) implies other@.contains_key(k)
                && other@[k] == self@[k] by {
                let j = choose|j: int|
                    0 <= j < self.members@.len() && (#[trigger] self.members@[j]).key@ == k;
                assert(other@.contains_key(self.members@[j].key@));
            }
            assert(self@.dom().subset_of(other@.dom()));
            vstd::set_lib::lemma_subset_equality(self@.dom(), other@.dom());
            assert(self@ =~= other@);
        }
        true
    }

    /// The object that lists `members`.
    pub(crate) fn from_members(members: Vec<Member>) -> (object: JsonObject)
        requires
            distinct_keys(members@),
        ensures
            object@ == members_value(members@),
    {
        JsonObject { members }
    }
}

impl Json {
    pub fn is_null(&self) -> (b: bool)
        ensures
            b == (self@ is Null),
    {
        matches!(self, Json::Null)
    }

    pub fn is_array(&self) -> (b: bool)
        ensures
            b == (self@ is Array),
    {
        matches!(self, Json::Array(_))
    }

    pub fn is_object(&self) -> (b: bool)
        ensures
            b == (self@ is Object),
    {
        matches!(self, Json::Object(_))
    }

    /// The value under `key`, where this is an object that has that key.
    pub fn get(&self, key: &String) -> (found: Option<&Json>)
        ensures
            match found {
                Some(value) => self@.member(key@) == Some(value@),
                None => self@.member(key@) is None,
            },
    {
        match self {
            Json::Object(object) => object.get(key),
            _ => None,
        }
    }

    /// Hands out the document and leaves null in its place.
    pub fn take(&mut self) -> (taken: Json)
        ensures
            taken == *old(self),
            *final(self) == Json::Null,
    {
        let mut taken = Json::Null;
        core::mem::swap(self, &mut taken);
        taken
    }

    /// Whether the two documents denote the same value.
    pub fn same(&self, other: &Json) -> (equal: bool)
        ensures
            equal == (self@ == other@),
        decreases self, 1nat,
    {
        match self {
            Json::Null => other.is_null(),
            Json::Bool(a) => match other {
                Json::Bool(b) => *a == *b,
                _ => false,
            },
            Json::Number(a) => match other {
                Json::Number(b) => a.same(b),
                _ => false,
            },
            Json::String(a) => match other {
                Json::String(b) => *a == *b,
                _ => false,
            },
            Json::Array(a) => match other {
                Json::Array(b) => {
                    if a.len() != b.len() {
                        assert(self@->Array_0.len() != other@->Array_0.len());
                        return false;
                    }
                    let mut i: usize = 0;
                    while i < a.len()
                        invariant
                            i <= a@.len(),
                            a@.len() == b@.len(),
                            self == Json::Array(*a),
                            other == Json::Array(*b),
                            forall|j: int| 0 <= j < i ==> (#[trigger] a@[j])@ == b@[j]@,
                        decreases a@.len() - i,
                    {
                        if !a[i].same(&b[i]) {
                            assert(self@->Array_0[i as int] != other@->Array_0[i as int]);
                            return false;
                        }
                        i += 1;
                    }
                    assert(self@->Array_0 =~= other@->Array_0);
                    true
                },
                _ => false,
            },
            Json::Object(a) => match other {
                Json::Object(b) => a.same(b),
                _ => false,
            },
        }
    }

    fn duplicate(&self) -> (copy: Json)
        ensures
            copy@ == self@,
        decreases self, 1nat,
    {
        match self {
            Json::Null => Json::Null,
            Json::Bool(b) => Json::Bool(*b),
            Json::Number(n) => Json::Number(*n),
            Json::String(s) => Json::String(s.clone()),
            Json::Array(items) => {
                let mut copies: Vec<Json> = Vec::new();
                let mut i: usize = 0;
                while i < items.len()
                    invariant
                        i <= items@.len(),
                        copies@.len() == i,
                        self is Array && self->Array_0 == items,
                        forall|j: int| 0 <= j < i ==> (#[trigger] copies@[j])@ == items@[j]@,
                    decreases items@.len() - i,
                {
                    let copy = items[i].duplicate();
                    copies.push(copy);
                    i += 1;
                }
                assert(Json::Array(copies)@->Array_0 =~= self@->Array_0);
                Json::Array(copies)
            },
            Json::Object(object) => Json::Object(object.duplicate()),
        }
    }
}

impl JsonObject {
    fn duplicate(&self) -> (copy: JsonObject)
        ensures
            copy@ == self@,
        decreases self, 0nat,
    {
        proof {
            use_type_invariant(self);
        }
        let mut copies: Vec<Member> = Vec::new();
        let mut i: usize = 0;
        while i < self.members.len()
            invariant
                i <= self.members@.len(),
                copies@.len() == i,
                distinct_keys(self.members@),
                forall|j: int|
                    0 <= j < i ==> (#[trigger] copies@[j]).key@ == self.members@[j].key@
                        && copies@[j].value@ == self.members@[j].value@,
            decreases self.members@.len() - i,
        {
            let entry = &self.members[i];
            copies.push(Member { key: entry.key.clone(), value: entry.value.duplicate() });
            i += 1;
        }
        proof {
            lemma_members_same(copies@, self.members@);
        }
        JsonObject { members: copies }
    }
}

impl Clone for Json {
    fn clone(&self) -> (copy: Json)
        ensures
            copy@ == self@,
    {
        self.duplicate()
    }
}

impl Clone for JsonObject {
    fn clone(&self) -> (copy: JsonObject)
        ensures
            copy@ == self@,
    {
        self.duplicate()
    }
}

impl Clone for Member {
    fn clone(&self) -> (copy: Member)
        ensures
            copy.key@ == self.key@,
            copy.value@ == self.value@,
    {
        Member { key: self.key.clone(), value: self.value.duplicate() }
    }
}

/// Two lists that agree entry by entry, in keys and in values, denote the
/// same map, and one has distinct keys where the other has.
pub proof fn lemma_members_same(a: Seq<Member>, b: Seq<Member>)
    requires
        a.len() == b.len(),
        forall|j: int|
            0 <= j < a.len() ==> (#[trigger] a[j]).key@ == b[j].key@ && a[j].value@ == b[j].value@,
    ensures
        members_value(a) == members_value(b),
        distinct_keys(b) ==> distinct_keys(a),
    decreases a.len(),
{
    if a.len() > 0 {
        assert forall|j: int| 0 <= j < a.drop_last().len() implies (#[trigger] a.drop_last()[j]).key@
            == b.drop_last()[j].key@ && a.drop_last()[j].value@ == b.drop_last()[j].value@ by {
            assert(a[j].key@ == b[j].key@);
        }
        lemma_members_same(a.drop_last(), b.drop_last());
        assert(a[a.len() - 1].key@ == b[a.len() - 1].key@);
    }
    if distinct_keys(b) {
        assert forall|i: int, j: int| 0 <= i < j < a.len() implies (#[trigger] a[i]).key@ != (
        #[trigger] a[j]).key@ by {
            assert(a[i].key@ == b[i].key@ && a[j].key@ == b[j].key@);
        }
    }
}

impl PartialEq for Json {
    fn eq(&self, other: &Json) -> (equal: bool) {
        self.same(other)
    }
}

impl PartialEqSpecImpl for Json {
    open spec fn obeys_eq_spec() -> bool {
        true
    }

    open spec fn eq_spec(&self, other: &Json) -> bool {
        self@ == other@
    }
}

} // verus!
