//! JSON documents: the executable tree, its mathematical model, and the
//! members of an object kept in key order.

use vstd::prelude::*;
use crate::text::{key_equal, key_less, key_lt};

verus! {

/// A JSON number: a non-negative integer, a negative integer, or a
/// floating-point number carried as the 64 bits of its IEEE 754 encoding.
/// Two numbers are equal when they are the same variant with the same
/// content.
#[derive(Clone, Copy, Debug, PartialEq, Eq, Structural)]
pub enum Number {
    PosInt(u64),
    NegInt(i64),
    Float(u64),
}

impl Number {
    /// The number that stands for the integer `i`: `NegInt` holds negative
    /// integers only.
    pub fn from_i64(i: i64) -> (n: Number)
        ensures
            n == (if i < 0 {
                Number::NegInt(i)
            } else {
                Number::PosInt(i as u64)
            }),
    {
        if i < 0 {
            Number::NegInt(i)
        } else {
            Number::PosInt(i as u64)
        }
    }
}

/// The mathematical model of a JSON document. The members of an object are
/// a sequence of key and value pairs; in a well-formed document
/// ([`Json::wf`]) they stand in strictly increasing key order, so that equal
/// objects are equal sequences.
pub enum Json {
    Null,
    Bool(bool),
    Number(Number),
    String(Seq<char>),
    Array(Seq<Json>),
    Object(Seq<(Seq<char>, Json)>),
}

/// Whether the keys of `members` are strictly increasing.
pub open spec fn members_sorted(members: Seq<(Seq<char>, Json)>) -> bool {
    forall|i: int, j: int|
        0 <= i < j < members.len() ==> key_lt(#[trigger] members[i].0, #[trigger] members[j].0)
}

impl Json {
    /// Whether every object in the document has its members in strictly
    /// increasing key order (and so no key twice).
    pub open spec fn wf(self) -> bool
        decreases self,
    {
        match self {
            Json::Array(items) => forall|i: int|
                0 <= i < items.len() ==> (#[trigger] items[i]).wf(),
            Json::Object(members) => members_sorted(members) && forall|i: int|
                0 <= i < members.len() ==> (#[trigger] members[i]).1.wf(),
            _ => true,
        }
    }
}

/// The position of the first member with the key `key`, or the number of
/// members if there is none.
pub open spec fn member_index(members: Seq<(Seq<char>, Json)>, key: Seq<char>) -> int
    decreases members.len(),
{
    if members.len() == 0 {
        0
    } else if members[0].0 == key {
        0
    } else {
        1 + member_index(members.skip(1), key)
    }
}

/// The number of leading members whose key is below `key`: where a member
/// with that key stands, or would be put, in sorted members.
pub open spec fn member_place(members: Seq<(Seq<char>, Json)>, key: Seq<char>) -> int
    decreases members.len(),
{
    if members.len() == 0 {
        0
    } else if !key_lt(members[0].0, key) {
        0
    } else {
        1 + member_place(members.skip(1), key)
    }
}

/// The value of the first member with the key `key`.
pub open spec fn members_get(members: Seq<(Seq<char>, Json)>, key: Seq<char>) -> Option<Json> {
    let i = member_index(members, key);
    if i < members.len() {
        Some(members[i].1)
    } else {
        None
    }
}

/// The members with `key` bound to `value`: at the key's place in key
/// order, the member with that key is replaced, or a new member is put in.
pub open spec fn members_insert(members: Seq<(Seq<char>, Json)>, key: Seq<char>, value: Json) -> Seq<
    (Seq<char>, Json),
> {
    let i = member_place(members, key);
    if i < members.len() && members[i].0 == key {
        members.update(i, (key, value))
    } else {
        members.insert(i, (key, value))
    }
}

/// The members without the first one that has the key `key`; unchanged if
/// there is none.
pub open spec fn members_remove(members: Seq<(Seq<char>, Json)>, key: Seq<char>) -> Seq<
    (Seq<char>, Json),
> {
    let i = member_index(members, key);
    if i < members.len() {
        members.remove(i)
    } else {
        members
    }
}

pub proof fn lemma_member_index_bounds(members: Seq<(Seq<char>, Json)>, key: Seq<char>)
    ensures
        0 <= member_index(members, key) <= members.len(),
        member_index(members, key) < members.len() ==> members[member_index(members, key)].0
            == key,
        forall|j: int| 0 <= j < member_index(members, key) ==> (#[trigger] members[j]).0 != key,
    decreases members.len(),
{
    if members.len() > 0 && members[0].0 != key {
        let rest = members.skip(1);
        lemma_member_index_bounds(rest, key);
        assert forall|j: int| 0 <= j < member_index(members, key) implies (
        #[trigger] members[j]).0 != key by {
            if j > 0 {
                assert(rest[j - 1] == members[j]);
            }
        }
    }
}

pub proof fn lemma_member_place_bounds(members: Seq<(Seq<char>, Json)>, key: Seq<char>)
    ensures
        0 <= member_place(members, key) <= members.len(),
        member_place(members, key) < members.len() ==> !key_lt(
            members[member_place(members, key)].0,
            key,
        ),
        forall|j: int|
            0 <= j < member_place(members, key) ==> key_lt((#[trigger] members[j]).0, key),
    decreases members.len(),
{
    if members.len() > 0 && key_lt(members[0].0, key) {
        let rest = members.skip(1);
        lemma_member_place_bounds(rest, key);
        assert forall|j: int| 0 <= j < member_place(members, key) implies key_lt(
            (#[trigger] members[j]).0,
            key,
        ) by {
            if j > 0 {
                assert(rest[j - 1] == members[j]);
            }
        }
    }
}

/// A JSON document.
#[derive(Debug)]
pub enum Value {
    Null,
    Bool(bool),
    Number(Number),
    String(String),
    Array(Vec<Value>),
    Object(Object),
}

/// The members of a JSON object, kept in key order.
#[derive(Debug)]
pub struct Object {
    entries: Vec<(String, Value)>,
}

/// The models of a sequence of documents.
pub open spec fn values_view(items: Seq<Value>) -> Seq<Json>
    decreases items, items.len(),
{
    if items.len() == 0 {
        Seq::empty()
    } else {
        values_view(items.drop_last()).push(items.last()@)
    }
}

/// The models of a sequence of keys and documents.
pub open spec fn entries_view(entries: Seq<(String, Value)>) -> Seq<(Seq<char>, Json)>
    decreases entries, entries.len(),
{
    if entries.len() == 0 {
        Seq::empty()
    } else {
        entries_view(entries.drop_last()).push((entries.last().0@, entries.last().1@))
    }
}

impl View for Value {
    type V = Json;

    open spec fn view(&self) -> Json
        decreases self, 0nat,
    {
        match self {
            Value::Null => Json::Null,
            Value::Bool(b) => Json::Bool(*b),
            Value::Number(n) => Json::Number(*n),
            Value::String(s) => Json::String(s@),
            Value::Array(items) => Json::Array(values_view(items@)),
            Value::Object(o) => Json::Object(o@),
        }
    }
}

impl View for Object {
    type V = Seq<(Seq<char>, Json)>;

    closed spec fn view(&self) -> Seq<(Seq<char>, Json)>
        decreases self, 0nat,
    {
        entries_view(self.entries@)
    }
}

/// `values_view` maps position by position.
pub proof fn lemma_values_view(items: Seq<Value>)
    ensures
        values_view(items).len() == items.len(),
        forall|i: int| 0 <= i < items.len() ==> #[trigger] values_view(items)[i] == items[i]@,
    decreases items.len(),
{
    if items.len() > 0 {
        lemma_values_view(items.drop_last());
        assert(values_view(items) == values_view(items.drop_last()).push(items.last()@));
    } else {
        assert(values_view(items) == Seq::<Json>::empty());
    }
}

/// `entries_view` maps position by position.
pub proof fn lemma_entries_view(entries: Seq<(String, Value)>)
    ensures
        entries_view(entries).len() == entries.len(),
        forall|i: int|
            0 <= i < entries.len() ==> #[trigger] entries_view(entries)[i] == (
                entries[i].0@,
                entries[i].1@,
            ),
    decreases entries.len(),
{
    if entries.len() > 0 {
        lemma_entries_view(entries.drop_last());
        assert(entries_view(entries) == entries_view(entries.drop_last()).push(
            (entries.last().0@, entries.last().1@),
        ));
    } else {
        assert(entries_view(entries) == Seq::<(Seq<char>, Json)>::empty());
    }
}

impl Object {
    /// An object without members.
    pub fn new() -> (o: Object)
        ensures
            o@ == Seq::<(Seq<char>, Json)>::empty(),
            Json::Object(o@).wf(),
    {
        let o = Object { entries: Vec::new() };
        proof {
            crate::laws::place::lemma_object_wf(o@);
        }
        o
    }

    /// The number of members.
    pub fn len(&self) -> (n: usize)
        ensures
            n == self@.len(),
    {
        proof {
            lemma_entries_view(self.entries@);
        }
        self.entries.len()
    }

    /// The key of the member at position `i` in key order.
    pub fn key_at(&self, i: usize) -> (key: &String)
        requires
            i < self@.len(),
        ensures
            key@ == self@[i as int].0,
    {
        proof {
            lemma_entries_view(self.entries@);
        }
        &self.entries[i].0
    }

    /// The value of the member at position `i` in key order.
    pub fn value_at(&self, i: usize) -> (value: &Value)
        requires
            i < self@.len(),
        ensures
            value@ == self@[i as int].1,
    {
        proof {
            lemma_entries_view(self.entries@);
        }
        &self.entries[i].1
    }

    /// The position of the first member with the key `key`, or the number
    /// of members.
    fn index_of(&self, key: &str) -> (i: usize)
        ensures
            i == member_index(self@, key@),
            i <= self@.len(),
    {
        proof {
            lemma_entries_view(self.entries@);
            assert(self@.skip(0) =~= self@);
        }
        let mut i: usize = 0;
        while i < self.entries.len()
            invariant
                i <= self.entries@.len(),
                self.entries@.len() == self@.len(),
                forall|j: int|
                    0 <= j < self@.len() ==> #[trigger] self@[j] == (
                        self.entries@[j].0@,
                        self.entries@[j].1@,
                    ),
                member_index(self@, key@) == i + member_index(self@.skip(i as int), key@),
            decreases self.entries@.len() - i,
        {
            let ghost rest = self@.skip(i as int);
            proof {
                assert(rest[0] == self@[i as int]);
                assert(rest.skip(1) =~= self@.skip(i + 1));
            }
            if key_equal(self.entries[i].0.as_str(), key) {
                return i;
            }
            i += 1;
        }
        i
    }

    /// The value of the member with the key `key`.
    pub fn get(&self, key: &str) -> (found: Option<&Value>)
        ensures
            match found {
                Some(value) => members_get(self@, key@) == Some(value@),
                None => members_get(self@, key@) is None,
            },
            Json::Object(self@).wf() ==> (found matches Some(value) ==> value@.wf()),
    {
        proof {
            if Json::Object(self@).wf() && members_get(self@, key@) is Some {
                crate::laws::place::lemma_member_wf(self@, key@);
            }
        }
        let i = self.index_of(key);
        proof {
            lemma_entries_view(self.entries@);
        }
        if i < self.entries.len() {
            Some(&self.entries[i].1)
        } else {
            None
        }
    }

    /// Whether a member has the key `key`.
    pub fn contains_key(&self, key: &str) -> (found: bool)
        ensures
            found == members_get(self@, key@) is Some,
    {
        let i = self.index_of(key);
        proof {
            lemma_entries_view(self.entries@);
        }
        i < self.entries.len()
    }

    /// Binds `key` to `value`: replaces the value of the member with that
    /// key, or puts a new member at the key's place in key order.
    pub fn insert(&mut self, key: String, value: Value)
        ensures
            final(self)@ == members_insert(old(self)@, key@, value@),
            Json::Object(old(self)@).wf() && value@.wf() ==> Json::Object(final(self)@).wf(),
    {
        proof {
            if Json::Object(self@).wf() && value@.wf() {
                crate::laws::place::lemma_insert_wf(self@, key@, value@);
            }
        }
        proof {
            lemma_entries_view(self.entries@);
            assert(self@.skip(0) =~= self@);
        }
        let mut i: usize = 0;
        while i < self.entries.len() && key_less(self.entries[i].0.as_str(), key.as_str())
            invariant
                i <= self.entries@.len(),
                self.entries@.len() == self@.len(),
                *self == *old(self),
                forall|j: int|
                    0 <= j < self@.len() ==> #[trigger] self@[j] == (
                        self.entries@[j].0@,
                        self.entries@[j].1@,
                    ),
                member_place(self@, key@) == i + member_place(self@.skip(i as int), key@),
            decreases self.entries@.len() - i,
        {
            proof {
                let rest = self@.skip(i as int);
                assert(rest[0] == self@[i as int]);
                assert(rest.skip(1) =~= self@.skip(i + 1));
            }
            i += 1;
        }
        proof {
            let rest = self@.skip(i as int);
            if i < self.entries@.len() {
                assert(rest[0] == self@[i as int]);
            }
            assert(member_place(self@, key@) == i);
        }
        let ghost before = self@;
        let ghost old_entries = self.entries@;
        if i < self.entries.len() && self.entries[i].0 == key {
            self.entries.remove(i);
            self.entries.insert(i, (key, value));
            proof {
                lemma_entries_view(self.entries@);
                assert(self.entries@ =~= old_entries.update(i as int, (key, value)));
                assert(self@ =~= before.update(i as int, (key@, value@)));
            }
        } else {
            self.entries.insert(i, (key, value));
            proof {
                lemma_entries_view(self.entries@);
                assert(self@ =~= before.insert(i as int, (key@, value@)));
            }
        }
    }

    /// Takes out the member with the key `key` and returns its value, if
    /// there is one.
    pub fn remove(&mut self, key: &str) -> (removed: Option<Value>)
        ensures
            final(self)@ == members_remove(old(self)@, key@),
            match removed {
                Some(value) => members_get(old(self)@, key@) == Some(value@),
                None => members_get(old(self)@, key@) is None,
            },
            Json::Object(old(self)@).wf() ==> Json::Object(final(self)@).wf() && (
            removed matches Some(value) ==> value@.wf()),
    {
        proof {
            if Json::Object(self@).wf() {
                crate::laws::place::lemma_remove_wf(self@, key@);
                if members_get(self@, key@) is Some {
                    crate::laws::place::lemma_member_wf(self@, key@);
                }
            }
        }
        let i = self.index_of(key);
        proof {
            lemma_entries_view(self.entries@);
        }
        if i < self.entries.len() {
            let ghost before = self@;
            let entry = self.entries.remove(i);
            proof {
                lemma_entries_view(self.entries@);
                assert(self@ =~= before.remove(i as int));
            }
            Some(entry.1)
        } else {
            None
        }
    }

    /// The object with the given members, bound one after the other: of two
    /// members with one key the later one stays.
    pub fn from_entries(entries: Vec<(String, Value)>) -> (o: Object)
        ensures
            o@ == members_from(entries_view(entries@)),
            (forall|i: int| 0 <= i < entries@.len() ==> (#[trigger] entries@[i]).1@.wf())
                ==> Json::Object(o@).wf(),
    {
        proof {
            lemma_entries_view(entries@);
            if forall|i: int| 0 <= i < entries@.len() ==> (#[trigger] entries@[i]).1@.wf() {
                assert forall|i: int| 0 <= i < entries_view(entries@).len() implies (
                #[trigger] entries_view(entries@)[i]).1.wf() by {
                    assert(entries@[i].1@.wf());
                }
                crate::laws::well_formed::lemma_members_from_wf(entries_view(entries@));
            }
        }
        let mut o = Object::new();
        let ghost all = entries_view(entries@);
        proof {
            lemma_entries_view(entries@);
            assert(all.take(0) =~= Seq::<(Seq<char>, Json)>::empty());
        }
        for entry in it: entries
            invariant
                it.seq() == entries@,
                all == entries_view(entries@),
                all.len() == entries@.len(),
                forall|j: int|
                    0 <= j < all.len() ==> #[trigger] all[j] == (entries@[j].0@, entries@[j].1@),
                o@ == members_from(all.take(it.index() as int)),
        {
            proof {
                assert(all.take(it.index() + 1).drop_last() =~= all.take(it.index() as int));
            }
            o.insert(entry.0, entry.1);
        }
        proof {
            assert(all.take(all.len() as int) =~= all);
        }
        o
    }
}

/// The members that result from binding each member of `entries` in turn,
/// starting from none.
pub open spec fn members_from(entries: Seq<(Seq<char>, Json)>) -> Seq<(Seq<char>, Json)>
    decreases entries.len(),
{
    if entries.len() == 0 {
        Seq::empty()
    } else {
        members_insert(members_from(entries.drop_last()), entries.last().0, entries.last().1)
    }
}

/// A copy of `v`.
fn copy_value(v: &Value) -> (copy: Value)
    ensures
        copy@ == v@,
    decreases v,
{
    match v {
        Value::Null => Value::Null,
        Value::Bool(b) => Value::Bool(*b),
        Value::Number(n) => Value::Number(*n),
        Value::String(s) => Value::String(s.clone()),
        Value::Array(items) => Value::Array(copy_items(items)),
        Value::Object(o) => Value::Object(Object { entries: copy_entries(&o.entries) }),
    }
}

fn copy_items(items: &Vec<Value>) -> (out: Vec<Value>)
    ensures
        values_view(out@) == values_view(items@),
    decreases items,
{
    let mut out: Vec<Value> = Vec::new();
    let mut i: usize = 0;
    while i < items.len()
        invariant
            i <= items@.len(),
            out@.len() == i,
            forall|j: int| 0 <= j < i ==> (#[trigger] out@[j])@ == items@[j]@,
        decreases items@.len() - i,
    {
        proof {
            assert(decreases_to!(*items => items[i as int]));
        }
        out.push(copy_value(&items[i]));
        i += 1;
    }
    proof {
        lemma_values_view(out@);
        lemma_values_view(items@);
        assert(values_view(out@) =~= values_view(items@));
    }
    out
}

fn copy_entries(entries: &Vec<(String, Value)>) -> (out: Vec<(String, Value)>)
    ensures
        entries_view(out@) == entries_view(entries@),
    decreases entries,
{
    let mut out: Vec<(String, Value)> = Vec::new();
    let mut i: usize = 0;
    while i < entries.len()
        invariant
            i <= entries@.len(),
            out@.len() == i,
            forall|j: int|
                0 <= j < i ==> (#[trigger] out@[j]).0@ == entries@[j].0@ && out@[j].1@
                    == entries@[j].1@,
        decreases entries@.len() - i,
    {
        proof {
            assert(decreases_to!(*entries => entries[i as int]));
        }
        out.push((entries[i].0.clone(), copy_value(&entries[i].1)));
        i += 1;
    }
    proof {
        lemma_entries_view(out@);
        lemma_entries_view(entries@);
        assert(entries_view(out@) =~= entries_view(entries@));
    }
    out
}

/// Whether `a` and `b` are the same document.
fn same_value(a: &Value, b: &Value) -> (same: bool)
    ensures
        same == (a@ == b@),
    decreases a,
{
    match (a, b) {
        (Value::Null, Value::Null) => true,
        (Value::Bool(x), Value::Bool(y)) => *x == *y,
        (Value::Number(x), Value::Number(y)) => *x == *y,
        (Value::String(x), Value::String(y)) => *x == *y,
        (Value::Array(x), Value::Array(y)) => same_items(x, y),
        (Value::Object(x), Value::Object(y)) => same_entries(&x.entries, &y.entries),
        _ => false,
    }
}

fn same_items(x: &Vec<Value>, y: &Vec<Value>) -> (same: bool)
    ensures
        same == (values_view(x@) == values_view(y@)),
    decreases x,
{
    proof {
        lemma_values_view(x@);
        lemma_values_view(y@);
    }
    if x.len() != y.len() {
        return false;
    }
    let mut i: usize = 0;
    while i < x.len()
        invariant
            i <= x@.len(),
            x@.len() == y@.len(),
            forall|j: int| 0 <= j < i ==> (#[trigger] x@[j])@ == y@[j]@,
        decreases x@.len() - i,
    {
        proof {
            assert(decreases_to!(*x => x[i as int]));
        }
        if !same_value(&x[i], &y[i]) {
            proof {
                lemma_values_view(x@);
                lemma_values_view(y@);
                assert(values_view(x@)[i as int] != values_view(y@)[i as int]);
            }
            return false;
        }
        i += 1;
    }
    proof {
        lemma_values_view(x@);
        lemma_values_view(y@);
        assert(values_view(x@) =~= values_view(y@));
    }
    true
}

fn same_entries(x: &Vec<(String, Value)>, y: &Vec<(String, Value)>) -> (same: bool)
    ensures
        same == (entries_view(x@) == entries_view(y@)),
    decreases x,
{
    proof {
        lemma_entries_view(x@);
        lemma_entries_view(y@);
    }
    if x.len() != y.len() {
        return false;
    }
    let mut i: usize = 0;
    while i < x.len()
        invariant
            i <= x@.len(),
            x@.len() == y@.len(),
            forall|j: int|
                0 <= j < i ==> (#[trigger] x@[j]).0@ == y@[j].0@ && x@[j].1@ == y@[j].1@,
        decreases x@.len() - i,
    {
        proof {
            assert(decreases_to!(*x => x[i as int]));
        }
        if x[i].0 != y[i].0 || !same_value(&x[i].1, &y[i].1) {
            proof {
                lemma_entries_view(x@);
                lemma_entries_view(y@);
                assert(entries_view(x@)[i as int] != entries_view(y@)[i as int]);
            }
            return false;
        }
        i += 1;
    }
    proof {
        lemma_entries_view(x@);
        lemma_entries_view(y@);
        assert(entries_view(x@) =~= entries_view(y@));
    }
    true
}

impl Clone for Object {
    fn clone(&self) -> (copy: Self)
        ensures
            copy@ == self@,
    {
        Object { entries: copy_entries(&self.entries) }
    }
}

impl PartialEq for Object {
    fn eq(&self, other: &Self) -> (same: bool) {
        same_entries(&self.entries, &other.entries)
    }
}

impl vstd::std_specs::cmp::PartialEqSpecImpl for Object {
    open spec fn obeys_eq_spec() -> bool {
        true
    }

    open spec fn eq_spec(&self, other: &Self) -> bool {
        self@ == other@
    }
}

impl Eq for Object {

}

impl Clone for Value {
    fn clone(&self) -> (copy: Self)
        ensures
            copy@ == self@,
    {
        copy_value(self)
    }
}

impl PartialEq for Value {
    fn eq(&self, other: &Self) -> (same: bool) {
        same_value(self, other)
    }
}

impl vstd::std_specs::cmp::PartialEqSpecImpl for Value {
    open spec fn obeys_eq_spec() -> bool {
        true
    }

    open spec fn eq_spec(&self, other: &Self) -> bool {
        self@ == other@
    }
}

impl Eq for Value {

}

} // verus!
