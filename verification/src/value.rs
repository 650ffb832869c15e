//! The value tree that every codec reads and produces, and its mathematical
//! model.
use vstd::prelude::*;
use vstd::std_specs::cmp::PartialEqSpecImpl;
use crate::text::{bytes_eq, str_eq};

verus! {

/// The model of a real number: either the bit pattern of an IEEE-754 double,
/// as the binary encoding carries it, or a decimal numeral, as the two text
/// encodings carry it.
pub ghost enum Real {
    Bits(u64),
    Decimal(Seq<char>),
}

/// The model of a value tree.
///
/// A map is the sequence of its entries; in a well-formed tree no key occurs
/// twice.
pub ghost enum Value {
    Undefined,
    Boolean(bool),
    Real(Real),
    Integer(i32),
    Uuid(Seq<u8>),
    String(Seq<char>),
    Date(i64),
    Uri(Seq<char>),
    Binary(Seq<u8>),
    Mapping(Seq<(Seq<char>, Value)>),
    Array(Seq<Value>),
}

/// The entries of a map, in the model.
pub type Entries = Seq<(Seq<char>, Value)>;

/// No key occurs twice.
pub open spec fn distinct_keys(entries: Entries) -> bool {
    forall|i: int, j: int| 0 <= i < j < entries.len() ==> entries[i].0 != entries[j].0
}

/// Some entry has this key.
pub open spec fn has_key(entries: Entries, key: Seq<char>) -> bool {
    exists|i: int| 0 <= i < entries.len() && #[trigger] entries[i].0 == key
}

/// The position of an entry with this key, where there is one.
pub open spec fn key_index(entries: Entries, key: Seq<char>) -> int {
    choose|i: int| 0 <= i < entries.len() && #[trigger] entries[i].0 == key
}

/// The value stored under a key.
pub open spec fn lookup(entries: Entries, key: Seq<char>) -> Option<Value> {
    if has_key(entries, key) {
        Some(entries[key_index(entries, key)].1)
    } else {
        None
    }
}

/// The entries after `key` is set to `value`: an entry that has the key is
/// overwritten in place, otherwise a new entry is added at the end.
pub open spec fn insert_entry(entries: Entries, key: Seq<char>, value: Value) -> Entries {
    if has_key(entries, key) {
        entries.update(key_index(entries, key), (key, value))
    } else {
        entries.push((key, value))
    }
}

/// Two trees are the same when they are equal but for the order of the
/// entries of their maps, which does not count.
pub open spec fn same(a: Value, b: Value) -> bool
    decreases a, 2nat,
{
    match a {
        Value::Mapping(x) => b is Mapping && same_entries(x, b->Mapping_0),
        Value::Array(x) => b is Array && same_items(x, b->Array_0),
        _ => a == b,
    }
}

/// Two maps are the same when they have as many entries and each entry of
/// the first has its like in the second.
pub open spec fn same_entries(x: Entries, y: Entries) -> bool
    decreases x, 1nat,
{
    &&& x.len() == y.len()
    &&& forall|i: int| 0 <= i < x.len() ==> has_like(y, (#[trigger] x[i]).0, x[i].1)
}

/// Some entry has this key and the same value.
pub open spec fn has_like(y: Entries, key: Seq<char>, value: Value) -> bool
    decreases value, 3nat,
{
    exists|j: int| 0 <= j < y.len() && #[trigger] y[j].0 == key && same(value, y[j].1)
}

/// The items of two arrays are the same, one by one.
pub open spec fn same_items(x: Seq<Value>, y: Seq<Value>) -> bool
    decreases x, 1nat,
{
    &&& x.len() == y.len()
    &&& forall|i: int| 0 <= i < x.len() ==> same(#[trigger] x[i], y[i])
}

/// Every tree is the same as itself.
pub proof fn lemma_same_is_reflexive(v: Value)
    ensures
        same(v, v),
    decreases v,
{
    match v {
        Value::Mapping(x) => {
            assert forall|i: int| 0 <= i < x.len() implies has_like(
                x,
                (#[trigger] x[i]).0,
                x[i].1,
            ) by {
                lemma_same_is_reflexive(x[i].1);
                assert(x[i].0 == x[i].0 && same(x[i].1, x[i].1));
            }
        },
        Value::Array(x) => {
            assert forall|i: int| 0 <= i < x.len() implies same(#[trigger] x[i], x[i]) by {
                lemma_same_is_reflexive(x[i]);
            }
        },
        _ => {},
    }
}

/// A tree is well formed when every UUID has 16 bytes and no map, at any
/// depth, holds a key twice.
pub open spec fn well_formed(v: Value) -> bool
    decreases v,
{
    match v {
        Value::Uuid(bytes) => bytes.len() == 16,
        Value::Mapping(entries) => {
            &&& distinct_keys(entries)
            &&& forall|i: int| 0 <= i < entries.len() ==> well_formed(#[trigger] entries[i].1)
        },
        Value::Array(items) => forall|i: int|
            0 <= i < items.len() ==> well_formed(#[trigger] items[i]),
        _ => true,
    }
}

/// Setting a key keeps the keys distinct.
pub proof fn lemma_insert_keeps_distinct(entries: Entries, key: Seq<char>, value: Value)
    requires
        distinct_keys(entries),
    ensures
        distinct_keys(insert_entry(entries, key, value)),
        has_key(insert_entry(entries, key, value), key),
        lookup(insert_entry(entries, key, value), key) == Some(value),
{
    let after = insert_entry(entries, key, value);
    if has_key(entries, key) {
        let k = key_index(entries, key);
        assert(after[k].0 == key);
    } else {
        assert(after[entries.len() as int].0 == key);
    }
    assert(distinct_keys(after));
    let p = key_index(after, key);
    assert(after[p].0 == key);
    if has_key(entries, key) {
        let k = key_index(entries, key);
        assert(p == k) by {
            if p < k {
                assert(after[p].0 != after[k].0);
            } else if k < p {
                assert(after[k].0 != after[p].0);
            }
        }
    } else {
        assert(p == entries.len()) by {
            if p < entries.len() {
                assert(entries[p].0 == key);
            }
        }
    }
}

/// Setting the key of the next entry in entries that do not hold it adds
/// the entry at the end.
pub proof fn lemma_fresh_key(done: Entries, entries: Entries)
    requires
        distinct_keys(done + entries),
        entries.len() > 0,
    ensures
        insert_entry(done, entries[0].0, entries[0].1) == done.push(entries[0]),
        done.push(entries[0]) + entries.skip(1) == done + entries,
{
    let key = entries[0].0;
    let all = done + entries;
    assert(!has_key(done, key)) by {
        if has_key(done, key) {
            let i = choose|i: int| 0 <= i < done.len() && #[trigger] done[i].0 == key;
            assert(all[i].0 == key);
            assert(all[done.len() as int].0 == key);
        }
    }
    assert(done.push(entries[0]) + entries.skip(1) =~= all);
}

/// Setting a key to a well-formed value in a well-formed map gives a
/// well-formed map.
pub proof fn lemma_insert_keeps_well_formed(entries: Entries, key: Seq<char>, value: Value)
    requires
        well_formed(Value::Mapping(entries)),
        well_formed(value),
    ensures
        well_formed(Value::Mapping(insert_entry(entries, key, value))),
{
    let after = insert_entry(entries, key, value);
    lemma_insert_keeps_distinct(entries, key, value);
    assert forall|i: int| 0 <= i < after.len() implies well_formed(#[trigger] after[i].1) by {
        if has_key(entries, key) {
            let k = key_index(entries, key);
            if i != k {
                assert(after[i] == entries[i]);
            }
        } else {
            if i < entries.len() {
                assert(after[i] == entries[i]);
            }
        }
    }
}

/// The last write wins: after a key is set twice, the value under it is
/// the second, and there are as many entries as after the first write.
pub proof fn lemma_last_write_wins(entries: Entries, key: Seq<char>, first: Value, last: Value)
    requires
        distinct_keys(entries),
    ensures
        lookup(insert_entry(insert_entry(entries, key, first), key, last), key) == Some(last),
        insert_entry(insert_entry(entries, key, first), key, last).len() == insert_entry(
            entries,
            key,
            first,
        ).len(),
        distinct_keys(insert_entry(insert_entry(entries, key, first), key, last)),
{
    let once = insert_entry(entries, key, first);
    lemma_insert_keeps_distinct(entries, key, first);
    lemma_insert_keeps_distinct(once, key, last);
}

/// Setting a key leaves the value under every other key as it was.
pub proof fn lemma_insert_keeps_others(
    entries: Entries,
    key: Seq<char>,
    value: Value,
    other: Seq<char>,
)
    requires
        distinct_keys(entries),
        other != key,
    ensures
        lookup(insert_entry(entries, key, value), other) == lookup(entries, other),
{
    let after = insert_entry(entries, key, value);
    lemma_insert_keeps_distinct(entries, key, value);
    if has_key(entries, other) {
        let o = key_index(entries, other);
        assert(after[o].0 == other);
        assert(has_key(after, other));
        let p = key_index(after, other);
        assert(p == o) by {
            if p < o {
                assert(after[p].0 != after[o].0);
            } else if o < p {
                assert(after[o].0 != after[p].0);
            }
        }
    } else {
        if has_key(after, other) {
            let p = key_index(after, other);
            if p < entries.len() {
                assert(entries[p].0 == other);
            }
            assert(false);
        }
    }
}

/// A real number as the codecs carry it. The binary encoding holds the eight
/// bytes of an IEEE-754 double; the text encodings hold a decimal numeral.
/// Turning one into the other is floating-point arithmetic and is left to the
/// caller.
#[derive(Debug)]
pub enum LLSDReal {
    /// The bit pattern of a 64-bit float.
    Bits(u64),
    /// A decimal numeral.
    Decimal(String),
}

impl View for LLSDReal {
    type V = Real;

    open spec fn view(&self) -> Real {
        match self {
            LLSDReal::Bits(b) => Real::Bits(*b),
            LLSDReal::Decimal(t) => Real::Decimal(t@),
        }
    }
}

/// One key of a map with its value.
#[derive(Debug)]
pub struct MapEntry {
    pub key: String,
    pub value: LLSDValue,
}

/// A map from text keys to values. No key occurs twice; setting a key that is
/// present overwrites its value. Two maps are equal when they hold the same
/// keys with equal values, in whatever order.
#[derive(Debug)]
pub struct LLSDMap {
    entries: Vec<MapEntry>,
}

/// The primitive LLSD data item. Serialization takes a tree of these,
/// deserialization returns one.
#[derive(Debug)]
pub enum LLSDValue {
    /// No value.
    Undefined,
    /// Boolean.
    Boolean(bool),
    /// Real, always 64 bits.
    Real(LLSDReal),
    /// Integer, always 32 bits.
    Integer(i32),
    /// UUID, as 16 bytes.
    UUID([u8; 16]),
    /// String, UTF-8.
    String(String),
    /// Date, as seconds relative to the UNIX epoch.
    Date(i64),
    /// Universal Resource Identifier.
    URI(String),
    /// Array of bytes.
    Binary(Vec<u8>),
    /// Key/value set of more values.
    Mapping(LLSDMap),
    /// Array of more values.
    Array(Vec<LLSDValue>),
}

impl View for LLSDMap {
    type V = Entries;

    closed spec fn view(&self) -> Entries
        decreases self,
    {
        entries_view(self.entries@)
    }
}

/// The models of a sequence of entries.
pub open spec fn entries_view(entries: Seq<MapEntry>) -> Entries
    decreases entries,
{
    Seq::new(
        entries.len(),
        |i: int|
            if 0 <= i < entries.len() {
                (entries[i].key@, entries[i].value@)
            } else {
                (Seq::empty(), Value::Undefined)
            },
    )
}

impl View for LLSDValue {
    type V = Value;

    open spec fn view(&self) -> Value
        decreases self,
    {
        match self {
            LLSDValue::Undefined => Value::Undefined,
            LLSDValue::Boolean(b) => Value::Boolean(*b),
            LLSDValue::Real(r) => Value::Real(r@),
            LLSDValue::Integer(i) => Value::Integer(*i),
            LLSDValue::UUID(u) => Value::Uuid(u@),
            LLSDValue::String(s) => Value::String(s@),
            LLSDValue::Date(d) => Value::Date(*d),
            LLSDValue::URI(s) => Value::Uri(s@),
            LLSDValue::Binary(b) => Value::Binary(b@),
            LLSDValue::Mapping(m) => Value::Mapping(m@),
            LLSDValue::Array(a) => Value::Array(items_view(a@)),
        }
    }
}

/// The models of a sequence of values.
pub open spec fn items_view(items: Seq<LLSDValue>) -> Seq<Value>
    decreases items,
{
    Seq::new(
        items.len(),
        |i: int|
            if 0 <= i < items.len() {
                items[i]@
            } else {
                Value::Undefined
            },
    )
}

impl LLSDMap {
    #[verifier::type_invariant]
    spec fn no_key_twice(self) -> bool {
        distinct_keys(self@)
    }

    /// An empty map.
    pub fn new() -> (m: LLSDMap)
        ensures
            m@ == Entries::empty(),
    {
        let m = LLSDMap { entries: Vec::new() };
        assert(m@ =~= Entries::empty());
        m
    }

    /// Brings into a proof what holds of every map: no key occurs twice.
    pub fn keys_are_distinct(&self)
        ensures
            distinct_keys(self@),
    {
        proof {
            use_type_invariant(self);
        }
    }

    /// The number of entries.
    pub fn len(&self) -> (n: usize)
        ensures
            n == self@.len(),
    {
        self.entries.len()
    }

    /// Whether the map has no entry.
    pub fn is_empty(&self) -> (r: bool)
        ensures
            r == (self@.len() == 0),
    {
        self.entries.len() == 0
    }

    /// The key of the entry at position `i`.
    pub fn key_at(&self, i: usize) -> (k: &String)
        requires
            i < self@.len(),
        ensures
            k@ == self@[i as int].0,
    {
        &self.entries[i].key
    }

    /// The value of the entry at position `i`.
    pub fn value_at(&self, i: usize) -> (v: &LLSDValue)
        requires
            i < self@.len(),
        ensures
            v@ == self@[i as int].1,
            decreases_to!(self => v),
    {
        &self.entries[i].value
    }

    /// The position of `key`, if it is present.
    fn find(&self, key: &str) -> (r: Option<usize>)
        ensures
            match r {
                Some(i) => i < self@.len() && self@[i as int].0 == key@,
                None => !has_key(self@, key@),
            },
    {
        let mut i: usize = 0;
        while i < self.entries.len()
            invariant
                i <= self.entries@.len(),
                forall|j: int| 0 <= j < i ==> self@[j].0 != key@,
            decreases self.entries@.len() - i,
        {
            if str_eq(self.entries[i].key.as_str(), key) {
                return Some(i);
            }
            i = i + 1;
        }
        None
    }

    /// Whether `key` is present.
    pub fn contains_key(&self, key: &str) -> (r: bool)
        ensures
            r == has_key(self@, key@),
    {
        self.find(key).is_some()
    }

    /// The value stored under `key`, if the key is present.
    pub fn get(&self, key: &str) -> (r: Option<&LLSDValue>)
        ensures
            match r {
                Some(v) => lookup(self@, key@) == Some(v@),
                None => lookup(self@, key@) is None,
            },
    {
        proof {
            use_type_invariant(self);
        }
        match self.find(key) {
            Some(i) => {
                proof {
                    let p = key_index(self@, key@);
                    assert(self@[i as int].0 == key@);
                    assert(p == i) by {
                        if p < i {
                            assert(self@[p].0 != self@[i as int].0);
                        } else if i < p {
                            assert(self@[i as int].0 != self@[p].0);
                        }
                    }
                }
                Some(&self.entries[i].value)
            },
            None => None,
        }
    }

    /// Sets `key` to `value`. A value already stored under the key is
    /// replaced: the last write wins.
    pub fn insert(&mut self, key: String, value: LLSDValue)
        ensures
            final(self)@ == insert_entry(old(self)@, key@, value@),
    {
        proof {
            use_type_invariant(&*self);
            lemma_insert_keeps_distinct(self@, key@, value@);
        }
        let ghost before = self@;
        let found = self.find(key.as_str());
        proof {
            if let Some(i) = found {
                let p = key_index(before, key@);
                assert(before[i as int].0 == key@);
                assert(p == i) by {
                    if p < i {
                        assert(before[p].0 != before[i as int].0);
                    } else if i < p {
                        assert(before[i as int].0 != before[p].0);
                    }
                }
            }
        }
        let mut entries: Vec<MapEntry> = Vec::new();
        assert(entries_view(entries@) =~= Entries::empty());
        std::mem::swap(&mut self.entries, &mut entries);
        assert(entries_view(entries@) == before);
        match found {
            Some(i) => {
                entries.set(i, MapEntry { key, value });
            },
            None => {
                entries.push(MapEntry { key, value });
            },
        }
        assert(entries_view(entries@) =~= insert_entry(before, key@, value@));
        std::mem::swap(&mut self.entries, &mut entries);
    }
}

impl PartialEq for LLSDReal {
    fn eq(&self, other: &LLSDReal) -> (r: bool) {
        match (self, other) {
            (LLSDReal::Bits(a), LLSDReal::Bits(b)) => *a == *b,
            (LLSDReal::Decimal(a), LLSDReal::Decimal(b)) => str_eq(a.as_str(), b.as_str()),
            _ => false,
        }
    }
}

impl PartialEqSpecImpl for LLSDReal {
    open spec fn obeys_eq_spec() -> bool {
        true
    }

    open spec fn eq_spec(&self, other: &LLSDReal) -> bool {
        self@ == other@
    }
}

impl Eq for LLSDReal {

}

impl PartialEq for LLSDMap {
    fn eq(&self, other: &LLSDMap) -> (r: bool) {
        self.equals(other)
    }
}

impl PartialEqSpecImpl for LLSDMap {
    open spec fn obeys_eq_spec() -> bool {
        true
    }

    open spec fn eq_spec(&self, other: &LLSDMap) -> bool {
        same_entries(self@, other@)
    }
}

impl Eq for LLSDMap {

}

impl PartialEq for LLSDValue {
    fn eq(&self, other: &LLSDValue) -> (r: bool) {
        self.equals(other)
    }
}

impl PartialEqSpecImpl for LLSDValue {
    open spec fn obeys_eq_spec() -> bool {
        true
    }

    open spec fn eq_spec(&self, other: &LLSDValue) -> bool {
        same(self@, other@)
    }
}

impl Eq for LLSDValue {

}

impl LLSDMap {
    /// Whether two maps hold the same keys with equal values, in whatever
    /// order.
    pub fn equals(&self, other: &LLSDMap) -> (r: bool)
        ensures
            r == same_entries(self@, other@),
        decreases self,
    {
        proof {
            use_type_invariant(other);
        }
        if self.entries.len() != other.entries.len() {
            return false;
        }
        let mut i: usize = 0;
        while i < self.entries.len()
            invariant
                i <= self.entries@.len(),
                self@.len() == other@.len(),
                distinct_keys(other@),
                forall|k: int| 0 <= k < i ==> has_like(other@, (#[trigger] self@[k]).0, self@[k].1),
            decreases self.entries@.len() - i,
        {
            let entry = &self.entries[i];
            let ghost key = self@[i as int].0;
            let ghost value = self@[i as int].1;
            match other.find(entry.key.as_str()) {
                None => {
                    assert(!has_like(other@, key, value));
                    return false;
                },
                Some(at) => {
                    if !entry.value.equals(&other.entries[at].value) {
                        assert(!has_like(other@, key, value)) by {
                            if has_like(other@, key, value) {
                                let j = choose|j: int|
                                    0 <= j < other@.len() && #[trigger] other@[j].0 == key && same(
                                        value,
                                        other@[j].1,
                                    );
                                if j < at {
                                    assert(other@[j].0 != other@[at as int].0);
                                } else if at < j {
                                    assert(other@[at as int].0 != other@[j].0);
                                }
                            }
                        }
                        return false;
                    }
                    assert(other@[at as int].0 == key && same(value, other@[at as int].1));
                },
            }
            i = i + 1;
        }
        true
    }
}

/// Whether the items of two arrays are the same, one by one.
fn items_equal(a: &Vec<LLSDValue>, b: &Vec<LLSDValue>) -> (r: bool)
    ensures
        r == same_items(items_view(a@), items_view(b@)),
    decreases a,
{
    if a.len() != b.len() {
        return false;
    }
    let mut i: usize = 0;
    while i < a.len()
        invariant
            i <= a@.len(),
            a@.len() == b@.len(),
            forall|k: int|
                0 <= k < i ==> same(#[trigger] items_view(a@)[k], items_view(b@)[k]),
        decreases a@.len() - i,
    {
        assert(decreases_to!(a => a[i as int]));
        assert(items_view(a@)[i as int] == a@[i as int]@);
        assert(items_view(b@)[i as int] == b@[i as int]@);
        if !a[i].equals(&b[i]) {
            return false;
        }
        i = i + 1;
    }
    true
}

impl LLSDValue {
    /// Whether two trees are equal but for the order of the entries of
    /// their maps.
    pub fn equals(&self, other: &LLSDValue) -> (r: bool)
        ensures
            r == same(self@, other@),
        decreases self,
    {
        match self {
            LLSDValue::Undefined => matches!(other, LLSDValue::Undefined),
            LLSDValue::Boolean(a) => match other {
                LLSDValue::Boolean(b) => *a == *b,
                _ => false,
            },
            LLSDValue::Real(a) => match other {
                LLSDValue::Real(b) => *a == *b,
                _ => false,
            },
            LLSDValue::Integer(a) => match other {
                LLSDValue::Integer(b) => *a == *b,
                _ => false,
            },
            LLSDValue::UUID(a) => match other {
                LLSDValue::UUID(b) => bytes_eq(a.as_slice(), b.as_slice()),
                _ => false,
            },
            LLSDValue::String(a) => match other {
                LLSDValue::String(b) => str_eq(a.as_str(), b.as_str()),
                _ => false,
            },
            LLSDValue::Date(a) => match other {
                LLSDValue::Date(b) => *a == *b,
                _ => false,
            },
            LLSDValue::URI(a) => match other {
                LLSDValue::URI(b) => str_eq(a.as_str(), b.as_str()),
                _ => false,
            },
            LLSDValue::Binary(a) => match other {
                LLSDValue::Binary(b) => bytes_eq(a.as_slice(), b.as_slice()),
                _ => false,
            },
            LLSDValue::Mapping(a) => match other {
                LLSDValue::Mapping(b) => a.equals(b),
                _ => false,
            },
            LLSDValue::Array(a) => match other {
                LLSDValue::Array(b) => items_equal(a, b),
                _ => false,
            },
        }
    }
}

impl Clone for LLSDReal {
    fn clone(&self) -> (r: LLSDReal)
        ensures
            r@ == self@,
    {
        match self {
            LLSDReal::Bits(b) => LLSDReal::Bits(*b),
            LLSDReal::Decimal(t) => LLSDReal::Decimal(t.clone()),
        }
    }
}

impl Clone for LLSDMap {
    fn clone(&self) -> (r: LLSDMap)
        ensures
            r@ == self@,
    {
        self.duplicate()
    }
}

impl Clone for LLSDValue {
    fn clone(&self) -> (r: LLSDValue)
        ensures
            r@ == self@,
    {
        self.duplicate()
    }
}

impl LLSDMap {
    /// A copy of the map.
    pub fn duplicate(&self) -> (r: LLSDMap)
        ensures
            r@ == self@,
        decreases self,
    {
        proof {
            use_type_invariant(self);
        }
        let mut entries: Vec<MapEntry> = Vec::new();
        let mut i: usize = 0;
        while i < self.entries.len()
            invariant
                i <= self.entries@.len(),
                entries@.len() == i,
                forall|j: int|
                    0 <= j < i ==> entries@[j].key@ == self.entries@[j].key@ && entries@[j].value@
                        == self.entries@[j].value@,
            decreases self.entries@.len() - i,
        {
            let key = self.entries[i].key.clone();
            let value = self.entries[i].value.duplicate();
            entries.push(MapEntry { key, value });
            i = i + 1;
        }
        assert(entries_view(entries@) =~= self@);
        LLSDMap { entries }
    }
}

impl LLSDValue {
    /// A copy of the tree.
    #[verifier::loop_isolation(false)]
    pub fn duplicate(&self) -> (r: LLSDValue)
        ensures
            r@ == self@,
        decreases self,
    {
        match self {
            LLSDValue::Undefined => LLSDValue::Undefined,
            LLSDValue::Boolean(b) => LLSDValue::Boolean(*b),
            LLSDValue::Real(x) => LLSDValue::Real(x.clone()),
            LLSDValue::Integer(i) => LLSDValue::Integer(*i),
            LLSDValue::UUID(u) => LLSDValue::UUID(*u),
            LLSDValue::String(s) => LLSDValue::String(s.clone()),
            LLSDValue::Date(d) => LLSDValue::Date(*d),
            LLSDValue::URI(s) => LLSDValue::URI(s.clone()),
            LLSDValue::Binary(b) => {
                let mut copy: Vec<u8> = Vec::new();
                let mut i: usize = 0;
                while i < b.len()
                    invariant
                        i <= b@.len(),
                        copy@ == b@.take(i as int),
                    decreases b@.len() - i,
                {
                    copy.push(b[i]);
                    i = i + 1;
                    assert(copy@ =~= b@.take(i as int));
                }
                assert(b@.take(b@.len() as int) =~= b@);
                LLSDValue::Binary(copy)
            },
            LLSDValue::Mapping(m) => LLSDValue::Mapping(m.duplicate()),
            LLSDValue::Array(a) => {
                let mut items: Vec<LLSDValue> = Vec::new();
                let mut i: usize = 0;
                while i < a.len()
                    invariant
                        i <= a@.len(),
                        items@.len() == i,
                        forall|j: int| 0 <= j < i ==> items@[j]@ == a@[j]@,
                    decreases a@.len() - i,
                {
                    assert(decreases_to!(a => a[i as int]));
                    items.push(a[i].duplicate());
                    i = i + 1;
                }
                assert(items_view(items@) =~= items_view(a@));
                LLSDValue::Array(items)
            },
        }
    }

    /// Whether this is the undefined value.
    pub fn is_undefined(&self) -> (r: bool)
        ensures
            r == (self@ is Undefined),
    {
        matches!(self, LLSDValue::Undefined)
    }

    /// The boolean, if this is one.
    pub fn as_boolean(&self) -> (r: Option<&bool>)
        ensures
            r == (match self {
                LLSDValue::Boolean(b) => Some(b),
                _ => None,
            }),
    {
        match self {
            LLSDValue::Boolean(b) => Some(b),
            _ => None,
        }
    }

    /// The real number, if this is one.
    pub fn as_real(&self) -> (r: Option<&LLSDReal>)
        ensures
            r == (match self {
                LLSDValue::Real(x) => Some(x),
                _ => None,
            }),
    {
        match self {
            LLSDValue::Real(x) => Some(x),
            _ => None,
        }
    }

    /// The integer, if this is one.
    pub fn as_integer(&self) -> (r: Option<&i32>)
        ensures
            r == (match self {
                LLSDValue::Integer(i) => Some(i),
                _ => None,
            }),
    {
        match self {
            LLSDValue::Integer(i) => Some(i),
            _ => None,
        }
    }

    /// The UUID, if this is one.
    pub fn as_uuid(&self) -> (r: Option<&[u8; 16]>)
        ensures
            r == (match self {
                LLSDValue::UUID(u) => Some(u),
                _ => None,
            }),
    {
        match self {
            LLSDValue::UUID(u) => Some(u),
            _ => None,
        }
    }

    /// The string, if this is one.
    pub fn as_string(&self) -> (r: Option<&String>)
        ensures
            r == (match self {
                LLSDValue::String(s) => Some(s),
                _ => None,
            }),
    {
        match self {
            LLSDValue::String(s) => Some(s),
            _ => None,
        }
    }

    /// The date, if this is one.
    pub fn as_date(&self) -> (r: Option<&i64>)
        ensures
            r == (match self {
                LLSDValue::Date(d) => Some(d),
                _ => None,
            }),
    {
        match self {
            LLSDValue::Date(d) => Some(d),
            _ => None,
        }
    }

    /// The URI, if this is one.
    pub fn as_uri(&self) -> (r: Option<&String>)
        ensures
            r == (match self {
                LLSDValue::URI(s) => Some(s),
                _ => None,
            }),
    {
        match self {
            LLSDValue::URI(s) => Some(s),
            _ => None,
        }
    }

    /// The bytes, if this is a binary value.
    pub fn as_binary(&self) -> (r: Option<&Vec<u8>>)
        ensures
            r == (match self {
                LLSDValue::Binary(b) => Some(b),
                _ => None,
            }),
    {
        match self {
            LLSDValue::Binary(b) => Some(b),
            _ => None,
        }
    }

    /// The map, if this is one.
    pub fn as_map(&self) -> (r: Option<&LLSDMap>)
        ensures
            r == (match self {
                LLSDValue::Mapping(m) => Some(m),
                _ => None,
            }),
    {
        match self {
            LLSDValue::Mapping(m) => Some(m),
            _ => None,
        }
    }

    /// The items, if this is an array.
    pub fn as_array(&self) -> (r: Option<&Vec<LLSDValue>>)
        ensures
            r == (match self {
                LLSDValue::Array(a) => Some(a),
                _ => None,
            }),
    {
        match self {
            LLSDValue::Array(a) => Some(a),
            _ => None,
        }
    }
}

} // verus!
