//! The keyspace: typed values under binary keys, each with an optional
//! deadline on a monotonic clock after which the key counts as absent.
//!
//! A key is held once, in one entry with its value and its deadline, so a
//! deadline cannot outlive its key. The entries stand in a vector; an index
//! from the hash of a key to the places of the entries with that hash finds
//! a key without a walk through the vector.

pub mod index;

use crate::byte_string::{views, ByteString};
use crate::db::index::{hash_bytes, hash_of, PlaceIndex};
use crate::byte_string::from_bytes::parsed;
use std::collections::VecDeque;
use vstd::prelude::*;
use vstd::std_specs::convert::FromSpecImpl;

verus! {

/// `std::time::Instant`: a reading of the monotonic clock, of which
/// nothing is known but that it can be handed on.
#[verifier::external_type_specification]
#[verifier::external_body]
pub struct ExInstant(std::time::Instant);

/// `Instant::now`: a reading of the monotonic clock.
#[verifier::external_body]
fn instant_now() -> std::time::Instant {
    std::time::Instant::now()
}

/// `Instant::elapsed`: the time that has passed on the monotonic clock
/// since `start` was read.
#[verifier::external_body]
fn elapsed_since(start: &std::time::Instant) -> core::time::Duration {
    start.elapsed()
}

/// `Duration::as_nanos`: a span of time in nanoseconds.
#[verifier::external_body]
fn nanos_of(span: &core::time::Duration) -> u128 {
    span.as_nanos()
}

/// `Vec::capacity`: the number of entries the vector has room for.
#[verifier::external_body]
fn vec_capacity(entries: &Vec<Entry>) -> usize {
    entries.capacity()
}

/// A monotonic clock that counts nanoseconds from the moment it was made.
#[derive(Debug)]
pub struct Clock {
    start: std::time::Instant,
}

impl Clock {
    pub fn new() -> Self {
        Clock { start: instant_now() }
    }

    /// The nanoseconds that have passed since the clock was made.
    pub fn now(&self) -> u128 {
        let span = elapsed_since(&self.start);
        nanos_of(&span)
    }
}

/// The fields of a hash with their values, in the order in which the fields
/// were first set. No field occurs twice.
#[derive(Debug, PartialEq)]
pub struct HashObj {
    fields: Vec<(ByteString, ByteString)>,
    index: PlaceIndex,
}

/// No field is set twice, and the index finds every field.
pub closed spec fn fields_in_order(h: Seq<(Seq<u8>, Seq<u8>)>, index: PlaceIndex) -> bool {
    &&& distinct_fields(h)
    &&& forall|i: int| 0 <= i < h.len() ==> index.holds(hash_of((#[trigger] h[i]).0), i as usize)
    &&& forall|g: u64, p: usize| #[trigger]
        index.holds(g, p) ==> p < h.len() && hash_of(h[p as int].0) == g
}

/// No two pairs have the same first component.
pub open spec fn distinct_fields(h: Seq<(Seq<u8>, Seq<u8>)>) -> bool {
    forall|i: int, j: int| 0 <= i < j < h.len() ==> (#[trigger] h[i]).0 != (#[trigger] h[j]).0
}

/// A pair of the sequence has the given first component.
pub open spec fn has_field(h: Seq<(Seq<u8>, Seq<u8>)>, field: Seq<u8>) -> bool {
    exists|i: int| 0 <= i < h.len() && (#[trigger] h[i]).0 == field
}

/// The place of a pair with the given first component.
pub open spec fn field_index(h: Seq<(Seq<u8>, Seq<u8>)>, field: Seq<u8>) -> int {
    choose|i: int| 0 <= i < h.len() && (#[trigger] h[i]).0 == field
}

/// The value of a field, if the field is set.
pub open spec fn field_value(h: Seq<(Seq<u8>, Seq<u8>)>, field: Seq<u8>) -> Option<Seq<u8>> {
    if has_field(h, field) {
        Some(h[field_index(h, field)].1)
    } else {
        None
    }
}

/// The fields after one is set: its value is replaced where the field was
/// set before, and the pair is added at the end where it was not.
pub open spec fn field_set(h: Seq<(Seq<u8>, Seq<u8>)>, field: Seq<u8>, value: Seq<u8>) -> Seq<
    (Seq<u8>, Seq<u8>),
> {
    if has_field(h, field) {
        h.update(field_index(h, field), (field, value))
    } else {
        h.push((field, value))
    }
}

/// What a pair of owned strings holds.
pub open spec fn pair_view(p: (ByteString, ByteString)) -> (Seq<u8>, Seq<u8>) {
    (p.0@, p.1@)
}

impl View for HashObj {
    type V = Seq<(Seq<u8>, Seq<u8>)>;

    closed spec fn view(&self) -> Self::V {
        self.fields@.map_values(|p: (ByteString, ByteString)| pair_view(p))
    }
}

impl HashObj {
    /// No field is set twice, and the index finds every field: each place
    /// is filed under the hash of its field, and under no other.
    #[verifier::type_invariant]
    closed spec fn in_order(&self) -> bool {
        fields_in_order(self@, self.index)
    }

    pub fn new() -> (r: Self)
        ensures
            r@ == Seq::<(Seq<u8>, Seq<u8>)>::empty(),
    {
        let r = HashObj { fields: Vec::new(), index: PlaceIndex::new() };
        assert(r@ =~= Seq::<(Seq<u8>, Seq<u8>)>::empty());
        r
    }

    pub fn len(&self) -> (r: usize)
        ensures
            r == self@.len(),
            distinct_fields(self@),
    {
        proof {
            use_type_invariant(self);
        }
        self.fields.len()
    }

    /// The place of a field, if it is set.
    fn position(&self, field: &ByteString) -> (r: Option<usize>)
        ensures
            fields_in_order(self@, self.index),
            match r {
                Some(i) => has_field(self@, field@) && i == field_index(self@, field@) && i
                    < self@.len(),
                None => !has_field(self@, field@),
            },
    {
        proof {
            use_type_invariant(self);
        }
        let h = hash_bytes(field.as_slice());
        let total = self.fields.len();
        assert(self@.len() == total);
        match self.index.bucket(h) {
            None => {
                proof {
                    if has_field(self@, field@) {
                        let i = field_index(self@, field@);
                        assert(self@[i].0 == field@);
                        assert(self.index.holds(h, i as usize));
                    }
                }
                None
            },
            Some(places) => {
                let mut j: usize = 0;
                while j < places.len()
                    invariant
                        j <= places.len(),
                        fields_in_order(self@, self.index),
                        h == hash_of(field@),
                        total == self@.len(),
                        forall|place: usize| places@.contains(place) <==> self.index.holds(h, place),
                        forall|k: int|
                            0 <= k < j ==> (#[trigger] places@[k]) < total && self@[places@[k] as int].0
                                != field@,
                    decreases places.len() - j,
                {
                    let place = places[j];
                    assert(places@.contains(place));
                    if self.fields[place].0.eq_bytes(field) {
                        assert(self@[place as int].0 == field@);
                        proof {
                            let found = field_index(self@, field@);
                            assert(self@[found].0 == field@);
                        }
                        return Some(place);
                    }
                    j += 1;
                }
                proof {
                    if has_field(self@, field@) {
                        let i = field_index(self@, field@);
                        assert(self@[i].0 == field@);
                        let place = i as usize;
                        assert(self.index.holds(h, place));
                        assert(places@.contains(place));
                        let k = choose|k: int| 0 <= k < places@.len() && places@[k] == place;
                        assert(self@[places@[k] as int].0 != field@);
                    }
                }
                None
            },
        }
    }

    /// The value of a field, if the field is set.
    pub fn get(&self, field: &ByteString) -> (r: Option<&ByteString>)
        ensures
            match r {
                Some(value) => field_value(self@, field@) == Some(value@),
                None => field_value(self@, field@) is None,
            },
    {
        match self.position(field) {
            Some(i) => Some(&self.fields[i].1),
            None => None,
        }
    }

    /// Sets a field, and says whether the field is a new one.
    pub fn set(&mut self, field: ByteString, value: ByteString) -> (r: bool)
        ensures
            final(self)@ == field_set(old(self)@, field@, value@),
            r == !has_field(old(self)@, field@),
            distinct_fields(final(self)@),
    {
        let found = self.position(&field);
        let h = hash_bytes(field.as_slice());
        let mut taken = HashObj::new();
        core::mem::swap(self, &mut taken);
        let HashObj { mut fields, mut index } = taken;
        let fresh = match found {
            Some(i) => {
                fields.set(i, (field, value));
                false
            },
            None => {
                let place = fields.len();
                fields.push((field, value));
                index.add(h, place);
                true
            },
        };
        let ghost after = fields@.map_values(|p: (ByteString, ByteString)| pair_view(p));
        assert(after =~= field_set(old(self)@, field@, value@));
        assert(fields_in_order(after, index)) by {
            assert forall|i: int| 0 <= i < old(self)@.len() implies (#[trigger] after[i]).0 == old(self)@[i].0 by {}
            assert forall|i: int, j: int| 0 <= i < j < after.len() implies (#[trigger] after[i]).0
                != (#[trigger] after[j]).0 by {
                if found is Some {
                    assert(after[i].0 == old(self)@[i].0);
                    assert(after[j].0 == old(self)@[j].0);
                } else {
                    if j == after.len() - 1 {
                        assert(old(self)@[i].0 != field@);
                    }
                }
            }
        }
        *self = HashObj { fields, index };
        fresh
    }

    /// The pair at a place: a field and its value.
    pub fn entry(&self, index: usize) -> (r: (&ByteString, &ByteString))
        requires
            index < self@.len(),
        ensures
            (r.0@, r.1@) == self@[index as int],
    {
        let pair = &self.fields[index];
        (&pair.0, &pair.1)
    }
}

/// A stored value.
#[derive(Debug, PartialEq)]
pub enum RObj {
    Int(i64),
    String(ByteString),
    List(VecDeque<ByteString>),
    Hash(HashObj),
}

/// What a stored value holds.
pub enum Value {
    Int(i64),
    Str(Seq<u8>),
    List(Seq<Seq<u8>>),
    Hash(Seq<(Seq<u8>, Seq<u8>)>),
}

impl View for RObj {
    type V = Value;

    open spec fn view(&self) -> Value {
        match self {
            RObj::Int(n) => Value::Int(*n),
            RObj::String(s) => Value::Str(s@),
            RObj::List(l) => Value::List(views(l@)),
            RObj::Hash(h) => Value::Hash(h@),
        }
    }
}

/// The value that bytes are stored as: an integer where the bytes write
/// one that fits 64 bits, the bytes themselves otherwise.
pub open spec fn canonical(bytes: Seq<u8>) -> Value {
    match parsed(bytes, i64::MIN as int, i64::MAX as int) {
        Some(n) => Value::Int(n as i64),
        None => Value::Str(bytes),
    }
}

impl From<i64> for RObj {
    fn from(other: i64) -> (r: Self)
        ensures
            r == RObj::Int(other),
    {
        RObj::Int(other)
    }
}

impl FromSpecImpl<i64> for RObj {
    open spec fn obeys_from_spec() -> bool {
        true
    }

    open spec fn from_spec(other: i64) -> Self {
        RObj::Int(other)
    }
}

impl From<ByteString> for RObj {
    fn from(other: ByteString) -> (r: Self)
        ensures
            r@ == canonical(other@),
    {
        match other.parse::<i64>() {
            Ok(n) => RObj::Int(n),
            Err(_) => RObj::String(other),
        }
    }
}

impl FromSpecImpl<ByteString> for RObj {
    open spec fn obeys_from_spec() -> bool {
        false
    }

    open spec fn from_spec(other: ByteString) -> Self {
        arbitrary()
    }
}

impl RObj {
    pub fn new_list_from(other: Vec<ByteString>) -> (r: Self)
        ensures
            r@ == Value::List(views(other@)),
    {
        let mut list: VecDeque<ByteString> = VecDeque::new();
        let mut i: usize = 0;
        while i < other.len()
            invariant
                i <= other.len(),
                list@.len() == i,
                forall|j: int| 0 <= j < i ==> (#[trigger] list@[j])@ == other@[j]@,
            decreases other.len() - i,
        {
            list.push_back(other[i].copy());
            i += 1;
        }
        assert(views(list@) =~= views(other@));
        RObj::List(list)
    }
}

/// One key of the keyspace with what is stored under it.
#[derive(Debug)]
pub struct Entry {
    key: ByteString,
    value: RObj,
    expires: Option<u128>,
}

/// What the keyspace holds for one key: the value, and the deadline after
/// which the key counts as absent, if it has one.
pub struct Slot {
    pub key: Seq<u8>,
    pub value: Value,
    pub expires: Option<u128>,
}

impl View for Entry {
    type V = Slot;

    closed spec fn view(&self) -> Slot {
        Slot { key: self.key@, value: self.value@, expires: self.expires }
    }
}

/// No key occurs twice.
pub open spec fn distinct_keys(s: Seq<Slot>) -> bool {
    forall|i: int, j: int| 0 <= i < j < s.len() ==> (#[trigger] s[i]).key != (#[trigger] s[j]).key
}

/// The key is stored, whether or not its deadline has passed.
pub open spec fn has_key(s: Seq<Slot>, key: Seq<u8>) -> bool {
    exists|i: int| 0 <= i < s.len() && (#[trigger] s[i]).key == key
}

/// The place of a stored key.
pub open spec fn key_index(s: Seq<Slot>, key: Seq<u8>) -> int {
    choose|i: int| 0 <= i < s.len() && (#[trigger] s[i]).key == key
}

/// The deadline of a slot has come at `now`.
pub open spec fn expired(slot: Slot, now: u128) -> bool {
    slot.expires matches Some(when) && when <= now
}

/// The key is stored and its deadline, if it has one, has not come.
pub open spec fn is_live(s: Seq<Slot>, key: Seq<u8>, now: u128) -> bool {
    has_key(s, key) && !expired(s[key_index(s, key)], now)
}

/// The key is stored and its deadline has come.
pub open spec fn is_stale(s: Seq<Slot>, key: Seq<u8>, now: u128) -> bool {
    has_key(s, key) && expired(s[key_index(s, key)], now)
}

/// The keyspace after a read of `key` at `now`: the key is gone where its
/// deadline had passed, and nothing else has changed.
pub open spec fn purged(s: Seq<Slot>, key: Seq<u8>, now: u128) -> Seq<Slot> {
    if is_stale(s, key, now) {
        without(s, key_index(s, key))
    } else {
        s
    }
}

/// What a read of `key` at `now` finds.
pub open spec fn lookup(s: Seq<Slot>, key: Seq<u8>, now: u128) -> Option<Value> {
    if is_live(s, key, now) {
        Some(s[key_index(s, key)].value)
    } else {
        None
    }
}

/// The keyspace after `value` is stored under `key`: in place of the old
/// value and with the old deadline where the key was stored, at the end and
/// without a deadline where it was not.
pub open spec fn inserted(s: Seq<Slot>, key: Seq<u8>, value: Value) -> Seq<Slot> {
    if has_key(s, key) {
        s.update(key_index(s, key), Slot { value, ..s[key_index(s, key)] })
    } else {
        s.push(Slot { key, value, expires: None })
    }
}

/// The slots with another value at a place.
pub open spec fn with_value(s: Seq<Slot>, place: int, value: Value) -> Seq<Slot> {
    s.update(place, Slot { key: s[place].key, value, expires: s[place].expires })
}

/// The slots without the one at a place: the last slot takes the place.
pub open spec fn without(s: Seq<Slot>, place: int) -> Seq<Slot> {
    s.update(place, s.last()).drop_last()
}

/// The keyspace without `key`.
pub open spec fn removed(s: Seq<Slot>, key: Seq<u8>) -> Seq<Slot> {
    if has_key(s, key) {
        without(s, key_index(s, key))
    } else {
        s
    }
}

/// The keyspace with the deadline of `key` set or taken away; unchanged
/// where the key is not stored.
pub open spec fn with_deadline(s: Seq<Slot>, key: Seq<u8>, expires: Option<u128>) -> Seq<Slot> {
    if has_key(s, key) {
        s.update(key_index(s, key), Slot { expires, ..s[key_index(s, key)] })
    } else {
        s
    }
}

/// The deadline of `key`, if the key is stored and has one.
pub open spec fn deadline(s: Seq<Slot>, key: Seq<u8>) -> Option<u128> {
    if has_key(s, key) {
        s[key_index(s, key)].expires
    } else {
        None
    }
}

/// Storing a value, removing a key, reading a key and changing a deadline
/// all leave every key stored at most once.
pub proof fn lemma_distinct_kept(s: Seq<Slot>, key: Seq<u8>, value: Value, now: u128, expires: Option<u128>)
    requires
        distinct_keys(s),
    ensures
        distinct_keys(inserted(s, key, value)),
        distinct_keys(removed(s, key)),
        distinct_keys(purged(s, key, now)),
        distinct_keys(with_deadline(s, key, expires)),
{
    let a = inserted(s, key, value);
    assert forall|i: int, j: int| 0 <= i < j < a.len() implies (#[trigger] a[i]).key != (
    #[trigger] a[j]).key by {
        if has_key(s, key) {
            assert(a[i].key == s[i].key);
            assert(a[j].key == s[j].key);
        } else {
            assert(a[i].key == s[i].key);
            if j < s.len() {
                assert(a[j].key == s[j].key);
            }
        }
    }
    let r = removed(s, key);
    assert forall|i: int, j: int| 0 <= i < j < r.len() implies (#[trigger] r[i]).key != (
    #[trigger] r[j]).key by {
        if has_key(s, key) {
            let k = key_index(s, key);
            let last = s.len() - 1;
            let i0 = if i == k { last } else { i };
            let j0 = if j == k { last } else { j };
            assert(r[i].key == s[i0].key);
            assert(r[j].key == s[j0].key);
        }
    }
    assert(purged(s, key, now) == s || purged(s, key, now) == r);
    let d = with_deadline(s, key, expires);
    assert forall|i: int, j: int| 0 <= i < j < d.len() implies (#[trigger] d[i]).key != (
    #[trigger] d[j]).key by {
        assert(d[i].key == s[i].key);
        assert(d[j].key == s[j].key);
    }
}

/// The keys that are not past their deadline at `now` and that `accept`
/// admits, in the order in which they are stored.
pub open spec fn matching_keys(s: Seq<Slot>, now: u128, accept: spec_fn(Seq<u8>) -> bool) -> Seq<
    Seq<u8>,
>
    decreases s.len(),
{
    if s.len() == 0 {
        Seq::<Seq<u8>>::empty()
    } else {
        let rest = matching_keys(s.drop_last(), now, accept);
        if !expired(s.last(), now) && accept(s.last().key) {
            rest.push(s.last().key)
        } else {
            rest
        }
    }
}

/// What a sequence of borrowed strings holds.
pub open spec fn ref_views(s: Seq<&ByteString>) -> Seq<Seq<u8>> {
    s.map_values(|b: &ByteString| b@)
}

/// The closure `f` decides the predicate `accept`.
pub open spec fn decides<F: Fn(&ByteString) -> bool>(f: F, accept: spec_fn(Seq<u8>) -> bool) -> bool {
    forall|k: &ByteString, b: bool| #[trigger] f.ensures((k,), b) ==> b == accept(k@)
}

/// How many slots have a deadline.
pub open spec fn deadlines(s: Seq<Slot>) -> nat
    decreases s.len(),
{
    if s.len() == 0 {
        0
    } else {
        deadlines(s.drop_last()) + if s.last().expires is Some {
            1nat
        } else {
            0nat
        }
    }
}

/// Storing under a key what the key holds already changes nothing.
pub proof fn lemma_inserted_same(s: Seq<Slot>, key: Seq<u8>)
    requires
        has_key(s, key),
    ensures
        inserted(s, key, s[key_index(s, key)].value) == s,
{
    assert(inserted(s, key, s[key_index(s, key)].value) =~= s);
}

/// A key that a read finds is not removed by the read, and is stored.
pub proof fn lemma_found_stays(s: Seq<Slot>, key: Seq<u8>, now: u128)
    requires
        lookup(s, key, now) is Some,
    ensures
        purged(s, key, now) == s,
        has_key(s, key),
        lookup(s, key, now) == Some(s[key_index(s, key)].value),
{
}

/// Every key of the expiry table is a key of the value table.
pub proof fn lemma_expiry_within_store(s: Seq<Slot>)
    ensures
        expires_of(s).dom().subset_of(store_of(s).dom()),
{
}

/// A read at or after the deadline of a key finds nothing, and takes the
/// key out of the value table and out of the expiry table.
pub proof fn lemma_read_expires(s: Seq<Slot>, key: Seq<u8>, now: u128)
    requires
        distinct_keys(s),
        deadline(s, key) matches Some(when) && when <= now,
    ensures
        lookup(s, key, now) is None,
        !store_of(purged(s, key, now)).dom().contains(key),
        !expires_of(purged(s, key, now)).dom().contains(key),
{
    let after = purged(s, key, now);
    let k = key_index(s, key);
    assert(after == without(s, k));
    assert forall|i: int| 0 <= i < after.len() implies (#[trigger] after[i]).key != key by {
        let i0 = if i == k {
            s.len() - 1
        } else {
            i
        };
        assert(after[i].key == s[i0].key);
    }
}

/// Once the deadline of a key is taken away the key has none.
pub proof fn lemma_persist_clears(s: Seq<Slot>, key: Seq<u8>)
    requires
        distinct_keys(s),
    ensures
        deadline(with_deadline(s, key, None), key) is None,
        !expires_of(with_deadline(s, key, None)).dom().contains(key),
{
    if has_key(s, key) {
        let k = key_index(s, key);
        let after = with_deadline(s, key, None);
        lemma_distinct_kept(s, key, s[k].value, 0, None);
        assert(after[k].key == key);
        let j = key_index(after, key);
        assert(after[j].key == s[j].key);
    }
}

/// A deadline for a key that is not stored is refused and changes nothing.
pub proof fn lemma_set_expire_absent(s: Seq<Slot>, key: Seq<u8>, when: u128)
    requires
        !has_key(s, key),
    ensures
        with_deadline(s, key, Some(when)) == s,
        deadline(with_deadline(s, key, Some(when)), key) is None,
{
}

/// A key is stored where a slot holds it, and nowhere else.
pub proof fn lemma_slot_at(s: Seq<Slot>, i: int)
    requires
        distinct_keys(s),
        0 <= i < s.len(),
    ensures
        has_key(s, s[i].key),
        key_index(s, s[i].key) == i,
{
    let key = s[i].key;
    assert(s[i].key == key);
    let j = key_index(s, key);
    assert(s[j].key == key);
}

/// What a read finds under a key is the same in two keyspaces that hold
/// the same slot for the key, or none.
proof fn lemma_same_read(s: Seq<Slot>, t: Seq<Slot>, other: Seq<u8>, now: u128, shift: int)
    requires
        distinct_keys(s),
        distinct_keys(t),
        has_key(s, other) ==> {
            let i = key_index(s, other);
            0 <= i + shift < t.len() && t[i + shift] == s[i]
        },
        !has_key(s, other) ==> forall|j: int| 0 <= j < t.len() ==> (#[trigger] t[j]).key != other,
    ensures
        lookup(t, other, now) == lookup(s, other, now),
{
    if has_key(s, other) {
        let i = key_index(s, other);
        lemma_slot_at(t, i + shift);
    }
}

/// What is done to one key leaves what a read finds under another, at
/// whatever time the read is made.
pub proof fn lemma_other_key_untouched(
    s: Seq<Slot>,
    key: Seq<u8>,
    other: Seq<u8>,
    value: Value,
    now: u128,
    expires: Option<u128>,
    at: u128,
)
    requires
        distinct_keys(s),
        key != other,
    ensures
        lookup(inserted(s, key, value), other, at) == lookup(s, other, at),
        lookup(removed(s, key), other, at) == lookup(s, other, at),
        lookup(purged(s, key, now), other, at) == lookup(s, other, at),
        lookup(with_deadline(s, key, expires), other, at) == lookup(s, other, at),
{
    lemma_distinct_kept(s, key, value, now, expires);
    let a = inserted(s, key, value);
    let d = with_deadline(s, key, expires);
    let r = removed(s, key);
    if !has_key(s, other) {
        assert forall|j: int| 0 <= j < a.len() implies (#[trigger] a[j]).key != other by {
            if j < s.len() {
                assert(a[j].key == s[j].key);
            }
        }
        assert forall|j: int| 0 <= j < d.len() implies (#[trigger] d[j]).key != other by {
            assert(d[j].key == s[j].key);
        }
        assert forall|j: int| 0 <= j < r.len() implies (#[trigger] r[j]).key != other by {
            if has_key(s, key) {
                let k = key_index(s, key);
                let j0 = if j == k {
                    s.len() - 1
                } else {
                    j
                };
                assert(r[j].key == s[j0].key);
            }
        }
        lemma_same_read(s, a, other, at, 0);
        lemma_same_read(s, d, other, at, 0);
        lemma_same_read(s, r, other, at, 0);
    } else {
        let i = key_index(s, other);
        assert(s[i].key == other);
        lemma_same_read(s, a, other, at, 0);
        lemma_same_read(s, d, other, at, 0);
        if has_key(s, key) {
            let k = key_index(s, key);
            assert(s[k].key == key);
            if i == s.len() - 1 {
                lemma_same_read(s, r, other, at, k - i);
            } else {
                lemma_same_read(s, r, other, at, 0);
            }
        } else {
            lemma_same_read(s, r, other, at, 0);
        }
    }
    assert(purged(s, key, now) == s || purged(s, key, now) == r);
}

/// Bytes are stored as an integer where they write one that 64 bits hold,
/// and as they are where they do not.
pub proof fn lemma_canonical(bytes: Seq<u8>)
    ensures
        match parsed(bytes, i64::MIN as int, i64::MAX as int) {
            Some(n) => canonical(bytes) == Value::Int(n as i64),
            None => canonical(bytes) == Value::Str(bytes),
        },
{
}

/// The value table: every stored key with its value.
pub open spec fn store_of(s: Seq<Slot>) -> Map<Seq<u8>, Value> {
    Map::new(|key: Seq<u8>| has_key(s, key), |key: Seq<u8>| s[key_index(s, key)].value)
}

/// The expiry table: every key that has a deadline, with the deadline.
pub open spec fn expires_of(s: Seq<Slot>) -> Map<Seq<u8>, u128> {
    Map::new(
        |key: Seq<u8>| deadline(s, key) is Some,
        |key: Seq<u8>| deadline(s, key)->Some_0,
    )
}

/// No key is stored twice, and the index finds every stored key: each
/// place is filed under the hash of its key, and under no other.
pub closed spec fn slots_in_order(s: Seq<Slot>, index: PlaceIndex) -> bool {
    &&& distinct_keys(s)
    &&& forall|i: int| 0 <= i < s.len() ==> index.holds(hash_of((#[trigger] s[i]).key), i as usize)
    &&& forall|h: u64, p: usize| #[trigger]
        index.holds(h, p) ==> p < s.len() && hash_of(s[p as int].key) == h
}

/// An index that finds the keys of one keyspace finds those of another
/// that holds the same keys at the same places.
proof fn lemma_same_keys_in_order(s: Seq<Slot>, t: Seq<Slot>, index: PlaceIndex)
    requires
        slots_in_order(s, index),
        s.len() == t.len(),
        forall|a: int| 0 <= a < s.len() ==> (#[trigger] t[a]).key == s[a].key,
    ensures
        slots_in_order(t, index),
{
    assert forall|i: int, j: int| 0 <= i < j < t.len() implies (#[trigger] t[i]).key != (
    #[trigger] t[j]).key by {
        assert(s[i].key != s[j].key);
    }
    assert forall|i: int| 0 <= i < t.len() implies index.holds(
        hash_of((#[trigger] t[i]).key),
        i as usize,
    ) by {
        assert(index.holds(hash_of(s[i].key), i as usize));
    }
}

/// The typed keyspace with its expiry index.
#[derive(Debug)]
pub struct Database {
    entries: Vec<Entry>,
    index: PlaceIndex,
    clock: Clock,
}

impl View for Database {
    type V = Seq<Slot>;

    closed spec fn view(&self) -> Seq<Slot> {
        self.entries@.map_values(|e: Entry| e@)
    }
}

impl Database {
    /// No key is stored twice, and the index finds every stored key.
    pub closed spec fn wf(&self) -> bool {
        slots_in_order(self@, self.index)
    }

    /// A keyspace in order stores no key twice.
    pub proof fn lemma_wf_distinct(&self)
        requires
            self.wf(),
        ensures
            distinct_keys(self@),
    {
    }

    pub fn new() -> (r: Self)
        ensures
            r@ == Seq::<Slot>::empty(),
            r.wf(),
    {
        let r = Database { entries: Vec::new(), index: PlaceIndex::new(), clock: Clock::new() };
        assert(r@ =~= Seq::<Slot>::empty());
        r
    }

    /// A reading of the clock that deadlines are held against.
    pub fn now(&self) -> u128 {
        self.clock.now()
    }

    /// The number of keys stored, those past their deadline included.
    pub fn len(&self) -> (r: usize)
        ensures
            r == self@.len(),
    {
        self.entries.len()
    }

    /// The number of keys that have a deadline.
    pub fn expires_len(&self) -> (r: usize)
        ensures
            r == deadlines(self@),
    {
        let mut count: usize = 0;
        let mut i: usize = 0;
        while i < self.entries.len()
            invariant
                i <= self.entries.len(),
                count == deadlines(self@.take(i as int)),
                count <= i,
            decreases self.entries.len() - i,
        {
            proof {
                assert(self@.take(i + 1).drop_last() =~= self@.take(i as int));
            }
            if self.entries[i].expires.is_some() {
                count += 1;
            }
            i += 1;
        }
        assert(self@.take(self.entries.len() as int) =~= self@);
        count
    }

    /// The place of a key, if it is stored.
    fn position(&self, key: &ByteString) -> (r: Option<usize>)
        requires
            self.wf(),
        ensures
            match r {
                Some(i) => has_key(self@, key@) && i == key_index(self@, key@) && i < self@.len(),
                None => !has_key(self@, key@),
            },
    {
        let h = hash_bytes(key.as_slice());
        let total = self.entries.len();
        assert(self@.len() == total);
        match self.index.bucket(h) {
            None => {
                proof {
                    if has_key(self@, key@) {
                        let i = key_index(self@, key@);
                        assert(self@[i].key == key@);
                        assert(self.index.holds(h, i as usize));
                    }
                }
                None
            },
            Some(places) => {
                let mut j: usize = 0;
                while j < places.len()
                    invariant
                        j <= places.len(),
                        self.wf(),
                        h == hash_of(key@),
                        total == self@.len(),
                        forall|place: usize| places@.contains(place) <==> self.index.holds(h, place),
                        forall|k: int|
                            0 <= k < j ==> (#[trigger] places@[k]) < total && self@[places@[k] as int].key
                                != key@,
                    decreases places.len() - j,
                {
                    let place = places[j];
                    assert(places@.contains(place));
                    if self.entries[place].key.eq_bytes(key) {
                        assert(self@[place as int].key == key@);
                        proof {
                            lemma_slot_at(self@, place as int);
                        }
                        return Some(place);
                    }
                    j += 1;
                }
                proof {
                    if has_key(self@, key@) {
                        let i = key_index(self@, key@);
                        assert(self@[i].key == key@);
                        let place = i as usize;
                        assert(self.index.holds(h, place));
                        assert(places@.contains(place));
                        let k = choose|k: int| 0 <= k < places@.len() && places@[k] == place;
                        assert(self@[places@[k] as int].key != key@);
                    }
                }
                None
            },
        }
    }

    /// Whether the key is stored, be it past its deadline or not.
    pub fn holds(&self, key: &ByteString) -> (r: bool)
        requires
            self.wf(),
        ensures
            r == has_key(self@, key@),
    {
        self.position(key).is_some()
    }

    /// Whether the deadline of `key` has passed at `now`.
    pub fn is_expired_at(&self, key: &ByteString, now: u128) -> (r: bool)
        requires
            self.wf(),
        ensures
            r == is_stale(self@, key@, now),
    {
        match self.position(key) {
            Some(i) => match self.entries[i].expires {
                Some(when) => when <= now,
                None => false,
            },
            None => false,
        }
    }

    /// Whether the deadline of `key` has passed by the clock.
    pub fn is_expired(&self, key: &ByteString) -> (r: bool)
        requires
            self.wf(),
        ensures
            exists|now: u128| r == #[trigger] is_stale(self@, key@, now),
    {
        let now = self.now();
        self.is_expired_at(key, now)
    }

    /// Removes `key` if its deadline has passed at `now`, and says whether
    /// it did.
    pub fn remove_if_expired_at(&mut self, key: &ByteString, now: u128) -> (r: bool)
        requires
            old(self).wf(),
        ensures
            final(self).wf(),
            r == is_stale(old(self)@, key@, now),
            final(self)@ == purged(old(self)@, key@, now),
    {
        if self.is_expired_at(key, now) {
            self.remove(key);
            true
        } else {
            false
        }
    }

    /// Removes `key` if its deadline has passed by the clock, and says
    /// whether it did.
    pub fn remove_if_expired(&mut self, key: &ByteString) -> (r: bool)
        requires
            old(self).wf(),
        ensures
            final(self).wf(),
            exists|now: u128|
                r == is_stale(old(self)@, key@, now) && final(self)@ == #[trigger] purged(
                    old(self)@,
                    key@,
                    now,
                ),
    {
        let now = self.now();
        self.remove_if_expired_at(key, now)
    }

    /// Reads `key` at `now`: a key past its deadline is removed and counts
    /// as absent.
    pub fn get_at(&mut self, key: &ByteString, now: u128) -> (r: Option<&RObj>)
        requires
            old(self).wf(),
        ensures
            final(self).wf(),
            final(self)@ == purged(old(self)@, key@, now),
            match r {
                Some(value) => lookup(old(self)@, key@, now) == Some(value@),
                None => lookup(old(self)@, key@, now) is None,
            },
    {
        if self.remove_if_expired_at(key, now) {
            return None;
        }
        match self.position(key) {
            Some(i) => Some(&self.entries[i].value),
            None => None,
        }
    }

    pub fn get(&mut self, key: &ByteString) -> (r: Option<&RObj>)
        requires
            old(self).wf(),
        ensures
            final(self).wf(),
            exists|now: u128|
                final(self)@ == #[trigger] purged(old(self)@, key@, now) && match r {
                    Some(value) => lookup(old(self)@, key@, now) == Some(value@),
                    None => lookup(old(self)@, key@, now) is None,
                },
    {
        let now = self.now();
        self.get_at(key, now)
    }

    /// Reads `key` at `now` for a change in place: a key past its deadline
    /// is removed and counts as absent. What the caller leaves behind the
    /// reference is what the key holds afterwards.
    pub fn get_mut_at(&mut self, key: &ByteString, now: u128) -> (r: Option<&mut RObj>)
        requires
            old(self).wf(),
        ensures
            match r {
                Some(value) => lookup(old(self)@, key@, now) == Some(value@) && final(self)@
                    == inserted(old(self)@, key@, final(value)@),
                None => lookup(old(self)@, key@, now) is None && final(self)@ == purged(
                    old(self)@,
                    key@,
                    now,
                ),
            },
            final(self).wf(),
    {
        if self.remove_if_expired_at(key, now) {
            return None;
        }
        match self.position(key) {
            Some(i) => {
                Some(self.value_mut(i))
            },
            None => None,
        }
    }

    /// The value at a place, for a change in place.
    fn value_mut(&mut self, place: usize) -> (r: &mut RObj)
        requires
            old(self).wf(),
            place < old(self)@.len(),
        ensures
            *r == old(self).entries@[place as int].value,
            final(self).index == old(self).index,
            final(self).entries@.len() == old(self).entries@.len(),
            final(self)@ == with_value(old(self)@, place as int, final(r)@),
            final(self).wf(),
    {
        proof {
            assert forall|v: Value| slots_in_order(
                #[trigger] with_value(self@, place as int, v),
                self.index,
            ) by {
                lemma_same_keys_in_order(self@, with_value(self@, place as int, v), self.index);
            }
        }
        let entry = &mut self.entries[place];
        &mut entry.value
    }

    /// The keys that are not past their deadline at `now` and for which `f`
    /// says yes, in the order in which they are stored.
    pub fn filter_keys_at<F: Fn(&ByteString) -> bool>(&self, f: F, now: u128) -> (r: Vec<
        &ByteString,
    >)
        requires
            forall|k: &ByteString| #[trigger] f.requires((k,)),
        ensures
            forall|accept: spec_fn(Seq<u8>) -> bool|
                decides(f, accept) ==> ref_views(r@) == #[trigger] matching_keys(
                    self@,
                    now,
                    accept,
                ),
    {
        let mut out: Vec<&ByteString> = Vec::new();
        let mut i: usize = 0;
        while i < self.entries.len()
            invariant
                i <= self.entries.len(),
                forall|k: &ByteString| #[trigger] f.requires((k,)),
                forall|accept: spec_fn(Seq<u8>) -> bool|
                    decides(f, accept) ==> ref_views(out@) == #[trigger] matching_keys(
                        self@.take(i as int),
                        now,
                        accept,
                    ),
            decreases self.entries.len() - i,
        {
            let entry = &self.entries[i];
            let stale = match entry.expires {
                Some(when) => when <= now,
                None => false,
            };
            let ghost before = out@;
            let mut keep = false;
            if !stale {
                keep = f(&entry.key);
            }
            if keep {
                out.push(&entry.key);
            }
            proof {
                let next = self@.take(i + 1);
                assert(next.drop_last() =~= self@.take(i as int));
                assert(next.last() == self@[i as int]);
                assert forall|accept: spec_fn(Seq<u8>) -> bool| decides(f, accept) implies ref_views(
                    out@,
                ) == #[trigger] matching_keys(next, now, accept) by {
                    assert(ref_views(before) == matching_keys(self@.take(i as int), now, accept));
                    if keep {
                        assert(ref_views(out@) =~= ref_views(before).push(entry.key@));
                    }
                }
            }
            i += 1;
        }
        assert(self@.take(self.entries.len() as int) =~= self@);
        out
    }

    /// The keys that are not past their deadline by the clock and for which
    /// `f` says yes.
    pub fn filter_keys<F: Fn(&ByteString) -> bool>(&self, f: F) -> (r: Vec<&ByteString>)
        requires
            forall|k: &ByteString| #[trigger] f.requires((k,)),
        ensures
            forall|accept: spec_fn(Seq<u8>) -> bool|
                decides(f, accept) ==> exists|now: u128|
                    ref_views(r@) == #[trigger] matching_keys(self@, now, accept),
    {
        let now = self.now();
        let r = self.filter_keys_at(f, now);
        proof {
            assert forall|accept: spec_fn(Seq<u8>) -> bool| decides(f, accept) implies exists|
                now: u128,
            |
                ref_views(r@) == #[trigger] matching_keys(self@, now, accept) by {
                assert(ref_views(r@) == matching_keys(self@, now, accept));
            }
        }
        r
    }

    pub fn get_mut(&mut self, key: &ByteString) -> (r: Option<&mut RObj>)
        requires
            old(self).wf(),
        ensures
            exists|now: u128|
                match r {
                    Some(value) => #[trigger] lookup(old(self)@, key@, now) == Some(value@)
                        && final(self)@ == inserted(old(self)@, key@, final(value)@),
                    None => lookup(old(self)@, key@, now) is None && final(self)@ == purged(
                        old(self)@,
                        key@,
                        now,
                    ),
                },
            final(self).wf(),
    {
        let now = self.now();
        self.get_mut_at(key, now)
    }

    /// The room that the store has set aside, in entries.
    pub fn capacity(&self) -> usize {
        vec_capacity(&self.entries)
    }

    /// Whether a read of `key` at `now` would find it.
    pub fn contains_at(&self, key: &ByteString, now: u128) -> (r: bool)
        requires
            self.wf(),
        ensures
            r == is_live(self@, key@, now),
    {
        match self.position(key) {
            Some(i) => match self.entries[i].expires {
                Some(when) => now < when,
                None => true,
            },
            None => false,
        }
    }

    /// Whether a read of `key` would find it, by the clock.
    pub fn contains(&self, key: &ByteString) -> (r: bool)
        requires
            self.wf(),
        ensures
            exists|now: u128| r == #[trigger] is_live(self@, key@, now),
    {
        let now = self.now();
        self.contains_at(key, now)
    }

    pub fn clear(&mut self)
        ensures
            final(self)@ == Seq::<Slot>::empty(),
            final(self).wf(),
    {
        self.entries = Vec::new();
        self.index = PlaceIndex::new();
        assert(self@ =~= Seq::<Slot>::empty());
    }

    pub fn insert(&mut self, key: ByteString, value: RObj)
        requires
            old(self).wf(),
        ensures
            final(self).wf(),
            final(self)@ == inserted(old(self)@, key@, value@),
    {
        proof {
            lemma_distinct_kept(self@, key@, value@, 0, None);
        }
        match self.position(&key) {
            Some(i) => {
                let expires = self.entries[i].expires;
                self.entries.set(i, Entry { key, value, expires });
                assert(self@ =~= inserted(old(self)@, key@, value@));
                assert forall|a: int| 0 <= a < self@.len() implies (#[trigger] self@[a]).key == old(self)@[a].key by {}
            },
            None => {
                let h = hash_bytes(key.as_slice());
                let place = self.entries.len();
                self.entries.push(Entry { key, value, expires: None });
                self.index.add(h, place);
                assert(self@ =~= inserted(old(self)@, key@, value@));
                assert forall|a: int| 0 <= a < old(self)@.len() implies (#[trigger] self@[a]).key
                    == old(self)@[a].key by {}
            },
        }
    }

    pub fn remove(&mut self, key: &ByteString) -> (r: Option<RObj>)
        requires
            old(self).wf(),
        ensures
            final(self).wf(),
            final(self)@ == removed(old(self)@, key@),
            match r {
                Some(value) => has_key(old(self)@, key@) && value@ == old(self)@[key_index(
                    old(self)@,
                    key@,
                )].value,
                None => !has_key(old(self)@, key@),
            },
    {
        proof {
            lemma_distinct_kept(self@, key@, Value::Int(0), 0, None);
        }
        match self.position(key) {
            Some(i) => {
                let last = self.entries.len() - 1;
                let h = hash_bytes(key.as_slice());
                let entry = self.entries.swap_remove(i);
                assert(self@ =~= removed(old(self)@, key@));
                self.index.drop(h, i);
                if i != last {
                    let moved = hash_bytes(self.entries[i].key.as_slice());
                    assert(moved == hash_of(old(self)@[last as int].key));
                    self.index.drop(moved, last);
                    self.index.add(moved, i);
                }
                proof {
                    assert forall|a: int| 0 <= a < self@.len() && a != i implies (
                    #[trigger] self@[a]).key == old(self)@[a].key by {}
                    assert forall|a: int| 0 <= a < self.entries@.len() implies self.index.holds(
                        hash_of((#[trigger] self@[a]).key),
                        a as usize,
                    ) by {
                        if a != i {
                            assert(old(self).index.holds(hash_of(old(self)@[a].key), a as usize));
                        }
                    }
                    assert forall|g: u64, p: usize| #[trigger]
                        self.index.holds(g, p) implies p < self.entries@.len() && hash_of(
                        self@[p as int].key,
                    ) == g by {
                        if old(self).index.holds(g, p) {
                            assert(hash_of(old(self)@[p as int].key) == g);
                        }
                    }
                }
                Some(entry.value)
            },
            None => None,
        }
    }

    /// Gives `key` the deadline `expires_at`, in place of any it had, and
    /// says whether the key is stored.
    pub fn set_expire(&mut self, key: &ByteString, expires_at: u128) -> (r: bool)
        requires
            old(self).wf(),
        ensures
            final(self).wf(),
            r == has_key(old(self)@, key@),
            final(self)@ == with_deadline(old(self)@, key@, Some(expires_at)),
    {
        self.put_deadline(key, Some(expires_at)).0
    }

    pub fn get_expire(&self, key: &ByteString) -> (r: Option<u128>)
        requires
            self.wf(),
        ensures
            r == deadline(self@, key@),
    {
        match self.position(key) {
            Some(i) => self.entries[i].expires,
            None => None,
        }
    }

    /// Takes the deadline of `key` away, and says whether it had one.
    pub fn persist(&mut self, key: &ByteString) -> (r: bool)
        requires
            old(self).wf(),
        ensures
            final(self).wf(),
            r == (deadline(old(self)@, key@) is Some),
            final(self)@ == with_deadline(old(self)@, key@, None),
    {
        self.put_deadline(key, None).1
    }

    /// Sets or clears the deadline of a key; says whether the key is stored
    /// and whether it had a deadline.
    fn put_deadline(&mut self, key: &ByteString, expires: Option<u128>) -> (r: (bool, bool))
        requires
            old(self).wf(),
        ensures
            final(self).wf(),
            r.0 == has_key(old(self)@, key@),
            r.1 == (deadline(old(self)@, key@) is Some),
            final(self)@ == with_deadline(old(self)@, key@, expires),
    {
        match self.position(key) {
            Some(i) => {
                let entry = &mut self.entries[i];
                let had = entry.expires.is_some();
                entry.expires = expires;
                assert(self@ =~= with_deadline(old(self)@, key@, expires));
                proof {
                    lemma_distinct_kept(old(self)@, key@, Value::Int(0), 0, expires);
                    assert forall|a: int| 0 <= a < self@.len() implies (#[trigger] self@[a]).key
                        == old(self)@[a].key by {}
                }
                (true, had)
            },
            None => (false, false),
        }
    }
}

} // verus!
