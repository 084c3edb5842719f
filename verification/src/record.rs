//! Record storage: a shared, ordered key list (a [`Shape`]) plus one value
//! per key.
//!
//! A [`RecordMap`] is a shared [`Shape`] and a `Vec<Value>`. Records made by
//! one literal, and their clones, share one shape. A shape has an id, which
//! is what a [`FieldCache`] remembers (`shape id → slot`): a hit is a compare
//! and an indexed load. A shape's key list never changes under its id: a
//! record whose keys change gets a new shape with a fresh id.
//!
//! The API reads like an insertion-ordered map: insertion order is iteration
//! order, `insert` on an existing key keeps its position, `shift_remove`
//! preserves the order of the rest.

use std::hash::BuildHasher;
use std::hash::RandomState;
use std::sync::Arc;
use std::sync::atomic::AtomicU64;
use std::sync::atomic::Ordering;
use vstd::prelude::*;
use crate::value::Value;

verus! {

/// A record key: a shared, immutable string. Cloning one shares the text.
#[derive(Debug)]
pub struct Key(Arc<String>);

impl View for Key {
    type V = Seq<char>;

    closed spec fn view(&self) -> Seq<char> {
        self.0@
    }
}

/// `Arc::clone`: another handle to the same allocation, so the same value.
#[verifier::external_body]
fn share<T>(a: &Arc<T>) -> (r: Arc<T>)
    ensures
        *r == **a,
{
    Arc::clone(a)
}

/// `Arc::ptr_eq`: whether two handles point at one allocation. One
/// allocation holds one text, so a true answer means equal text; a false
/// one says nothing about the text.
#[verifier::external_body]
fn same_allocation(a: &Arc<String>, b: &Arc<String>) -> (r: bool)
    ensures
        r ==> **a == **b,
{
    Arc::ptr_eq(a, b)
}

impl Clone for Key {
    fn clone(&self) -> (r: Key)
        ensures
            r@ == self@,
    {
        Key(share(&self.0))
    }
}

impl Key {
    /// A key holding `s`.
    pub fn new(s: &str) -> (k: Key)
        ensures
            k@ == s@,
    {
        Key(Arc::new(crate::text::string_from(s)))
    }

    /// The key's text.
    pub fn as_str(&self) -> (s: &str)
        ensures
            s@ == self@,
    {
        self.0.as_str()
    }

    /// Whether two keys are the same allocation (a cheap sufficient test for
    /// equality).
    pub fn ptr_eq(a: &Key, b: &Key) -> (r: bool)
        ensures
            r ==> a@ == b@,
    {
        same_allocation(&a.0, &b.0)
    }
}

/// Anything a record can be keyed by: looked up as text first, and only
/// made into a [`Key`] when the field is new.
pub trait IntoKey: Sized {
    /// The text this key stands for.
    spec fn key_view(&self) -> Seq<char>;

    fn key_str(&self) -> (s: &str)
        ensures
            s@ == self.key_view(),
    ;

    fn into_key(self) -> (k: Key)
        ensures
            k@ == self.key_view(),
    ;
}

impl IntoKey for Key {
    open spec fn key_view(&self) -> Seq<char> {
        self@
    }

    fn key_str(&self) -> (s: &str) {
        self.as_str()
    }

    fn into_key(self) -> (k: Key) {
        self
    }
}

impl<'a> IntoKey for &'a Key {
    open spec fn key_view(&self) -> Seq<char> {
        (**self)@
    }

    fn key_str(&self) -> (s: &str) {
        (**self).as_str()
    }

    fn into_key(self) -> (k: Key) {
        self.clone()
    }
}

impl IntoKey for String {
    open spec fn key_view(&self) -> Seq<char> {
        self@
    }

    fn key_str(&self) -> (s: &str) {
        self.as_str()
    }

    fn into_key(self) -> (k: Key) {
        Key(Arc::new(self))
    }
}

impl<'a> IntoKey for &'a String {
    open spec fn key_view(&self) -> Seq<char> {
        (**self)@
    }

    fn key_str(&self) -> (s: &str) {
        (**self).as_str()
    }

    fn into_key(self) -> (k: Key) {
        Key::new(self.as_str())
    }
}

impl<'a> IntoKey for &'a str {
    open spec fn key_view(&self) -> Seq<char> {
        (*self)@
    }

    fn key_str(&self) -> (s: &str) {
        *self
    }

    fn into_key(self) -> (k: Key) {
        Key::new(self)
    }
}

/// Shapes with more keys than this were, in an earlier layout, also indexed
/// by a hash table; lookups here are a linear scan at every size.
pub const INDEX_MIN: usize = 12;

/// Bits of a packed field-cache word that hold the slot.
pub const SLOT_BITS: u64 = 20;

/// The largest slot a field cache can remember.
pub const SLOT_MASK: u64 = 0xF_FFFF;

/// The first id too large for a field cache to remember (`2^(64 - 20)`).
pub const ID_LIMIT: u64 = 0x1000_0000_0000;

/// `RandomState::new`: a hasher builder with fresh random keys.
#[verifier::external_body]
fn random_state() -> (s: RandomState) {
    RandomState::new()
}

/// `BuildHasher::hash_one` of the byte 0 under `s`: a number that depends
/// on the random keys `s` was built with.
#[verifier::external_body]
fn hash_zero(s: &RandomState) -> (h: u64) {
    s.hash_one(0u8)
}

/// A fresh id for a shape made from the shape `old`: drawn like
/// [`fresh_shape_id`], and never `old` itself, so the new shape is told
/// apart from the one it was made from.
fn fresh_shape_id_after(old: u64) -> (id: u64)
    requires
        1 <= old < ID_LIMIT,
    ensures
        1 <= id < ID_LIMIT,
        id != old,
{
    let id = fresh_shape_id();
    if id != old {
        id
    } else if old + 1 < ID_LIMIT {
        old + 1
    } else {
        1
    }
}

/// An id for a new shape: never 0 (an empty field cache), and below
/// [`ID_LIMIT`] so that a cache can hold it. Ids are drawn at random, so two
/// shapes share one only by chance.
fn fresh_shape_id() -> (id: u64)
    ensures
        1 <= id < ID_LIMIT,
{
    let h = hash_zero(&random_state());
    let id = h >> 20u64;
    proof {
        assert(h >> 20u64 <= 0xFFF_FFFF_FFFF) by (bit_vector);
    }
    if id == 0 {
        1
    } else {
        id
    }
}

/// The UTF-8 length of a key's text.
pub open spec fn key_bytes_of(k: Seq<char>) -> nat {
    (vstd::utf8::encode_utf8(k).len() as usize) as nat
}

/// The total UTF-8 length of a list of key texts.
pub open spec fn total_key_bytes(keys: Seq<Seq<char>>) -> nat
    decreases keys.len(),
{
    if keys.len() == 0 {
        0
    } else {
        total_key_bytes(keys.drop_last()) + key_bytes_of(keys.last())
    }
}

/// No key text occurs twice.
pub open spec fn distinct_keys(keys: Seq<Seq<char>>) -> bool {
    forall|i: int, j: int| 0 <= i < j < keys.len() ==> keys[i] != keys[j]
}

/// An ordered list of record keys, shared by every record with those keys in
/// that order.
#[derive(Debug)]
pub struct Shape {
    id: u64,
    keys: Vec<Key>,
    key_bytes: u64,
}

impl Shape {
    /// The key texts, in order.
    pub closed spec fn key_seq(&self) -> Seq<Seq<char>> {
        self.keys@.map_values(|k: Key| k@)
    }

    /// The shape's id.
    pub closed spec fn id_spec(&self) -> u64 {
        self.id
    }

    #[verifier::type_invariant]
    closed spec fn shape_inv(&self) -> bool {
        &&& 1 <= self.id < ID_LIMIT
        &&& distinct_keys(self.key_seq())
        &&& self.key_bytes == saturated(total_key_bytes(self.key_seq()) as int)
    }
}


/// `n`, or `u64::MAX` when it does not fit.
pub open spec fn saturated(n: int) -> u64 {
    if n > u64::MAX {
        u64::MAX
    } else {
        n as u64
    }
}

/// The index of the first key from `i` on equal to `key`, or the number of
/// keys.
pub open spec fn first_index(keys: Seq<Seq<char>>, key: Seq<char>, i: int) -> int
    decreases keys.len() - i,
{
    if i < 0 || i >= keys.len() {
        keys.len() as int
    } else if keys[i] == key {
        i
    } else {
        first_index(keys, key, i + 1)
    }
}

/// The position of `key` among `keys`, or the number of keys when absent.
pub open spec fn index_of(keys: Seq<Seq<char>>, key: Seq<char>) -> int {
    first_index(keys, key, 0)
}

/// The position of `key`, as an option.
pub open spec fn position_spec(keys: Seq<Seq<char>>, key: Seq<char>) -> Option<usize> {
    if index_of(keys, key) < keys.len() {
        Some(index_of(keys, key) as usize)
    } else {
        None
    }
}

/// The value stored under `key`, if any.
pub open spec fn lookup(keys: Seq<Seq<char>>, values: Seq<Value>, key: Seq<char>) -> Option<Value> {
    if index_of(keys, key) < keys.len() {
        Some(values[index_of(keys, key)])
    } else {
        None
    }
}

pub proof fn lemma_first_index(keys: Seq<Seq<char>>, key: Seq<char>, i: int)
    requires
        0 <= i <= keys.len(),
    ensures
        i <= first_index(keys, key, i) <= keys.len(),
        first_index(keys, key, i) < keys.len() ==> keys[first_index(keys, key, i)] == key,
        forall|j: int| i <= j < first_index(keys, key, i) ==> keys[j] != key,
    decreases keys.len() - i,
{
    if i < keys.len() && keys[i] != key {
        lemma_first_index(keys, key, i + 1);
    }
}

/// In distinct keys, the position of the key at `i` is `i`.
pub proof fn lemma_index_of_distinct(keys: Seq<Seq<char>>, i: int)
    requires
        distinct_keys(keys),
        0 <= i < keys.len(),
    ensures
        index_of(keys, keys[i]) == i,
{
    lemma_first_index(keys, keys[i], 0);
}

proof fn lemma_total_push(keys: Seq<Seq<char>>, k: Seq<char>)
    ensures
        total_key_bytes(keys.push(k)) == total_key_bytes(keys) + key_bytes_of(k),
{
    assert(keys.push(k).drop_last() =~= keys);
}

fn sum_key_bytes(keys: &Vec<Key>) -> (b: u64)
    ensures
        b == saturated(total_key_bytes(keys@.map_values(|k: Key| k@)) as int),
{
    let mut b: u64 = 0;
    let mut i: usize = 0;
    while i < keys.len()
        invariant
            i <= keys@.len(),
            b == saturated(total_key_bytes(keys@.map_values(|k: Key| k@).take(i as int)) as int),
        decreases keys@.len() - i,
    {
        let n = keys[i].as_str().len();
        proof {
            let ks = keys@.map_values(|k: Key| k@);
            assert(ks.take(i + 1) =~= ks.take(i as int).push(ks[i as int]));
            lemma_total_push(ks.take(i as int), ks[i as int]);
            assert(n == key_bytes_of(ks[i as int]));
        }
        b = b.saturating_add(n as u64);
        i = i + 1;
    }
    proof {
        assert(keys@.map_values(|k: Key| k@).take(keys@.len() as int) =~= keys@.map_values(
            |k: Key| k@,
        ));
    }
    b
}

fn clone_keys(keys: &Vec<Key>) -> (r: Vec<Key>)
    ensures
        r@.map_values(|k: Key| k@) == keys@.map_values(|k: Key| k@),
{
    let mut r: Vec<Key> = Vec::new();
    let mut i: usize = 0;
    while i < keys.len()
        invariant
            i <= keys@.len(),
            r@.len() == i,
            r@.map_values(|k: Key| k@) == keys@.map_values(|k: Key| k@).take(i as int),
        decreases keys@.len() - i,
    {
        let ghost before = r@;
        r.push(keys[i].clone());
        proof {
            assert forall|j: int| 0 <= j < i implies r@[j]@ == before[j]@ by {
                assert(r@[j] == before[j]);
            }
            assert(r@.map_values(|k: Key| k@) =~= keys@.map_values(|k: Key| k@).take(
                (i + 1) as int,
            ));
        }
        i = i + 1;
    }
    proof {
        assert(keys@.map_values(|k: Key| k@).take(keys@.len() as int) =~= keys@.map_values(
            |k: Key| k@,
        ));
    }
    r
}

fn key_position(keys: &Vec<Key>, key: &str) -> (r: Option<usize>)
    ensures
        r == position_spec(keys@.map_values(|k: Key| k@), key@),
{
    let ghost ks = keys@.map_values(|k: Key| k@);
    let kc = crate::text::chars_of(key);
    let mut i: usize = 0;
    while i < keys.len()
        invariant
            i <= keys@.len(),
            ks == keys@.map_values(|k: Key| k@),
            kc@ == key@,
            index_of(ks, key@) == first_index(ks, key@, i as int),
        decreases keys@.len() - i,
    {
        if crate::text::chars_eq_str(kc.as_slice(), keys[i].as_str()) {
            return Some(i);
        }
        i = i + 1;
    }
    None
}

impl Shape {
    fn empty() -> (s: Shape)
        ensures
            s.key_seq() == Seq::<Seq<char>>::empty(),
    {
        let s = Shape { id: fresh_shape_id(), keys: Vec::new(), key_bytes: 0 };
        proof {
            assert(s.key_seq() =~= Seq::<Seq<char>>::empty());
        }
        s
    }

    /// The shape of a record literal with these keys, or `None` when a key
    /// repeats.
    pub fn from_keys(keys: Vec<Key>) -> (r: Option<Arc<Shape>>)
        ensures
            match r {
                Some(s) => distinct_keys(keys@.map_values(|k: Key| k@)) && s.key_seq()
                    == keys@.map_values(|k: Key| k@),
                None => !distinct_keys(keys@.map_values(|k: Key| k@)),
            },
    {
        let ghost ks = keys@.map_values(|k: Key| k@);
        let mut i: usize = 0;
        while i < keys.len()
            invariant
                i <= keys@.len(),
                ks == keys@.map_values(|k: Key| k@),
                distinct_keys(ks.take(i as int)),
            decreases keys@.len() - i,
        {
            let mut j: usize = 0;
            while j < i
                invariant
                    j <= i < keys@.len(),
                    ks == keys@.map_values(|k: Key| k@),
                    forall|m: int| 0 <= m < j ==> ks[m] != ks[i as int],
                decreases i - j,
            {
                if crate::text::str_eq(keys[j].as_str(), keys[i].as_str()) {
                    proof {
                        assert(ks[j as int] == keys@[j as int]@);
                        assert(ks[i as int] == keys@[i as int]@);
                    }
                    return None;
                }
                j = j + 1;
            }
            proof {
                assert forall|a: int, b: int| 0 <= a < b < i + 1 implies #[trigger] ks.take(i + 1)[a]
                    != #[trigger] ks.take(i + 1)[b] by {
                    if b < i {
                        assert(ks.take(i as int)[a] != ks.take(i as int)[b]);
                    }
                }
            }
            i = i + 1;
        }
        proof {
            assert(ks.take(keys@.len() as int) =~= ks);
        }
        let key_bytes = sum_key_bytes(&keys);
        let s = Shape { id: fresh_shape_id(), keys, key_bytes };
        Some(Arc::new(s))
    }

    /// The id a field cache keys on.
    pub fn id(&self) -> (id: u64)
        ensures
            id == self.id_spec(),
            1 <= id < ID_LIMIT,
    {
        proof {
            use_type_invariant(self);
        }
        self.id
    }

    /// The keys, in order.
    pub fn keys(&self) -> (ks: &[Key])
        ensures
            ks@.map_values(|k: Key| k@) == self.key_seq(),
    {
        self.keys.as_slice()
    }

    /// The number of keys.
    pub fn len(&self) -> (n: usize)
        ensures
            n == self.key_seq().len(),
    {
        self.keys.len()
    }

    /// Whether the shape has no keys.
    pub fn is_empty(&self) -> (r: bool)
        ensures
            r == (self.key_seq().len() == 0),
    {
        self.keys.len() == 0
    }

    /// The position of `key`, if present.
    pub fn position(&self, key: &str) -> (r: Option<usize>)
        ensures
            r == position_spec(self.key_seq(), key@),
    {
        key_position(&self.keys, key)
    }

    /// This shape with `k` appended, under a fresh id.
    fn with_key(&self, k: Key) -> (s: Shape)
        requires
            index_of(self.key_seq(), k@) == self.key_seq().len(),
        ensures
            s.key_seq() == self.key_seq().push(k@),
            s.id_spec() != self.id_spec(),
    {
        proof {
            use_type_invariant(self);
            lemma_first_index(self.key_seq(), k@, 0);
        }
        let mut keys = clone_keys(&self.keys);
        let ghost before = keys@;
        keys.push(k);
        proof {
            let ks = self.key_seq().push(k@);
            assert forall|a: int, b: int| 0 <= a < b < ks.len() implies #[trigger] ks[a]
                != #[trigger] ks[b] by {
                if b == ks.len() - 1 {
                    assert(self.key_seq()[a] != k@);
                }
            }
            assert forall|j: int| 0 <= j < before.len() implies keys@[j]@ == before[j]@ by {
                assert(keys@[j] == before[j]);
            }
            assert(keys@.map_values(|q: Key| q@) =~= self.key_seq().push(k@));
        }
        let key_bytes = sum_key_bytes(&keys);
        Shape { id: fresh_shape_id_after(self.id), keys, key_bytes }
    }

    /// This shape without the key at `i`, under a fresh id, and that key.
    fn without(&self, i: usize) -> (r: (Shape, Key))
        requires
            i < self.key_seq().len(),
        ensures
            r.0.key_seq() == self.key_seq().remove(i as int),
            r.1@ == self.key_seq()[i as int],
            r.0.id_spec() != self.id_spec(),
    {
        proof {
            use_type_invariant(self);
        }
        let mut keys = clone_keys(&self.keys);
        let ghost before = keys@;
        let k = keys.remove(i);
        proof {
            assert(keys@ == before.remove(i as int));
            assert forall|j: int| 0 <= j < keys@.len() implies #[trigger] keys@[j]@ == self.key_seq().remove(i as int)[j] by {
                if j < i {
                    assert(keys@[j] == before[j]);
                } else {
                    assert(keys@[j] == before[j + 1]);
                }
            }
            assert(keys@.map_values(|q: Key| q@) =~= self.key_seq().remove(i as int));
            assert forall|a: int, b: int| 0 <= a < b < keys@.len() implies #[trigger] self.key_seq().remove(i as int)[a]
                != #[trigger] self.key_seq().remove(i as int)[b] by {
                let ks = self.key_seq();
                if a < i && b < i {
                } else if a < i {
                    assert(ks[a] != ks[b + 1]);
                } else {
                    assert(ks[a + 1] != ks[b + 1]);
                }
            }
        }
        let key_bytes = sum_key_bytes(&keys);
        (Shape { id: fresh_shape_id_after(self.id), keys, key_bytes }, k)
    }
}


/// `Vec::capacity`: how many values the vector holds room for, never fewer
/// than it holds.
#[verifier::external_body]
fn vec_capacity(v: &Vec<Value>) -> (n: usize)
    ensures
        n >= v@.len(),
{
    v.capacity()
}

/// A record's fields: name → value, in insertion order.
#[derive(Debug)]
pub struct RecordMap {
    shape: Arc<Shape>,
    values: Vec<Value>,
}

impl RecordMap {
    /// The field names, in order.
    pub closed spec fn keys_spec(&self) -> Seq<Seq<char>> {
        self.shape.key_seq()
    }

    /// The field values, in key order.
    pub closed spec fn values_spec(&self) -> Seq<Value> {
        self.values@
    }

    /// The id of the record's shape.
    pub closed spec fn shape_id_spec(&self) -> u64 {
        self.shape.id_spec()
    }

    #[verifier::type_invariant]
    closed spec fn record_inv(&self) -> bool {
        self.shape.key_seq().len() == self.values@.len()
    }

    /// The value under `key`, if any.
    pub open spec fn lookup_spec(&self, key: Seq<char>) -> Option<Value> {
        lookup(self.keys_spec(), self.values_spec(), key)
    }

    proof fn lemma_lookup_at(&self, key: Seq<char>, i: usize)
        requires
            self.record_inv(),
            self.values_spec().len() <= usize::MAX,
            Some(i) == position_spec(self.keys_spec(), key),
        ensures
            self.lookup_spec(key) == Some(self.values_spec()[i as int]),
            (i as int) < self.values_spec().len(),
            self.keys_spec()[i as int] == key,
    {
        lemma_first_index(self.keys_spec(), key, 0);
    }

    /// An empty record with room for `n` values.
    pub fn with_capacity(n: usize) -> (m: RecordMap)
        ensures
            m.keys_spec() == Seq::<Seq<char>>::empty(),
            m.values_spec() == Seq::<Value>::empty(),
    {
        RecordMap { shape: Arc::new(Shape::empty()), values: Vec::with_capacity(n) }
    }

    /// A record of `shape` holding `values` in the shape's key order.
    pub fn from_shape(shape: Arc<Shape>, values: Vec<Value>) -> (m: RecordMap)
        requires
            shape.key_seq().len() == values@.len(),
        ensures
            m.keys_spec() == shape.key_seq(),
            m.values_spec() == values@,
            m.shape_id_spec() == shape.id_spec(),
    {
        RecordMap { shape, values }
    }

    /// The record's shape.
    pub fn shape(&self) -> (s: &Arc<Shape>)
        ensures
            s.key_seq() == self.keys_spec(),
            s.id_spec() == self.shape_id_spec(),
    {
        &self.shape
    }

    /// Shorthand for `shape().id()`.
    pub fn shape_id(&self) -> (id: u64)
        ensures
            id == self.shape_id_spec(),
    {
        self.shape.id()
    }

    /// The values, in key order.
    pub fn values_slice(&self) -> (v: &[Value])
        ensures
            v@ == self.values_spec(),
    {
        self.values.as_slice()
    }

    /// Payload bytes for the heap's accounting: key text plus values.
    pub fn payload_bytes(&self) -> (n: u64)
        ensures
            n == saturated(
                saturated(total_key_bytes(self.keys_spec()) as int) + self.values_spec().len()
                    * vstd::layout::size_of_as_usize::<Value>(),
            ),
    {
        proof {
            use_type_invariant(&*self.shape);
        }
        let per = core::mem::size_of::<Value>() as u64;
        let count = self.values.len() as u64;
        let vals = match count.checked_mul(per) {
            Some(x) => x,
            None => u64::MAX,
        };
        self.shape.key_bytes.saturating_add(vals)
    }

    /// The number of fields.
    pub fn len(&self) -> (n: usize)
        ensures
            n == self.values_spec().len(),
            n == self.keys_spec().len(),
    {
        proof {
            use_type_invariant(self);
        }
        self.values.len()
    }

    /// Whether the record has no fields.
    pub fn is_empty(&self) -> (r: bool)
        ensures
            r == (self.keys_spec().len() == 0),
    {
        proof {
            use_type_invariant(self);
        }
        self.values.len() == 0
    }

    /// How many values the record holds room for.
    pub fn capacity(&self) -> (n: usize)
        ensures
            n >= self.values_spec().len(),
    {
        vec_capacity(&self.values)
    }

    /// The position of `key`, if present.
    pub fn get_index_of(&self, key: &str) -> (r: Option<usize>)
        ensures
            r == position_spec(self.keys_spec(), key@),
    {
        self.shape.position(key)
    }

    /// The value under `key`, if present.
    pub fn get(&self, key: &str) -> (r: Option<&Value>)
        ensures
            match r {
                Some(v) => self.lookup_spec(key@) == Some(*v),
                None => self.lookup_spec(key@) is None,
            },
    {
        proof {
            use_type_invariant(self);
            lemma_first_index(self.keys_spec(), key@, 0);
        }
        match self.shape.position(key) {
            Some(i) => {
                let n = self.values.len();
                proof {
                    self.lemma_lookup_at(key@, i);
                }
                Some(&self.values[i])
            },
            None => None,
        }
    }

    /// Whether `key` is a field.
    pub fn contains_key(&self, key: &str) -> (r: bool)
        ensures
            r == (self.lookup_spec(key@) is Some),
    {
        self.shape.position(key).is_some()
    }

    /// The position, key and value under `key`, if present.
    pub fn get_full(&self, key: &str) -> (r: Option<(usize, &Key, &Value)>)
        ensures
            match r {
                Some(t) => {
                    &&& position_spec(self.keys_spec(), key@) == Some(t.0)
                    &&& t.1@ == key@
                    &&& self.lookup_spec(key@) == Some(*t.2)
                },
                None => self.lookup_spec(key@) is None,
            },
    {
        proof {
            use_type_invariant(self);
            lemma_first_index(self.keys_spec(), key@, 0);
        }
        match self.shape.position(key) {
            Some(i) => {
                let n = self.values.len();
                proof {
                    self.lemma_lookup_at(key@, i);
                    assert(self.shape.keys@[i as int]@ == self.keys_spec()[i as int]);
                }
                Some((i, &self.shape.keys[i], &self.values[i]))
            },
            None => None,
        }
    }

    /// The stored key and value under `key`, if present.
    pub fn get_key_value(&self, key: &str) -> (r: Option<(&Key, &Value)>)
        ensures
            match r {
                Some(t) => t.0@ == key@ && self.lookup_spec(key@) == Some(*t.1),
                None => self.lookup_spec(key@) is None,
            },
    {
        match self.get_full(key) {
            Some((_, k, v)) => Some((k, v)),
            None => None,
        }
    }

    /// The key and value at position `i`, if there is one.
    pub fn get_index(&self, i: usize) -> (r: Option<(&Key, &Value)>)
        ensures
            match r {
                Some(t) => i < self.keys_spec().len() && t.0@ == self.keys_spec()[i as int] && *t.1
                    == self.values_spec()[i as int],
                None => i >= self.keys_spec().len(),
            },
    {
        proof {
            use_type_invariant(self);
        }
        if i < self.values.len() {
            Some((&self.shape.keys[i], &self.values[i]))
        } else {
            None
        }
    }

    /// The first field, if any.
    pub fn first(&self) -> (r: Option<(&Key, &Value)>)
        ensures
            match r {
                Some(t) => self.keys_spec().len() > 0 && t.0@ == self.keys_spec()[0] && *t.1
                    == self.values_spec()[0],
                None => self.keys_spec().len() == 0,
            },
    {
        self.get_index(0)
    }

    /// The last field, if any.
    pub fn last(&self) -> (r: Option<(&Key, &Value)>)
        ensures
            match r {
                Some(t) => self.keys_spec().len() > 0 && t.0@ == self.keys_spec().last() && *t.1
                    == self.values_spec().last(),
                None => self.keys_spec().len() == 0,
            },
    {
        let n = self.len();
        if n == 0 {
            None
        } else {
            self.get_index(n - 1)
        }
    }

    /// The keys, in order.
    pub fn keys(&self) -> (ks: &[Key])
        ensures
            ks@.map_values(|k: Key| k@) == self.keys_spec(),
    {
        self.shape.keys()
    }

    /// The values, in key order.
    pub fn values(&self) -> (vs: &[Value])
        ensures
            vs@ == self.values_spec(),
    {
        self.values.as_slice()
    }
}


fn copy_values(v: &Vec<Value>) -> (r: Vec<Value>)
    ensures
        r@ == v@,
{
    let mut r: Vec<Value> = Vec::with_capacity(v.len());
    let mut i: usize = 0;
    while i < v.len()
        invariant
            i <= v@.len(),
            r@ == v@.take(i as int),
        decreases v@.len() - i,
    {
        r.push(v[i]);
        proof {
            assert(r@ =~= v@.take((i + 1) as int));
        }
        i = i + 1;
    }
    proof {
        assert(v@.take(v@.len() as int) =~= v@);
    }
    r
}

impl Clone for RecordMap {
    /// A copy sharing this record's shape.
    fn clone(&self) -> (r: RecordMap)
        ensures
            r.keys_spec() == self.keys_spec(),
            r.values_spec() == self.values_spec(),
            r.shape_id_spec() == self.shape_id_spec(),
    {
        proof {
            use_type_invariant(self);
        }
        RecordMap { shape: share(&self.shape), values: copy_values(&self.values) }
    }
}


impl RecordMap {
    /// Move the shape and values out, leaving an empty record behind.
    fn take_parts(&mut self) -> (r: (Arc<Shape>, Vec<Value>))
        ensures
            r.0.key_seq() == old(self).keys_spec(),
            r.0.id_spec() == old(self).shape_id_spec(),
            r.1@ == old(self).values_spec(),
            r.0.key_seq().len() == r.1@.len(),
    {
        proof {
            use_type_invariant(&*self);
        }
        let mut tmp = RecordMap { shape: Arc::new(Shape::empty()), values: Vec::new() };
        std::mem::swap(self, &mut tmp);
        proof {
            use_type_invariant(&tmp);
        }
        let RecordMap { shape, values } = tmp;
        (shape, values)
    }

    /// Set `key` to `val`. An existing key keeps its position (and the record
    /// its shape); a new one is appended under a new shape. Returns the old
    /// value, if any.
    pub fn insert<K: IntoKey>(&mut self, key: K, val: Value) -> (r: Option<Value>)
        ensures
            r == old(self).lookup_spec(key.key_view()),
            (final(self).keys_spec(), final(self).values_spec()) == insert_entries(
                old(self).keys_spec(),
                old(self).values_spec(),
                key.key_view(),
                val,
            ),
            match r {
                Some(_) => {
                    &&& final(self).keys_spec() == old(self).keys_spec()
                    &&& final(self).values_spec() == old(self).values_spec().update(
                        index_of(old(self).keys_spec(), key.key_view()),
                        val,
                    )
                    &&& final(self).shape_id_spec() == old(self).shape_id_spec()
                },
                None => {
                    &&& final(self).keys_spec() == old(self).keys_spec().push(key.key_view())
                    &&& final(self).values_spec() == old(self).values_spec().push(val)
                    &&& final(self).shape_id_spec() != old(self).shape_id_spec()
                },
            },
    {
        let (_, r) = self.insert_full(key, val);
        r
    }

    /// Like [`insert`](Self::insert), also returning the key's position.
    pub fn insert_full<K: IntoKey>(&mut self, key: K, val: Value) -> (r: (usize, Option<Value>))
        ensures
            r.1 == old(self).lookup_spec(key.key_view()),
            r.0 == index_of(old(self).keys_spec(), key.key_view()),
            match r.1 {
                Some(_) => {
                    &&& final(self).keys_spec() == old(self).keys_spec()
                    &&& final(self).values_spec() == old(self).values_spec().update(r.0 as int, val)
                    &&& final(self).shape_id_spec() == old(self).shape_id_spec()
                },
                None => {
                    &&& final(self).keys_spec() == old(self).keys_spec().push(key.key_view())
                    &&& final(self).values_spec() == old(self).values_spec().push(val)
                    &&& final(self).shape_id_spec() != old(self).shape_id_spec()
                },
            },
    {
        proof {
            use_type_invariant(&*self);
            lemma_first_index(self.keys_spec(), key.key_view(), 0);
        }
        match self.shape.position(key.key_str()) {
            Some(i) => {
                let n = self.values.len();
                proof {
                    self.lemma_lookup_at(key.key_view(), i);
                }
                let old_val = self.values[i];
                let (shape, mut values) = self.take_parts();
                values.set(i, val);
                *self = RecordMap { shape, values };
                (i, Some(old_val))
            },
            None => {
                let (shape, mut values) = self.take_parts();
                let k = key.into_key();
                let grown = shape.with_key(k);
                let i = values.len();
                values.push(val);
                *self = RecordMap { shape: Arc::new(grown), values };
                (i, None)
            },
        }
    }

    /// Remove `key`, keeping the order of the rest; the record takes a new
    /// shape. Returns the removed value, if any.
    pub fn shift_remove(&mut self, key: &str) -> (r: Option<Value>)
        ensures
            r == old(self).lookup_spec(key@),
            match r {
                Some(_) => {
                    &&& final(self).keys_spec() == old(self).keys_spec().remove(
                        index_of(old(self).keys_spec(), key@),
                    )
                    &&& final(self).values_spec() == old(self).values_spec().remove(
                        index_of(old(self).keys_spec(), key@),
                    )
                    &&& final(self).shape_id_spec() != old(self).shape_id_spec()
                },
                None => final(self).keys_spec() == old(self).keys_spec() && final(self).values_spec()
                    == old(self).values_spec() && final(self).shape_id_spec() == old(
                    self,
                ).shape_id_spec(),
            },
            distinct_keys(old(self).keys_spec()),
            distinct_keys(final(self).keys_spec()),
            final(self).lookup_spec(key@) is None,
            forall|other: Seq<char>| other != key@ ==> #[trigger] final(self).lookup_spec(other) == old(self).lookup_spec(other),
    {
        match self.shift_remove_entry(key) {
            Some((_, v)) => Some(v),
            None => None,
        }
    }

    /// Remove `key`, keeping the order of the rest, and return the stored key
    /// and value.
    pub fn shift_remove_entry(&mut self, key: &str) -> (r: Option<(Key, Value)>)
        ensures
            match r {
                Some(t) => {
                    &&& old(self).lookup_spec(key@) == Some(t.1)
                    &&& t.0@ == key@
                    &&& final(self).keys_spec() == old(self).keys_spec().remove(
                        index_of(old(self).keys_spec(), key@),
                    )
                    &&& final(self).values_spec() == old(self).values_spec().remove(
                        index_of(old(self).keys_spec(), key@),
                    )
                    &&& final(self).shape_id_spec() != old(self).shape_id_spec()
                },
                None => {
                    &&& old(self).lookup_spec(key@) is None
                    &&& final(self).keys_spec() == old(self).keys_spec()
                    &&& final(self).values_spec() == old(self).values_spec()
                    &&& final(self).shape_id_spec() == old(self).shape_id_spec()
                },
            },
            distinct_keys(old(self).keys_spec()),
            distinct_keys(final(self).keys_spec()),
            final(self).lookup_spec(key@) is None,
            forall|other: Seq<char>| other != key@ ==> #[trigger] final(self).lookup_spec(other) == old(self).lookup_spec(other),
    {
        proof {
            use_type_invariant(&*self);
            use_type_invariant(&*self.shape);
            lemma_first_index(self.keys_spec(), key@, 0);
        }
        match self.shape.position(key) {
            Some(i) => {
                let n = self.values.len();
                proof {
                    self.lemma_lookup_at(key@, i);
                }
                let (shape, mut values) = self.take_parts();
                let (smaller, k) = shape.without(i);
                let v = values.remove(i);
                let ghost ks = old(self).keys_spec();
                let ghost vs = old(self).values_spec();
                *self = RecordMap { shape: Arc::new(smaller), values };
                proof {
                    use_type_invariant(&*self.shape);
                    assert forall|other: Seq<char>| #![trigger lookup(ks.remove(i as int), vs.remove(i as int), other)] true implies lookup(ks.remove(i as int), vs.remove(i as int), other) == if other == ks[i as int] {
                        None
                    } else {
                        lookup(ks, vs, other)
                    } by {
                        lemma_lookup_remove(ks, vs, i as int, other);
                    }
                }
                Some((k, v))
            },
            None => {
                proof {
                    assert forall|j: int| 0 <= j < self.keys_spec().len() implies self.keys_spec()[j] != key@ by {
                        lemma_first_index(self.keys_spec(), key@, 0);
                    }
                }
                None
            },
        }
    }

    /// Remove every field.
    pub fn clear(&mut self)
        ensures
            final(self).keys_spec() == Seq::<Seq<char>>::empty(),
            final(self).values_spec() == Seq::<Value>::empty(),
    {
        *self = RecordMap { shape: Arc::new(Shape::empty()), values: Vec::new() };
    }
}


/// Key texts in strictly increasing order (the order of `str`).
pub open spec fn keys_ascending(keys: Seq<Seq<char>>) -> bool {
    forall|i: int, j: int| 0 <= i < j < keys.len() ==> crate::package::seq_lt(#[trigger] keys[i], #[trigger] keys[j])
}

/// Keys in ascending order follow `str`'s order: no key comes after one of
/// its own extensions (a prefix sorts first), and of two keys that differ
/// after a common prefix, the one with the smaller next character comes
/// first.
pub proof fn law_ascending_keys_put_prefixes_first(keys: Seq<Seq<char>>, i: int, j: int, rest: Seq<char>)
    requires
        keys_ascending(keys),
        0 <= i < j < keys.len(),
    ensures
        keys[i] != keys[j] + rest,
        forall|p: int|
            0 <= p < keys[i].len() && p < keys[j].len() && keys[i].take(p) == keys[j].take(p) && keys[i][p]
                != keys[j][p] ==> keys[i][p] < keys[j][p],
{
    assert(crate::package::seq_lt(keys[i], keys[j]));
    crate::package::law_seq_lt_is_lexicographic(keys[j], rest);
    crate::package::law_seq_lt_is_lexicographic(keys[i], keys[j]);
    assert forall|p: int|
        0 <= p < keys[i].len() && p < keys[j].len() && keys[i].take(p) == keys[j].take(p) && keys[i][p] != keys[j][p]
            implies keys[i][p] < keys[j][p] by {
        let a = keys[i];
        let b = keys[j];
        let q = choose|q: int|
            0 <= q <= a.len() && q <= b.len() && #[trigger] a.take(q) == b.take(q) && ((q == a.len() && q < b.len()) || (q
                < a.len() && q < b.len() && a[q] < b[q]));
        if q < p {
            assert(a.take(p)[q] == b.take(p)[q]);
        } else if q > p {
            assert(a.take(q)[p] == b.take(q)[p]);
        }
    }
}

/// In distinct keys, the key at `i` finds the value at `i`.
proof fn lemma_lookup_distinct(keys: Seq<Seq<char>>, values: Seq<Value>, i: int)
    requires
        distinct_keys(keys),
        keys.len() == values.len(),
        0 <= i < keys.len(),
    ensures
        lookup(keys, values, keys[i]) == Some(values[i]),
{
    lemma_index_of_distinct(keys, i);
}

/// A key that occurs nowhere is not found.
proof fn lemma_lookup_absent(keys: Seq<Seq<char>>, values: Seq<Value>, key: Seq<char>)
    requires
        forall|j: int| 0 <= j < keys.len() ==> keys[j] != key,
    ensures
        lookup(keys, values, key) is None,
{
    lemma_first_index(keys, key, 0);
}

/// Dropping the field at `m` from distinct keys forgets that key and keeps
/// every other lookup.
proof fn lemma_lookup_remove(keys: Seq<Seq<char>>, values: Seq<Value>, m: int, key: Seq<char>)
    requires
        distinct_keys(keys),
        keys.len() == values.len(),
        0 <= m < keys.len(),
    ensures
        lookup(keys.remove(m), values.remove(m), key) == if key == keys[m] {
            None
        } else {
            lookup(keys, values, key)
        },
{
    let ks = keys.remove(m);
    let vs = values.remove(m);
    assert forall|a: int, b: int| 0 <= a < b < ks.len() implies #[trigger] ks[a] != #[trigger] ks[b] by {
        if a < m && b < m {
        } else if a < m {
            assert(keys[a] != keys[b + 1]);
        } else {
            assert(keys[a + 1] != keys[b + 1]);
        }
    }
    if key == keys[m] {
        assert forall|j: int| 0 <= j < ks.len() implies ks[j] != key by {
            if j < m {
                assert(keys[j] != keys[m]);
            } else {
                assert(keys[j + 1] != keys[m]);
            }
        }
        lemma_lookup_absent(ks, vs, key);
    } else if exists|j: int| 0 <= j < keys.len() && keys[j] == key {
        let j = choose|j: int| 0 <= j < keys.len() && keys[j] == key;
        lemma_lookup_distinct(keys, values, j);
        if j < m {
            assert(ks[j] == key);
            lemma_lookup_distinct(ks, vs, j);
        } else {
            assert(ks[j - 1] == key);
            lemma_lookup_distinct(ks, vs, j - 1);
        }
    } else {
        lemma_lookup_absent(keys, values, key);
        assert forall|j: int| 0 <= j < ks.len() implies ks[j] != key by {
            if j < m {
                assert(keys[j] != key);
            } else {
                assert(keys[j + 1] != key);
            }
        }
        lemma_lookup_absent(ks, vs, key);
    }
}

/// Appending a new key `a` with value `v` finds `v` under `a` and keeps
/// every other lookup.
proof fn lemma_lookup_push(keys: Seq<Seq<char>>, values: Seq<Value>, a: Seq<char>, v: Value, key: Seq<char>)
    requires
        keys.len() == values.len(),
        forall|j: int| 0 <= j < keys.len() ==> keys[j] != a,
    ensures
        lookup(keys.push(a), values.push(v), key) == if key == a {
            Some(v)
        } else {
            lookup(keys, values, key)
        },
{
    lemma_first_index(keys, key, 0);
    lemma_first_index(keys.push(a), key, 0);
    let i = index_of(keys, key);
    let i2 = index_of(keys.push(a), key);
    if i < keys.len() {
        assert(keys.push(a)[i] == key);
        if i2 < i {
            assert(keys[i2] == key);
        }
    } else if key == a {
        assert(keys.push(a)[keys.len() as int] == a);
    } else {
        if i2 < keys.len() {
            assert(keys[i2] == key);
        }
    }
}

/// The index of the least key of distinct, nonempty `keys`.
fn least_key(keys: &Vec<Key>) -> (m: usize)
    requires
        keys@.len() > 0,
        distinct_keys(keys@.map_values(|k: Key| k@)),
    ensures
        m < keys@.len(),
        forall|j: int| 0 <= j < keys@.len() && j != m ==> crate::package::seq_lt(
            keys@[m as int]@,
            #[trigger] keys@[j]@,
        ),
{
    let ghost ks = keys@.map_values(|k: Key| k@);
    let mut best: usize = 0;
    let mut best_chars = crate::text::chars_of(keys[0].as_str());
    let mut i: usize = 1;
    while i < keys.len()
        invariant
            1 <= i <= keys@.len(),
            best < i,
            ks == keys@.map_values(|k: Key| k@),
            distinct_keys(ks),
            best_chars@ == keys@[best as int]@,
            forall|j: int| 0 <= j < i && j != best ==> crate::package::seq_lt(
                keys@[best as int]@,
                #[trigger] keys@[j]@,
            ),
        decreases keys@.len() - i,
    {
        let cand = crate::text::chars_of(keys[i].as_str());
        proof {
            assert(ks[i as int] == keys@[i as int]@);
            assert(ks[best as int] == keys@[best as int]@);
            assert(ks[i as int] != ks[best as int]);
        }
        if crate::package::chars_lt(cand.as_slice(), best_chars.as_slice()) {
            proof {
                assert forall|j: int| 0 <= j < i + 1 && j != i implies crate::package::seq_lt(
                    keys@[i as int]@,
                    #[trigger] keys@[j]@,
                ) by {
                    if j != best {
                        crate::package::lemma_seq_lt_trans(keys@[i as int]@, keys@[best as int]@, keys@[j]@);
                    }
                }
            }
            best = i;
            best_chars = cand;
        } else {
            proof {
                crate::package::lemma_seq_lt_total(keys@[i as int]@, keys@[best as int]@);
            }
        }
        i = i + 1;
    }
    best
}

impl RecordMap {
    /// The value under `key`, to change in place; the keys and the shape
    /// stay as they are.
    pub fn get_mut(&mut self, key: &str) -> (r: Option<&mut Value>)
        ensures
            r is None <==> old(self).lookup_spec(key@) is None,
            match r {
                Some(v) => {
                    &&& old(self).lookup_spec(key@) == Some(*v)
                    &&& index_of(old(self).keys_spec(), key@) < old(self).values_spec().len()
                    &&& final(self).keys_spec() == old(self).keys_spec()
                    &&& final(self).shape_id_spec() == old(self).shape_id_spec()
                    &&& final(self).values_spec() == old(self).values_spec().update(
                        index_of(old(self).keys_spec(), key@),
                        *final(v),
                    )
                },
                None => *final(self) == *old(self),
            },
    {
        proof {
            use_type_invariant(&*self);
            lemma_first_index(self.keys_spec(), key@, 0);
        }
        match self.shape.position(key) {
            Some(i) => {
                let n = self.values.len();
                proof {
                    self.lemma_lookup_at(key@, i);
                }
                Some(&mut self.values[i])
            },
            None => None,
        }
    }

    /// Sort the fields by key (the order of `str`), each keeping its value;
    /// the record takes a new shape.
    pub fn sort_keys(&mut self)
        ensures
            keys_ascending(final(self).keys_spec()),
            final(self).keys_spec().len() == old(self).keys_spec().len(),
            forall|k: Seq<char>| #[trigger] final(self).lookup_spec(k) == old(self).lookup_spec(k),
    {
        proof {
            use_type_invariant(&*self);
            use_type_invariant(&*self.shape);
        }
        let ghost orig_keys = self.keys_spec();
        let ghost orig_values = self.values_spec();
        let (shape, values) = self.take_parts();
        let mut rest_keys = clone_keys(&shape.keys);
        let mut rest_values = values;
        let mut keys: Vec<Key> = Vec::new();
        let mut vals: Vec<Value> = Vec::new();
        proof {
            assert(keys@.map_values(|k: Key| k@) =~= Seq::<Seq<char>>::empty());
            assert forall|k: Seq<char>| #[trigger] lookup(orig_keys, orig_values, k) == match lookup(
                keys@.map_values(|q: Key| q@),
                vals@,
                k,
            ) {
                Some(v) => Some(v),
                None => lookup(rest_keys@.map_values(|q: Key| q@), rest_values@, k),
            } by {
                lemma_lookup_absent(keys@.map_values(|q: Key| q@), vals@, k);
            }
        }
        while rest_keys.len() > 0
            invariant
                rest_keys@.len() == rest_values@.len(),
                keys@.len() == vals@.len(),
                keys@.len() + rest_keys@.len() == orig_keys.len(),
                distinct_keys(rest_keys@.map_values(|q: Key| q@)),
                keys_ascending(keys@.map_values(|q: Key| q@)),
                forall|a: int, b: int| 0 <= a < keys@.len() && 0 <= b < rest_keys@.len()
                    ==> crate::package::seq_lt(#[trigger] keys@[a]@, #[trigger] rest_keys@[b]@),
                forall|k: Seq<char>| #[trigger] lookup(orig_keys, orig_values, k) == match lookup(
                    keys@.map_values(|q: Key| q@),
                    vals@,
                    k,
                ) {
                    Some(v) => Some(v),
                    None => lookup(rest_keys@.map_values(|q: Key| q@), rest_values@, k),
                },
            decreases rest_keys@.len(),
        {
            let m = least_key(&rest_keys);
            let ghost rk = rest_keys@.map_values(|q: Key| q@);
            let ghost rv = rest_values@;
            let ghost ok = keys@.map_values(|q: Key| q@);
            let ghost ov = vals@;
            let ghost old_rest = rest_keys@;
            let ghost old_out = keys@;
            let k = rest_keys.remove(m);
            let v = rest_values.remove(m);
            let ghost a = k@;
            keys.push(k);
            vals.push(v);
            proof {
                assert(a == rk[m as int]);
                assert(rest_keys@.map_values(|q: Key| q@) =~= rk.remove(m as int));
                assert(rest_values@ =~= rv.remove(m as int));
                assert(keys@.map_values(|q: Key| q@) =~= ok.push(a));
                assert(vals@ =~= ov.push(v));
                assert forall|j: int| 0 <= j < ok.len() implies ok[j] != a by {
                    assert(ok[j] == old_out[j]@);
                    assert(crate::package::seq_lt(old_out[j]@, old_rest[m as int]@));
                    crate::package::lemma_seq_lt_irreflexive(a);
                }
                lemma_lookup_distinct(rk, rv, m as int);
                assert forall|k2: Seq<char>| #[trigger] lookup(orig_keys, orig_values, k2) == match lookup(
                    keys@.map_values(|q: Key| q@),
                    vals@,
                    k2,
                ) {
                    Some(x) => Some(x),
                    None => lookup(rest_keys@.map_values(|q: Key| q@), rest_values@, k2),
                } by {
                    lemma_lookup_push(ok, ov, a, v, k2);
                    lemma_lookup_remove(rk, rv, m as int, k2);
                    if k2 == a {
                        lemma_lookup_absent(ok, ov, a);
                    }
                }
                let nk = keys@.map_values(|q: Key| q@);
                assert forall|i: int, j: int| 0 <= i < j < nk.len() implies crate::package::seq_lt(
                    #[trigger] nk[i],
                    #[trigger] nk[j],
                ) by {
                    if j == nk.len() - 1 {
                        assert(nk[i] == old_out[i]@);
                        assert(crate::package::seq_lt(old_out[i]@, old_rest[m as int]@));
                    } else {
                        assert(nk[i] == ok[i] && nk[j] == ok[j]);
                    }
                }
                assert forall|x: int, y: int| 0 <= x < keys@.len() && 0 <= y < rest_keys@.len()
                    implies crate::package::seq_lt(#[trigger] keys@[x]@, #[trigger] rest_keys@[y]@) by {
                    let yy = if y < m { y } else { y + 1 };
                    assert(rest_keys@[y] == old_rest[yy]);
                    if x == keys@.len() - 1 {
                        assert(keys@[x]@ == old_rest[m as int]@);
                    } else {
                        assert(keys@[x] == old_out[x]);
                    }
                }
                let nr = rest_keys@.map_values(|q: Key| q@);
                assert forall|x: int, y: int| 0 <= x < y < nr.len() implies #[trigger] nr[x] != #[trigger] nr[y] by {
                    if x < m && y < m {
                        assert(rk[x] != rk[y]);
                    } else if x < m {
                        assert(rk[x] != rk[y + 1]);
                    } else {
                        assert(rk[x + 1] != rk[y + 1]);
                    }
                }
            }
        }
        proof {
            let nk = keys@.map_values(|q: Key| q@);
            assert forall|k: Seq<char>| #[trigger] lookup(nk, vals@, k) == lookup(orig_keys, orig_values, k) by {
                lemma_lookup_absent(rest_keys@.map_values(|q: Key| q@), rest_values@, k);
            }
            assert forall|x: int, y: int| 0 <= x < y < nk.len() implies #[trigger] nk[x] != #[trigger] nk[y] by {
                crate::package::lemma_seq_lt_irreflexive(nk[x]);
            }
        }
        let key_bytes = sum_key_bytes(&keys);
        let sorted = Shape { id: fresh_shape_id(), keys, key_bytes };
        *self = RecordMap { shape: Arc::new(sorted), values: vals };
    }
}


/// The fields after setting `key` to `val`: an existing key keeps its
/// position, a new one goes last.
pub open spec fn insert_entries(
    keys: Seq<Seq<char>>,
    values: Seq<Value>,
    key: Seq<char>,
    val: Value,
) -> (Seq<Seq<char>>, Seq<Value>) {
    let i = index_of(keys, key);
    if i < keys.len() {
        (keys, values.update(i, val))
    } else {
        (keys.push(key), values.push(val))
    }
}

/// The fields after inserting each pair in turn.
pub open spec fn extend_entries<K: IntoKey>(
    keys: Seq<Seq<char>>,
    values: Seq<Value>,
    pairs: Seq<(K, Value)>,
) -> (Seq<Seq<char>>, Seq<Value>)
    decreases pairs.len(),
{
    if pairs.len() == 0 {
        (keys, values)
    } else {
        let before = extend_entries(keys, values, pairs.drop_last());
        insert_entries(before.0, before.1, pairs.last().0.key_view(), pairs.last().1)
    }
}

/// Two records are equal when they have the same keys, in any order, with
/// equal values.
pub open spec fn same_fields(
    keys: Seq<Seq<char>>,
    values: Seq<Value>,
    other_keys: Seq<Seq<char>>,
    other_values: Seq<Value>,
) -> bool {
    &&& keys.len() == other_keys.len()
    &&& forall|i: int|
        0 <= i < keys.len() ==> #[trigger] lookup(other_keys, other_values, keys[i]) == Some(
            values[i],
        )
}

impl Default for RecordMap {
    /// An empty record.
    fn default() -> (m: RecordMap)
        ensures
            m.keys_spec() == Seq::<Seq<char>>::empty(),
            m.values_spec() == Seq::<Value>::empty(),
    {
        RecordMap { shape: Arc::new(Shape::empty()), values: Vec::new() }
    }
}

impl RecordMap {
    /// The fields as `(key, value)` pairs, in order.
    pub fn iter(&self) -> (r: Vec<(&Key, &Value)>)
        ensures
            r@.len() == self.keys_spec().len(),
            forall|i: int|
                0 <= i < r@.len() ==> (#[trigger] r@[i]).0@ == self.keys_spec()[i] && *r@[i].1
                    == self.values_spec()[i],
    {
        proof {
            use_type_invariant(self);
        }
        let mut r: Vec<(&Key, &Value)> = Vec::new();
        let mut i: usize = 0;
        while i < self.values.len()
            invariant
                i <= self.values@.len(),
                self.values@.len() == self.keys_spec().len(),
                r@.len() == i,
                forall|j: int|
                    0 <= j < i ==> (#[trigger] r@[j]).0@ == self.keys_spec()[j] && *r@[j].1
                        == self.values_spec()[j],
            decreases self.values@.len() - i,
        {
            proof {
                assert(self.shape.keys@[i as int]@ == self.keys_spec()[i as int]);
            }
            r.push((&self.shape.keys[i], &self.values[i]));
            i = i + 1;
        }
        r
    }

    /// Insert each pair in turn.
    pub fn extend<K: IntoKey + Copy>(&mut self, pairs: &[(K, Value)])
        ensures
            (final(self).keys_spec(), final(self).values_spec()) == extend_entries(
                old(self).keys_spec(),
                old(self).values_spec(),
                pairs@,
            ),
    {
        let mut i: usize = 0;
        while i < pairs.len()
            invariant
                i <= pairs@.len(),
                (self.keys_spec(), self.values_spec()) == extend_entries(
                    old(self).keys_spec(),
                    old(self).values_spec(),
                    pairs@.take(i as int),
                ),
            decreases pairs@.len() - i,
        {
            let (k, v) = pairs[i];
            self.insert(k, v);
            proof {
                assert(pairs@.take(i + 1).drop_last() =~= pairs@.take(i as int));
                assert(pairs@.take(i + 1).last() == pairs@[i as int]);
            }
            i = i + 1;
        }
        proof {
            assert(pairs@.take(pairs@.len() as int) =~= pairs@);
        }
    }

    /// A record holding the pairs, inserted in turn.
    pub fn from_pairs<K: IntoKey + Copy>(pairs: &[(K, Value)]) -> (m: RecordMap)
        ensures
            (m.keys_spec(), m.values_spec()) == extend_entries(
                Seq::<Seq<char>>::empty(),
                Seq::<Value>::empty(),
                pairs@,
            ),
    {
        let mut m = RecordMap::default();
        m.extend(pairs);
        m
    }
}

impl PartialEq for RecordMap {
    /// Same keys (in any order) with equal values.
    fn eq(&self, other: &RecordMap) -> (r: bool) {
        proof {
            use_type_invariant(self);
            use_type_invariant(other);
        }
        if self.values.len() != other.values.len() {
            return false;
        }
        let mut i: usize = 0;
        while i < self.values.len()
            invariant
                i <= self.values@.len(),
                self.values@.len() == self.keys_spec().len(),
                self.keys_spec().len() == other.keys_spec().len(),
                forall|j: int|
                    0 <= j < i ==> #[trigger] lookup(
                        other.keys_spec(),
                        other.values_spec(),
                        self.keys_spec()[j],
                    ) == Some(self.values_spec()[j]),
            decreases self.values@.len() - i,
        {
            let k = self.shape.keys[i].as_str();
            proof {
                assert(self.shape.keys@[i as int]@ == self.keys_spec()[i as int]);
            }
            match other.get(k) {
                Some(v) => {
                    if *v != self.values[i] {
                        return false;
                    }
                },
                None => {
                    return false;
                },
            }
            i = i + 1;
        }
        true
    }
}

impl vstd::std_specs::cmp::PartialEqSpecImpl for RecordMap {
    open spec fn obeys_eq_spec() -> bool {
        true
    }

    open spec fn eq_spec(&self, other: &RecordMap) -> bool {
        same_fields(self.keys_spec(), self.values_spec(), other.keys_spec(), other.values_spec())
    }
}

/// A `GetField` inline cache: the last `(shape id, slot)` a field read hit,
/// packed into one word (`id << 20 | slot`) so concurrent readers never see
/// a torn pair. Zero is empty (shape ids start at 1).
#[derive(Debug)]
pub struct FieldCache(AtomicU64);

/// The value a packed cache word points at in `map`: the slot's value when
/// the word's id is the map's shape id and the slot is in range.
pub open spec fn cached_value(word: u64, id: u64, values: Seq<Value>) -> Option<Value> {
    if word >> 20u64 == id && (word & SLOT_MASK) < values.len() {
        Some(values[(word & SLOT_MASK) as int])
    } else {
        None
    }
}

/// The word that remembers `slot` of the shape `id`.
pub open spec fn packed(id: u64, slot: u64) -> u64 {
    ((id << 20u64) | slot) as u64
}

impl FieldCache {
    /// An empty cache.
    pub fn new() -> (c: FieldCache) {
        FieldCache(AtomicU64::new(0))
    }

    fn load_word(&self) -> (w: u64) {
        self.0.load(Ordering::Relaxed)
    }

    fn store_word(&self, w: u64) {
        self.0.store(w, Ordering::Relaxed)
    }

    /// What a cache word holding `word` gives for `map`.
    pub fn decode(word: u64, map: &RecordMap) -> (r: Option<Value>)
        ensures
            r == cached_value(word, map.shape_id_spec(), map.values_spec()),
    {
        if word >> 20u64 == map.shape_id() {
            let slot = word & SLOT_MASK;
            let n = map.values.len();
            if slot < n as u64 {
                return Some(map.values[slot as usize]);
            }
        }
        None
    }

    /// The cached slot's value in `map`, when the cache was filled from
    /// `map`'s shape. Another thread may fill the cache at any time, so all
    /// this promises is that a value comes from `map`.
    pub fn lookup(&self, map: &RecordMap) -> (r: Option<Value>)
        ensures
            r matches Some(v) ==> exists|i: int| 0 <= i < map.values_spec().len() && map.values_spec()[i] == v,
            exists|w: u64| r == #[trigger] cached_value(w, map.shape_id_spec(), map.values_spec()),
    {
        let word = self.load_word();
        FieldCache::decode(word, map)
    }

    /// Look `key` up in `map` and remember where it was (when the slot and
    /// the id fit a cache word).
    pub fn fill(&self, map: &RecordMap, key: &str) -> (r: Option<Value>)
        ensures
            r == map.lookup_spec(key@),
    {
        let i = match map.get_index_of(key) {
            Some(i) => i,
            None => {
                proof {
                    lemma_first_index(map.keys_spec(), key@, 0);
                }
                return None;
            },
        };
        let id = map.shape_id();
        proof {
            use_type_invariant(map);
            lemma_first_index(map.keys_spec(), key@, 0);
        }
        let n = map.values.len();
        if i as u64 <= SLOT_MASK && id < ID_LIMIT {
            self.store_word(pack(id, i as u64));
        }
        Some(map.values[i])
    }
}

/// The cache word for `slot` of the shape `id`.
fn pack(id: u64, slot: u64) -> (w: u64)
    requires
        slot <= SLOT_MASK,
        id < ID_LIMIT,
    ensures
        w == packed(id, slot),
        w >> 20u64 == id,
        w & SLOT_MASK == slot,
{
    let w = (id << 20u64) | slot;
    proof {
        assert(((id << 20u64) | slot) >> 20u64 == id && ((id << 20u64) | slot) & 0xF_FFFFu64
            == slot) by (bit_vector)
            requires
                slot <= 0xF_FFFFu64,
                id < 0x1000_0000_0000u64,
        ;
    }
    w
}

impl Default for FieldCache {
    /// An empty cache.
    fn default() -> (c: FieldCache) {
        FieldCache::new()
    }
}

impl Clone for FieldCache {
    /// A copied instruction starts cold.
    fn clone(&self) -> (c: FieldCache) {
        FieldCache::new()
    }
}


/// With distinct keys, a key is found exactly where it sits.
proof fn lemma_index_of_found(keys: Seq<Seq<char>>, key: Seq<char>, i: int)
    requires
        distinct_keys(keys),
        0 <= i < keys.len(),
        keys[i] == key,
    ensures
        index_of(keys, key) == i,
{
    lemma_index_of_distinct(keys, i);
}

/// A key that is not among `keys` has no position.
proof fn lemma_index_of_absent(keys: Seq<Seq<char>>, key: Seq<char>)
    requires
        forall|j: int| 0 <= j < keys.len() ==> keys[j] != key,
    ensures
        index_of(keys, key) == keys.len(),
{
    lemma_first_index(keys, key, 0);
}

/// After a record sets `key` to `val`, reading `key` gives `val`, every
/// other key reads as before, and the keys stay distinct.
pub proof fn law_insert_then_lookup(
    keys: Seq<Seq<char>>,
    values: Seq<Value>,
    key: Seq<char>,
    val: Value,
    other: Seq<char>,
)
    requires
        distinct_keys(keys),
        keys.len() == values.len(),
    ensures
        distinct_keys(insert_entries(keys, values, key, val).0),
        lookup(insert_entries(keys, values, key, val).0, insert_entries(keys, values, key, val).1, key)
            == Some(val),
        other != key ==> lookup(
            insert_entries(keys, values, key, val).0,
            insert_entries(keys, values, key, val).1,
            other,
        ) == lookup(keys, values, other),
{
    let (k2, v2) = insert_entries(keys, values, key, val);
    let i = index_of(keys, key);
    lemma_first_index(keys, key, 0);
    lemma_first_index(keys, other, 0);
    if i < keys.len() {
        lemma_first_index(k2, other, 0);
    } else {
        assert forall|a: int, b: int| 0 <= a < b < k2.len() implies #[trigger] k2[a] != #[trigger] k2[b] by {
            if b == keys.len() {
                assert(keys[a] != key);
            }
        }
        lemma_index_of_found(k2, key, keys.len() as int);
        if other != key {
            let j = index_of(keys, other);
            if j < keys.len() {
                lemma_index_of_found(k2, other, j);
            } else {
                assert forall|m: int| 0 <= m < k2.len() implies k2[m] != other by {
                    if m < keys.len() {
                        assert(keys[m] != other);
                    }
                }
                lemma_index_of_absent(k2, other);
            }
        }
    }
}

/// After a record removes `key`, reading it gives nothing, every other key
/// reads as before, and the remaining keys keep their order.
pub proof fn law_remove_then_lookup(
    keys: Seq<Seq<char>>,
    values: Seq<Value>,
    key: Seq<char>,
    other: Seq<char>,
)
    requires
        distinct_keys(keys),
        keys.len() == values.len(),
        index_of(keys, key) < keys.len(),
    ensures
        lookup(
            keys.remove(index_of(keys, key)),
            values.remove(index_of(keys, key)),
            key,
        ) is None,
        other != key ==> lookup(
            keys.remove(index_of(keys, key)),
            values.remove(index_of(keys, key)),
            other,
        ) == lookup(keys, values, other),
        distinct_keys(keys.remove(index_of(keys, key))),
{
    let i = index_of(keys, key);
    let k2 = keys.remove(i);
    let v2 = values.remove(i);
    lemma_first_index(keys, key, 0);
    assert forall|m: int| 0 <= m < k2.len() implies k2[m] != key by {
        if m < i {
            assert(keys[m] != keys[i]);
        } else {
            assert(keys[m + 1] != keys[i]);
        }
    }
    lemma_index_of_absent(k2, key);
    assert(distinct_keys(k2)) by {
        assert forall|a: int, b: int| 0 <= a < b < k2.len() implies #[trigger] k2[a] != #[trigger] k2[b] by {
            if b < i {
            } else if a < i {
                assert(keys[a] != keys[b + 1]);
            } else {
                assert(keys[a + 1] != keys[b + 1]);
            }
        }
    }
    if other != key {
        lemma_first_index(keys, other, 0);
        let j = index_of(keys, other);
        if j < keys.len() {
            if j < i {
                lemma_index_of_found(k2, other, j);
            } else {
                assert(j != i);
                lemma_index_of_found(k2, other, j - 1);
            }
        } else {
            assert forall|m: int| 0 <= m < k2.len() implies k2[m] != other by {
                if m < i {
                    assert(keys[m] != other);
                } else {
                    assert(keys[m + 1] != other);
                }
            }
            lemma_index_of_absent(k2, other);
        }
    }
}

/// Record equality ignores order: records with the same fields compare
/// equal whichever was built first, and a record equals itself.
pub proof fn law_equality_ignores_order(
    keys: Seq<Seq<char>>,
    values: Seq<Value>,
    other_keys: Seq<Seq<char>>,
    other_values: Seq<Value>,
)
    requires
        distinct_keys(keys),
        distinct_keys(other_keys),
        keys.len() == values.len(),
        other_keys.len() == other_values.len(),
    ensures
        same_fields(keys, values, keys, values),
        same_fields(keys, values, other_keys, other_values) ==> same_fields(
            other_keys,
            other_values,
            keys,
            values,
        ),
{
    assert forall|i: int| 0 <= i < keys.len() implies #[trigger] lookup(keys, values, keys[i]) == Some(
        values[i],
    ) by {
        lemma_index_of_found(keys, keys[i], i);
    }
    if same_fields(keys, values, other_keys, other_values) {
        // Each of the other record's keys is one of ours: the map from our
        // positions to theirs is injective on equal-length key lists.
        assert forall|j: int| 0 <= j < other_keys.len() implies #[trigger] lookup(
            keys,
            values,
            other_keys[j],
        ) == Some(other_values[j]) by {
            lemma_key_covered(keys, values, other_keys, other_values, j);
        }
    }
}

/// When every one of `keys` is found among `other_keys` and both lists are
/// distinct and equally long, every one of `other_keys` is among `keys`.
proof fn lemma_key_covered(
    keys: Seq<Seq<char>>,
    values: Seq<Value>,
    other_keys: Seq<Seq<char>>,
    other_values: Seq<Value>,
    j: int,
)
    requires
        distinct_keys(keys),
        distinct_keys(other_keys),
        keys.len() == values.len(),
        other_keys.len() == other_values.len(),
        same_fields(keys, values, other_keys, other_values),
        0 <= j < other_keys.len(),
    ensures
        lookup(keys, values, other_keys[j]) == Some(other_values[j]),
{
    let f = |i: int| index_of(other_keys, keys[i]);
    assert forall|i: int| 0 <= i < keys.len() implies 0 <= #[trigger] f(i) < other_keys.len()
        && other_keys[f(i)] == keys[i] && other_values[f(i)] == values[i] by {
        assert(lookup(other_keys, other_values, keys[i]) == Some(values[i]));
        lemma_first_index(other_keys, keys[i], 0);
    }
    let dom = vstd::set_lib::set_int_range(0, keys.len() as int);
    vstd::set_lib::lemma_int_range(0, keys.len() as int);
    let fs = dom.map(f);
    assert forall|a: int, b: int| dom.contains(a) && dom.contains(b) && #[trigger] f(a) == #[trigger] f(b) implies a == b by {
        if a != b {
            assert(keys[a] != keys[b]);
        }
    }
    vstd::set_lib::lemma_map_size(dom, fs, f);
    let rng = vstd::set_lib::set_int_range(0, other_keys.len() as int);
    vstd::set_lib::lemma_int_range(0, other_keys.len() as int);
    assert(fs.subset_of(rng));
    vstd::set_lib::lemma_subset_equality(fs, rng);
    assert(rng.contains(j));
    assert(fs.contains(j));
    let i = choose|i: int| dom.contains(i) && f(i) == j;
    lemma_index_of_found(keys, keys[i], i);
}

} // verus!
