//! The heap behind runtime values: interned strings, arrays, objects,
//! decimals and blobs, all addressed by index.
//!
//! Values are handles: copying a `Value` copies the handle, and a mutation
//! through one handle is seen through all of them.

use vstd::prelude::*;
use crate::text::{str_eq, str_to_string};
use crate::value::{
    SPECIAL_NONE, TAG_ARRAY, TAG_FLOAT, TAG_INT, TAG_OBJECT, TAG_STRING, handle_bits,
    int_text, lemma_value_bits, lemma_value_of_bits, payload_of, push_int, tag_of, unzigzag,
    value_of_bits,
};
pub use crate::value::Value;

verus! {

broadcast use {lemma_value_bits, lemma_value_of_bits};

/// What a float handle stands for. (Binary floating-point numbers are
/// stored by the host and are not modeled here.)
#[derive(Clone, Copy, PartialEq, Eq, Debug, Structural)]
pub enum FloatValue {
    /// `sig × 10^exp`.
    Decimal { sig: i64, exp: i64 },
    /// Opaque bytes, at this index of the blob table.
    Blob(usize),
}

/// The heap: tables of strings (each interned once), arrays, objects (pairs
/// of an interned key and a value, in insertion order), decimals and blobs.
pub struct Heap {
    strings: Vec<String>,
    arrays: Vec<Vec<Value>>,
    objects: Vec<Vec<(u32, Value)>>,
    floats: Vec<FloatValue>,
    blobs: Vec<Vec<u8>>,
}

/// The model of a heap: its tables.
pub struct HeapView {
    pub strings: Seq<Seq<char>>,
    pub arrays: Seq<Seq<Value>>,
    pub objects: Seq<Seq<(u32, Value)>>,
    pub floats: Seq<FloatValue>,
    pub blobs: Seq<Seq<u8>>,
}

impl View for Heap {
    type V = HeapView;

    closed spec fn view(&self) -> HeapView {
        HeapView {
            strings: Seq::new(self.strings@.len(), |i: int| self.strings@[i]@),
            arrays: Seq::new(self.arrays@.len(), |i: int| self.arrays@[i]@),
            objects: Seq::new(self.objects@.len(), |i: int| self.objects@[i]@),
            floats: self.floats@,
            blobs: Seq::new(self.blobs@.len(), |i: int| self.blobs@[i]@),
        }
    }
}

/// Index of the first occurrence of `s` in `t`, or -1.
pub open spec fn str_index(t: Seq<Seq<char>>, s: Seq<char>) -> int
    decreases t.len(),
{
    if t.len() == 0 {
        -1
    } else if str_index(t.drop_last(), s) >= 0 {
        str_index(t.drop_last(), s)
    } else if t.last() == s {
        t.len() - 1
    } else {
        -1
    }
}

/// The id that interning `s` gives: its index, or the next free one.
pub open spec fn intern_id(t: Seq<Seq<char>>, s: Seq<char>) -> int {
    if str_index(t, s) >= 0 {
        str_index(t, s)
    } else {
        t.len() as int
    }
}

/// The string table after interning `s`.
pub open spec fn intern_table(t: Seq<Seq<char>>, s: Seq<char>) -> Seq<Seq<char>> {
    if str_index(t, s) >= 0 {
        t
    } else {
        t.push(s)
    }
}

/// No string occurs twice in the table.
pub open spec fn distinct_strings(t: Seq<Seq<char>>) -> bool {
    forall|i: int, j: int| 0 <= i < j < t.len() ==> t[i] != t[j]
}

/// Index of the first pair with `key`, or -1.
pub open spec fn key_pos(pairs: Seq<(u32, Value)>, key: u32) -> int
    decreases pairs.len(),
{
    if pairs.len() == 0 {
        -1
    } else if key_pos(pairs.drop_last(), key) >= 0 {
        key_pos(pairs.drop_last(), key)
    } else if pairs.last().0 == key {
        pairs.len() - 1
    } else {
        -1
    }
}

/// The value stored under `key` in an object's pairs: that of the first
/// pair with the key.
pub open spec fn obj_lookup(pairs: Seq<(u32, Value)>, key: u32) -> Option<Value> {
    if key_pos(pairs, key) >= 0 {
        Option::Some(pairs[key_pos(pairs, key)].1)
    } else {
        Option::None
    }
}

/// An object's pairs after setting `key` to `val`: the first pair with that
/// key takes the value; with no such pair, a new pair goes at the end.
pub open spec fn obj_set(pairs: Seq<(u32, Value)>, key: u32, val: Value) -> Seq<(u32, Value)> {
    if key_pos(pairs, key) >= 0 {
        pairs.update(key_pos(pairs, key), (key, val))
    } else {
        pairs.push((key, val))
    }
}

/// An object's pairs without those of `key`, the others in order.
pub open spec fn obj_delete(pairs: Seq<(u32, Value)>, key: u32) -> Seq<(u32, Value)>
    decreases pairs.len(),
{
    if pairs.len() == 0 {
        Seq::empty()
    } else if pairs.last().0 == key {
        obj_delete(pairs.drop_last(), key)
    } else {
        obj_delete(pairs.drop_last(), key).push(pairs.last())
    }
}

/// The value at `idx` of an array, or `none` past its end.
pub open spec fn array_at(items: Seq<Value>, idx: int) -> Value {
    if 0 <= idx < items.len() {
        items[idx]
    } else {
        value_of_bits(SPECIAL_NONE)
    }
}

/// `key_pos` is the first index with the key.
pub proof fn lemma_key_pos(pairs: Seq<(u32, Value)>, key: u32)
    ensures
        key_pos(pairs, key) == -1 ==> forall|j: int| 0 <= j < pairs.len() ==> pairs[j].0 != key,
        key_pos(pairs, key) != -1 ==> 0 <= key_pos(pairs, key) < pairs.len() && pairs[key_pos(
            pairs,
            key,
        )].0 == key && forall|j: int| 0 <= j < key_pos(pairs, key) ==> pairs[j].0 != key,
    decreases pairs.len(),
{
    if pairs.len() > 0 {
        let d = pairs.drop_last();
        lemma_key_pos(d, key);
        assert forall|j: int| 0 <= j < d.len() implies d[j] == pairs[j] by {}
        if key_pos(d, key) == -1 && pairs.last().0 != key {
            assert forall|j: int| 0 <= j < pairs.len() implies pairs[j].0 != key by {
                if j < d.len() {
                    assert(d[j] == pairs[j]);
                }
            }
        }
    }
}

/// The first index with the key is unique.
pub proof fn lemma_key_pos_is(pairs: Seq<(u32, Value)>, key: u32, p: int)
    requires
        (p == -1 && forall|j: int| 0 <= j < pairs.len() ==> pairs[j].0 != key) || (0 <= p
            < pairs.len() && pairs[p].0 == key && forall|j: int| 0 <= j < p ==> pairs[j].0 != key),
    ensures
        key_pos(pairs, key) == p,
{
    lemma_key_pos(pairs, key);
    let q = key_pos(pairs, key);
    if q != p {
        if q == -1 {
            assert(pairs[p].0 == key);
        } else if p == -1 {
            assert(pairs[q].0 == key);
        } else if q < p {
            assert(pairs[q].0 == key);
        } else {
            assert(pairs[p].0 == key);
        }
    }
}

/// `str_index` is the first index of the string.
pub proof fn lemma_str_index(t: Seq<Seq<char>>, s: Seq<char>)
    ensures
        str_index(t, s) == -1 ==> forall|j: int| 0 <= j < t.len() ==> t[j] != s,
        str_index(t, s) != -1 ==> 0 <= str_index(t, s) < t.len() && t[str_index(t, s)] == s
            && forall|j: int| 0 <= j < str_index(t, s) ==> t[j] != s,
    decreases t.len(),
{
    if t.len() > 0 {
        let d = t.drop_last();
        lemma_str_index(d, s);
        assert forall|j: int| 0 <= j < d.len() implies d[j] == t[j] by {}
        if str_index(d, s) == -1 && t.last() != s {
            assert forall|j: int| 0 <= j < t.len() implies t[j] != s by {
                if j < d.len() {
                    assert(d[j] == t[j]);
                }
            }
        }
    }
}

impl HeapView {
    /// Whether every handle in `v` points into this heap.
    pub open spec fn holds(self, v: Value) -> bool {
        let id = payload_of(v@);
        &&& tag_of(v@) == TAG_STRING ==> id < self.strings.len()
        &&& tag_of(v@) == TAG_ARRAY ==> id < self.arrays.len()
        &&& tag_of(v@) == TAG_OBJECT ==> id < self.objects.len()
        &&& tag_of(v@) == TAG_FLOAT ==> id < self.floats.len()
    }

    /// The pairs of an object handle, or none for another value.
    pub open spec fn pairs_of(self, v: Value) -> Seq<(u32, Value)> {
        if tag_of(v@) == TAG_OBJECT && payload_of(v@) < self.objects.len() {
            self.objects[payload_of(v@) as int]
        } else {
            Seq::empty()
        }
    }

    /// The items of an array handle, or none for another value.
    pub open spec fn items_of(self, v: Value) -> Seq<Value> {
        if tag_of(v@) == TAG_ARRAY && payload_of(v@) < self.arrays.len() {
            self.arrays[payload_of(v@) as int]
        } else {
            Seq::empty()
        }
    }
}

/// The text that stands for an integer value as an object key: its
/// decimal digits.
pub open spec fn key_text(bits: u64) -> Seq<char> {
    int_text(unzigzag(payload_of(bits) as int))
}

impl Heap {
    /// The heap's invariant: interned strings are distinct, and every table
    /// fits the 32-bit ids of handles.
    pub closed spec fn wf(&self) -> bool {
        &&& distinct_strings(self@.strings)
        &&& self.strings@.len() <= u32::MAX
        &&& self.arrays@.len() <= u32::MAX
        &&& self.objects@.len() <= u32::MAX
        &&& self.floats@.len() <= u32::MAX
    }

    /// An empty heap.
    pub fn new() -> (h: Heap)
        ensures
            h.wf(),
            h@.strings.len() == 0,
            h@.arrays.len() == 0,
            h@.objects.len() == 0,
            h@.floats.len() == 0,
            h@.blobs.len() == 0,
    {
        let h = Heap {
            strings: Vec::new(),
            arrays: Vec::new(),
            objects: Vec::new(),
            floats: Vec::new(),
            blobs: Vec::new(),
        };
        proof {
            assert(h@.strings =~= Seq::<Seq<char>>::empty());
        }
        h
    }

    // ── String interning ───────────────────────────────────────────

    /// Interns `s`: the id of the equal string in the table, else a new id.
    #[verifier::loop_isolation(false)]
    pub fn intern(&mut self, s: &str) -> (id: u32)
        requires
            old(self).wf(),
            old(self)@.strings.len() < u32::MAX,
        ensures
            final(self).wf(),
            id == intern_id(old(self)@.strings, s@),
            final(self)@.strings == intern_table(old(self)@.strings, s@),
            final(self)@.arrays == old(self)@.arrays,
            final(self)@.objects == old(self)@.objects,
            final(self)@.floats == old(self)@.floats,
            final(self)@.blobs == old(self)@.blobs,
    {
        let ghost t = self@.strings;
        let mut i: usize = 0;
        while i < self.strings.len()
            invariant
                0 <= i <= self.strings@.len(),
                t == self@.strings,
                t.len() < u32::MAX,
                forall|j: int| 0 <= j < i ==> t[j] != s@,
            decreases self.strings@.len() - i,
        {
            if str_eq(self.strings[i].as_str(), s) {
                proof {
                    lemma_str_index(t, s@);
                    assert(t[i as int] == s@);
                    if str_index(t, s@) == -1 {
                        assert(t[i as int] != s@);
                    } else if str_index(t, s@) < i {
                        assert(t[str_index(t, s@)] != s@);
                    } else if str_index(t, s@) > i {
                        assert(t[i as int] != s@);
                    }
                }
                return i as u32;
            }
            i += 1;
        }
        let id = self.strings.len() as u32;
        self.strings.push(str_to_string(s));
        proof {
            lemma_str_index(t, s@);
            assert(self@.strings =~= t.push(s@));
            assert forall|a: int, b: int| 0 <= a < b < self@.strings.len() implies self@.strings[a]
                != self@.strings[b] by {
                if b == t.len() {
                    assert(t[a] != s@);
                }
            }
        }
        id
    }

    /// Interns `s` and gives the string value.
    pub fn intern_value(&mut self, s: &str) -> (v: Value)
        requires
            old(self).wf(),
            old(self)@.strings.len() < u32::MAX,
        ensures
            final(self).wf(),
            v@ == handle_bits(intern_id(old(self)@.strings, s@) as u32, TAG_STRING),
            final(self)@.strings == intern_table(old(self)@.strings, s@),
            final(self)@.arrays == old(self)@.arrays,
            final(self)@.objects == old(self)@.objects,
            final(self)@.floats == old(self)@.floats,
            final(self)@.blobs == old(self)@.blobs,
    {
        let id = self.intern(s);
        Value::string(id)
    }

    /// Gives the string id that stands for `v` as an object key: a string's
    /// own id, or the interned decimal text of an integer. Other values
    /// cannot be keys: `None`, and the heap is left as it was.
    pub fn value_to_key(&mut self, v: Value) -> (id: Option<u32>)
        requires
            old(self).wf(),
            tag_of(v@) == TAG_INT ==> old(self)@.strings.len() < u32::MAX,
        ensures
            final(self).wf(),
            tag_of(v@) == TAG_STRING ==> id == Option::Some(payload_of(v@) as u32) && final(self)@
                == old(self)@,
            tag_of(v@) == TAG_INT ==> id == Option::Some(
                intern_id(old(self)@.strings, key_text(v@)) as u32,
            ) && final(self)@.strings == intern_table(old(self)@.strings, key_text(v@)),
            tag_of(v@) != TAG_STRING && tag_of(v@) != TAG_INT ==> id is None && final(self)@
                == old(self)@,
            final(self)@.arrays == old(self)@.arrays,
            final(self)@.objects == old(self)@.objects,
            final(self)@.floats == old(self)@.floats,
            final(self)@.blobs == old(self)@.blobs,
    {
        if let Option::Some(id) = v.string_id() {
            return Option::Some(id);
        }
        match v.as_i64() {
            Option::Some(n) => {
                let mut t = String::new();
                push_int(&mut t, n);
                proof {
                    let bits: u64 = v@;
                    let p = payload_of(bits);
                    assert(p < 0x2000_0000_0000_0000) by (bit_vector)
                        requires
                            p == bits >> 3,
                    ;
                    assert(Seq::<char>::empty() + int_text(n as int) =~= key_text(v@));
                }
                Option::Some(self.intern(t.as_str()))
            },
            Option::None => Option::None,
        }
    }

    /// The interned string with this id.
    pub fn resolve_str(&self, id: u32) -> (r: &str)
        requires
            id < self@.strings.len(),
        ensures
            r@ == self@.strings[id as int],
    {
        self.strings[id as usize].as_str()
    }

    // ── Allocation ─────────────────────────────────────────────────

    /// A new array holding `items`.
    pub fn alloc_array(&mut self, items: Vec<Value>) -> (v: Value)
        requires
            old(self).wf(),
            old(self)@.arrays.len() < u32::MAX,
        ensures
            final(self).wf(),
            v@ == handle_bits(old(self)@.arrays.len() as u32, TAG_ARRAY),
            final(self)@.arrays == old(self)@.arrays.push(items@),
            final(self)@.strings == old(self)@.strings,
            final(self)@.objects == old(self)@.objects,
            final(self)@.floats == old(self)@.floats,
            final(self)@.blobs == old(self)@.blobs,
    {
        let ghost a = self@.arrays;
        let id = self.arrays.len() as u32;
        self.arrays.push(items);
        proof {
            assert(self@.arrays =~= a.push(items@));
        }
        Value::array(id)
    }

    /// A new object holding `pairs` (interned keys and values, in order).
    pub fn alloc_object(&mut self, pairs: Vec<(u32, Value)>) -> (v: Value)
        requires
            old(self).wf(),
            old(self)@.objects.len() < u32::MAX,
        ensures
            final(self).wf(),
            v@ == handle_bits(old(self)@.objects.len() as u32, TAG_OBJECT),
            final(self)@.objects == old(self)@.objects.push(pairs@),
            final(self)@.strings == old(self)@.strings,
            final(self)@.arrays == old(self)@.arrays,
            final(self)@.floats == old(self)@.floats,
            final(self)@.blobs == old(self)@.blobs,
    {
        let ghost o = self@.objects;
        let id = self.objects.len() as u32;
        self.objects.push(pairs);
        proof {
            assert(self@.objects =~= o.push(pairs@));
        }
        Value::object(id)
    }

    /// A new decimal `sig × 10^exp`.
    pub fn alloc_decimal(&mut self, sig: i64, exp: i64) -> (v: Value)
        requires
            old(self).wf(),
            old(self)@.floats.len() < u32::MAX,
        ensures
            final(self).wf(),
            v@ == handle_bits(old(self)@.floats.len() as u32, TAG_FLOAT),
            final(self)@.floats == old(self)@.floats.push(FloatValue::Decimal { sig, exp }),
            final(self)@.strings == old(self)@.strings,
            final(self)@.arrays == old(self)@.arrays,
            final(self)@.objects == old(self)@.objects,
            final(self)@.blobs == old(self)@.blobs,
    {
        let id = self.floats.len() as u32;
        self.floats.push(FloatValue::Decimal { sig, exp });
        Value::float(id)
    }

    /// A new blob holding `data`.
    pub fn alloc_blob(&mut self, data: Vec<u8>) -> (v: Value)
        requires
            old(self).wf(),
            old(self)@.floats.len() < u32::MAX,
        ensures
            final(self).wf(),
            v@ == handle_bits(old(self)@.floats.len() as u32, TAG_FLOAT),
            final(self)@.floats == old(self)@.floats.push(FloatValue::Blob(old(self)@.blobs.len() as usize)),
            final(self)@.blobs == old(self)@.blobs.push(data@),
            final(self)@.strings == old(self)@.strings,
            final(self)@.arrays == old(self)@.arrays,
            final(self)@.objects == old(self)@.objects,
    {
        let ghost b = self@.blobs;
        let blob_id = self.blobs.len();
        self.blobs.push(data);
        proof {
            assert(self@.blobs =~= b.push(data@));
        }
        let id = self.floats.len() as u32;
        self.floats.push(FloatValue::Blob(blob_id));
        Value::float(id)
    }

    /// The bytes of a blob value.
    pub fn blob_data(&self, v: Value) -> (r: Option<&[u8]>)
        requires
            self.wf(),
            self@.holds(v),
            forall|i: int| 0 <= i < self@.floats.len() ==> (#[trigger] self@.floats[i] matches FloatValue::Blob(b) ==> b < self@.blobs.len()),
        ensures
            match r {
                Option::Some(d) => tag_of(v@) == TAG_FLOAT && (self@.floats[payload_of(v@) as int]
                    matches FloatValue::Blob(b) && d@ == self@.blobs[b as int]),
                Option::None => !(tag_of(v@) == TAG_FLOAT && self@.floats[payload_of(v@) as int] is Blob),
            },
    {
        match v.float_id() {
            Option::Some(id) => match self.floats[id as usize] {
                FloatValue::Blob(b) => Option::Some(self.blobs[b].as_slice()),
                FloatValue::Decimal { .. } => Option::None,
            },
            Option::None => Option::None,
        }
    }

    /// Whether `v` is a blob.
    pub fn is_blob(&self, v: Value) -> (r: bool)
        requires
            self.wf(),
            self@.holds(v),
        ensures
            r == (tag_of(v@) == TAG_FLOAT && self@.floats[payload_of(v@) as int] is Blob),
    {
        match v.float_id() {
            Option::Some(id) => match self.floats[id as usize] {
                FloatValue::Blob(_) => true,
                FloatValue::Decimal { .. } => false,
            },
            Option::None => false,
        }
    }

    // ── Arrays ─────────────────────────────────────────────────────

    /// The item at `idx`, or `none` past the end or for a non-array.
    pub fn array_get(&self, arr: Value, idx: usize) -> (r: Value)
        requires
            self.wf(),
            self@.holds(arr),
        ensures
            r == array_at(self@.items_of(arr), idx as int),
    {
        match arr.array_id() {
            Option::Some(id) => {
                let items = &self.arrays[id as usize];
                if idx < items.len() {
                    items[idx]
                } else {
                    Value::none()
                }
            },
            Option::None => Value::none(),
        }
    }

    /// The number of items of an array (0 for a non-array).
    pub fn array_len(&self, arr: Value) -> (r: usize)
        requires
            self.wf(),
            self@.holds(arr),
        ensures
            r == self@.items_of(arr).len(),
    {
        match arr.array_id() {
            Option::Some(id) => self.arrays[id as usize].len(),
            Option::None => 0,
        }
    }

    /// Replaces the item at `idx` of an array (nothing past its end or for
    /// a non-array).
    pub fn array_set(&mut self, arr: Value, idx: usize, val: Value)
        requires
            old(self).wf(),
            old(self)@.holds(arr),
        ensures
            final(self).wf(),
            final(self)@.arrays == (if tag_of(arr@) == TAG_ARRAY && idx < old(self)@.items_of(arr).len() {
                old(self)@.arrays.update(payload_of(arr@) as int, old(self)@.items_of(arr).update(idx as int, val))
            } else {
                old(self)@.arrays
            }),
            final(self)@.strings == old(self)@.strings,
            final(self)@.objects == old(self)@.objects,
            final(self)@.floats == old(self)@.floats,
            final(self)@.blobs == old(self)@.blobs,
    {
        let ghost a = self@.arrays;
        match arr.array_id() {
            Option::Some(id) => {
                if idx < self.arrays[id as usize].len() {
                    self.arrays[id as usize].set(idx, val);
                    proof {
                        assert(self@.arrays =~= a.update(id as int, a[id as int].update(idx as int, val)));
                    }
                }
            },
            Option::None => {},
        }
    }

    /// Appends to an array (nothing for a non-array).
    pub fn array_push(&mut self, arr: Value, val: Value)
        requires
            old(self).wf(),
            old(self)@.holds(arr),
        ensures
            final(self).wf(),
            final(self)@.arrays == (if tag_of(arr@) == TAG_ARRAY {
                old(self)@.arrays.update(payload_of(arr@) as int, old(self)@.items_of(arr).push(val))
            } else {
                old(self)@.arrays
            }),
            final(self)@.strings == old(self)@.strings,
            final(self)@.objects == old(self)@.objects,
            final(self)@.floats == old(self)@.floats,
            final(self)@.blobs == old(self)@.blobs,
    {
        let ghost a = self@.arrays;
        match arr.array_id() {
            Option::Some(id) => {
                self.arrays[id as usize].push(val);
                proof {
                    assert(self@.arrays =~= a.update(id as int, a[id as int].push(val)));
                }
            },
            Option::None => {},
        }
    }

    /// The items of an array (none for a non-array).
    pub fn array_items(&self, arr: Value) -> (r: &[Value])
        requires
            self.wf(),
            self@.holds(arr),
        ensures
            r@ == self@.items_of(arr),
    {
        match arr.array_id() {
            Option::Some(id) => self.arrays[id as usize].as_slice(),
            Option::None => &[],
        }
    }

    // ── Objects ────────────────────────────────────────────────────

    /// The value of `key` in an object, or `none`.
    pub fn object_get(&self, obj: Value, key: u32) -> (r: Value)
        requires
            self.wf(),
            self@.holds(obj),
        ensures
            r == match obj_lookup(self@.pairs_of(obj), key) {
                Option::Some(v) => v,
                Option::None => value_of_bits(SPECIAL_NONE),
            },
    {
        match obj.object_id() {
            Option::Some(id) => {
                let pairs = &self.objects[id as usize];
                let mut i: usize = 0;
                while i < pairs.len()
                    invariant
                        0 <= i <= pairs@.len(),
                        pairs@ == self@.pairs_of(obj),
                        forall|j: int| 0 <= j < i ==> pairs@[j].0 != key,
                    decreases pairs@.len() - i,
                {
                    if pairs[i].0 == key {
                        proof {
                            lemma_key_pos_is(pairs@, key, i as int);
                        }
                        return pairs[i].1;
                    }
                    i += 1;
                }
                proof {
                    lemma_key_pos_is(pairs@, key, -1);
                }
                Value::none()
            },
            Option::None => {
                proof {
                    lemma_key_pos_is(Seq::empty(), key, -1);
                }
                Value::none()
            },
        }
    }

    /// Sets `key` of an object to `val` (nothing for a non-object).
    #[verifier::loop_isolation(false)]
    pub fn object_set(&mut self, obj: Value, key: u32, val: Value)
        requires
            old(self).wf(),
            old(self)@.holds(obj),
        ensures
            final(self).wf(),
            final(self)@.objects == (if tag_of(obj@) == TAG_OBJECT {
                old(self)@.objects.update(payload_of(obj@) as int, obj_set(old(self)@.pairs_of(obj), key, val))
            } else {
                old(self)@.objects
            }),
            final(self)@.strings == old(self)@.strings,
            final(self)@.arrays == old(self)@.arrays,
            final(self)@.floats == old(self)@.floats,
            final(self)@.blobs == old(self)@.blobs,
    {
        let ghost o = self@.objects;
        match obj.object_id() {
            Option::Some(id) => {
                let ghost p = o[id as int];
                let n = self.objects[id as usize].len();
                let mut i: usize = 0;
                let mut found = false;
                while i < n
                    invariant
                        0 <= i <= n,
                        n == p.len(),
                        self.objects@[id as int]@ == p,
                        self@.objects == o,
                        id < o.len(),
                        forall|j: int| 0 <= j < i ==> p[j].0 != key,
                        found ==> i < n && p[i as int].0 == key,
                    decreases n - i,
                {
                    if self.objects[id as usize][i].0 == key {
                        found = true;
                        break;
                    }
                    i += 1;
                }
                if found {
                    self.objects[id as usize].set(i, (key, val));
                    proof {
                        lemma_key_pos_is(p, key, i as int);
                        assert(self@.objects =~= o.update(id as int, p.update(i as int, (key, val))));
                    }
                    return;
                }
                self.objects[id as usize].push((key, val));
                proof {
                    lemma_key_pos_is(p, key, -1);
                    assert(self@.objects =~= o.update(id as int, p.push((key, val))));
                }
            },
            Option::None => {},
        }
    }

    /// Removes every pair of `key` from an object (nothing for a non-object).
    #[verifier::loop_isolation(false)]
    pub fn object_delete(&mut self, obj: Value, key: u32)
        requires
            old(self).wf(),
            old(self)@.holds(obj),
        ensures
            final(self).wf(),
            final(self)@.objects == (if tag_of(obj@) == TAG_OBJECT {
                old(self)@.objects.update(payload_of(obj@) as int, obj_delete(old(self)@.pairs_of(obj), key))
            } else {
                old(self)@.objects
            }),
            final(self)@.strings == old(self)@.strings,
            final(self)@.arrays == old(self)@.arrays,
            final(self)@.floats == old(self)@.floats,
            final(self)@.blobs == old(self)@.blobs,
    {
        let ghost o = self@.objects;
        match obj.object_id() {
            Option::Some(id) => {
                let ghost p = o[id as int];
                let mut kept: Vec<(u32, Value)> = Vec::new();
                let mut i: usize = 0;
                proof {
                    assert(p.take(0) =~= Seq::<(u32, Value)>::empty());
                }
                while i < self.objects[id as usize].len()
                    invariant
                        0 <= i <= p.len(),
                        self.objects@[id as int]@ == p,
                        self@.objects == o,
                        id < o.len(),
                        kept@ == obj_delete(p.take(i as int), key),
                    decreases p.len() - i,
                {
                    let pair = self.objects[id as usize][i];
                    proof {
                        assert(p.take(i + 1).drop_last() =~= p.take(i as int));
                    }
                    if pair.0 != key {
                        kept.push(pair);
                    }
                    i += 1;
                }
                proof {
                    assert(p.take(p.len() as int) =~= p);
                }
                self.objects.set(id as usize, kept);
                proof {
                    assert(self@.objects =~= o.update(id as int, obj_delete(p, key)));
                }
            },
            Option::None => {},
        }
    }

    /// The pairs of an object, in insertion order (none for a non-object).
    pub fn object_pairs(&self, obj: Value) -> (r: &[(u32, Value)])
        requires
            self.wf(),
            self@.holds(obj),
        ensures
            r@ == self@.pairs_of(obj),
    {
        match obj.object_id() {
            Option::Some(id) => self.objects[id as usize].as_slice(),
            Option::None => &[],
        }
    }

    /// The number of pairs of an object (0 for a non-object).
    pub fn object_len(&self, obj: Value) -> (r: usize)
        requires
            self.wf(),
            self@.holds(obj),
        ensures
            r == self@.pairs_of(obj).len(),
    {
        match obj.object_id() {
            Option::Some(id) => self.objects[id as usize].len(),
            Option::None => 0,
        }
    }
}


// ── Laws ────────────────────────────────────────────────────────────────

/// Interning is stable: interning the same string again gives the same id
/// and leaves the table as it is, and the id resolves to the string.
pub proof fn law_intern_stable(t: Seq<Seq<char>>, s: Seq<char>)
    ensures
        intern_id(intern_table(t, s), s) == intern_id(t, s),
        intern_table(intern_table(t, s), s) == intern_table(t, s),
        intern_table(t, s)[intern_id(t, s)] == s,
        0 <= intern_id(t, s) < intern_table(t, s).len(),
{
    lemma_str_index(t, s);
    let t1 = intern_table(t, s);
    lemma_str_index(t1, s);
    if str_index(t, s) < 0 {
        assert(t1[t.len() as int] == s);
        assert forall|j: int| 0 <= j < t.len() implies t1[j] == t[j] by {}
        if str_index(t1, s) != t.len() {
            assert(str_index(t1, s) >= 0);
            assert(t[str_index(t1, s)] == s);
        }
    }
}

/// Distinct strings get distinct ids.
pub proof fn law_intern_distinct(t: Seq<Seq<char>>, a: Seq<char>, b: Seq<char>)
    requires
        distinct_strings(t),
        a != b,
    ensures
        intern_id(t, a) != intern_id(intern_table(t, a), b),
{
    law_intern_stable(t, a);
    law_intern_stable(intern_table(t, a), b);
    let t1 = intern_table(t, a);
    let t2 = intern_table(t1, b);
    assert forall|j: int| 0 <= j < t1.len() implies t2[j] == t1[j] by {
        lemma_str_index(t1, b);
    }
}

/// Reading a key after setting it gives the value set.
pub proof fn law_object_set_get(pairs: Seq<(u32, Value)>, key: u32, val: Value)
    ensures
        obj_lookup(obj_set(pairs, key, val), key) == Option::Some(val),
{
    lemma_key_pos(pairs, key);
    let p = key_pos(pairs, key);
    let q = obj_set(pairs, key, val);
    if p >= 0 {
        lemma_key_pos_is(q, key, p);
    } else {
        lemma_key_pos_is(q, key, pairs.len() as int);
    }
}

/// Setting a key leaves every other key as it was.
pub proof fn law_object_set_other(pairs: Seq<(u32, Value)>, key: u32, val: Value, other: u32)
    requires
        other != key,
    ensures
        obj_lookup(obj_set(pairs, key, val), other) == obj_lookup(pairs, other),
{
    lemma_key_pos(pairs, key);
    lemma_key_pos(pairs, other);
    let q = obj_set(pairs, key, val);
    let p = key_pos(pairs, other);
    assert forall|j: int| 0 <= j < pairs.len() implies (#[trigger] q[j]).0 == other <==> pairs[j].0
        == other by {}
    if p >= 0 {
        lemma_key_pos_is(q, other, p);
        assert(q[p] == pairs[p]);
    } else {
        lemma_key_pos_is(q, other, -1);
    }
}

proof fn lemma_obj_delete_keeps(pairs: Seq<(u32, Value)>, key: u32, other: u32)
    requires
        other != key,
    ensures
        obj_lookup(obj_delete(pairs, key), other) == obj_lookup(pairs, other),
        obj_lookup(obj_delete(pairs, key), key) is None,
    decreases pairs.len(),
{
    let d = obj_delete(pairs, key);
    if pairs.len() == 0 {
        lemma_key_pos_is(d, other, -1);
        lemma_key_pos_is(d, key, -1);
        lemma_key_pos_is(pairs, other, -1);
    } else {
        let init = pairs.drop_last();
        lemma_obj_delete_keeps(init, key, other);
        let di = obj_delete(init, key);
        lemma_key_pos(init, other);
        lemma_key_pos(di, other);
        lemma_key_pos(di, key);
        lemma_key_pos(pairs, other);
        assert forall|j: int| 0 <= j < init.len() implies init[j] == pairs[j] by {}
        if pairs.last().0 == key {
            assert(d == di);
            if key_pos(init, other) >= 0 {
                lemma_key_pos_is(pairs, other, key_pos(init, other));
            } else {
                lemma_key_pos_is(pairs, other, -1);
            }
        } else {
            assert(d == di.push(pairs.last()));
            assert forall|j: int| 0 <= j < di.len() implies d[j] == di[j] by {}
            lemma_key_pos_is(d, key, -1);
            if key_pos(di, other) >= 0 {
                lemma_key_pos_is(d, other, key_pos(di, other));
                lemma_key_pos_is(pairs, other, key_pos(init, other));
            } else if pairs.last().0 == other {
                lemma_key_pos_is(d, other, di.len() as int);
                lemma_key_pos_is(pairs, other, init.len() as int);
            } else {
                lemma_key_pos_is(d, other, -1);
                lemma_key_pos_is(pairs, other, -1);
            }
        }
    }
}

/// Deleting a key removes it and leaves every other key as it was.
pub proof fn law_object_delete(pairs: Seq<(u32, Value)>, key: u32, other: u32)
    ensures
        obj_lookup(obj_delete(pairs, key), key) is None,
        other != key ==> obj_lookup(obj_delete(pairs, key), other) == obj_lookup(pairs, other),
{
    let k2: u32 = if key == 0 {
        1
    } else {
        0
    };
    if other != key {
        lemma_obj_delete_keeps(pairs, key, other);
    } else {
        lemma_obj_delete_keeps(pairs, key, k2);
    }
}

/// Reading an array item after setting it gives the value set; pushing
/// puts the value at the old length.
pub proof fn law_array_set_get(items: Seq<Value>, idx: int, val: Value)
    ensures
        0 <= idx < items.len() ==> array_at(items.update(idx, val), idx) == val,
        array_at(items.push(val), items.len() as int) == val,
{
}
impl Value {
    /// The text of a string value, `None` for another value.
    pub fn as_str<'a>(self, heap: &'a Heap) -> (r: Option<&'a str>)
        requires
            heap.wf(),
            heap@.holds(self),
        ensures
            match r {
                Option::Some(s) => tag_of(self@) == TAG_STRING && s@ == heap@.strings[payload_of(
                    self@,
                ) as int],
                Option::None => tag_of(self@) != TAG_STRING,
            },
    {
        match self.string_id() {
            Option::Some(id) => Option::Some(heap.resolve_str(id)),
            Option::None => Option::None,
        }
    }
}

} // verus!
