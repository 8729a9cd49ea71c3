//! Structural equality of JSON values, and the `uniqueItems` keyword.
use crate::perfect_precision_number::PerfectPrecisionNumber;
use crate::validator::{CompilationError, Validate};
use crate::value::{
    distinct_keys, lemma_distinct_keys, lemma_entries_decrease, lemma_entry_decreases, Object,
    Value,
};
use std::collections::hash_map::DefaultHasher;
use std::collections::HashMap;
use std::hash::Hasher;
use vstd::bytes::{spec_u32_to_le_bytes, spec_u64_to_le_bytes, u32_to_le_bytes, u64_to_le_bytes};
use vstd::prelude::*;
use vstd::string::StringExecFns;
use vstd::std_specs::cmp::PartialEqSpecImpl;
use vstd::std_specs::hash::DefaultHasherAdditionalSpecFns;
use vstd::string::StringSliceAdditionalSpecFns;
use vstd::utf8::encode_utf8;

verus! {

/// Some entry has the given key.
pub open spec fn has_key(entries: Seq<(String, Value)>, key: Seq<char>) -> bool {
    exists|j: int| 0 <= j < entries.len() && (#[trigger] entries[j]).0@ == key
}

/// Two JSON values are equal where they are of one kind and, by kind: numbers
/// are the same number, however they were written; arrays have equal items
/// in the same places; objects have the same keys, with equal values under
/// each key, in whatever order.
pub open spec fn structurally_equal(a: Value, b: Value) -> bool
    decreases a,
    via structurally_equal_decreases
{
    match (a, b) {
        (Value::Null, Value::Null) => true,
        (Value::Bool(x), Value::Bool(y)) => x == y,
        (Value::Number(x), Value::Number(y)) => x.spec_same_value(&y),
        (Value::String(x), Value::String(y)) => x@ == y@,
        (Value::Array(x), Value::Array(y)) => {
            &&& x@.len() == y@.len()
            &&& forall|i: int| 0 <= i < x@.len() ==> structurally_equal(#[trigger] x@[i], y@[i])
        },
        (Value::Object(x), Value::Object(y)) => {
            &&& x.entries().len() == y.entries().len()
            &&& distinct_keys(x.entries())
            &&& distinct_keys(y.entries())
            &&& forall|i: int|
                0 <= i < x.entries().len() ==> #[trigger] has_key(
                    y.entries(),
                    x.entries()[i].0@,
                )
            &&& forall|i: int, j: int|
                0 <= i < x.entries().len() && 0 <= j < y.entries().len() && (
                #[trigger] x.entries()[i]).0@ == (#[trigger] y.entries()[j]).0@
                    ==> structurally_equal(x.entries()[i].1, y.entries()[j].1)
        },
        _ => false,
    }
}

#[via_fn]
proof fn structurally_equal_decreases(a: Value, b: Value) {
    if let Value::Object(x) = a {
        assert forall|i: int| 0 <= i < x.entries().len() implies decreases_to!(a => x.entries()[i].1) by {
            lemma_entry_decreases(x, i);
        }
    }
}

/// A JSON value, borrowed, with the equality and the hash of its structure.
#[derive(Debug)]
pub struct HashedValue<'a>(pub &'a Value);

impl PartialEq for HashedValue<'_> {
    fn eq(&self, other: &Self) -> (r: bool) {
        values_equal(self.0, other.0)
    }
}

impl PartialEqSpecImpl for HashedValue<'_> {
    open spec fn obeys_eq_spec() -> bool {
        true
    }

    open spec fn eq_spec(&self, other: &Self) -> bool {
        structurally_equal(*self.0, *other.0)
    }
}

/// Whether the two values are structurally equal.
#[verifier::loop_isolation(false)]
pub fn values_equal(a: &Value, b: &Value) -> (r: bool)
    ensures
        r == structurally_equal(*a, *b),
    decreases a,
{
    match (a, b) {
        (Value::Null, Value::Null) => true,
        (Value::Bool(x), Value::Bool(y)) => *x == *y,
        (Value::Number(x), Value::Number(y)) => x.same_value(y),
        (Value::String(x), Value::String(y)) => *x == *y,
        (Value::Array(x), Value::Array(y)) => {
            if x.len() != y.len() {
                return false;
            }
            let n = x.len();
            let mut i: usize = 0;
            while i < n
                invariant
                    i <= n,
                    n == x@.len(),
                    n == y@.len(),
                    forall|k: int| 0 <= k < i ==> structurally_equal(#[trigger] x@[k], y@[k]),
                decreases n - i,
            {
                if !values_equal(&x[i], &y[i]) {
                    return false;
                }
                i += 1;
            }
            true
        },
        (Value::Object(x), Value::Object(y)) => {
            proof {
                use_type_invariant(x);
                use_type_invariant(y);
                lemma_distinct_keys(*x);
                lemma_distinct_keys(*y);
            }
            if x.len() != y.len() {
                return false;
            }
            let n = x.len();
            let mut i: usize = 0;
            while i < n
                invariant
                    i <= n,
                    n == x.entries().len(),
                    n == y.entries().len(),
                    distinct_keys(x.entries()),
                    distinct_keys(y.entries()),
                    forall|k: int|
                        0 <= k < i ==> #[trigger] has_key(y.entries(), x.entries()[k].0@),
                    forall|k: int, j: int|
                        0 <= k < i && 0 <= j < y.entries().len() && (#[trigger] x.entries()[k]).0@
                            == (#[trigger] y.entries()[j]).0@ ==> structurally_equal(
                            x.entries()[k].1,
                            y.entries()[j].1,
                        ),
                decreases n - i,
            {
                let found = y.position(x.key_at(i).as_str());
                match found {
                    None => {
                        assert(!has_key(y.entries(), x.entries()[i as int].0@));
                        return false;
                    },
                    Some(j) => {
                        proof {
                            lemma_entry_decreases(*x, i as int);
                        }
                        if !values_equal(x.value_at(i), y.value_at(j)) {
                            return false;
                        }
                        assert(has_key(y.entries(), x.entries()[i as int].0@));
                    },
                }
                i += 1;
            }
            true
        },
        _ => false,
    }
}

/// What null writes into a hasher.
pub const NULL_MARK: u32 = 3_221_225_473;

/// What ends a text that is written into a hasher.
pub const TEXT_END: u8 = 0xff;

/// What hashing a text writes: its bytes, and a mark of their end.
pub open spec fn text_writes(text: Seq<char>) -> Seq<Seq<u8>> {
    seq![encode_utf8(text), seq![TEXT_END]]
}

/// What hashing the value writes into a hasher, one sequence of bytes for
/// each write. Null writes a fixed mark; a boolean, a number and a text write
/// themselves; an array writes its items in their order; an object writes one
/// number, which does not depend on the order of its entries.
pub open spec fn hash_writes(v: Value) -> Seq<Seq<u8>>
    decreases v,
    via hash_writes_decreases
{
    match v {
        Value::Null => seq![spec_u32_to_le_bytes(NULL_MARK)],
        Value::Bool(b) => seq![seq![if b { 1u8 } else { 0u8 }]],
        Value::Number(n) => n.hash_writes(),
        Value::String(s) => text_writes(s@),
        Value::Array(items) => items_writes(items@),
        Value::Object(o) => seq![spec_u64_to_le_bytes(entries_hash(o.entries()))],
    }
}

#[via_fn]
proof fn hash_writes_decreases(v: Value) {
    if let Value::Object(o) = v {
        lemma_entries_decrease(o);
    }
}

/// What hashing the items writes, one item after the other.
pub open spec fn items_writes(items: Seq<Value>) -> Seq<Seq<u8>>
    decreases items,
{
    if items.len() == 0 {
        Seq::empty()
    } else {
        items_writes(items.drop_last()) + hash_writes(items.last())
    }
}

/// The hash of one entry of an object: of its key and then its value.
pub open spec fn entry_hash(entry: (String, Value)) -> u64
    decreases entry,
{
    DefaultHasher::spec_finish(text_writes(entry.0@) + hash_writes(entry.1))
}

/// The hashes of the entries, combined by exclusive or.
pub open spec fn entries_hash(entries: Seq<(String, Value)>) -> u64
    decreases entries,
{
    if entries.len() == 0 {
        0
    } else {
        entries_hash(entries.drop_last()) ^ entry_hash(entries.last())
    }
}

/// The hash of the structure of a value.
pub open spec fn structural_hash(v: Value) -> u64 {
    DefaultHasher::spec_finish(hash_writes(v))
}

/// Writes a text into a hasher.
fn hash_text(text: &str, state: &mut DefaultHasher)
    ensures
        final(state)@ == old(state)@ + text_writes(text@),
{
    let mut end: Vec<u8> = Vec::new();
    end.push(TEXT_END);
    state.write(text.as_bytes());
    state.write(end.as_slice());
    assert(end@ =~= seq![TEXT_END]);
    assert(state@ =~= old(state)@ + text_writes(text@));
}

/// Feeds the structure of a value into a hasher.
#[verifier::loop_isolation(false)]
pub fn hash_value(v: &Value, state: &mut DefaultHasher)
    ensures
        final(state)@ == old(state)@ + hash_writes(*v),
    decreases v,
{
    match v {
        Value::Null => {
            let mark = u32_to_le_bytes(NULL_MARK);
            state.write(mark.as_slice());
            assert(state@ =~= old(state)@ + hash_writes(*v));
        },
        Value::Bool(b) => {
            let mut byte: Vec<u8> = Vec::new();
            byte.push(if *b { 1u8 } else { 0u8 });
            state.write(byte.as_slice());
            assert(byte@ =~= seq![if *b { 1u8 } else { 0u8 }]);
            assert(state@ =~= old(state)@ + hash_writes(*v));
        },
        Value::Number(n) => {
            n.hash(state);
        },
        Value::String(s) => {
            hash_text(s.as_str(), state);
        },
        Value::Array(items) => {
            let n = items.len();
            let mut i: usize = 0;
            assert(items@.take(0) =~= Seq::<Value>::empty());
            assert(state@ =~= old(state)@ + items_writes(items@.take(0)));
            while i < n
                invariant
                    i <= n,
                    n == items@.len(),
                    state@ == old(state)@ + items_writes(items@.take(i as int)),
                decreases n - i,
            {
                let ghost before = state@;
                hash_value(&items[i], state);
                proof {
                    let now = items@.take(i + 1);
                    assert(now.drop_last() =~= items@.take(i as int));
                    assert(now.last() == items@[i as int]);
                    assert(state@ =~= old(state)@ + items_writes(now));
                }
                i += 1;
            }
            assert(items@.take(n as int) =~= items@);
        },
        Value::Object(o) => {
            let n = o.len();
            let mut combined: u64 = 0;
            let mut i: usize = 0;
            assert(o.entries().take(0) =~= Seq::<(String, Value)>::empty());
            while i < n
                invariant
                    i <= n,
                    n == o.entries().len(),
                    combined == entries_hash(o.entries().take(i as int)),
                    state@ == old(state)@,
                decreases n - i,
            {
                let mut item_hasher = DefaultHasher::new();
                hash_text(o.key_at(i).as_str(), &mut item_hasher);
                proof {
                    lemma_entry_decreases(*o, i as int);
                }
                hash_value(o.value_at(i), &mut item_hasher);
                let item = item_hasher.finish();
                proof {
                    let now = o.entries().take(i + 1);
                    assert(now.drop_last() =~= o.entries().take(i as int));
                    assert(now.last() == o.entries()[i as int]);
                    assert(item_hasher@ =~= text_writes(o.entries()[i as int].0@) + hash_writes(
                        o.entries()[i as int].1,
                    ));
                    assert(item == entry_hash(o.entries()[i as int]));
                    assert(entries_hash(now) == entries_hash(now.drop_last()) ^ entry_hash(
                        now.last(),
                    ));
                }
                combined = combined ^ item;
                i += 1;
            }
            assert(o.entries().take(n as int) =~= o.entries());
            let bytes = u64_to_le_bytes(combined);
            state.write(bytes.as_slice());
            assert(state@ =~= old(state)@ + hash_writes(*v));
        },
    }
}

impl HashedValue<'_> {
    /// The hash of the structure of the value.
    pub fn hash(&self) -> (r: u64)
        ensures
            r == structural_hash(*self.0),
    {
        let mut state = DefaultHasher::new();
        hash_value(self.0, &mut state);
        assert(state@ =~= hash_writes(*self.0));
        state.finish()
    }
}

/// Exclusive or does not mind the order.
proof fn lemma_xor_swap(a: u64, b: u64, c: u64)
    ensures
        (a ^ b) ^ c == (a ^ c) ^ b,
{
    assert((a ^ b) ^ c == (a ^ c) ^ b) by (bit_vector);
}

/// The combined hash of entries is that of the entries without one of them,
/// combined with the hash of that one.
proof fn lemma_entries_hash_remove(entries: Seq<(String, Value)>, j: int)
    requires
        0 <= j < entries.len(),
    ensures
        entries_hash(entries) == entries_hash(entries.remove(j)) ^ entry_hash(entries[j]),
    decreases entries.len(),
{
    let front = entries.drop_last();
    if j == entries.len() - 1 {
        assert(entries.remove(j) =~= front);
    } else {
        let rest = entries.remove(j);
        assert(rest.drop_last() =~= front.remove(j));
        assert(rest.last() == entries.last());
        lemma_entries_hash_remove(front, j);
        lemma_xor_swap(
            entries_hash(front.remove(j)),
            entry_hash(entries[j]),
            entry_hash(entries.last()),
        );
    }
}

/// Equal items in the same places write the same.
proof fn lemma_items_write_alike(x: Seq<Value>, y: Seq<Value>)
    requires
        x.len() == y.len(),
        forall|i: int| 0 <= i < x.len() ==> structurally_equal(#[trigger] x[i], y[i]),
    ensures
        items_writes(x) == items_writes(y),
    decreases x,
{
    if x.len() > 0 {
        let xf = x.drop_last();
        let yf = y.drop_last();
        assert forall|i: int| 0 <= i < xf.len() implies structurally_equal(
            #[trigger] xf[i],
            yf[i],
        ) by {
            assert(structurally_equal(x[i], y[i]));
        }
        lemma_items_write_alike(xf, yf);
        assert(structurally_equal(x[x.len() - 1], y[x.len() - 1]));
        lemma_equal_values_write_alike(x.last(), y.last());
    }
}

/// Entries with the same keys, and equal values under each key, have the
/// same combined hash, whatever their order.
proof fn lemma_entries_hash_alike(x: Seq<(String, Value)>, y: Seq<(String, Value)>)
    requires
        x.len() == y.len(),
        distinct_keys(x),
        distinct_keys(y),
        forall|i: int| 0 <= i < x.len() ==> #[trigger] has_key(y, x[i].0@),
        forall|i: int, j: int|
            0 <= i < x.len() && 0 <= j < y.len() && (#[trigger] x[i]).0@ == (#[trigger] y[j]).0@
                ==> structurally_equal(x[i].1, y[j].1),
    ensures
        entries_hash(x) == entries_hash(y),
    decreases x,
{
    if x.len() > 0 {
        let last = x.len() - 1;
        let xf = x.drop_last();
        assert(has_key(y, x[last].0@));
        let j = choose|j: int| 0 <= j < y.len() && (#[trigger] y[j]).0@ == x[last].0@;
        let yr = y.remove(j);
        assert(distinct_keys(xf)) by {
            assert forall|a: int, b: int|
                0 <= a < xf.len() && 0 <= b < xf.len() && a != b implies (#[trigger] xf[a]).0@ != (
            #[trigger] xf[b]).0@ by {
                assert(xf[a] == x[a] && xf[b] == x[b]);
            }
        }
        assert(distinct_keys(yr)) by {
            assert forall|a: int, b: int|
                0 <= a < yr.len() && 0 <= b < yr.len() && a != b implies (#[trigger] yr[a]).0@ != (
            #[trigger] yr[b]).0@ by {
                let a0 = if a < j { a } else { a + 1 };
                let b0 = if b < j { b } else { b + 1 };
                assert(yr[a] == y[a0] && yr[b] == y[b0]);
            }
        }
        assert forall|i: int| 0 <= i < xf.len() implies #[trigger] has_key(yr, xf[i].0@) by {
            assert(xf[i] == x[i]);
            assert(has_key(y, x[i].0@));
            let k = choose|k: int| 0 <= k < y.len() && (#[trigger] y[k]).0@ == x[i].0@;
            assert(x[i].0@ != x[last].0@);
            assert(k != j);
            let k0 = if k < j { k } else { k - 1 };
            assert(yr[k0] == y[k]);
        }
        assert forall|i: int, k: int|
            0 <= i < xf.len() && 0 <= k < yr.len() && (#[trigger] xf[i]).0@ == (
            #[trigger] yr[k]).0@ implies structurally_equal(xf[i].1, yr[k].1) by {
            let k0 = if k < j { k } else { k + 1 };
            assert(xf[i] == x[i] && yr[k] == y[k0]);
        }
        lemma_entries_hash_alike(xf, yr);
        lemma_entries_hash_remove(y, j);
        assert(structurally_equal(x[last].1, y[j].1));
        lemma_equal_values_write_alike(x.last().1, y[j].1);
        assert(x.last() == x[last]);
        assert(entry_hash(x.last()) == DefaultHasher::spec_finish(
            text_writes(x.last().0@) + hash_writes(x.last().1),
        ));
        assert(entry_hash(y[j]) == DefaultHasher::spec_finish(
            text_writes(y[j].0@) + hash_writes(y[j].1),
        ));
        assert(entries_hash(x) == entries_hash(xf) ^ entry_hash(x.last()));
    }
}

/// Structurally equal values write the same into a hasher: neither the order
/// of the entries of an object nor the way a number was written tells.
pub proof fn lemma_equal_values_write_alike(a: Value, b: Value)
    requires
        structurally_equal(a, b),
    ensures
        hash_writes(a) == hash_writes(b),
    decreases a,
{
    match (a, b) {
        (Value::Array(x), Value::Array(y)) => {
            lemma_items_write_alike(x@, y@);
        },
        (Value::Object(x), Value::Object(y)) => {
            lemma_entries_decrease(x);
            lemma_entries_hash_alike(x.entries(), y.entries());
        },
        _ => {},
    }
}

/// Structurally equal values have the same hash.
pub proof fn lemma_equal_values_hash_alike(a: Value, b: Value)
    requires
        structurally_equal(a, b),
    ensures
        structural_hash(a) == structural_hash(b),
{
    lemma_equal_values_write_alike(a, b);
}

/// No two of the items are structurally equal.
pub open spec fn all_distinct(items: Seq<Value>) -> bool {
    forall|i: int, j: int|
        0 <= i < j < items.len() ==> !structurally_equal(#[trigger] items[i], #[trigger] items[j])
}

/// Whether no two of the items are structurally equal.
///
/// Each item is looked up by its hash among the items before it, and held
/// against those of the same hash only; the first equal pair ends the search.
pub fn is_unique(items: &[Value]) -> (r: bool)
    ensures
        r == all_distinct(items@),
{
    let n = items.len();
    let mut seen: HashMap<u64, Vec<usize>> = HashMap::with_capacity(n);
    let mut i: usize = 0;
    while i < n
        invariant
            i <= n,
            n == items@.len(),
            forall|a: int, b: int|
                0 <= a < b < i ==> !structurally_equal(#[trigger] items@[a], #[trigger] items@[b]),
            forall|k: int|
                0 <= k < i ==> seen@.contains_key(structural_hash(#[trigger] items@[k]))
                    && seen@[structural_hash(items@[k])]@.contains(k as usize),
            forall|h: u64, p: int|
                seen@.contains_key(h) && 0 <= p < seen@[h]@.len() ==> (#[trigger] seen@[h]@[p])
                    < i,
        decreases n - i,
    {
        let h = HashedValue(&items[i]).hash();
        let ghost before = seen@;
        let taken = seen.remove(&h);
        let mut bucket: Vec<usize> = match taken {
            Some(b) => b,
            None => Vec::new(),
        };
        assert(seen@ == before.remove(h));
        assert(forall|p: int| 0 <= p < bucket@.len() ==> (#[trigger] bucket@[p]) < i) by {
            if before.contains_key(h) {
                assert(bucket@ == before[h]@);
            }
        }
        let m = bucket.len();
        let mut p: usize = 0;
        while p < m
            invariant
                p <= m,
                m == bucket@.len(),
                i < n,
                n == items@.len(),
                forall|q: int| 0 <= q < m ==> (#[trigger] bucket@[q]) < i,
                forall|q: int|
                    0 <= q < p ==> !structurally_equal(
                        items@[(#[trigger] bucket@[q]) as int],
                        items@[i as int],
                    ),
            decreases m - p,
        {
            let earlier = bucket[p];
            if values_equal(&items[earlier], &items[i]) {
                return false;
            }
            p += 1;
        }
        proof {
            assert forall|a: int| 0 <= a < i implies !structurally_equal(
                #[trigger] items@[a],
                items@[i as int],
            ) by {
                if structurally_equal(items@[a], items@[i as int]) {
                    lemma_equal_values_hash_alike(items@[a], items@[i as int]);
                    assert(before.contains_key(h));
                    assert(before[h]@.contains(a as usize));
                    let q = choose|q: int| 0 <= q < bucket@.len() && bucket@[q] == a as usize;
                    assert(!structurally_equal(items@[bucket@[q] as int], items@[i as int]));
                }
            }
        }
        let ghost old_bucket = bucket@;
        bucket.push(i);
        seen.insert(h, bucket);
        proof {
            assert forall|k: int| 0 <= k < i + 1 implies seen@.contains_key(
                structural_hash(#[trigger] items@[k]),
            ) && seen@[structural_hash(items@[k])]@.contains(k as usize) by {
                let hk = structural_hash(items@[k]);
                if k == i {
                    assert(seen@[h]@[old_bucket.len() as int] == i);
                } else if hk == h {
                    assert(before[h]@ == old_bucket);
                    let q = choose|q: int| 0 <= q < old_bucket.len() && old_bucket[q] == k as usize;
                    assert(seen@[h]@[q] == k as usize);
                } else {
                    assert(seen@[hk] == before[hk]);
                }
            }
            assert forall|g: u64, q: int|
                seen@.contains_key(g) && 0 <= q < seen@[g]@.len() implies (#[trigger] seen@[g]@[q])
                < i + 1 by {
                if g == h {
                    if q < old_bucket.len() {
                        assert(seen@[g]@[q] == old_bucket[q]);
                    }
                } else {
                    assert(seen@[g] == before[g]);
                }
            }
        }
        i += 1;
    }
    true
}

/// `uniqueItems`: an array is valid where no two of its items are equal.
#[derive(Debug, Clone, Copy)]
pub struct UniqueItemsValidator {}

impl UniqueItemsValidator {
    /// The validator. It holds nothing.
    pub fn compile() -> (r: Result<UniqueItemsValidator, CompilationError>)
        ensures
            r is Ok,
    {
        Ok(UniqueItemsValidator {  })
    }
}

impl UniqueItemsValidator {
    /// The keyword and its value.
    pub fn name(&self) -> (r: String)
        ensures
            r@ == "uniqueItems: true"@,
    {
        String::from_str("uniqueItems: true")
    }
}

impl Validate for UniqueItemsValidator {
    /// The arrays without two structurally equal items.
    open spec fn accepts_array(&self, items: Seq<Value>) -> bool {
        all_distinct(items)
    }

    open spec fn accepts_boolean(&self, value: bool) -> bool {
        true
    }

    open spec fn accepts_null(&self) -> bool {
        true
    }

    open spec fn accepts_number(&self, value: PerfectPrecisionNumber) -> bool {
        true
    }

    open spec fn accepts_object(&self, value: Object) -> bool {
        true
    }

    open spec fn accepts_string(&self, value: Seq<char>) -> bool {
        true
    }

    open spec fn keyword(&self) -> Seq<char> {
        "uniqueItems"@
    }

    /// The keyword and its value.
    open spec fn described(&self) -> Seq<char> {
        "uniqueItems: true"@
    }

    fn is_valid_array(&self, items: &[Value]) -> (r: bool) {
        is_unique(items)
    }

    fn is_valid_boolean(&self, value: bool) -> (r: bool) {
        true
    }

    fn is_valid_null(&self) -> (r: bool) {
        true
    }

    fn is_valid_perfect_precision_number(&self, value: &PerfectPrecisionNumber) -> (r: bool) {
        true
    }

    fn is_valid_object(&self, value: &Object) -> (r: bool) {
        true
    }

    fn is_valid_string(&self, value: &str) -> (r: bool) {
        true
    }

    fn keyword_name(&self) -> (r: &'static str) {
        "uniqueItems"
    }

    fn description(&self) -> (r: String) {
        self.name()
    }
}

/// Compiles the value of a `uniqueItems` keyword: a validator where the value
/// is `true`, and nothing, which constrains nothing, for any other value.
pub fn compile(schema: &Value) -> (r: Option<Result<UniqueItemsValidator, CompilationError>>)
    ensures
        r is Some <==> *schema == Value::Bool(true),
        r matches Some(compiled) ==> compiled is Ok,
{
    if let Value::Bool(value) = schema {
        if *value {
            Some(UniqueItemsValidator::compile())
        } else {
            None
        }
    } else {
        None
    }
}

} // verus!
