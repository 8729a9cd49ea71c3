//! The data that validators read: JSON values with exact numbers.
use crate::perfect_precision_number::{PerfectPrecisionNumber, PerfectPrecisionNumberError};
use vstd::prelude::*;
use vstd::string::StringSliceAdditionalSpecFns;

verus! {

/// A JSON value. Numbers are exact; an object keeps its entries in the order
/// in which they were put in.
#[derive(Debug)]
pub enum Value {
    Null,
    Bool(bool),
    Number(PerfectPrecisionNumber),
    String(String),
    Array(Vec<Value>),
    Object(Object),
}

impl Value {
    /// The number that the value is, where it is one.
    pub fn as_number(&self) -> (r: Result<PerfectPrecisionNumber, PerfectPrecisionNumberError>)
        ensures
            match *self {
                Value::Number(number) => r matches Ok(n) && n.wf() && n.kind() == number.kind()
                    && n.numerator() == number.numerator() && n.scale() == number.scale(),
                _ => r matches Err(PerfectPrecisionNumberError::Invalid(message)) && message@
                    == "value is not a number"@,
            },
    {
        if let Value::Number(number) = self {
            Ok(number.clone())
        } else {
            Err(PerfectPrecisionNumberError::Invalid("value is not a number"))
        }
    }
}

/// The entries of a JSON object: no key occurs twice.
#[derive(Debug)]
pub struct Object {
    entries: Vec<(String, Value)>,
}

/// No two entries have the same key.
pub open spec fn distinct_keys(entries: Seq<(String, Value)>) -> bool {
    forall|i: int, j: int|
        0 <= i < entries.len() && 0 <= j < entries.len() && i != j ==> (#[trigger] entries[i]).0@
            != (#[trigger] entries[j]).0@
}

impl Object {
    #[verifier::type_invariant]
    pub closed spec fn wf(&self) -> bool {
        distinct_keys(self.entries@)
    }

    /// The entries, in the order in which they were put in.
    pub closed spec fn entries(&self) -> Seq<(String, Value)> {
        self.entries@
    }

    /// The object without entries.
    pub fn new() -> (r: Object)
        ensures
            r.entries().len() == 0,
    {
        Object { entries: Vec::new() }
    }

    /// The number of entries.
    pub fn len(&self) -> (r: usize)
        ensures
            r == self.entries().len(),
    {
        self.entries.len()
    }

    /// The key of the entry at place `i`.
    pub fn key_at(&self, i: usize) -> (r: &String)
        requires
            i < self.entries().len(),
        ensures
            *r == self.entries()[i as int].0,
    {
        &self.entries[i].0
    }

    /// The value of the entry at place `i`.
    pub fn value_at(&self, i: usize) -> (r: &Value)
        requires
            i < self.entries().len(),
        ensures
            *r == self.entries()[i as int].1,
    {
        &self.entries[i].1
    }

    /// The place of the entry with the given key.
    pub fn position(&self, key: &str) -> (r: Option<usize>)
        ensures
            match r {
                Some(i) => i < self.entries().len() && self.entries()[i as int].0@ == key@,
                None => forall|i: int|
                    0 <= i < self.entries().len() ==> (#[trigger] self.entries()[i]).0@ != key@,
            },
    {
        let n = self.entries.len();
        let mut i: usize = 0;
        while i < n
            invariant
                i <= n,
                n == self.entries@.len(),
                forall|j: int| 0 <= j < i ==> (#[trigger] self.entries@[j]).0@ != key@,
            decreases n - i,
        {
            if str_eq(self.entries[i].0.as_str(), key) {
                return Some(i);
            }
            i += 1;
        }
        None
    }

    /// The value under the given key.
    pub fn get(&self, key: &str) -> (r: Option<&Value>)
        ensures
            match r {
                Some(v) => exists|i: int|
                    0 <= i < self.entries().len() && (#[trigger] self.entries()[i]).0@ == key@
                        && self.entries()[i].1 == *v,
                None => forall|i: int|
                    0 <= i < self.entries().len() ==> (#[trigger] self.entries()[i]).0@ != key@,
            },
    {
        match self.position(key) {
            Some(i) => Some(&self.entries[i].1),
            None => None,
        }
    }

    /// Puts `value` under `key`: in the place of the entry that had the key,
    /// or else behind the other entries.
    pub fn insert(&mut self, key: String, value: Value)
        ensures
            final(self).entries().len() >= old(self).entries().len(),
            exists|i: int|
                0 <= i < final(self).entries().len() && #[trigger] final(self).entries()[i] == (
                    key,
                    value,
                ) && forall|j: int|
                    0 <= j < final(self).entries().len() && j != i ==> j < old(
                        self,
                    ).entries().len() && #[trigger] final(self).entries()[j] == old(
                        self,
                    ).entries()[j],
            forall|i: int|
                0 <= i < old(self).entries().len() && (#[trigger] old(self).entries()[i]).0@
                    != key@ ==> final(self).entries()[i] == old(self).entries()[i],
    {
        proof {
            use_type_invariant(&*self);
        }
        let place = self.position(key.as_str());
        let mut taken = Object::new();
        core::mem::swap(self, &mut taken);
        let Object { entries } = taken;
        let mut entries = entries;
        let ghost before = entries@;
        match place {
            Some(i) => {
                entries.set(i, (key, value));
                proof {
                    let after = entries@;
                    assert forall|a: int, b: int|
                        0 <= a < after.len() && 0 <= b < after.len() && a != b implies (
                    #[trigger] after[a]).0@ != (#[trigger] after[b]).0@ by {
                        assert(after[a].0@ == before[a].0@);
                        assert(after[b].0@ == before[b].0@);
                    }
                    assert(after[i as int] == (key, value));
                }
            },
            None => {
                entries.push((key, value));
                proof {
                    let after = entries@;
                    assert forall|a: int, b: int|
                        0 <= a < after.len() && 0 <= b < after.len() && a != b implies (
                    #[trigger] after[a]).0@ != (#[trigger] after[b]).0@ by {
                        if a < before.len() {
                            assert(after[a] == before[a]);
                        }
                        if b < before.len() {
                            assert(after[b] == before[b]);
                        }
                    }
                    assert(after[before.len() as int] == (key, value));
                }
            },
        }
        *self = Object { entries };
    }
}

/// The keys of a well-formed object are distinct.
pub proof fn lemma_distinct_keys(o: Object)
    requires
        o.wf(),
    ensures
        distinct_keys(o.entries()),
{
}

/// An entry of an object is smaller than the object.
pub proof fn lemma_entry_decreases(o: Object, i: int)
    requires
        0 <= i < o.entries().len(),
    ensures
        decreases_to!(o => o.entries()[i]),
        decreases_to!(o => o.entries()[i].1),
{
}

/// The entries of an object are smaller than the object.
pub proof fn lemma_entries_decrease(o: Object)
    ensures
        decreases_to!(o => o.entries()),
{
}

/// Whether two texts are the same.
pub fn str_eq(a: &str, b: &str) -> (r: bool)
    ensures
        r == (a@ == b@),
{
    let x = a.as_bytes();
    let y = b.as_bytes();
    if x.len() != y.len() {
        proof {
            if a@ == b@ {
                assert(a.spec_bytes() == b.spec_bytes());
            }
        }
        return false;
    }
    let n = x.len();
    let mut i: usize = 0;
    while i < n
        invariant
            i <= n,
            n == x@.len(),
            n == y@.len(),
            x@ == a.spec_bytes(),
            y@ == b.spec_bytes(),
            forall|j: int| 0 <= j < i ==> x@[j] == y@[j],
        decreases n - i,
    {
        if x[i] != y[i] {
            return false;
        }
        i += 1;
    }
    proof {
        assert(x@ =~= y@);
        vstd::utf8::encode_utf8_decode_utf8(a@);
        vstd::utf8::encode_utf8_decode_utf8(b@);
    }
    true
}

} // verus!
