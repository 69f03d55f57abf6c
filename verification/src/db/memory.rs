//! The storage that lives in memory: a hash table from byte keys to byte
//! values.

use std::collections::HashMap;
use vstd::prelude::*;
use vstd::slice::slice_to_vec;

verus! {

broadcast use vstd::std_specs::hash::group_hash_axioms;

/// A key with its value.
pub struct Entry {
    pub key: Vec<u8>,
    pub value: Vec<u8>,
}

/// The number that a key is filed under.
pub open spec fn fingerprint(k: Seq<u8>) -> u64
    decreases k.len(),
{
    if k.len() == 0 {
        0
    } else {
        ((fingerprint(k.drop_last()) * 257 + k.last() + 1) % 0x1_0000_0000_0000_0000) as u64
    }
}

/// Some entry of `b` has the key `k`.
pub open spec fn holds(b: Seq<Entry>, k: Seq<u8>) -> bool {
    exists|j: int| 0 <= j < b.len() && #[trigger] b[j].key@ == k
}

/// The place of an entry of `b` with the key `k`.
pub open spec fn place_of(b: Seq<Entry>, k: Seq<u8>) -> int {
    choose|j: int| 0 <= j < b.len() && #[trigger] b[j].key@ == k
}

/// No two entries of `b` have the same key, and all are filed under `f`.
pub open spec fn bucket_ok(b: Seq<Entry>, f: u64) -> bool {
    &&& forall|i: int, j: int| 0 <= i < j < b.len() ==> #[trigger] b[i].key@ != #[trigger] b[j].key@
    &&& forall|j: int| 0 <= j < b.len() ==> fingerprint(#[trigger] b[j].key@) == f
}

/// In-memory storage.
pub struct Memory {
    table: HashMap<u64, Vec<Entry>>,
}

impl View for Memory {
    type V = Map<Seq<u8>, Seq<u8>>;

    closed spec fn view(&self) -> Map<Seq<u8>, Seq<u8>> {
        contents_of(self.table@)
    }
}

/// The keys and values that a table of buckets holds.
pub open spec fn contents_of(table: Map<u64, Vec<Entry>>) -> Map<Seq<u8>, Seq<u8>> {
    Map::new(
        |k: Seq<u8>| table.contains_key(fingerprint(k)) && holds(table[fingerprint(k)]@, k),
        |k: Seq<u8>| table[fingerprint(k)]@[place_of(table[fingerprint(k)]@, k)].value@,
    )
}

/// The number that `key` is filed under.
fn fingerprint_of(key: &[u8]) -> (h: u64)
    ensures
        h == fingerprint(key@),
{
    let mut h: u64 = 0;
    let mut i: usize = 0;
    while i < key.len()
        invariant
            i <= key@.len(),
            h == fingerprint(key@.subrange(0, i as int)),
        decreases key@.len() - i,
    {
        let wide: u128 = (h as u128) * 257 + (key[i] as u128) + 1;
        h = (wide % 0x1_0000_0000_0000_0000) as u64;
        proof {
            assert(key@.subrange(0, i + 1).drop_last() =~= key@.subrange(0, i as int));
        }
        i += 1;
    }
    proof {
        assert(key@.subrange(0, key@.len() as int) =~= key@);
    }
    h
}

/// Whether `a` and `b` hold the same bytes.
fn same_bytes(a: &[u8], b: &[u8]) -> (r: bool)
    ensures
        r == (a@ == b@),
{
    if a.len() != b.len() {
        return false;
    }
    let mut i: usize = 0;
    while i < a.len()
        invariant
            i <= a@.len(),
            a@.len() == b@.len(),
            forall|j: int| 0 <= j < i ==> a@[j] == b@[j],
        decreases a@.len() - i,
    {
        if a[i] != b[i] {
            return false;
        }
        i += 1;
    }
    assert(a@ =~= b@);
    true
}

/// The place of the entry of `bucket` with the key `key`, or the length of
/// `bucket` where it has none.
fn find(bucket: &Vec<Entry>, key: &[u8]) -> (i: usize)
    ensures
        i <= bucket@.len(),
        i < bucket@.len() ==> bucket@[i as int].key@ == key@,
        forall|j: int| 0 <= j < i ==> bucket@[j].key@ != key@,
{
    let mut i: usize = 0;
    while i < bucket.len()
        invariant
            i <= bucket@.len(),
            forall|j: int| 0 <= j < i ==> bucket@[j].key@ != key@,
        decreases bucket@.len() - i,
    {
        if same_bytes(bucket[i].key.as_slice(), key) {
            return i;
        }
        i += 1;
    }
    i
}

impl Memory {
    /// What the storage needs to hold of itself.
    pub closed spec fn wf(&self) -> bool {
        forall|f: u64| #[trigger]
            self.table@.contains_key(f) ==> bucket_ok(self.table@[f]@, f)
    }

    /// An empty storage.
    pub fn new() -> (r: Self)
        ensures
            r.wf(),
            r@ == Map::<Seq<u8>, Seq<u8>>::empty(),
    {
        let r = Memory { table: HashMap::new() };
        assert(r@ =~= Map::<Seq<u8>, Seq<u8>>::empty());
        r
    }

    /// Inserts `value` under `key`, in place of the value that was there.
    pub fn put(&mut self, key: &[u8], value: &[u8]) -> (ok: bool)
        requires
            old(self).wf(),
        ensures
            ok,
            final(self).wf(),
            final(self)@ == old(self)@.insert(key@, value@),
    {
        let fp = fingerprint_of(key);
        let ghost before = self.table@;
        let mut bucket = match self.table.remove(&fp) {
            Some(b) => b,
            None => Vec::new(),
        };
        let ghost old_bucket = bucket@;
        let i = find(&bucket, key);
        let entry = Entry { key: slice_to_vec(key), value: slice_to_vec(value) };
        bucket.push(entry);
        let filled = bucket.len();
        if i < filled - 1 {
            bucket.swap_remove(i);
        }
        let ghost new_bucket = bucket@;
        self.table.insert(fp, bucket);
        proof {
            let after = self.table@;
            assert(bucket_ok(new_bucket, fp)) by {
                if before.contains_key(fp) {
                    assert(bucket_ok(old_bucket, fp));
                }
            }
            assert(holds(new_bucket, key@)) by {
                let at = if i < old_bucket.len() {
                    i as int
                } else {
                    old_bucket.len() as int
                };
                assert(new_bucket[at].key@ == key@);
            }
            assert forall|k: Seq<u8>| #[trigger]
                contents_of(after).contains_key(k) <==> old(self)@.insert(
                    key@,
                    value@,
                ).contains_key(k) by {
                if fingerprint(k) == fp && k != key@ {
                    if holds(old_bucket, k) {
                        let j = place_of(old_bucket, k);
                        if j < new_bucket.len() {
                            assert(new_bucket[j].key@ == k);
                        }
                    }
                    if holds(new_bucket, k) {
                        let j = place_of(new_bucket, k);
                        assert(old_bucket[j].key@ == k);
                        assert(before.contains_key(fp));
                    }
                }
            }
            assert forall|k: Seq<u8>| #[trigger]
                contents_of(after).contains_key(k) implies contents_of(after)[k] == old(
                self,
            )@.insert(key@, value@)[k] by {
                if fingerprint(k) == fp {
                    let j = place_of(new_bucket, k);
                    if k == key@ {
                    } else {
                        assert(old_bucket[j].key@ == k);
                        assert(before.contains_key(fp));
                    }
                }
            }
            assert(self@ =~= old(self)@.insert(key@, value@));
        }
        true
    }

    /// The value that is stored under `key`.
    pub fn get(&self, key: &[u8]) -> (r: Option<Vec<u8>>)
        requires
            self.wf(),
        ensures
            match r {
                Some(v) => self@.contains_key(key@) && self@[key@] == v@,
                None => !self@.contains_key(key@),
            },
    {
        let fp = fingerprint_of(key);
        match self.table.get(&fp) {
            None => None,
            Some(bucket) => {
                let i = find(bucket, key);
                if i < bucket.len() {
                    proof {
                        let j = place_of(bucket@, key@);
                    }
                    Some(bucket[i].value.clone())
                } else {
                    None
                }
            },
        }
    }
}

} // verus!
