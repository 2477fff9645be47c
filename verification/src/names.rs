//! A table of distinct names that remembers the order in which they came and
//! finds a name again in constant expected time.

use std::collections::HashMap;
use vstd::prelude::*;

verus! {

broadcast use vstd::std_specs::hash::group_hash_axioms;

/// One step of the hash: the hash of a text one byte longer.
pub open spec fn hash_step(h: u64, b: u8) -> u64 {
    ((h as int * 1099511628211 + b as int + 1) % 18446744073709551557) as u64
}

/// The hash of a sequence of bytes.
pub open spec fn bytes_hash(bytes: Seq<u8>) -> u64
    decreases bytes.len(),
{
    if bytes.len() == 0 {
        14695981039346656037
    } else {
        hash_step(bytes_hash(bytes.drop_last()), bytes.last())
    }
}

/// The hash of a name: that of its bytes in UTF-8.
pub open spec fn name_hash(name: Seq<char>) -> u64 {
    bytes_hash(vstd::utf8::encode_utf8(name))
}

/// Computes the hash of a name.
pub fn hash_name(name: &String) -> (h: u64)
    ensures
        h == name_hash(name@),
{
    let bytes = name.as_str().as_bytes();
    let mut h: u64 = 14695981039346656037;
    let mut i: usize = 0;
    while i < bytes.len()
        invariant
            i <= bytes.len(),
            h == bytes_hash(bytes@.take(i as int)),
        decreases bytes.len() - i,
    {
        let b: u8 = bytes[i];
        let wide: u128 = (h as u128) * 1099511628211u128 + (b as u128) + 1u128;
        proof {
            let next = bytes@.take(i + 1);
            assert(next.drop_last() =~= bytes@.take(i as int));
            assert(next.last() == b);
        }
        h = (wide % 18446744073709551557u128) as u64;
        i += 1;
    }
    assert(bytes@.take(i as int) =~= bytes@);
    h
}

/// Distinct names in the order in which they were added.
pub struct NameTable {
    names: Vec<String>,
    buckets: HashMap<u64, Vec<usize>>,
}

impl View for NameTable {
    type V = Seq<Seq<char>>;

    closed spec fn view(&self) -> Seq<Seq<char>> {
        Seq::new(self.names@.len(), |i: int| self.names@[i]@)
    }
}

impl NameTable {
    /// Every name is listed under its hash.
    #[verifier::opaque]
    spec fn listed(&self) -> bool {
        forall|i: int|
            0 <= i < self.names@.len() ==> {
                let h = name_hash((#[trigger] self.names@[i])@);
                self.buckets@.contains_key(h) && self.buckets@[h]@.contains(i as usize)
            }
    }

    /// Whatever is listed under a hash is the position of a name with that
    /// hash.
    #[verifier::opaque]
    spec fn sound(&self) -> bool {
        forall|h: u64, j: int|
            self.buckets@.contains_key(h) && 0 <= j < self.buckets@[h]@.len() ==> {
                let i = #[trigger] self.buckets@[h]@[j];
                i < self.names@.len() && name_hash(self.names@[i as int]@) == h
            }
    }

    /// No name occurs twice.
    #[verifier::opaque]
    spec fn distinct(&self) -> bool {
        forall|i: int, j: int|
            0 <= i < j < self.names@.len() ==> (#[trigger] self.names@[i])@ != (
            #[trigger] self.names@[j])@
    }

    /// The invariant of the table: no name occurs twice, and every name is
    /// listed under its hash.
    pub closed spec fn wf(&self) -> bool {
        self.listed() && self.sound() && self.distinct()
    }

    proof fn lemma_listed(&self, i: int)
        requires
            self.wf(),
            0 <= i < self.names@.len(),
        ensures
            self.buckets@.contains_key(name_hash(self.names@[i]@)),
            self.buckets@[name_hash(self.names@[i]@)]@.contains(i as usize),
    {
        reveal(NameTable::listed);
    }

    proof fn lemma_sound(&self, h: u64)
        requires
            self.wf(),
            self.buckets@.contains_key(h),
        ensures
            forall|j: int|
                0 <= j < self.buckets@[h]@.len() ==> (#[trigger] self.buckets@[h]@[j])
                    < self.names@.len(),
    {
        reveal(NameTable::sound);
    }

    /// No name occurs twice in a table.
    pub proof fn lemma_distinct(&self)
        requires
            self.wf(),
        ensures
            self@.no_duplicates(),
    {
        reveal(NameTable::distinct);
        assert forall|i: int, j: int|
            0 <= i < self@.len() && 0 <= j < self@.len() && i != j implies self@[i]
            != self@[j] by {
            if i < j {
                assert(self.names@[i]@ != self.names@[j]@);
            } else {
                assert(self.names@[j]@ != self.names@[i]@);
            }
        }
    }

    /// The empty table.
    pub fn new() -> (t: NameTable)
        ensures
            t.wf(),
            t@ == Seq::<Seq<char>>::empty(),
    {
        let t = NameTable { names: Vec::new(), buckets: HashMap::new() };
        proof {
            reveal(NameTable::listed);
            reveal(NameTable::sound);
            reveal(NameTable::distinct);
        }
        assert(t@ =~= Seq::<Seq<char>>::empty());
        t
    }

    /// The number of names.
    pub fn len(&self) -> (n: usize)
        ensures
            n == self@.len(),
    {
        self.names.len()
    }

    /// The name that was added as the `i`-th.
    pub fn name(&self, i: usize) -> (s: &String)
        requires
            i < self@.len(),
        ensures
            s@ == self@[i as int],
    {
        &self.names[i]
    }

    /// The position of `name`, if it is in the table.
    pub fn find(&self, name: &String) -> (r: Option<usize>)
        requires
            self.wf(),
        ensures
            match r {
                Some(i) => i < self@.len() && self@[i as int] == name@,
                None => !self@.contains(name@),
            },
    {
        let h = hash_name(name);
        match self.buckets.get(&h) {
            None => {
                assert(!self@.contains(name@)) by {
                    if self@.contains(name@) {
                        let i = choose|i: int| 0 <= i < self@.len() && self@[i] == name@;
                        self.lemma_listed(i);
                    }
                }
                None
            },
            Some(bucket) => {
                proof {
                    self.lemma_sound(h);
                }
                let count = self.names.len();
                let mut j: usize = 0;
                while j < bucket.len()
                    invariant
                        self.wf(),
                        j <= bucket.len(),
                        count == self.names@.len(),
                        h == name_hash(name@),
                        self.buckets@.contains_key(h),
                        *bucket == self.buckets@[h],
                        forall|k: int|
                            0 <= k < bucket@.len() ==> (#[trigger] bucket@[k])
                                < self.names@.len(),
                        forall|k: int|
                            0 <= k < j ==> self.names@[(#[trigger] bucket@[k]) as int]@
                                != name@,
                    decreases bucket.len() - j,
                {
                    let i = bucket[j];
                    if self.names[i] == *name {
                        return Some(i);
                    }
                    j += 1;
                }
                assert(!self@.contains(name@)) by {
                    if self@.contains(name@) {
                        let i = choose|i: int| 0 <= i < self@.len() && self@[i] == name@;
                        assert(self.names@[i]@ == name@);
                        self.lemma_listed(i);
                        assert(bucket@.contains(i as usize));
                        let k = choose|k: int| 0 <= k < bucket@.len() && bucket@[k] == i as usize;
                        assert(k < j);
                        assert(bucket@[k] as int == i);
                        assert(self.names@[bucket@[k] as int]@ != name@);
                    }
                }
                None
            },
        }
    }

    /// Adds a name that the table does not hold yet, as its last.
    pub fn push(&mut self, name: String)
        requires
            old(self).wf(),
            !old(self)@.contains(name@),
        ensures
            final(self).wf(),
            final(self)@ == old(self)@.push(name@),
    {
        let h = hash_name(&name);
        let slot = self.names.len();
        let ghost before = *self;
        let mut bucket = match self.buckets.remove(&h) {
            Some(b) => b,
            None => Vec::new(),
        };
        let ghost old_bucket = bucket@;
        bucket.push(slot);
        self.buckets.insert(h, bucket);
        self.names.push(name);
        proof {
            reveal(NameTable::listed);
            reveal(NameTable::sound);
            reveal(NameTable::distinct);
            assert(self@ =~= before@.push(name@));
            assert forall|i: int| 0 <= i < self.names@.len() implies {
                let g = name_hash((#[trigger] self.names@[i])@);
                self.buckets@.contains_key(g) && self.buckets@[g]@.contains(i as usize)
            } by {
                let g = name_hash(self.names@[i]@);
                if i == slot {
                    assert(self.buckets@[g]@[old_bucket.len() as int] == slot);
                } else {
                    assert(self.names@[i] == before.names@[i]);
                    assert(before.buckets@[g]@.contains(i as usize));
                    let k = choose|k: int|
                        0 <= k < before.buckets@[g]@.len() && before.buckets@[g]@[k]
                            == i as usize;
                    assert(self.buckets@[g]@[k] == i as usize);
                }
            }
            assert forall|g: u64, j: int|
                self.buckets@.contains_key(g) && 0 <= j < self.buckets@[g]@.len() implies {
                let i = #[trigger] self.buckets@[g]@[j];
                i < self.names@.len() && name_hash(self.names@[i as int]@) == g
            } by {
                if g == h {
                    if j < old_bucket.len() {
                        assert(before.buckets@.contains_key(h));
                        assert(before.buckets@[g]@[j] == self.buckets@[g]@[j]);
                    }
                } else {
                    assert(before.buckets@[g]@[j] == self.buckets@[g]@[j]);
                }
            }
            assert forall|i: int, j: int| 0 <= i < j < self.names@.len() implies (
            #[trigger] self.names@[i])@ != (#[trigger] self.names@[j])@ by {
                if j == slot {
                    if self.names@[i]@ == name@ {
                        assert(before@[i] == name@);
                    }
                } else {
                    assert(before.names@[i]@ != before.names@[j]@);
                }
            }
        }
    }
}

} // verus!
