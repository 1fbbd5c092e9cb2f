//! A chained hash table of names keyed by the djb2 string hash.
use vstd::prelude::*;
use vstd::std_specs::iter::IteratorSpec;

verus! {

broadcast use {vstd::string::axiom_spec_iter, vstd::string::next_postcondition};

/// The djb2 hash of the characters `s`: start at 5381 and, for each
/// character, multiply by 33 and add its code point, wrapping at the
/// machine word.
pub open spec fn djb2(s: Seq<char>) -> int
    decreases s.len(),
{
    if s.len() == 0 {
        5381
    } else {
        (djb2(s.drop_last()) * 33 + (s.last() as u32) as int) % (usize::MAX as int + 1)
    }
}

/// The djb2 hash of `string`.
pub fn djb2_hash(string: &str) -> (r: usize)
    ensures
        r == djb2(string@),
{
    let ghost s = string@;
    let mut hash: usize = 5381;
    let mut it = string.chars();
    let ghost mut i: int = 0;
    proof {
        vstd::string::axiom_spec_iter(string);
    }
    loop
        invariant
            0 <= i <= s.len(),
            it.remaining() == s.skip(i),
            hash == djb2(s.take(i)),
        ensures
            hash == djb2(s),
        decreases s.len() - i,
    {
        match it.next() {
            Some(c) => {
                let ghost h = hash;
                let code = c as u32 as usize;
                let m = hash.wrapping_mul(33);
                hash = m.wrapping_add(code);
                proof {
                    let range = usize::MAX as int + 1;
                    assert(s.take(i + 1).drop_last() =~= s.take(i));
                    assert(s.take(i + 1).last() == c);
                    assert(code as int == (c as u32) as int);
                    assert(m as int == (h as int * 33) % range);
                    vstd::arithmetic::div_mod::lemma_mod_bound(h as int * 33, range);
                    if m as int + code as int > usize::MAX as int {
                        vstd::arithmetic::div_mod::lemma_fundamental_div_mod_converse(
                            m as int + code as int, range, 1, m as int + code as int - range);
                    } else {
                        vstd::arithmetic::div_mod::lemma_fundamental_div_mod_converse(
                            m as int + code as int, range, 0, m as int + code as int);
                    }
                    vstd::arithmetic::div_mod::lemma_add_mod_noop(h as int * 33, code as int, range);
                    vstd::arithmetic::div_mod::lemma_small_mod(code as nat, range as nat);
                    i = i + 1;
                }
            },
            None => {
                proof {
                    assert(s.skip(i).len() == 0);
                    assert(s.take(i) =~= s);
                }
                break;
            },
        }
    }
    hash
}

/// A table of names: bucket `djb2(name) % capacity` holds every name
/// pushed with that hash, in the order they came.
pub struct StringKeyHashTable {
    arr: Vec<Vec<String>>,
    capacity: usize,
}

/// The number of names in all buckets.
pub open spec fn total(buckets: Seq<Seq<Seq<char>>>) -> nat
    decreases buckets.len(),
{
    if buckets.len() == 0 {
        0
    } else {
        total(buckets.drop_last()) + buckets.last().len()
    }
}

/// The bucket of a name in a table of `capacity` buckets.
pub open spec fn bucket_of(name: Seq<char>, capacity: nat) -> int {
    djb2(name) % (capacity as int)
}

impl View for StringKeyHashTable {
    type V = Seq<Seq<Seq<char>>>;

    closed spec fn view(&self) -> Seq<Seq<Seq<char>>> {
        Seq::new(self.arr@.len(), |i: int| Seq::new(self.arr@[i]@.len(), |j: int| self.arr@[i]@[j]@))
    }
}

impl StringKeyHashTable {
    /// The number of buckets.
    pub closed spec fn spec_capacity(&self) -> nat {
        self.capacity as nat
    }

    /// One bucket per unit of capacity.
    pub closed spec fn wf(&self) -> bool {
        self.arr@.len() == self.capacity
    }

    /// A table of `capacity` empty buckets.
    pub fn new(capacity: usize) -> (r: StringKeyHashTable)
        ensures
            r.wf(),
            r.spec_capacity() == capacity,
            r@.len() == capacity,
            forall|i: int| 0 <= i < capacity ==> (#[trigger] r@[i]).len() == 0,
    {
        let mut arr: Vec<Vec<String>> = Vec::new();
        let mut i: usize = 0;
        while i < capacity
            invariant
                i <= capacity,
                arr@.len() == i,
                forall|k: int| 0 <= k < i ==> (#[trigger] arr@[k])@.len() == 0,
            decreases capacity - i,
        {
            arr.push(Vec::new());
            i = i + 1;
        }
        StringKeyHashTable { arr, capacity }
    }

    /// Adds `name` to the end of its bucket. Returns whether the bucket
    /// already held a name.
    pub fn push(&mut self, name: &str) -> (r: bool)
        requires
            old(self).wf(),
            old(self).spec_capacity() > 0,
        ensures
            final(self).wf(),
            final(self).spec_capacity() == old(self).spec_capacity(),
            final(self)@ == old(self)@.update(
                bucket_of(name@, old(self).spec_capacity()),
                old(self)@[bucket_of(name@, old(self).spec_capacity())].push(name@),
            ),
            r == (old(self)@[bucket_of(name@, old(self).spec_capacity())].len() > 0),
    {
        let b = djb2_hash(name) % self.capacity;
        let collision = self.arr[b].len() > 0;
        let ghost before = self@;
        self.arr[b].push(name.to_owned());
        assert(self@[b as int] =~= before[b as int].push(name@));
        assert(self@ =~= before.update(b as int, before[b as int].push(name@)));
        collision
    }

    /// The stored name equal to `name`, if its bucket holds one.
    pub fn get(&self, name: &str) -> (r: Option<String>)
        requires
            self.wf(),
            self.spec_capacity() > 0,
        ensures
            r is Some <==> self@[bucket_of(name@, self.spec_capacity())].contains(name@),
            r matches Some(s) ==> s@ == name@,
    {
        let b = djb2_hash(name) % self.capacity;
        let key: String = name.to_owned();
        let bucket = &self.arr[b];
        let ghost names = self@[b as int];
        assert(b as int == bucket_of(name@, self.spec_capacity()));
        let mut k: usize = 0;
        while k < bucket.len()
            invariant
                k <= bucket@.len(),
                key@ == name@,
                names == self@[bucket_of(name@, self.spec_capacity())],
                names.len() == bucket@.len(),
                forall|j: int| 0 <= j < bucket@.len() ==> #[trigger] names[j] == bucket@[j]@,
                forall|j: int| 0 <= j < k ==> #[trigger] names[j] != name@,
            decreases bucket@.len() - k,
        {
            if bucket[k] == key {
                assert(names[k as int] == name@);
                return Some(bucket[k].clone());
            }
            k = k + 1;
        }
        None
    }

    /// The number of names stored.
    pub fn len(&self) -> (r: usize)
        requires
            self.wf(),
            total(self@) <= usize::MAX,
        ensures
            r == total(self@),
    {
        let mut num: usize = 0;
        let mut i: usize = 0;
        while i < self.arr.len()
            invariant
                i <= self.arr@.len(),
                total(self@) <= usize::MAX,
                num == total(self@.subrange(0, i as int)),
            decreases self.arr@.len() - i,
        {
            proof {
                assert(self@.subrange(0, i + 1).drop_last() =~= self@.subrange(0, i as int));
                lemma_total_prefix(self@, i + 1);
            }
            num = num + self.arr[i].len();
            i = i + 1;
        }
        assert(self@.subrange(0, self@.len() as int) =~= self@);
        num
    }
}

proof fn lemma_total_prefix(s: Seq<Seq<Seq<char>>>, k: int)
    requires
        0 <= k <= s.len(),
    ensures
        total(s.subrange(0, k)) <= total(s),
    decreases s.len(),
{
    if k == s.len() {
        assert(s.subrange(0, k) =~= s);
    } else {
        assert(s.drop_last().subrange(0, k) =~= s.subrange(0, k));
        lemma_total_prefix(s.drop_last(), k);
    }
}

} // verus!
