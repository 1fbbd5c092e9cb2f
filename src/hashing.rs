//! An open-addressing table of `u32` keys with a fixed probe step.
//!
//! Where a key lands is decided by two numbers that the caller computes
//! from the key: its home slot and the step between probes. The table
//! probes `home, home + step, home + 2 * step, ...` (modulo the capacity)
//! and takes the first free slot, giving up after as many probes as there
//! are slots.
use vstd::prelude::*;
use vstd::arithmetic::div_mod::{lemma_add_mod_noop, lemma_fundamental_div_mod_converse, lemma_mod_bound};

verus! {

/// A table of `capacity` slots, each empty or holding a key.
pub struct HashTable {
    arr: Vec<Option<u32>>,
    capacity: usize,
}

/// Slot number `k` of the probe sequence.
pub open spec fn probe(home: nat, step: nat, capacity: nat, k: nat) -> nat {
    (((home + k * step) as int) % (capacity as int)) as nat
}

/// The number of filled slots.
pub open spec fn filled(s: Seq<Option<u32>>) -> nat
    decreases s.len(),
{
    if s.len() == 0 {
        0
    } else {
        filled(s.drop_last()) + if s.last() is Some {
            1nat
        } else {
            0nat
        }
    }
}

impl View for HashTable {
    type V = Seq<Option<u32>>;

    closed spec fn view(&self) -> Seq<Option<u32>> {
        self.arr@
    }
}

impl HashTable {
    /// The number of slots.
    pub closed spec fn spec_capacity(&self) -> nat {
        self.capacity as nat
    }

    /// There is one slot per unit of capacity.
    pub closed spec fn wf(&self) -> bool {
        self.arr@.len() == self.capacity
    }

    /// An empty table of `capacity` slots.
    pub fn new(capacity: usize) -> (r: HashTable)
        ensures
            r.wf(),
            r.spec_capacity() == capacity,
            r@ == Seq::new(capacity as nat, |i: int| None::<u32>),
    {
        let mut arr: Vec<Option<u32>> = Vec::new();
        let mut i: usize = 0;
        while i < capacity
            invariant
                i <= capacity,
                arr@ == Seq::new(i as nat, |k: int| None::<u32>),
            decreases capacity - i,
        {
            arr.push(None);
            i = i + 1;
            assert(arr@ =~= Seq::new(i as nat, |k: int| None::<u32>));
        }
        HashTable { arr, capacity }
    }

    /// Stores `value` in the first free slot of the probe sequence from
    /// `home` by `step`. Returns `false`, leaving the table as it was, when
    /// all of the first `capacity` probes find their slot taken.
    pub fn insert(&mut self, value: u32, home: usize, step: usize) -> (r: bool)
        requires
            old(self).wf(),
            home < old(self).spec_capacity(),
        ensures
            final(self).wf(),
            final(self).spec_capacity() == old(self).spec_capacity(),
            r <==> exists|k: nat|
                k < old(self).spec_capacity() && (#[trigger] old(self)@[probe(
                    home as nat,
                    step as nat,
                    old(self).spec_capacity(),
                    k,
                ) as int]) is None,
            r ==> exists|k: nat|
                {
                    &&& k < old(self).spec_capacity()
                    &&& old(self)@[probe(home as nat, step as nat, old(self).spec_capacity(), k) as int] is None
                    &&& forall|j: nat|
                        j < k ==> (#[trigger] old(self)@[probe(
                            home as nat,
                            step as nat,
                            old(self).spec_capacity(),
                            j,
                        ) as int]) is Some
                    &&& final(self)@ == old(self)@.update(
                        probe(home as nat, step as nat, old(self).spec_capacity(), k) as int,
                        Some(value),
                    )
                },
            !r ==> final(self)@ == old(self)@,
    {
        let cap = self.capacity;
        let ghost c = cap as nat;
        let ghost s = self.arr@;
        let jump = step % cap;
        let mut pos = home;
        let mut k: usize = 0;
        proof {
            lemma_fundamental_div_mod_converse(home as int, cap as int, 0, home as int);
        }
        while k < cap
            invariant
                cap == self.capacity,
                cap == old(self).capacity,
                s == old(self).arr@,
                c == cap,
                self.wf(),
                self.arr@ == s,
                jump == step % cap,
                k <= cap,
                pos < cap,
                pos == probe(home as nat, step as nat, c, k as nat),
                forall|j: nat| j < k ==> (#[trigger] s[probe(home as nat, step as nat, c, j) as int]) is Some,
            decreases cap - k,
        {
            if self.arr[pos].is_none() {
                self.arr.set(pos, Some(value));
                assert(s[probe(home as nat, step as nat, c, k as nat) as int] is None);
                assert(self.capacity == cap);
                return true;
            }
            proof {
                let a = home + k * step;
                lemma_add_mod_noop(a, step as int, cap as int);
                lemma_mod_bound(step as int, cap as int);
                assert(home + (k + 1) * step == a + step) by (nonlinear_arith)
                    requires a == home + k * step;
                lemma_fundamental_div_mod_converse(pos as int, cap as int, 0, pos as int);
                let t = pos + jump;
                if t >= cap {
                    lemma_fundamental_div_mod_converse(t, cap as int, 1, t - cap);
                } else {
                    lemma_fundamental_div_mod_converse(t, cap as int, 0, t);
                }
            }
            pos = if jump >= cap - pos {
                pos - (cap - jump)
            } else {
                pos + jump
            };
            k = k + 1;
        }
        false
    }

    /// The number of filled slots.
    pub fn len(&self) -> (r: usize)
        requires
            self.wf(),
        ensures
            r == filled(self@),
    {
        let mut count: usize = 0;
        let mut i: usize = 0;
        while i < self.arr.len()
            invariant
                i <= self.arr@.len(),
                count == filled(self.arr@.subrange(0, i as int)),
                count <= i,
            decreases self.arr@.len() - i,
        {
            assert(self.arr@.subrange(0, i + 1).drop_last() =~= self.arr@.subrange(0, i as int));
            if self.arr[i].is_some() {
                count = count + 1;
            }
            i = i + 1;
        }
        assert(self.arr@.subrange(0, self.arr@.len() as int) =~= self.arr@);
        count
    }
}

} // verus!
