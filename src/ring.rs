//! A fixed-capacity ring buffer whose slots are read oldest first.

use vstd::prelude::*;

verus! {

/// `SIZE` slots and the index of the oldest one; pushing overwrites the oldest.
#[derive(Debug)]
pub struct Ring<T, const SIZE: usize> {
    data: [T; SIZE],
    head: usize,
}

impl<T, const SIZE: usize> Ring<T, SIZE> {
    #[verifier::type_invariant]
    spec fn head_in_range(&self) -> bool {
        if SIZE == 0 {
            self.head == 0
        } else {
            self.head < SIZE
        }
    }

    /// Physical slot of the logical position `i`.
    spec fn slot(&self, i: int) -> int {
        (self.head + i) % (SIZE as int)
    }

    /// The slots in logical order, oldest first.
    pub closed spec fn view(&self) -> Seq<T> {
        Seq::new(SIZE as nat, |i: int| self.data@[self.slot(i)])
    }

    /// Physical slot of the logical position `index`, computed without overflow.
    fn slot_of(&self, index: usize) -> (r: usize)
        requires
            index < SIZE,
        ensures
            r < SIZE,
            r == self.slot(index as int),
    {
        proof {
            use_type_invariant(self);
        }
        if index < SIZE - self.head {
            proof {
                vstd::arithmetic::div_mod::lemma_small_mod(
                    (self.head + index) as nat,
                    SIZE as nat,
                );
            }
            self.head + index
        } else {
            let r = index - (SIZE - self.head);
            proof {
                vstd::arithmetic::div_mod::lemma_mod_sub_multiples_vanish(
                    (self.head + index) as int,
                    SIZE as int,
                );
                vstd::arithmetic::div_mod::lemma_small_mod(r as nat, SIZE as nat);
            }
            r
        }
    }

    /// Overwrites the oldest slot with `value`, which becomes the newest.
    pub fn push(&mut self, value: T)
        requires
            SIZE > 0,
        ensures
            final(self)@ == old(self)@.drop_first().push(value),
    {
        proof {
            use_type_invariant(&*self);
        }
        let ghost before = self@;
        let h = self.head;
        self.data[h] = value;
        self.head = if h + 1 == SIZE {
            0
        } else {
            h + 1
        };
        proof {
            let nh = self.head as int;
            let n = SIZE as int;
            assert forall|i: int| 0 <= i < SIZE implies #[trigger] self@[i] == before.drop_first().push(value)[i] by {
                if i + 1 < SIZE {
                    // logical position i + 1 before the push is logical position i after it
                    let p = h + 1 + i;
                    assert(old(self).slot(i + 1) == p % n);
                    if p < n {
                        vstd::arithmetic::div_mod::lemma_small_mod(p as nat, n as nat);
                    } else {
                        vstd::arithmetic::div_mod::lemma_mod_sub_multiples_vanish(p, n);
                        vstd::arithmetic::div_mod::lemma_small_mod((p - n) as nat, n as nat);
                    }
                    if nh + i < n {
                        vstd::arithmetic::div_mod::lemma_small_mod((nh + i) as nat, n as nat);
                    } else {
                        vstd::arithmetic::div_mod::lemma_mod_sub_multiples_vanish(nh + i, n);
                        vstd::arithmetic::div_mod::lemma_small_mod((nh + i - n) as nat, n as nat);
                    }
                    assert(self.slot(i) == old(self).slot(i + 1));
                    assert(self.slot(i) != h);
                } else {
                    if nh + i < n {
                        vstd::arithmetic::div_mod::lemma_small_mod((nh + i) as nat, n as nat);
                    } else {
                        vstd::arithmetic::div_mod::lemma_mod_sub_multiples_vanish(nh + i, n);
                        vstd::arithmetic::div_mod::lemma_small_mod((nh + i - n) as nat, n as nat);
                    }
                    assert(self.slot(i) == h);
                }
            }
            assert(self@ =~= before.drop_first().push(value));
        }
    }

    /// The element at logical position `index`, oldest first, if there is one.
    pub fn get(&self, index: usize) -> (r: Option<&T>)
        ensures
            index < SIZE ==> r == Some(&self@[index as int]),
            index >= SIZE ==> r is None,
    {
        if index < SIZE {
            let s = self.slot_of(index);
            Some(&self.data[s])
        } else {
            None
        }
    }

    /// References to the slots in logical order, oldest first.
    pub fn iter(&self) -> (r: Vec<&T>)
        ensures
            r@.len() == SIZE,
            forall|i: int| 0 <= i < SIZE ==> *#[trigger] r@[i] == self@[i],
    {
        let mut r: Vec<&T> = Vec::new();
        let mut i: usize = 0;
        while i < SIZE
            invariant
                i <= SIZE,
                r@.len() == i,
                forall|j: int| 0 <= j < i ==> *#[trigger] r@[j] == self@[j],
            decreases SIZE - i,
        {
            let s = self.slot_of(i);
            r.push(&self.data[s]);
            i = i + 1;
        }
        r
    }
}

impl<T: Default + Copy, const SIZE: usize> Ring<T, SIZE> {
    /// A ring whose every slot holds `T::default()`.
    pub fn new() -> (r: Self)
        ensures
            r@.len() == SIZE,
            forall|i: int| 0 <= i < SIZE ==> call_ensures(T::default, (), #[trigger] r@[i]),
    {
        let d = T::default();
        let r = Ring { data: [d; SIZE], head: 0 };
        proof {
            assert forall|i: int| 0 <= i < SIZE implies call_ensures(T::default, (), #[trigger] r@[i]) by {
                vstd::arithmetic::div_mod::lemma_small_mod(i as nat, SIZE as nat);
            }
        }
        r
    }

    /// A copy of the slots in logical order, oldest first.
    pub fn data(&self) -> (r: [T; SIZE])
        ensures
            r@ == self@,
    {
        let mut data = [T::default(); SIZE];
        for i in 0..SIZE
            invariant
                data@.len() == SIZE,
                forall|j: int| 0 <= j < i ==> #[trigger] data@[j] == self@[j],
        {
            let s = self.slot_of(i);
            data[i] = self.data[s];
        }
        assert(data@ =~= self@);
        data
    }
}

impl<T, const SIZE: usize> std::ops::Index<usize> for Ring<T, SIZE> {
    type Output = T;

    fn index(&self, index: usize) -> (r: &T)
        ensures
            *r == self@[index as int],
    {
        let s = self.slot_of(index);
        &self.data[s]
    }
}

impl<T, const SIZE: usize> vstd::std_specs::core::IndexSpecImpl<usize> for Ring<T, SIZE> {
    open spec fn index_req(&self, index: &usize) -> bool {
        *index < SIZE
    }
}

} // verus!
