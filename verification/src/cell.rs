//! One square of the grid.

use crate::mask::{
    allows, count, count_candidates, digit_mask, first_candidate, has_bit, lemma_clear,
    lemma_constant_masks, lemma_nine_bits, lemma_single_bit, lowest_digit, mask_allows, mask_of,
    ALL_CANDIDATES,
};
use vstd::prelude::*;

verus! {

/// A square: the digits still possible in it, or the digit it holds.
#[derive(Clone, Copy, Debug, PartialEq, Eq)]
pub struct Cell {
    /// Bit `v - 1` is set while the digit `v` is still possible; zero once a value is set.
    pub candidates: u16,
    /// 0 while unassigned, else the digit from 1 to 9.
    pub value: u8,
    /// The digit of the known solution, where there is one.
    pub answer: Option<u8>,
    /// Whether the starting puzzle supplied this square.
    pub is_given: bool,
    /// Whether the square changed since the dirty marks were last cleared.
    pub is_dirty: bool,
}

impl Cell {
    /// The invariants of a square: an assigned square has a digit and no
    /// candidates, an unassigned one has candidates, and a known answer is the
    /// value where there is one and a candidate where there is none.
    pub open spec fn wf(&self) -> bool {
        &&& self.candidates <= ALL_CANDIDATES
        &&& self.value <= 9
        &&& (self.value != 0 ==> self.candidates == 0)
        &&& (self.value == 0 ==> self.candidates != 0)
        &&& (self.answer matches Some(a) ==> {
            &&& 1 <= a <= 9
            &&& (self.value != 0 ==> self.value == a)
            &&& (self.value == 0 ==> allows(self.candidates, a))
        })
    }

    /// Whether the square is unassigned and still permits the digit `v`.
    pub open spec fn permits(&self, v: u8) -> bool {
        self.value == 0 && allows(self.candidates, v)
    }

    /// Whether the known answer, if any, is still a candidate of an unassigned square.
    pub open spec fn answer_possible(&self) -> bool {
        self.answer matches Some(a) ==> self.value > 0 || allows(self.candidates, a)
    }

    /// An unassigned square in which every digit is possible.
    pub open spec fn blank() -> Cell {
        Cell { candidates: ALL_CANDIDATES, value: 0, answer: None, is_given: false, is_dirty: false }
    }

    /// The square once the digits of `bits` are struck from its candidates;
    /// with `mark`, a square that loses a digit becomes dirty.
    pub open spec fn without(self, bits: u16, mark: bool) -> Cell {
        Cell {
            candidates: self.candidates & !bits,
            is_dirty: self.is_dirty || (mark && self.candidates & bits != 0),
            ..self
        }
    }

    /// Whether striking `bits` leaves an unassigned square with a candidate,
    /// and with its known answer among them.
    pub open spec fn survives(self, bits: u16) -> bool {
        self.value == 0 ==> {
            &&& self.candidates & !bits != 0
            &&& (self.answer matches Some(a) ==> allows(self.candidates & !bits, a))
        }
    }

    /// The square once it holds the digit `v`.
    pub open spec fn assigned(self, v: u8) -> Cell {
        Cell { value: v, candidates: 0, is_dirty: true, ..self }
    }

    /// Whether the known answer, if any, agrees with the digit `v`.
    pub open spec fn accepts(self, v: u8) -> bool {
        self.answer matches Some(a) ==> a == v
    }

    /// Striking digits keeps a well-formed square well-formed as long as it survives.
    pub proof fn lemma_without_wf(self, bits: u16, mark: bool)
        requires
            self.wf(),
            self.survives(bits),
        ensures
            self.without(bits, mark).wf(),
            self.without(bits, mark).candidates <= self.candidates,
            self.candidates & bits != 0 ==> self.without(bits, mark).candidates < self.candidates,
            self.candidates & bits == 0 ==> self.without(bits, mark) == self,
            forall|v: u8| allows(self.without(bits, mark).candidates, v) ==> allows(self.candidates, v),
    {
        lemma_clear(self.candidates, bits);
        assert forall|v: u8| allows(self.without(bits, mark).candidates, v) implies allows(
            self.candidates,
            v,
        ) by {
            assert(has_bit(self.candidates & !bits, (v - 1) as u16) == (has_bit(
                self.candidates,
                (v - 1) as u16,
            ) && !has_bit(bits, (v - 1) as u16)));
        }
    }

    /// An unassigned square with every digit possible.
    pub fn new() -> (c: Cell)
        ensures
            c == Cell::blank(),
            c.wf(),
    {
        Cell { candidates: ALL_CANDIDATES, value: 0, answer: None, is_given: false, is_dirty: false }
    }

    /// Whether the digit `value` is still possible here; never so in an assigned square.
    pub fn contains_value(&self, value: u8) -> (r: bool)
        requires
            1 <= value <= 9,
        ensures
            r == self.permits(value),
    {
        if self.value == 0 {
            return mask_allows(self.candidates, value);
        }
        false
    }

    /// Assigns the only candidate, if there is exactly one, and says whether it did.
    pub fn promote_single_candidate(&mut self) -> (r: bool)
        requires
            old(self).wf(),
        ensures
            r == (count(old(self).candidates) == 1),
            r ==> *final(self) == old(self).assigned(lowest_digit(old(self).candidates)),
            r ==> 1 <= final(self).value <= 9 && allows(old(self).candidates, final(self).value),
            !r ==> *final(self) == *old(self),
            final(self).wf(),
    {
        let bits: u8 = count_candidates(self.candidates);
        if bits == 1 {
            let v: u8 = first_candidate(self.candidates);
            proof {
                lemma_nine_bits(self.candidates);
                lemma_constant_masks();
                assert(self.value == 0);
                if self.answer is Some {
                    let a = self.answer->0;
                    assert(has_bit(self.candidates, (a - 1) as u16));
                    assert(a == v);
                }
            }
            self.value = v;
            self.candidates = 0;
            self.is_dirty = true;
            return true;
        }
        false
    }

    /// Strikes the digits of `bits`; says whether any was a candidate, and marks the
    /// square dirty when one was.
    pub fn remove_possibilities(&mut self, bits: u16) -> (changed: bool)
        requires
            old(self).wf(),
            old(self).survives(bits),
        ensures
            changed == (old(self).candidates & bits != 0),
            *final(self) == old(self).without(bits, true),
            !changed ==> *final(self) == *old(self),
            final(self).wf(),
    {
        proof {
            old(self).lemma_without_wf(bits, true);
        }
        if self.candidates & bits != 0 {
            self.candidates = self.candidates & !bits;
            self.is_dirty = true;
            return true;
        }
        false
    }

    /// Strikes the digit `value`.
    pub fn remove_possibility(&mut self, value: u8)
        requires
            old(self).wf(),
            1 <= value <= 9,
            old(self).survives(digit_mask(value)),
        ensures
            *final(self) == old(self).without(digit_mask(value), false),
            final(self).wf(),
    {
        proof {
            old(self).lemma_without_wf(digit_mask(value), false);
        }
        let bit: u16 = mask_of(value);
        self.candidates = self.candidates & !bit;
    }

    /// Whether the known answer, if there is one, can still be reached: the square is
    /// assigned, or the answer is among its candidates.
    pub fn is_answer_possible(&self) -> (r: bool)
        requires
            self.answer matches Some(a) ==> 1 <= a <= 9,
        ensures
            r == self.answer_possible(),
    {
        match self.answer {
            None => true,
            Some(ans) => self.value > 0 || self.contains_value(ans),
        }
    }

    /// The digits still possible, in rising order; none for an assigned square.
    pub fn get_possibilities(&self) -> (r: Vec<u16>)
        ensures
            forall|k: int| 0 <= k < r.len() ==> 1 <= #[trigger] r[k] <= 9 && self.permits(r[k] as u8),
            forall|j: int, k: int| 0 <= j < k < r.len() ==> r[j] < r[k],
            forall|v: u8| self.permits(v) ==> r@.contains(v as u16),
    {
        let mut results: Vec<u16> = Vec::new();
        if self.value != 0 {
            return results;
        }
        let mut i: u16 = 0;
        while i < 9
            invariant
                i <= 9,
                self.value == 0,
                forall|k: int|
                    0 <= k < results.len() ==> 1 <= #[trigger] results[k] <= i && self.permits(
                        results[k] as u8,
                    ),
                forall|j: int, k: int| 0 <= j < k < results.len() ==> results[j] < results[k],
                forall|v: u8| v <= i && self.permits(v) ==> results@.contains(v as u16),
            decreases 9 - i,
        {
            if self.candidates & (1u16 << i) != 0 {
                let ghost before = results@;
                results.push(i + 1);
                proof {
                    assert(results@[before.len() as int] == i + 1);
                    assert forall|v: u8| v <= i + 1 && self.permits(v) implies results@.contains(
                        v as u16,
                    ) by {
                        if v <= i {
                            let k = choose|k: int| 0 <= k < before.len() && before[k] == v as u16;
                            assert(results@[k] == v as u16);
                        }
                    }
                }
            }
            i = i + 1;
        }
        results
    }

    /// Assigns `value` unless a known answer says otherwise. Returns whether it did:
    /// a value that contradicts the known answer is refused and the square stays as it was.
    pub fn set_value(&mut self, value: u8) -> (ok: bool)
        requires
            old(self).wf(),
            1 <= value <= 9,
        ensures
            ok == old(self).accepts(value),
            ok ==> *final(self) == old(self).assigned(value),
            !ok ==> *final(self) == *old(self),
            final(self).wf(),
    {
        match self.answer {
            Some(ans) => {
                if ans != value {
                    return false;
                }
            },
            None => {},
        }
        self.value = value;
        self.candidates = 0;
        self.is_dirty = true;
        true
    }
}

} // verus!
