//! Bookkeeping of the hardware's sprite slots.

use vstd::prelude::*;

verus! {

/// Number of sprite slots of an engine.
pub const MAX_SPRITES: usize = 128;

/// Bit `b` of `w`.
pub open spec fn bit(w: u64, b: u64) -> bool {
    (w >> b) & 1 == 1
}

/// Which slots are in use: one bit each.
#[derive(Debug, Clone, Copy, PartialEq, Eq)]
pub struct SpriteSlots {
    pub used: [u64; 2],
}

/// Slot `i` is in use.
pub open spec fn slot_used(s: SpriteSlots, i: int) -> bool {
    0 <= i < 128 && bit(s.used@[i / 64], (i % 64) as u64)
}

impl View for SpriteSlots {
    type V = Set<int>;

    open spec fn view(&self) -> Set<int> {
        Set::new(|i: int| slot_used(*self, i))
    }
}

impl Default for SpriteSlots {
    fn default() -> (r: Self)
        ensures
            r@ == Set::<int>::empty(),
    {
        let r = SpriteSlots { used: [0, 0] };
        assert forall|i: int| !#[trigger] slot_used(r, i) by {
            let b = (i % 64) as u64;
            assert((0u64 >> b) & 1 == 0) by (bit_vector);
        }
        assert(r@ =~= Set::<int>::empty());
        r
    }
}

/// The lowest slot that is not in use.
pub open spec fn is_lowest_free(used: Set<int>, i: int) -> bool {
    0 <= i < 128 && !used.contains(i) && forall|j: int| 0 <= j < i ==> used.contains(j)
}

/// No slot is free.
pub open spec fn all_used(used: Set<int>) -> bool {
    forall|j: int| 0 <= j < 128 ==> used.contains(j)
}

/// Setting a bit changes no other.
proof fn lemma_set_bit(w: u64, b: u64, c: u64)
    requires
        b < 64,
        c < 64,
    ensures
        bit(w | (1u64 << b), c) == (b == c || bit(w, c)),
{
    assert(((w | (1u64 << b)) >> c) & 1 == 1 <==> (b == c || (w >> c) & 1 == 1)) by (bit_vector)
        requires
            b < 64,
            c < 64,
    ;
}

/// Clearing a bit changes no other.
proof fn lemma_clear_bit(w: u64, b: u64, c: u64)
    requires
        b < 64,
        c < 64,
    ensures
        bit(w & !(1u64 << b), c) == (b != c && bit(w, c)),
{
    assert(((w & !(1u64 << b)) >> c) & 1 == 1 <==> (b != c && (w >> c) & 1 == 1)) by (bit_vector)
        requires
            b < 64,
            c < 64,
    ;
}

/// The members below `n`.
pub open spec fn below(s: Set<int>, n: int) -> Set<int> {
    Set::new(|i: int| 0 <= i < n && s.contains(i))
}

proof fn lemma_below_step(s: Set<int>, n: int)
    requires
        n >= 0,
        below(s, n).finite(),
    ensures
        below(s, n + 1).finite(),
        below(s, n + 1).len() == below(s, n).len() + if s.contains(n) {
            1int
        } else {
            0int
        },
{
    if s.contains(n) {
        assert(below(s, n + 1) =~= below(s, n).insert(n));
    } else {
        assert(below(s, n + 1) =~= below(s, n));
    }
}

impl SpriteSlots {
    /// Is slot `id` in use? Slots that do not exist are not.
    pub fn is_used(&self, id: u8) -> (r: bool)
        ensures
            r == self@.contains(id as int),
    {
        if id >= 128 {
            return false;
        }
        let w: u64 = self.used[(id / 64) as usize];
        (w >> (id % 64) as u64) & 1 == 1
    }

    /// Mark slot `id` as in use.
    fn mark(&mut self, id: u8)
        requires
            id < 128,
        ensures
            final(self)@ == old(self)@.insert(id as int),
    {
        let word: usize = (id / 64) as usize;
        let b: u64 = (id % 64) as u64;
        let w: u64 = self.used[word];
        self.used[word] = w | (1u64 << b);
        assert forall|i: int| slot_used(*self, i) == (i == id || slot_used(*old(self), i)) by {
            if 0 <= i < 128 && i / 64 == word {
                lemma_set_bit(w, b, (i % 64) as u64);
            }
        }
        assert(self@ =~= old(self)@.insert(id as int));
    }

    /// Take the lowest free slot, or `None` if all are in use.
    pub fn allocate(&mut self) -> (r: Option<u8>)
        ensures
            r is None <==> all_used(old(self)@),
            r is None ==> final(self)@ == old(self)@,
            r matches Some(id) ==> is_lowest_free(old(self)@, id as int) && final(self)@ == old(self)@.insert(id as int),
    {
        let mut id: u8 = 0;
        while id < 128
            invariant
                id <= 128,
                *self == *old(self),
                forall|j: int| 0 <= j < id ==> self@.contains(j),
            decreases 128 - id,
        {
            if !self.is_used(id) {
                self.mark(id);
                return Some(id);
            }
            id = id + 1;
        }
        None
    }

    /// Mark slot `id` as free. Nothing happens for a slot that does not exist or is
    /// free.
    pub fn release(&mut self, id: u8)
        ensures
            final(self)@ == old(self)@.remove(id as int),
    {
        if id >= 128 {
            assert(self@ =~= self@.remove(id as int));
            return;
        }
        let word: usize = (id / 64) as usize;
        let b: u64 = (id % 64) as u64;
        let w: u64 = self.used[word];
        self.used[word] = w & !(1u64 << b);
        assert forall|i: int| slot_used(*self, i) == (i != id && slot_used(*old(self), i)) by {
            if 0 <= i < 128 && i / 64 == word {
                lemma_clear_bit(w, b, (i % 64) as u64);
            }
        }
        assert(self@ =~= old(self)@.remove(id as int));
    }

    /// Number of slots in use.
    pub fn count(&self) -> (r: u32)
        ensures
            self@.finite(),
            r == self@.len(),
    {
        let mut n: u32 = 0;
        let mut id: u8 = 0;
        assert(below(self@, 0) =~= Set::<int>::empty());
        while id < 128
            invariant
                id <= 128,
                n <= id,
                below(self@, id as int).finite(),
                n == below(self@, id as int).len(),
            decreases 128 - id,
        {
            proof {
                lemma_below_step(self@, id as int);
            }
            if self.is_used(id) {
                n = n + 1;
            }
            id = id + 1;
        }
        assert(below(self@, 128) =~= self@);
        n
    }
}

/// Releasing the slot that was just taken gives back what was there.
pub proof fn law_release_undoes_allocate(used: Set<int>, id: int)
    requires
        is_lowest_free(used, id),
    ensures
        used.insert(id).remove(id) == used,
{
    assert(used.insert(id).remove(id) =~= used);
}

/// A released slot is the next one taken if every lower slot is in use.
pub proof fn law_released_slot_is_reused(used: Set<int>, id: int)
    requires
        0 <= id < 128,
        forall|j: int| 0 <= j <= id ==> used.contains(j),
    ensures
        is_lowest_free(used.remove(id), id),
{
}

/// The lowest free slot is one and the same.
pub proof fn law_lowest_free_is_unique(used: Set<int>, a: int, b: int)
    requires
        is_lowest_free(used, a),
        is_lowest_free(used, b),
    ensures
        a == b,
{
}

} // verus!
