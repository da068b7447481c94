use vstd::prelude::*;

verus! {

/// Number of resource slots a `BitMap` can track.
pub const WIDTH: u8 = 128;

/// Whether slot `i` is set in the raw word `m`.
pub open spec fn has_bit(m: u128, i: u128) -> bool {
    (m >> i) & 1u128 == 1u128
}

/// The slots that are set in the raw word `m`.
pub open spec fn slots_of(m: u128) -> Set<int> {
    Set::new(|i: int| 0 <= i < 128 && has_bit(m, i as u128))
}

/// A non-zero word has some slot set.
proof fn lemma_nonzero_has_bit(x: u128) -> (i: u128)
    requires
        x != 0,
    ensures
        i < 128,
        has_bit(x, i),
    decreases x,
{
    if x & 1 == 1 {
        assert(has_bit(x, 0)) by (bit_vector)
            requires
                x & 1 == 1,
        ;
        0
    } else {
        let y = x >> 1;
        assert(y != 0 && y < x) by (bit_vector)
            requires
                x != 0,
                x & 1 != 1,
                y == x >> 1,
        ;
        let j = lemma_nonzero_has_bit(y);
        assert(j < 127 && has_bit(x, (j + 1) as u128)) by (bit_vector)
            requires
                has_bit(y, j),
                j < 128,
                y == x >> 1,
        ;
        (j + 1) as u128
    }
}

/// A fixed-width record of which resource slots are currently held.
#[derive(Clone, Copy, Debug, PartialEq, Eq, Structural, Hash)]
pub struct BitMap {
    map: u128,
}

impl View for BitMap {
    type V = Set<int>;

    closed spec fn view(&self) -> Set<int> {
        slots_of(self.map)
    }
}

impl BitMap {
    /// An empty map: no slot is held.
    pub fn new() -> (r: Self)
        ensures
            r@ == Set::<int>::empty(),
    {
        let r = BitMap { map: 0 };
        assert forall|k: u128| k < 128 implies !has_bit(0u128, k) by {
            assert(!has_bit(0u128, k)) by (bit_vector);
        }
        assert(r@ =~= Set::<int>::empty());
        r
    }

    /// The map whose held slots are the set bits of `value`.
    pub fn from_map(value: u128) -> (r: Self)
        ensures
            r@ == slots_of(value),
    {
        BitMap { map: value }
    }

    /// Whether slot `index` is held.
    pub fn get(&self, index: u8) -> (r: bool)
        requires
            index < 128,
        ensures
            r == self@.contains(index as int),
    {
        let m = self.map;
        let r = m & (1u128 << index) == (1u128 << index);
        assert(r == has_bit(m, index as u128)) by (bit_vector)
            requires
                index < 128,
                r == (m & (1u128 << index) == (1u128 << index)),
        ;
        r
    }

    /// Marks slot `index` as held (`val`) or free (`!val`); other slots keep their state.
    pub fn set(&mut self, index: u8, val: bool)
        requires
            index < 128,
        ensures
            final(self)@ == (if val {
                old(self)@.insert(index as int)
            } else {
                old(self)@.remove(index as int)
            }),
    {
        let m = self.map;
        let n = if val {
            m | (1u128 << index)
        } else {
            m & !(1u128 << index)
        };
        assert forall|k: u128| k < 128 implies has_bit(n, k) == (if k == index {
            val
        } else {
            has_bit(m, k)
        }) by {
            let ix = index as u128;
            if val {
                assert(has_bit(n, k) == (k == ix || has_bit(m, k))) by (bit_vector)
                    requires
                        n == m | (1u128 << index),
                        ix == index,
                        ix < 128,
                        k < 128,
                ;
            } else {
                assert(has_bit(n, k) == (k != ix && has_bit(m, k))) by (bit_vector)
                    requires
                        n == m & !(1u128 << index),
                        ix == index,
                        ix < 128,
                        k < 128,
                ;
            }
        }
        self.map = n;
        assert(self@ =~= (if val {
            old(self)@.insert(index as int)
        } else {
            old(self)@.remove(index as int)
        }));
    }

    /// Whether the two maps hold some slot in common.
    pub fn conflict(&self, other: &Self) -> (r: bool)
        ensures
            r == !self@.disjoint(other@),
    {
        self.conflict_u64(other.map)
    }

    /// Whether this map and the raw word `other_value` have some slot in common.
    pub fn conflict_u64(&self, other_value: u128) -> (r: bool)
        ensures
            r == !self@.disjoint(slots_of(other_value)),
    {
        let a = self.map;
        let b = other_value;
        let x = a & b;
        if x != 0 {
            proof {
                let i = lemma_nonzero_has_bit(x);
                assert(has_bit(a, i) && has_bit(b, i)) by (bit_vector)
                    requires
                        has_bit(x, i),
                        x == a & b,
                ;
                assert(self@.contains(i as int) && slots_of(b).contains(i as int));
            }
            true
        } else {
            assert forall|i: int| #[trigger] self@.contains(i) implies !slots_of(b).contains(i) by {
                let k = i as u128;
                assert(!(has_bit(a, k) && has_bit(b, k))) by (bit_vector)
                    requires
                        x == a & b,
                        x == 0,
                ;
            }
            false
        }
    }

    /// The slots held in both maps.
    pub fn combine(&self, other: &Self) -> (r: Self)
        ensures
            r@ == self@.intersect(other@),
    {
        self.combine_u64(other.map)
    }

    /// The slots held both in this map and in the raw word `other_value`.
    pub fn combine_u64(&self, other_value: u128) -> (r: Self)
        ensures
            r@ == self@.intersect(slots_of(other_value)),
    {
        let a = self.map;
        let b = other_value;
        let x = a & b;
        assert forall|k: u128| k < 128 implies has_bit(x, k) == (has_bit(a, k) && has_bit(b, k)) by {
            assert(has_bit(x, k) == (has_bit(a, k) && has_bit(b, k))) by (bit_vector)
                requires
                    x == a & b,
            ;
        }
        let r = BitMap { map: x };
        assert(r@ =~= self@.intersect(slots_of(b)));
        r
    }

    /// Whether every slot from 0 up to and including `index` is held.
    pub fn is_filled(&self, index: u8) -> (r: bool)
        requires
            index < 128,
        ensures
            r == (forall|i: int| 0 <= i <= index ==> #[trigger] self@.contains(i)),
    {
        let m = self.map;
        let mask: u128 = if index == 127 {
            u128::MAX
        } else {
            assert((1u128 << (index + 1)) >= 1) by (bit_vector)
                requires
                    index < 127,
            ;
            (1u128 << (index + 1)) - 1
        };
        let ix = index as u128;
        assert forall|k: u128| k < 128 implies has_bit(mask, k) == (k <= ix) by {
            if index == 127 {
                assert(has_bit(mask, k) == (k <= ix)) by (bit_vector)
                    requires
                        mask == 0xffff_ffff_ffff_ffff_ffff_ffff_ffff_ffffu128,
                        ix == 127,
                        k < 128,
                ;
            } else {
                assert(has_bit(mask, k) == (k <= ix)) by (bit_vector)
                    requires
                        mask == (1u128 << (ix + 1)) - 1,
                        ix < 127,
                        k < 128,
                ;
            }
        }
        let r = m & mask == mask;
        if r {
            assert forall|i: int| 0 <= i <= index implies #[trigger] self@.contains(i) by {
                let k = i as u128;
                assert(has_bit(mask, k));
                assert(has_bit(m, k)) by (bit_vector)
                    requires
                        m & mask == mask,
                        has_bit(mask, k),
                ;
            }
        } else {
            proof {
                let y = mask & !m;
                assert(y != 0) by (bit_vector)
                    requires
                        m & mask != mask,
                        y == mask & !m,
                ;
                let k = lemma_nonzero_has_bit(y);
                assert(has_bit(mask, k) && !has_bit(m, k)) by (bit_vector)
                    requires
                        has_bit(y, k),
                        y == mask & !m,
                ;
                assert(!self@.contains(k as int));
            }
        }
        r
    }

    /// The held slots, in increasing order.
    pub fn iter(&self) -> (r: Vec<u8>)
        ensures
            forall|a: int, b: int| 0 <= a < b < r.len() ==> r[a] < r[b],
            forall|k: int| 0 <= k < r.len() ==> self@.contains(#[trigger] r[k] as int),
            forall|i: int| #[trigger] self@.contains(i) ==> r@.contains(i as u8),
    {
        let mut r: Vec<u8> = Vec::new();
        let mut i: u8 = 0;
        while i < WIDTH
            invariant
                i <= 128,
                forall|a: int, b: int| 0 <= a < b < r.len() ==> r[a] < r[b],
                forall|k: int| 0 <= k < r.len() ==> r[k] < i,
                forall|k: int| 0 <= k < r.len() ==> self@.contains(#[trigger] r[k] as int),
                forall|j: int| 0 <= j < i && #[trigger] self@.contains(j) ==> r@.contains(j as u8),
            decreases 128 - i,
        {
            let ghost before = r@;
            if self.get(i) {
                r.push(i);
            }
            proof {
                assert forall|j: int| 0 <= j < i + 1 && #[trigger] self@.contains(j) implies r@.contains(
                    j as u8,
                ) by {
                    if j < i {
                        let k = choose|k: int| 0 <= k < before.len() && before[k] == j as u8;
                        assert(r@[k] == j as u8);
                    } else {
                        assert(r@[r.len() - 1] == i);
                    }
                }
            }
            i = i + 1;
        }
        assert forall|j: int| #[trigger] self@.contains(j) implies r@.contains(j as u8) by {
            assert(0 <= j < 128);
        }
        r
    }

    /// The raw word: bit `i` is set exactly when slot `i` is held.
    pub fn get_map(&self) -> (r: u128)
        ensures
            slots_of(r) == self@,
    {
        self.map
    }
}

} // verus!
