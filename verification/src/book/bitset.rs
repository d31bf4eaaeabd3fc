//! Three-level bitset over price indices: one bit per index in the bottom
//! level, one bit per non-zero word in each level above, so that the
//! lowest and highest set index are found with a few word scans.
use vstd::prelude::*;
use vstd::std_specs::bits::{u64_leading_zeros, u64_trailing_zeros};

verus! {

broadcast use {vstd::std_specs::bits::axiom_u64_trailing_zeros, vstd::std_specs::bits::axiom_u64_leading_zeros};

/// Whether bit `b` of `w` is set.
pub open spec fn bit(w: u64, b: int) -> bool {
    (w >> (b as u64)) & 1u64 == 1u64
}

/// Number of indices covered by one word of the top level.
pub open spec fn region_span() -> int {
    262144
}

proof fn lemma_set_bits(w: u64, b: u64, c: u64)
    by (bit_vector)
    requires
        b < 64,
        c < 64,
    ensures
        ((w | (1u64 << b)) >> c) & 1u64 == 1u64 <==> (c == b || (w >> c) & 1u64 == 1u64),
        w | (1u64 << b) != 0,
{
}

proof fn lemma_clear_bits(w: u64, b: u64, c: u64)
    by (bit_vector)
    requires
        b < 64,
        c < 64,
    ensures
        ((w & !(1u64 << b)) >> c) & 1u64 == 1u64 <==> (c != b && (w >> c) & 1u64 == 1u64),
{
}

/// After setting bit `b`, bit `c` is set exactly when it was or `c == b`.
proof fn lemma_bit_after_set(w: u64, b: int, c: int)
    requires
        0 <= b < 64,
        0 <= c < 64,
    ensures
        bit(w | (1u64 << (b as u64)), c) == (c == b || bit(w, c)),
        w | (1u64 << (b as u64)) != 0,
{
    lemma_set_bits(w, b as u64, c as u64);
}

/// After clearing bit `b`, bit `c` is set exactly when it was and `c != b`.
proof fn lemma_bit_after_clear(w: u64, b: int, c: int)
    requires
        0 <= b < 64,
        0 <= c < 64,
    ensures
        bit(w & !(1u64 << (b as u64)), c) == (c != b && bit(w, c)),
{
    lemma_clear_bits(w, b as u64, c as u64);
}

/// A zero word has no bit set, and a bit reads as 0 or 1.
proof fn lemma_zero_word()
    by (bit_vector)
    ensures
        forall|c: u64| c < 64 ==> (0u64 >> c) & 1u64 != 1u64,
        forall|w: u64, c: u64| ((w >> c) & 1u64 != 1u64) == ((w >> c) & 1u64 == 0u64),
        forall|w: u64, c: u64| (w >> c) & 1u64 != 0u64 ==> (w >> c) & 1u64 == 1u64,
{
}

/// Two indices with the same word and the same bit are equal.
proof fn lemma_same_word_bit(a: int, b: int)
    requires
        0 <= a,
        0 <= b,
        a / 64 == b / 64,
        a % 64 == b % 64,
    ensures
        a == b,
{
}

/// The top-level word of an index is the summary word of its summary word.
proof fn lemma_div_4096(a: int)
    requires
        0 <= a,
    ensures
        (a / 64) / 64 == a / 4096,
{
    assert((a / 64) / 64 == a / 4096) by (nonlinear_arith)
        requires
            0 <= a,
    ;
}

/// Clearing a bit of zero gives zero.
proof fn lemma_zero_and(b: u64)
    by (bit_vector)
    ensures
        0u64 & !(1u64 << b) == 0u64,
{
}

/// A word with some bit set is not zero.
proof fn lemma_bit_nonzero(w: u64, c: u64)
    requires
        c < 64,
        bit(w, c as int),
    ensures
        w != 0,
{
    lemma_zero_word();
}

/// The lowest set bit of a non-zero word.
proof fn lemma_lowest_bit(w: u64)
    requires
        w != 0,
    ensures
        u64_trailing_zeros(w) < 64,
        bit(w, u64_trailing_zeros(w) as int),
        forall|c: int| 0 <= c < u64_trailing_zeros(w) ==> !bit(w, c),
{
    lemma_zero_word();
    let t = u64_trailing_zeros(w);
    assert forall|c: int| 0 <= c < t implies !bit(w, c) by {
        assert((w >> (c as u64)) & 1u64 == 0u64);
    }
}

/// The highest set bit of a non-zero word.
proof fn lemma_highest_bit(w: u64)
    requires
        w != 0,
    ensures
        0 <= u64_leading_zeros(w) < 64,
        bit(w, 63 - u64_leading_zeros(w)),
        forall|c: int| 63 - u64_leading_zeros(w) < c < 64 ==> !bit(w, c),
{
    lemma_zero_word();
    let z = u64_leading_zeros(w);
    assert((w >> ((63 - z) as u64)) & 1u64 != 0u64);
    assert forall|c: int| 63 - z < c < 64 implies !bit(w, c) by {
        assert((w >> (c as u64)) & 1u64 == 0u64);
    }
}

/// A three-level bitset.
#[derive(Clone, Debug)]
pub struct L3Bitset {
    l1: Vec<u64>,
    l2: Vec<u64>,
    l3: Vec<u64>,
}

/// Number of words needed for `n` bits.
pub open spec fn words_for(n: int) -> int {
    (n + 63) / 64
}

impl L3Bitset {
    /// Number of indices the bitset can hold.
    pub closed spec fn capacity(&self) -> int {
        (64 * self.l3@.len()) as int
    }

    /// Whether index `i` is set.
    pub closed spec fn contains(&self, i: int) -> bool {
        0 <= i < self.capacity() && bit(self.l3@[i / 64], i % 64)
    }

    /// Each summary bit is set exactly when the word it stands for is
    /// non-zero, and the summary levels are as long as needed.
    pub closed spec fn wf(&self) -> bool {
        &&& self.l2@.len() == words_for(self.l3@.len() as int)
        &&& self.l1@.len() == words_for(self.l2@.len() as int)
        &&& 64 * self.l3@.len() + 64 <= usize::MAX
        &&& forall|v: int| 0 <= v < 64 * self.l2@.len() ==> #[trigger] self.summary2_ok(v)
        &&& forall|v: int| 0 <= v < 64 * self.l1@.len() ==> #[trigger] self.summary1_ok(v)
    }

    /// Bit `v` of the middle level is set exactly when bottom word `v` is non-zero.
    pub closed spec fn summary2_ok(&self, v: int) -> bool {
        bit(self.l2@[v / 64], v % 64) <==> (v < self.l3@.len() && self.l3@[v] != 0)
    }

    /// Bit `v` of the top level is set exactly when middle word `v` is non-zero.
    pub closed spec fn summary1_ok(&self, v: int) -> bool {
        bit(self.l1@[v / 64], v % 64) <==> (v < self.l2@.len() && self.l2@[v] != 0)
    }

    /// The indices that are set.
    pub closed spec fn view(&self) -> Set<int> {
        Set::new(|i: int| self.contains(i))
    }

    /// Only indices below the capacity can be set.
    pub proof fn lemma_contains_bounds(&self, i: int)
        ensures
            self.contains(i) ==> 0 <= i < self.capacity(),
    {
    }

    /// An empty bitset with room for at least `depth` indices.
    pub fn new(depth: usize) -> (r: Self)
        requires
            depth + 128 <= usize::MAX,
        ensures
            r.wf(),
            r.capacity() == 64 * words_for(depth as int),
            r.capacity() >= depth,
            forall|i: int| !r.contains(i),
    {
        let l3_words = depth / 64 + if depth % 64 == 0 { 0 } else { 1 };
        let l2_words = l3_words / 64 + if l3_words % 64 == 0 { 0 } else { 1 };
        let l1_words = l2_words / 64 + if l2_words % 64 == 0 { 0 } else { 1 };
        let r = L3Bitset {
            l1: vec_zeros(l1_words),
            l2: vec_zeros(l2_words),
            l3: vec_zeros(l3_words),
        };
        proof {
            lemma_zero_word();
        }
        r
    }

    /// Sets index `idx`.
    pub fn set(&mut self, idx: usize)
        requires
            old(self).wf(),
            idx < old(self).capacity(),
        ensures
            final(self).wf(),
            final(self).capacity() == old(self).capacity(),
            forall|i: int| final(self).contains(i) == (old(self).contains(i) || i == idx),
    {
        let l3_idx = idx / 64;
        let ghost o = *old(self);
        let ghost i3 = l3_idx as int;
        let ghost i2 = i3 / 64;
        let ghost i1 = i3 / 4096;
        proof {
            lemma_div_4096(i3);
            assert(o.wf());
            assert(o.l3@.len() > 0);
        }
        let w3 = self.l3[l3_idx] | (1u64 << ((idx % 64) as u64));
        self.l3.set(l3_idx, w3);
        let w2 = self.l2[l3_idx / 64] | (1u64 << ((l3_idx % 64) as u64));
        self.l2.set(l3_idx / 64, w2);
        let w1 = self.l1[l3_idx / 4096] | (1u64 << (((l3_idx / 64) % 64) as u64));
        self.l1.set(l3_idx / 4096, w1);
        proof {
            lemma_bit_after_set(o.l3@[i3], (idx % 64) as int, 0);
            lemma_bit_after_set(o.l2@[i2], i3 % 64, 0);
            assert forall|i: int| #[trigger] self.contains(i) == (o.contains(i) || i == idx) by {
                if 0 <= i < self.capacity() && i / 64 == i3 {
                    lemma_bit_after_set(o.l3@[i3], (idx % 64) as int, i % 64);
                    if i % 64 == idx % 64 {
                        lemma_same_word_bit(i, idx as int);
                    }
                } else if 0 <= i < self.capacity() {
                    assert(self.l3@[i / 64] == o.l3@[i / 64]);
                    assert(i != idx);
                }
            }
            assert forall|v: int| 0 <= v < 64 * self.l2@.len() implies self.summary2_ok(v) by {
                assert(o.summary2_ok(v));
                if v / 64 == i2 {
                    lemma_bit_after_set(o.l2@[i2], i3 % 64, v % 64);
                    if v % 64 == i3 % 64 {
                        lemma_same_word_bit(v, i3);
                    }
                } else {
                    assert(v != i3);
                }
            }
            assert forall|v: int| 0 <= v < 64 * self.l1@.len() implies self.summary1_ok(v) by {
                assert(o.summary1_ok(v));
                if v / 64 == i1 {
                    lemma_bit_after_set(o.l1@[i1], i2 % 64, v % 64);
                    if v % 64 == i2 % 64 {
                        lemma_same_word_bit(v, i2);
                    }
                } else {
                    assert(v != i2);
                }
            }
        }
    }

    /// Clears index `idx`.
    pub fn unset(&mut self, idx: usize)
        requires
            old(self).wf(),
            idx < old(self).capacity(),
        ensures
            final(self).wf(),
            final(self).capacity() == old(self).capacity(),
            forall|i: int| final(self).contains(i) == (old(self).contains(i) && i != idx),
    {
        let l3_idx = idx / 64;
        let ghost o = *old(self);
        let ghost i3 = l3_idx as int;
        let ghost i2 = i3 / 64;
        let ghost i1 = i3 / 4096;
        proof {
            lemma_div_4096(i3);
        }
        let w3 = self.l3[l3_idx] & !(1u64 << ((idx % 64) as u64));
        self.l3.set(l3_idx, w3);
        if self.l3[l3_idx] == 0 {
            let ghost m = *self;
            let w2 = self.l2[l3_idx / 64] & !(1u64 << ((l3_idx % 64) as u64));
            self.l2.set(l3_idx / 64, w2);
            proof {
                assert forall|v: int| 0 <= v < 64 * self.l2@.len() implies self.summary2_ok(v) by {
                    assert(o.summary2_ok(v));
                    if v / 64 == i2 {
                        lemma_bit_after_clear(m.l2@[i2], i3 % 64, v % 64);
                        if v % 64 == i3 % 64 {
                            lemma_same_word_bit(v, i3);
                        }
                    } else {
                        assert(v != i3);
                    }
                }
            }
            if self.l2[l3_idx / 64] == 0 {
                let ghost n = *self;
                let w1 = self.l1[l3_idx / 4096] & !(1u64 << (((l3_idx / 64) % 64) as u64));
                self.l1.set(l3_idx / 4096, w1);
                proof {
                    assert forall|v: int| 0 <= v < 64 * self.l2@.len() implies self.summary2_ok(v) by {
                        assert(n.summary2_ok(v));
                    }
                    assert forall|v: int| 0 <= v < 64 * self.l1@.len() implies self.summary1_ok(v) by {
                        assert(o.summary1_ok(v));
                        if v / 64 == i1 {
                            lemma_bit_after_clear(o.l1@[i1], i2 % 64, v % 64);
                            if v % 64 == i2 % 64 {
                                lemma_same_word_bit(v, i2);
                            }
                        } else {
                            assert(v != i2);
                        }
                    }
                }
            } else {
                proof {
                    assert forall|v: int| 0 <= v < 64 * self.l1@.len() implies self.summary1_ok(v) by {
                        assert(o.summary1_ok(v));
                        if v == i2 && o.l2@[i2] == 0 {
                            lemma_zero_and((i3 % 64) as u64);
                        }
                    }
                }
            }
        } else {
            proof {
                assert forall|v: int| 0 <= v < 64 * self.l2@.len() implies self.summary2_ok(v) by {
                    assert(o.summary2_ok(v));
                    if v == i3 && o.l3@[v] == 0 {
                        lemma_zero_and((idx % 64) as u64);
                    }
                }
                assert forall|v: int| 0 <= v < 64 * self.l1@.len() implies self.summary1_ok(v) by {
                    assert(o.summary1_ok(v));
                }
            }
        }
        proof {
            assert forall|i: int| #[trigger] self.contains(i) == (o.contains(i) && i != idx) by {
                if 0 <= i < self.capacity() && i / 64 == i3 {
                    lemma_bit_after_clear(o.l3@[i3], (idx % 64) as int, i % 64);
                    if i % 64 == idx % 64 {
                        lemma_same_word_bit(i, idx as int);
                    }
                } else if 0 <= i < self.capacity() {
                    assert(self.l3@[i / 64] == o.l3@[i / 64]);
                    assert(i != idx);
                }
            }
        }
    }


    /// The summary path of a set index: its bottom word is non-zero, and
    /// the bits that stand for that word in the levels above are set.
    proof fn lemma_path(&self, j: int)
        requires
            self.wf(),
            self.contains(j),
        ensures
            self.l3@[j / 64] != 0,
            j / 4096 < self.l2@.len(),
            bit(self.l2@[j / 4096], (j / 64) % 64),
            self.l2@[j / 4096] != 0,
            j / 262144 < self.l1@.len(),
            bit(self.l1@[j / 262144], (j / 4096) % 64),
            self.l1@[j / 262144] != 0,
    {
        let w = j / 64;
        let v = j / 4096;
        assert(w / 64 == v) by {
            lemma_div_4096(j);
        }
        assert(v / 64 == j / 262144) by {
            assert((j / 4096) / 64 == j / 262144) by (nonlinear_arith)
                requires
                    0 <= j,
            ;
        }
        lemma_bit_nonzero(self.l3@[w], (j % 64) as u64);
        assert(self.summary2_ok(w));
        lemma_bit_nonzero(self.l2@[v], (w % 64) as u64);
        assert(self.summary1_ok(v));
        lemma_bit_nonzero(self.l1@[v / 64], (v % 64) as u64);
    }

    /// A zero top word means its region holds no set index.
    proof fn lemma_region_empty(&self, r1: int)
        requires
            self.wf(),
            0 <= r1 < self.l1@.len(),
            self.l1@[r1] == 0,
        ensures
            forall|j: int| self.contains(j) ==> j / 262144 != r1,
    {
        assert forall|j: int| self.contains(j) implies j / 262144 != r1 by {
            self.lemma_path(j);
        }
    }

    /// The lowest set index of a region whose top word is non-zero.
    proof fn lemma_region_first(&self, r1: int)
        requires
            self.wf(),
            0 <= r1 < self.l1@.len(),
            self.l1@[r1] != 0,
        ensures
            ({
                let a = r1 * 64 + u64_trailing_zeros(self.l1@[r1]);
                let b = a * 64 + u64_trailing_zeros(self.l2@[a]);
                let g = b * 64 + u64_trailing_zeros(self.l3@[b]);
                &&& a < self.l2@.len()
                &&& self.l2@[a] != 0
                &&& b < self.l3@.len()
                &&& self.l3@[b] != 0
                &&& self.contains(g)
                &&& g / 262144 == r1
                &&& forall|j: int| self.contains(j) && j / 262144 == r1 ==> g <= j
            }),
    {
        let t1 = u64_trailing_zeros(self.l1@[r1]) as int;
        lemma_lowest_bit(self.l1@[r1]);
        let a = r1 * 64 + t1;
        assert(a / 64 == r1 && a % 64 == t1);
        assert(self.summary1_ok(a));
        let t2 = u64_trailing_zeros(self.l2@[a]) as int;
        lemma_lowest_bit(self.l2@[a]);
        let b = a * 64 + t2;
        assert(b / 64 == a && b % 64 == t2);
        assert(self.summary2_ok(b));
        let t3 = u64_trailing_zeros(self.l3@[b]) as int;
        lemma_lowest_bit(self.l3@[b]);
        let g = b * 64 + t3;
        assert(g / 64 == b && g % 64 == t3);
        assert(g / 262144 == r1) by {
            assert(g == r1 * 262144 + t1 * 4096 + t2 * 64 + t3);
        }
        assert forall|j: int| self.contains(j) && j / 262144 == r1 implies g <= j by {
            self.lemma_path(j);
            let w = j / 64;
            let v = j / 4096;
            lemma_div_4096(j);
            assert(v == r1 * 64 + v % 64) by {
                assert((j / 4096) / 64 == j / 262144) by (nonlinear_arith)
                    requires
                        0 <= j,
                ;
            }
            assert(v % 64 >= t1);
            if v == a {
                assert(w == a * 64 + w % 64);
                assert(w % 64 >= t2);
                if w == b {
                    assert(j % 64 >= t3);
                }
            }
        }
    }

    /// The highest set index of a region whose top word is non-zero.
    proof fn lemma_region_last(&self, r1: int)
        requires
            self.wf(),
            0 <= r1 < self.l1@.len(),
            self.l1@[r1] != 0,
        ensures
            ({
                let a = r1 * 64 + 63 - u64_leading_zeros(self.l1@[r1]);
                let b = a * 64 + 63 - u64_leading_zeros(self.l2@[a]);
                let g = b * 64 + 63 - u64_leading_zeros(self.l3@[b]);
                &&& a < self.l2@.len()
                &&& self.l2@[a] != 0
                &&& b < self.l3@.len()
                &&& self.l3@[b] != 0
                &&& self.contains(g)
                &&& g / 262144 == r1
                &&& forall|j: int| self.contains(j) && j / 262144 == r1 ==> j <= g
            }),
    {
        let t1 = 63 - u64_leading_zeros(self.l1@[r1]);
        lemma_highest_bit(self.l1@[r1]);
        let a = r1 * 64 + t1;
        assert(a / 64 == r1 && a % 64 == t1);
        assert(self.summary1_ok(a));
        let t2 = 63 - u64_leading_zeros(self.l2@[a]);
        lemma_highest_bit(self.l2@[a]);
        let b = a * 64 + t2;
        assert(b / 64 == a && b % 64 == t2);
        assert(self.summary2_ok(b));
        let t3 = 63 - u64_leading_zeros(self.l3@[b]);
        lemma_highest_bit(self.l3@[b]);
        let g = b * 64 + t3;
        assert(g / 64 == b && g % 64 == t3);
        assert(g / 262144 == r1) by {
            assert(g == r1 * 262144 + t1 * 4096 + t2 * 64 + t3);
        }
        assert forall|j: int| self.contains(j) && j / 262144 == r1 implies j <= g by {
            self.lemma_path(j);
            let w = j / 64;
            let v = j / 4096;
            lemma_div_4096(j);
            assert(v == r1 * 64 + v % 64) by {
                assert((j / 4096) / 64 == j / 262144) by (nonlinear_arith)
                    requires
                        0 <= j,
                ;
            }
            assert(v % 64 <= t1);
            if v == a {
                assert(w == a * 64 + w % 64);
                assert(w % 64 <= t2);
                if w == b {
                    assert(j % 64 <= t3);
                }
            }
        }
    }

    /// The lowest set index, if it is below `max`.
    pub fn find_first(&self, max: usize) -> (r: Option<usize>)
        requires
            self.wf(),
        ensures
            r matches Some(i) ==> self.contains(i as int) && i < max && forall|j: int|
                0 <= j < i ==> !self.contains(j),
            r is None ==> forall|j: int| self.contains(j) ==> j >= max,
    {
        let mut l1_idx: usize = 0;
        while l1_idx < self.l1.len()
            invariant
                self.wf(),
                l1_idx <= self.l1@.len(),
                forall|j: int| self.contains(j) && j / 262144 < l1_idx ==> j >= max,
            decreases self.l1@.len() - l1_idx,
        {
            let l1_word = self.l1[l1_idx];
            if l1_word == 0 {
                proof {
                    self.lemma_region_empty(l1_idx as int);
                }
                l1_idx = l1_idx + 1;
                continue;
            }
            proof {
                self.lemma_region_first(l1_idx as int);
            }
            let l2_word_idx = (l1_word.trailing_zeros() as usize) + l1_idx * 64;
            if l2_word_idx >= self.l2.len() {
                return None;
            }
            let l2_word = self.l2[l2_word_idx];
            if l2_word == 0 {
                l1_idx = l1_idx + 1;
                continue;
            }
            let l3_word_idx = (l2_word.trailing_zeros() as usize) + l2_word_idx * 64;
            if l3_word_idx >= self.l3.len() {
                return None;
            }
            let l3_word = self.l3[l3_word_idx];
            let bit = l3_word.trailing_zeros() as usize;
            let global_idx = l3_word_idx * 64 + bit;
            if global_idx < max {
                proof {
                    assert forall|j: int| 0 <= j < global_idx implies !self.contains(j) by {
                        if self.contains(j) {
                            self.lemma_path(j);
                        }
                    }
                }
                return Some(global_idx);
            }
            l1_idx = l1_idx + 1;
        }
        proof {
            assert forall|j: int| self.contains(j) implies j >= max by {
                self.lemma_path(j);
            }
        }
        None
    }

    /// The highest set index of the highest region whose highest set index
    /// is below `max`: regions are scanned from the top, and a region whose
    /// highest set index is at or above `max` is skipped as a whole.
    pub fn find_last(&self, max: usize) -> (r: Option<usize>)
        requires
            self.wf(),
        ensures
            r matches Some(i) ==> {
                &&& self.contains(i as int)
                &&& i < max
                &&& forall|j: int|
                    self.contains(j) && j > i ==> j / region_span() > (i as int) / region_span() && exists|
                        k: int,
                    |
                        #![trigger self.contains(k)]
                        self.contains(k) && k / region_span() == j / region_span() && k >= max
            },
            r is None ==> forall|j: int|
                self.contains(j) ==> exists|k: int|
                    #![trigger self.contains(k)]
                    self.contains(k) && k / region_span() == j / region_span() && k >= max,
            (forall|j: int| self.contains(j) ==> j < max) ==> (r matches Some(i) ==> forall|j: int|
                self.contains(j) ==> j <= i),
            (forall|j: int| self.contains(j) ==> j < max) ==> (r is None ==> forall|j: int|
                !self.contains(j)),
    {
        let mut l1_idx: usize = self.l1.len();
        while l1_idx > 0
            invariant
                self.wf(),
                l1_idx <= self.l1@.len(),
                forall|j: int|
                    self.contains(j) && j / 262144 >= l1_idx ==> exists|k: int|
                        #![trigger self.contains(k)]
                        self.contains(k) && k / 262144 == j / 262144 && k >= max,
            decreases l1_idx,
        {
            l1_idx = l1_idx - 1;
            let l1_word = self.l1[l1_idx];
            if l1_word == 0 {
                proof {
                    self.lemma_region_empty(l1_idx as int);
                }
                continue;
            }
            proof {
                self.lemma_region_last(l1_idx as int);
            }
            let l2_idx = (63 - l1_word.leading_zeros()) as usize + l1_idx * 64;
            if l2_idx >= self.l2.len() {
                return None;
            }
            let l2_word = self.l2[l2_idx];
            if l2_word == 0 {
                continue;
            }
            let l3_idx = (63 - l2_word.leading_zeros()) as usize + l2_idx * 64;
            if l3_idx >= self.l3.len() {
                return None;
            }
            let l3_word = self.l3[l3_idx];
            let bit = 63 - l3_word.leading_zeros();
            let global_idx = l3_idx * 64 + bit as usize;
            proof {
                self.lemma_last_step(l1_idx as int, global_idx as int, max as int);
            }
            if global_idx < max {
                return Some(global_idx);
            }
        }
        None
    }

    /// One step of the downward scan: the highest set index `g` of region
    /// `r1` is the answer when it is below `max`, and otherwise region `r1`
    /// joins the skipped ones.
    proof fn lemma_last_step(&self, r1: int, g: int, max: int)
        requires
            self.wf(),
            0 <= r1,
            self.contains(g),
            g / 262144 == r1,
            forall|j: int| self.contains(j) && j / 262144 == r1 ==> j <= g,
            forall|j: int|
                self.contains(j) && j / 262144 >= r1 + 1 ==> exists|k: int|
                    #![trigger self.contains(k)]
                    self.contains(k) && k / 262144 == j / 262144 && k >= max,
        ensures
            g < max ==> forall|j: int|
                self.contains(j) && j > g ==> j / region_span() > g / region_span() && exists|k: int|
                    #![trigger self.contains(k)]
                    self.contains(k) && k / region_span() == j / region_span() && k >= max,
            g >= max ==> forall|j: int|
                self.contains(j) && j / 262144 >= r1 ==> exists|k: int|
                    #![trigger self.contains(k)]
                    self.contains(k) && k / 262144 == j / 262144 && k >= max,
    {
        assert forall|j: int| self.contains(j) && j > g implies j / 262144 > r1 by {
            assert(j / 262144 >= g / 262144) by (nonlinear_arith)
                requires
                    j > g,
                    g >= 0,
            ;
        }
        if g >= max {
            assert forall|j: int|
                self.contains(j) && j / 262144 >= r1 implies exists|k: int|
                #![trigger self.contains(k)]
                self.contains(k) && k / 262144 == j / 262144 && k >= max by {
                if j / 262144 == r1 {
                    assert(self.contains(g));
                }
            }
        }
    }

    /// Whether index `idx` is set.
    pub fn test(&self, idx: usize) -> (r: bool)
        requires
            idx < self.capacity(),
        ensures
            r == self.contains(idx as int),
    {
        let l3_idx = idx / 64;
        let l3_bit = (idx % 64) as u64;
        proof {
            lemma_zero_word();
            let w = self.l3@[l3_idx as int];
            assert(((w & (1u64 << l3_bit)) != 0) == ((w >> l3_bit) & 1u64 == 1u64)) by (bit_vector)
                requires
                    l3_bit < 64,
            ;
        }
        (self.l3[l3_idx] & (1u64 << l3_bit)) != 0
    }

    /// Clears every index.
    pub fn clear(&mut self)
        requires
            old(self).wf(),
        ensures
            final(self).wf(),
            final(self).capacity() == old(self).capacity(),
            forall|i: int| !final(self).contains(i),
    {
        zero_fill(&mut self.l1);
        zero_fill(&mut self.l2);
        zero_fill(&mut self.l3);
        proof {
            lemma_zero_word();
        }
    }
}

/// A vector of `n` zero words.
fn vec_zeros(n: usize) -> (r: Vec<u64>)
    ensures
        r@.len() == n,
        forall|k: int| 0 <= k < n ==> r@[k] == 0,
{
    let mut v: Vec<u64> = Vec::with_capacity(n);
    let mut k: usize = 0;
    while k < n
        invariant
            k <= n,
            v@.len() == k,
            forall|j: int| 0 <= j < k ==> v@[j] == 0,
        decreases n - k,
    {
        v.push(0);
        k = k + 1;
    }
    v
}

/// Sets every word of `v` to zero.
fn zero_fill(v: &mut Vec<u64>)
    ensures
        final(v)@.len() == old(v)@.len(),
        forall|k: int| 0 <= k < final(v)@.len() ==> final(v)@[k] == 0,
{
    let n = v.len();
    let mut k: usize = 0;
    while k < n
        invariant
            k <= n,
            v@.len() == n,
            forall|j: int| 0 <= j < k ==> v@[j] == 0,
        decreases n - k,
    {
        v.set(k, 0);
        k = k + 1;
    }
}

} // verus!
