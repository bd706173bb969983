//! Petrick's method: an exact minimum-cover selector over the
//! prime-implicant chart, built on 64-bit bit vectors of row indices.

use vstd::prelude::*;

verus! {

use crate::model::in_list;
use crate::{
    filter_by_flags, lemma_filter_len_le, lemma_filter_pair_contains, lemma_filter_pair_index,
    lemma_filter_same_len, lemma_filter_step, lemma_term_views_push, no_dup_terms, row_views,
    term_views, Minterm, PrimeImplicateChart,
};

/// Whether bit `i` of the word is set.
pub open spec fn bv_bit(b: u64, i: u64) -> bool {
    b & (1u64 << i) != 0u64
}

/// Number of set bits among the low `n` bit positions.
pub open spec fn ones_below(b: u64, n: int) -> nat
    decreases n,
{
    if n <= 0 {
        0
    } else {
        ones_below(b, n - 1) + (if bv_bit(b, (n - 1) as u64) {
            1nat
        } else {
            0nat
        })
    }
}

/// Number of set bits of the word.
pub open spec fn pop64(b: u64) -> nat {
    ones_below(b, 64)
}

/// Every set bit lies below `n`.
pub open spec fn bv_below(b: u64, n: int) -> bool {
    forall|i: u64| i < 64 && #[trigger] bv_bit(b, i) ==> i < n
}

/// Sort key order over bit-vector words: fewer set bits first, ties by the
/// numeric value of the word.
pub open spec fn bv_key_le(a: u64, b: u64) -> bool {
    pop64(a) < pop64(b) || (pop64(a) == pop64(b) && a <= b)
}

/// The words of a list of bit vectors.
pub open spec fn bv_views(s: Seq<BitVec>) -> Seq<u64> {
    Seq::new(s.len(), |i: int| s[i]@)
}

/// Membership of a word in a list of words.
pub open spec fn in_words(ws: Seq<u64>, w: u64) -> bool {
    exists|k: int| 0 <= k < ws.len() && ws[k] == w
}

// --------------------------------------------
// Bit vector type for use in Petrick's method.

/// Bit vector representing a set of prime-implicant rows: bit `i` set means
/// row `i` is part of the candidate cover.
#[derive(Clone, Copy)]
pub struct BitVec {
    bits: u64,
}

impl View for BitVec {
    type V = u64;

    closed spec fn view(&self) -> u64 {
        self.bits
    }
}

impl Default for BitVec {
    fn default() -> (r: Self)
        ensures
            r@ == 0u64,
    {
        BitVec { bits: 0 }
    }
}

impl BitVec {
    /// Sets bit `i`.
    pub fn set_bit(&mut self, i: usize)
        requires
            i < 64,
        ensures
            final(self)@ == old(self)@ | (1u64 << (i as u64)),
    {
        self.bits = self.bits | (1u64 << (i as u64));
    }

    /// Clears bit `i`.
    pub fn reset_bit(&mut self, i: usize)
        requires
            i < 64,
        ensures
            final(self)@ == old(self)@ & !(1u64 << (i as u64)),
    {
        self.bits = self.bits & !(1u64 << (i as u64));
    }

    /// Whether bit `i` is set.
    pub fn get_bit(&self, i: usize) -> (r: bool)
        requires
            i < 64,
        ensures
            r == bv_bit(self@, i as u64),
    {
        (self.bits & (1u64 << (i as u64))) != 0
    }

    /// Number of set bits.
    pub fn count_ones(&self) -> (r: u32)
        ensures
            r == pop64(self@),
    {
        let mut r: u32 = 0;
        let mut i: usize = 0;
        while i < 64
            invariant
                i <= 64,
                r == ones_below(self@, i as int),
                r <= i,
            decreases 64 - i,
        {
            if self.get_bit(i) {
                r = r + 1;
            }
            i = i + 1;
        }
        r
    }

    /// Unions the other bit vector into this one.
    pub fn merge(&mut self, other: &BitVec)
        ensures
            final(self)@ == old(self)@ | other@,
    {
        self.bits = self.bits | other.bits;
    }

    /// The indices of the set bits, in ascending order.
    pub fn nonzero_indices(&self) -> (r: Vec<usize>)
        ensures
            r@.len() == pop64(self@),
            forall|z: int|
                0 <= z < r@.len() ==> (#[trigger] r@[z]) < 64 && bv_bit(self@, r@[z] as u64),
            forall|i: u64| i < 64 && #[trigger] bv_bit(self@, i) ==> in_usize_list(r@, i as usize),
            forall|z1: int, z2: int| 0 <= z1 < z2 < r@.len() ==> r@[z1] < r@[z2],
    {
        let mut r: Vec<usize> = Vec::new();
        let mut i: usize = 0;
        while i < 64
            invariant
                i <= 64,
                r@.len() == ones_below(self@, i as int),
                forall|z: int|
                    0 <= z < r@.len() ==> (#[trigger] r@[z]) < i && bv_bit(self@, r@[z] as u64),
                forall|k: u64| k < i && #[trigger] bv_bit(self@, k) ==> in_usize_list(r@, k as usize),
                forall|z1: int, z2: int| 0 <= z1 < z2 < r@.len() ==> r@[z1] < r@[z2],
            decreases 64 - i,
        {
            if self.get_bit(i) {
                let ghost r0 = r@;
                r.push(i);
                proof {
                    assert(r@[r@.len() - 1] == i);
                    assert forall|k: u64|
                        k < i + 1 && #[trigger] bv_bit(self@, k) implies in_usize_list(
                        r@,
                        k as usize,
                    ) by {
                        if k < i {
                            let z = choose|z: int| 0 <= z < r0.len() && r0[z] == k as usize;
                            assert(r@[z] == k as usize);
                        } else {
                            assert(r@[r@.len() - 1] == k as usize);
                        }
                    }
                }
            }
            i = i + 1;
        }
        r
    }

    /// Whether every set bit of this vector is also set in the other.
    pub fn is_subset(&self, other: &BitVec) -> (r: bool)
        ensures
            r == (self@ & other@ == self@),
            r ==> forall|i: u64| i < 64 && #[trigger] bv_bit(self@, i) ==> bv_bit(other@, i),
    {
        let r = self.bits & other.bits == self.bits;
        proof {
            if r {
                assert forall|i: u64| i < 64 && #[trigger] bv_bit(self@, i) implies bv_bit(
                    other@,
                    i,
                ) by {
                    let a = self@;
                    let b = other@;
                    assert(a & b == a && (a & (1u64 << i) != 0u64) ==> b & (1u64 << i) != 0u64)
                        by (bit_vector);
                }
            }
        }
        r
    }
}

/// Membership of a value in a list of indices.
pub open spec fn in_usize_list(s: Seq<usize>, v: usize) -> bool {
    exists|k: int| 0 <= k < s.len() && s[k] == v
}

/// A set bit of a union comes from one of the two words, and both words'
/// bits persist in the union.
pub proof fn lemma_or_bits(a: u64, b: u64, i: u64)
    requires
        i < 64,
    ensures
        bv_bit(a | b, i) <==> (bv_bit(a, i) || bv_bit(b, i)),
{
    assert(((a | b) & (1u64 << i) != 0u64) <==> ((a & (1u64 << i) != 0u64) || (b & (1u64 << i)
        != 0u64))) by (bit_vector);
}

/// The single-bit word has exactly bit `i` set.
pub proof fn lemma_single_bit(i: u64, j: u64)
    requires
        i < 64,
        j < 64,
    ensures
        bv_bit(1u64 << i, j) <==> j == i,
{
    assert(((1u64 << i) & (1u64 << j) != 0u64) <==> j == i) by (bit_vector)
        requires
            i < 64 && j < 64,
    ;
}

/// Represents a run of bit vectors with the same number of set bits inside
/// a list sorted by `bv_key_le`.
pub struct OnesGroup {
    /// Number of set bits shared by the run.
    pub n_ones: u32,
    /// Index of the first element of the run.
    pub start_offset: usize,
}


/// The word is the union of one cover of `cs` and one option of `ns`.
pub open spec fn is_or_of(cs: Seq<BitVec>, ns: Seq<BitVec>, w: u64) -> bool {
    exists|p: int, q: int|
        #![trigger cs[p], ns[q]]
        0 <= p < cs.len() && 0 <= q < ns.len() && w == (cs[p]@ | ns[q]@)
}

/// Position `w` lies in some run whose shared set-bit count is `ones`.
pub open spec fn in_some_group(gs: Seq<OnesGroup>, len: int, w: int, ones: nat) -> bool {
    exists|g: int|
        0 <= g < gs.len() && (#[trigger] gs[g].start_offset) <= w < group_end(gs, g, len) && ones
            == gs[g].n_ones
}

/// The end of group `g`: the start of the next group, or the list length.
pub open spec fn group_end(gs: Seq<OnesGroup>, g: int, len: int) -> int {
    if g == gs.len() - 1 {
        len
    } else {
        gs[g + 1].start_offset as int
    }
}

/// The groups describe the sorted list: starts ascending from zero, set-bit
/// counts strictly increasing, and every element's count is its group's.
pub open spec fn groups_ok(gs: Seq<OnesGroup>, ws: Seq<u64>) -> bool {
    &&& (ws.len() == 0 ==> gs.len() == 0)
    &&& (ws.len() > 0 ==> gs.len() >= 1 && gs[0].start_offset == 0)
    &&& forall|g: int| 0 <= g < gs.len() ==> (#[trigger] gs[g].start_offset) < ws.len()
    &&& forall|g1: int, g2: int|
        0 <= g1 < g2 < gs.len() ==> gs[g1].start_offset < gs[g2].start_offset && gs[g1].n_ones
            < gs[g2].n_ones
    &&& forall|g: int, w: int|
        0 <= g < gs.len() && (#[trigger] gs[g].start_offset) <= w < group_end(
            gs,
            g,
            ws.len() as int,
        ) ==> pop64(#[trigger] ws[w]) == gs[g].n_ones
    &&& forall|w: int|
        0 <= w < ws.len() ==> in_some_group(gs, ws.len() as int, w, pop64(#[trigger] ws[w]))
}


// -----------------------------
// Work counters for diagnosis.

/// Saturating increment.
pub open spec fn sat_inc(c: u64) -> u64 {
    if c == u64::MAX {
        c
    } else {
        (c + 1) as u64
    }
}

/// Counters of the work done while running Petrick's method.
#[derive(Debug)]
pub struct PetrickTimeInfo {
    /// Calls of the essential-implicant extractor.
    pub remove_essential_calls: u64,
    /// Columns turned into option lists.
    pub bitvecs_from_chart_cols_calls: u64,
    /// Pruning sweeps over the candidate frontier.
    pub remove_redundant_calls: u64,
    /// Pairwise combination steps.
    pub pairwise_and_calls: u64,
}

impl Default for PetrickTimeInfo {
    fn default() -> (r: Self)
        ensures
            r.remove_essential_calls == 0,
            r.bitvecs_from_chart_cols_calls == 0,
            r.remove_redundant_calls == 0,
            r.pairwise_and_calls == 0,
    {
        PetrickTimeInfo {
            remove_essential_calls: 0,
            bitvecs_from_chart_cols_calls: 0,
            remove_redundant_calls: 0,
            pairwise_and_calls: 0,
        }
    }
}

/// Increments a counter, stopping at the largest value.
fn bump(c: u64) -> (r: u64)
    ensures
        r == sat_inc(c),
{
    if c == u64::MAX {
        c
    } else {
        c + 1
    }
}

// ---------------------------------
// Sorting and pruning bit vectors.

/// Exec comparison by the sort key: set-bit count, then word value.
fn key_le(a: &BitVec, b: &BitVec) -> (r: bool)
    ensures
        r == bv_key_le(a@, b@),
{
    let ca = a.count_ones();
    let cb = b.count_ones();
    if ca < cb {
        true
    } else if ca > cb {
        false
    } else {
        a.bits <= b.bits
    }
}

impl BitVec {
    /// Sorts the bit vectors by (set-bit count, word value) and returns
    /// the runs of equal set-bit counts.
    #[verifier::rlimit(100)]
    pub fn bitsort(bitvecs: &mut Vec<BitVec>) -> (groups: Vec<OnesGroup>)
    ensures
        final(bitvecs)@.len() == old(bitvecs)@.len(),
        forall|z: int|
            0 <= z < final(bitvecs)@.len() ==> in_words(
                bv_views(old(bitvecs)@),
                #[trigger] bv_views(final(bitvecs)@)[z],
            ),
        forall|z: int|
            0 <= z < old(bitvecs)@.len() ==> in_words(
                bv_views(final(bitvecs)@),
                #[trigger] bv_views(old(bitvecs)@)[z],
            ),
        forall|z1: int, z2: int|
            0 <= z1 < z2 < final(bitvecs)@.len() ==> bv_key_le(
                bv_views(final(bitvecs)@)[z1],
                bv_views(final(bitvecs)@)[z2],
            ),
        bv_views(final(bitvecs)@).to_multiset() == bv_views(old(bitvecs)@).to_multiset(),
        (forall|z1: int, z2: int|
            0 <= z1 < z2 < old(bitvecs)@.len() ==> bv_views(old(bitvecs)@)[z1] != bv_views(
                old(bitvecs)@,
            )[z2]) ==> (forall|z1: int, z2: int|
            0 <= z1 < z2 < final(bitvecs)@.len() ==> bv_views(final(bitvecs)@)[z1] != bv_views(
                final(bitvecs)@,
            )[z2]),
        groups_ok(groups@, bv_views(final(bitvecs)@)),
{
    let ghost orig = bv_views(bitvecs@);
    let mut sorted: Vec<BitVec> = Vec::new();
    proof {
        let e1 = orig.take(0);
        let e2 = bv_views(sorted@);
        e1.to_multiset_ensures();
        e2.to_multiset_ensures();
        assert forall|x: u64| e1.to_multiset().count(x) == e2.to_multiset().count(x) by {
            assert(!e1.contains(x) && !e2.contains(x));
            assert(e1.to_multiset().count(x) == 0 && e2.to_multiset().count(x) == 0);
        }
        assert(e1.to_multiset() =~= e2.to_multiset());
    }
    let mut i: usize = 0;
    while i < bitvecs.len()
        invariant
            i <= bitvecs@.len(),
            orig == bv_views(bitvecs@),
            sorted@.len() == i,
            bv_views(sorted@).to_multiset() == orig.take(i as int).to_multiset(),
            forall|z: int|
                0 <= z < sorted@.len() ==> in_words(orig.take(i as int), #[trigger] bv_views(
                    sorted@,
                )[z]),
            forall|w: int| 0 <= w < i ==> in_words(bv_views(sorted@), #[trigger] orig[w]),
            (forall|z1: int, z2: int| 0 <= z1 < z2 < orig.len() ==> orig[z1] != orig[z2]) ==> (
            forall|z1: int, z2: int|
                0 <= z1 < z2 < sorted@.len() ==> bv_views(sorted@)[z1] != bv_views(sorted@)[z2]),
            forall|z1: int, z2: int|
                0 <= z1 < z2 < sorted@.len() ==> bv_key_le(
                    bv_views(sorted@)[z1],
                    bv_views(sorted@)[z2],
                ),
        decreases bitvecs@.len() - i,
    {
        let x = bitvecs[i];
        let ghost s0 = sorted@;
        let mut pos: usize = 0;
        loop
            invariant
                pos <= sorted@.len(),
                sorted@ == s0,
                x@ == orig[i as int],
                forall|z: int| 0 <= z < pos ==> bv_key_le(bv_views(sorted@)[z], x@),
                forall|z1: int, z2: int|
                    0 <= z1 < z2 < sorted@.len() ==> bv_key_le(
                        bv_views(sorted@)[z1],
                        bv_views(sorted@)[z2],
                    ),
            ensures
                pos <= sorted@.len(),
                sorted@ == s0,
                forall|z: int| 0 <= z < pos ==> bv_key_le(bv_views(sorted@)[z], x@),
                forall|z: int| pos <= z < sorted@.len() ==> bv_key_le(x@, bv_views(sorted@)[z]),
            decreases sorted@.len() - pos,
        {
            if pos >= sorted.len() {
                proof {
                    assert forall|z: int| pos <= z < sorted@.len() implies bv_key_le(
                        x@,
                        bv_views(sorted@)[z],
                    ) by {}
                }
                break ;
            }
            if !key_le(&sorted[pos], &x) {
                proof {
                    assert forall|z: int| pos <= z < sorted@.len() implies bv_key_le(
                        x@,
                        bv_views(sorted@)[z],
                    ) by {
                        assert(bv_key_le(x@, bv_views(sorted@)[pos as int]));
                        if z > pos {
                            assert(bv_key_le(bv_views(sorted@)[pos as int], bv_views(sorted@)[z]));
                        }
                    }
                }
                break ;
            }
            pos = pos + 1;
        }
        sorted.insert(pos, x);
        proof {
            let s1 = sorted@;
            assert(s1 == s0.insert(pos as int, x));
            assert(bv_views(s1) =~= bv_views(s0).insert(pos as int, x@));
            crate::lemma_insert_to_multiset(bv_views(s0), pos as int, x@);
            assert(orig.take(i + 1) =~= orig.take(i as int).push(orig[i as int]));
            orig.take(i as int).to_multiset_ensures();
            assert(orig.take(i + 1).to_multiset() =~= orig.take(i as int).to_multiset().insert(
                orig[i as int],
            ));
            assert forall|z: int| 0 <= z < s1.len() implies bv_views(s1)[z] == (if z < pos {
                bv_views(s0)[z]
            } else if z == pos {
                x@
            } else {
                bv_views(s0)[z - 1]
            }) by {
                if z < pos {
                    assert(s1[z] == s0[z]);
                } else if z == pos {
                    assert(s1[z] == x);
                } else {
                    assert(s1[z] == s0[z - 1]);
                }
            }
            assert forall|z1: int, z2: int|
                0 <= z1 < z2 < s1.len() implies bv_key_le(bv_views(s1)[z1], bv_views(s1)[z2]) by {}
            assert forall|z: int| 0 <= z < s1.len() implies in_words(
                orig.take(i + 1),
                #[trigger] bv_views(s1)[z],
            ) by {
                if z != pos {
                    let w = if z < pos {
                        z
                    } else {
                        z - 1
                    };
                    assert(in_words(orig.take(i as int), bv_views(s0)[w]));
                    let w2 = choose|w2: int|
                        0 <= w2 < orig.take(i as int).len() && orig.take(i as int)[w2]
                            == bv_views(s0)[w];
                    assert(orig.take(i + 1)[w2] == bv_views(s1)[z]);
                } else {
                    assert(bv_views(s1)[z] == orig[i as int]);
                    assert(orig.take(i + 1)[i as int] == orig[i as int]);
                }
            }
            assert forall|w: int| 0 <= w < i + 1 implies in_words(
                bv_views(s1),
                #[trigger] orig[w],
            ) by {
                if w < i {
                    let z = choose|z: int| 0 <= z < s0.len() && bv_views(s0)[z] == orig[w];
                    if z < pos {
                        assert(bv_views(s1)[z] == orig[w]);
                    } else {
                        assert(bv_views(s1)[z + 1] == orig[w]);
                    }
                } else {
                    assert(bv_views(s1)[pos as int] == orig[w]);
                }
            }
            if forall|z1: int, z2: int| 0 <= z1 < z2 < orig.len() ==> orig[z1] != orig[z2] {
                assert forall|z1: int, z2: int|
                    0 <= z1 < z2 < s1.len() implies bv_views(s1)[z1] != bv_views(s1)[z2] by {
                    if z1 != pos && z2 != pos {
                        let w1 = if z1 < pos {
                            z1
                        } else {
                            z1 - 1
                        };
                        let w2 = if z2 < pos {
                            z2
                        } else {
                            z2 - 1
                        };
                        assert(bv_views(s1)[z1] == bv_views(s0)[w1]);
                        assert(bv_views(s1)[z2] == bv_views(s0)[w2]);
                    } else {
                        let zo = if z1 == pos {
                            z2
                        } else {
                            z1
                        };
                        let w = if zo < pos {
                            zo
                        } else {
                            zo - 1
                        };
                        assert(bv_views(s1)[zo] == bv_views(s0)[w]);
                        assert(in_words(orig.take(i as int), bv_views(s0)[w]));
                        let ws = choose|ws: int|
                            0 <= ws < orig.take(i as int).len() && orig.take(i as int)[ws]
                                == bv_views(s0)[w];
                        assert(orig[ws] == bv_views(s0)[w]);
                        assert(orig[ws] != orig[i as int]);
                        assert(bv_views(s1)[pos as int] == orig[i as int]);
                    }
                }
            }
        }
        i = i + 1;
    }
    proof {
        assert(orig.take(orig.len() as int) =~= orig);
        assert forall|z: int|
            0 <= z < sorted@.len() implies in_words(orig, #[trigger] bv_views(sorted@)[z]) by {
            assert(in_words(orig.take(orig.len() as int), bv_views(sorted@)[z]));
        }
    }
    *bitvecs = sorted;
    // Scan the sorted list into runs of equal set-bit counts.
    let mut groups: Vec<OnesGroup> = Vec::new();
    let mut z: usize = 0;
    while z < bitvecs.len()
        invariant
            z <= bitvecs@.len(),
            forall|z1: int, z2: int|
                0 <= z1 < z2 < bitvecs@.len() ==> bv_key_le(
                    bv_views(bitvecs@)[z1],
                    bv_views(bitvecs@)[z2],
                ),
            z == 0 ==> groups@.len() == 0,
            z > 0 ==> groups@.len() >= 1 && groups@[0].start_offset == 0,
            forall|g: int| 0 <= g < groups@.len() ==> (#[trigger] groups@[g].start_offset) < z,
            forall|g1: int, g2: int|
                0 <= g1 < g2 < groups@.len() ==> groups@[g1].start_offset
                    < groups@[g2].start_offset && groups@[g1].n_ones < groups@[g2].n_ones,
            forall|g: int, w: int|
                0 <= g < groups@.len() && (#[trigger] groups@[g].start_offset) <= w < group_end(
                    groups@,
                    g,
                    z as int,
                ) ==> pop64(#[trigger] bv_views(bitvecs@)[w]) == groups@[g].n_ones,
            forall|w: int|
                0 <= w < z ==> in_some_group(
                    groups@,
                    z as int,
                    w,
                    pop64(#[trigger] bv_views(bitvecs@)[w]),
                ),
            z > 0 ==> groups@[groups@.len() - 1].n_ones == pop64(
                bv_views(bitvecs@)[z as int - 1],
            ),
        decreases bitvecs@.len() - z,
    {
        let c = bitvecs[z].count_ones();
        let ghost gs0 = groups@;
        if groups.len() == 0 {
            groups.push(OnesGroup { n_ones: c, start_offset: z });
        } else {
            let lo = groups[groups.len() - 1].n_ones;
            if lo != c {
                proof {
                    assert(bv_key_le(bv_views(bitvecs@)[z as int - 1], bv_views(bitvecs@)[z as int]));
                }
                groups.push(OnesGroup { n_ones: c, start_offset: z });
            }
        }
        proof {
            let gs1 = groups@;
            let ws = bv_views(bitvecs@);
            assert forall|g: int, w: int|
                0 <= g < gs1.len() && (#[trigger] gs1[g].start_offset) <= w < group_end(
                    gs1,
                    g,
                    z as int + 1,
                ) implies pop64(#[trigger] ws[w]) == gs1[g].n_ones by {
                if gs1.len() == gs0.len() {
                    if g < gs1.len() - 1 {
                        assert(group_end(gs1, g, z as int + 1) == group_end(gs0, g, z as int));
                    } else {
                        if w < z {
                            assert(gs0[g].start_offset <= w < group_end(gs0, g, z as int));
                        } else {
                            assert(w == z);
                            assert(pop64(ws[z as int]) == gs1[gs1.len() - 1].n_ones);
                        }
                    }
                } else {
                    if g < gs1.len() - 1 {
                        assert(gs1[g] == gs0[g]);
                        if g < gs0.len() - 1 {
                            assert(group_end(gs1, g, z as int + 1) == group_end(gs0, g, z as int));
                        } else {
                            assert(group_end(gs0, g, z as int) == z as int);
                            assert(group_end(gs1, g, z as int + 1) == gs1[g + 1].start_offset
                                as int);
                            assert(gs1[g + 1].start_offset == z);
                        }
                        assert(gs0[g].start_offset <= w < group_end(gs0, g, z as int));
                    } else {
                        assert(gs1[g].start_offset == z);
                        assert(w == z);
                    }
                }
            }
            assert forall|w: int|
                0 <= w < z + 1 implies in_some_group(gs1, z as int + 1, w, pop64(
                #[trigger] ws[w],
            )) by {
                if w < z {
                    let g = choose|g: int|
                        0 <= g < gs0.len() && (#[trigger] gs0[g].start_offset) <= w < group_end(
                            gs0,
                            g,
                            z as int,
                        ) && pop64(ws[w]) == gs0[g].n_ones;
                    if gs1.len() == gs0.len() {
                        assert(gs1[g].start_offset <= w < group_end(gs1, g, z as int + 1));
                    } else {
                        assert(gs1[g] == gs0[g]);
                        if g < gs0.len() - 1 {
                            assert(group_end(gs1, g, z as int + 1) == group_end(gs0, g, z as int));
                        } else {
                            assert(group_end(gs0, g, z as int) == z as int);
                            assert(gs1[g + 1].start_offset == z);
                        }
                        assert(gs1[g].start_offset <= w < group_end(gs1, g, z as int + 1));
                    }
                    assert(pop64(ws[w]) == gs1[g].n_ones);
                } else {
                    let g = gs1.len() - 1;
                    assert(gs1[g].start_offset <= w < group_end(gs1, g, z as int + 1));
                    assert(pop64(ws[w]) == gs1[g].n_ones);
                }
            }
        }
        z = z + 1;
    }
    groups
}
}

/// A sorted list with distinct neighbours holds no duplicates at all.
proof fn lemma_sorted_adjacent_distinct(ws: Seq<u64>)
    requires
        forall|z1: int, z2: int| 0 <= z1 < z2 < ws.len() ==> bv_key_le(ws[z1], ws[z2]),
        forall|z: int| 1 <= z < ws.len() ==> ws[z - 1] != #[trigger] ws[z],
    ensures
        forall|z1: int, z2: int| 0 <= z1 < z2 < ws.len() ==> ws[z1] != ws[z2],
{
    assert forall|z1: int, z2: int| 0 <= z1 < z2 < ws.len() implies ws[z1] != ws[z2] by {
        if ws[z1] == ws[z2] {
            assert(bv_key_le(ws[z1], ws[z1 + 1]));
            assert(z1 + 1 < z2 ==> bv_key_le(ws[z1 + 1], ws[z2]));
            assert(ws[z1 + 1] == ws[z1]);
            assert(ws[z1] != ws[z1 + 1]);
        }
    }
}

/// Removes adjacent equal bit vectors from a sorted list, leaving its
/// distinct words in order.
fn dedup_bitvecs(v: &mut Vec<BitVec>)
    requires
        forall|z1: int, z2: int|
            0 <= z1 < z2 < old(v)@.len() ==> bv_key_le(
                bv_views(old(v)@)[z1],
                bv_views(old(v)@)[z2],
            ),
    ensures
        forall|z: int|
            0 <= z < final(v)@.len() ==> in_words(bv_views(old(v)@), #[trigger] bv_views(
                final(v)@,
            )[z]),
        forall|w: int|
            0 <= w < old(v)@.len() ==> in_words(bv_views(final(v)@), #[trigger] bv_views(
                old(v)@,
            )[w]),
        old(v)@.len() >= 1 ==> final(v)@.len() >= 1,
        final(v)@.len() <= old(v)@.len(),
        forall|z1: int, z2: int|
            0 <= z1 < z2 < final(v)@.len() ==> bv_key_le(
                bv_views(final(v)@)[z1],
                bv_views(final(v)@)[z2],
            ),
        forall|z1: int, z2: int|
            0 <= z1 < z2 < final(v)@.len() ==> bv_views(final(v)@)[z1] != bv_views(final(v)@)[z2],
{
    let ghost orig = bv_views(v@);
    let mut i: usize = 1;
    while i < v.len()
        invariant
            i >= 1,
            orig.len() >= 1 ==> v@.len() >= 1,
            v@.len() <= orig.len(),
            forall|z: int| 0 <= z < v@.len() ==> in_words(orig, #[trigger] bv_views(v@)[z]),
            forall|w: int| 0 <= w < orig.len() ==> in_words(bv_views(v@), #[trigger] orig[w]),
            forall|z1: int, z2: int|
                0 <= z1 < z2 < v@.len() ==> bv_key_le(bv_views(v@)[z1], bv_views(v@)[z2]),
            forall|z: int| 1 <= z < i ==> bv_views(v@)[z - 1] != #[trigger] bv_views(v@)[z],
        decreases v@.len() - i,
    {
        if v[i].bits == v[i - 1].bits {
            let ghost c0 = bv_views(v@);
            v.remove(i);
            proof {
                let c1 = bv_views(v@);
                assert forall|z: int| 0 <= z < c1.len() implies in_words(
                    orig,
                    #[trigger] c1[z],
                ) by {
                    if z < i {
                        assert(c1[z] == c0[z]);
                    } else {
                        assert(c1[z] == c0[z + 1]);
                    }
                }
                assert forall|w: int| 0 <= w < orig.len() implies in_words(
                    c1,
                    #[trigger] orig[w],
                ) by {
                    let z = choose|z: int| 0 <= z < c0.len() && c0[z] == orig[w];
                    if z < i {
                        assert(c1[z] == orig[w]);
                    } else if z == i {
                        assert(c0[i as int] == c0[i - 1]);
                        assert(c1[i - 1] == orig[w]);
                    } else {
                        assert(c1[z - 1] == orig[w]);
                    }
                }
                assert forall|z1: int, z2: int|
                    0 <= z1 < z2 < c1.len() implies bv_key_le(c1[z1], c1[z2]) by {
                    let w1 = if z1 < i {
                        z1
                    } else {
                        z1 + 1
                    };
                    let w2 = if z2 < i {
                        z2
                    } else {
                        z2 + 1
                    };
                    assert(c1[z1] == c0[w1] && c1[z2] == c0[w2]);
                }
                assert forall|z: int| 1 <= z < i implies c1[z - 1] != #[trigger] c1[z] by {
                    assert(c1[z - 1] == c0[z - 1] && c1[z] == c0[z]);
                }
            }
        } else {
            i = i + 1;
        }
    }
    proof {
        lemma_sorted_adjacent_distinct(bv_views(v@));
    }
}

/// Combines every partial cover of the frontier with every option of the
/// next column; the union of the two index sets is the combined cover.
/// The combined frontier is sorted and holds no duplicates.
pub fn pairwise_and(
    current_bitvecs: &Vec<BitVec>,
    next_col_bitvecs: &Vec<BitVec>,
    time: &mut PetrickTimeInfo,
) -> (merged: Vec<BitVec>)
    ensures
        forall|z: int|
            0 <= z < merged@.len() ==> is_or_of(
                current_bitvecs@,
                next_col_bitvecs@,
                #[trigger] bv_views(merged@)[z],
            ),
        forall|p: int, q: int|
            0 <= p < current_bitvecs@.len() && 0 <= q < next_col_bitvecs@.len() ==> in_words(
                bv_views(merged@),
                (#[trigger] current_bitvecs@[p]@) | (#[trigger] next_col_bitvecs@[q]@),
            ),
        current_bitvecs@.len() >= 1 && next_col_bitvecs@.len() >= 1 ==> merged@.len() >= 1,
        merged@.len() <= current_bitvecs@.len() * next_col_bitvecs@.len(),
        forall|z1: int, z2: int|
            0 <= z1 < z2 < merged@.len() ==> bv_key_le(
                bv_views(merged@)[z1],
                bv_views(merged@)[z2],
            ),
        forall|z1: int, z2: int|
            0 <= z1 < z2 < merged@.len() ==> bv_views(merged@)[z1] != bv_views(merged@)[z2],
        final(time).pairwise_and_calls == sat_inc(old(time).pairwise_and_calls),
        final(time).remove_essential_calls == old(time).remove_essential_calls,
        final(time).bitvecs_from_chart_cols_calls == old(time).bitvecs_from_chart_cols_calls,
        final(time).remove_redundant_calls == old(time).remove_redundant_calls,
{
    time.pairwise_and_calls = bump(time.pairwise_and_calls);
    let mut merged: Vec<BitVec> = Vec::new();
    let mut a: usize = 0;
    while a < current_bitvecs.len()
        invariant
            a <= current_bitvecs@.len(),
            merged@.len() == a * next_col_bitvecs@.len(),
            forall|p: int, q: int|
                0 <= p < a && 0 <= q < next_col_bitvecs@.len() ==> in_words(
                    bv_views(merged@),
                    (#[trigger] current_bitvecs@[p]@) | (#[trigger] next_col_bitvecs@[q]@),
                ),
            forall|z: int|
                0 <= z < merged@.len() ==> is_or_of(
                    current_bitvecs@,
                    next_col_bitvecs@,
                    #[trigger] bv_views(merged@)[z],
                ),
        decreases current_bitvecs@.len() - a,
    {
        let mut b: usize = 0;
        while b < next_col_bitvecs.len()
            invariant
                a < current_bitvecs@.len(),
                b <= next_col_bitvecs@.len(),
                merged@.len() == a * next_col_bitvecs@.len() + b,
                forall|p: int, q: int|
                    0 <= p < a && 0 <= q < next_col_bitvecs@.len() ==> in_words(
                        bv_views(merged@),
                        (#[trigger] current_bitvecs@[p]@) | (#[trigger] next_col_bitvecs@[q]@),
                    ),
                forall|q: int|
                    0 <= q < b ==> in_words(
                        bv_views(merged@),
                        current_bitvecs@[a as int]@ | (#[trigger] next_col_bitvecs@[q]@),
                    ),
                forall|z: int|
                    0 <= z < merged@.len() ==> is_or_of(
                        current_bitvecs@,
                        next_col_bitvecs@,
                        #[trigger] bv_views(merged@)[z],
                    ),
            decreases next_col_bitvecs@.len() - b,
        {
            let mut new_bitvec = current_bitvecs[a];
            new_bitvec.merge(&next_col_bitvecs[b]);
            let ghost m0 = bv_views(merged@);
            merged.push(new_bitvec);
            proof {
                assert(bv_views(merged@)[m0.len() as int] == (current_bitvecs@[a as int]@
                    | next_col_bitvecs@[b as int]@));
                assert forall|p: int, q: int|
                    0 <= p < a && 0 <= q < next_col_bitvecs@.len() implies in_words(
                    bv_views(merged@),
                    (#[trigger] current_bitvecs@[p]@) | (#[trigger] next_col_bitvecs@[q]@),
                ) by {
                    let z = choose|z: int|
                        0 <= z < m0.len() && m0[z] == (current_bitvecs@[p]@
                            | next_col_bitvecs@[q]@);
                    assert(bv_views(merged@)[z] == m0[z]);
                }
                assert forall|q: int| 0 <= q < b + 1 implies in_words(
                    bv_views(merged@),
                    current_bitvecs@[a as int]@ | (#[trigger] next_col_bitvecs@[q]@),
                ) by {
                    if q < b {
                        let z = choose|z: int|
                            0 <= z < m0.len() && m0[z] == (current_bitvecs@[a as int]@
                                | next_col_bitvecs@[q]@);
                        assert(bv_views(merged@)[z] == m0[z]);
                    } else {
                        assert(bv_views(merged@)[m0.len() as int] == (current_bitvecs@[a as int]@
                            | next_col_bitvecs@[q]@));
                    }
                }
                assert forall|z: int|
                    0 <= z < merged@.len() implies is_or_of(
                    current_bitvecs@,
                    next_col_bitvecs@,
                    #[trigger] bv_views(merged@)[z],
                ) by {
                    if z < m0.len() {
                        assert(bv_views(merged@)[z] == m0[z]);
                        let (p, q) = choose|p: int, q: int|
                            #![trigger current_bitvecs@[p], next_col_bitvecs@[q]]
                            0 <= p < current_bitvecs@.len() && 0 <= q < next_col_bitvecs@.len()
                                && m0[z] == (current_bitvecs@[p]@ | next_col_bitvecs@[q]@);
                        assert(bv_views(merged@)[z] == (current_bitvecs@[p]@
                            | next_col_bitvecs@[q]@));
                    } else {
                        assert(bv_views(merged@)[z] == (current_bitvecs@[a as int]@
                            | next_col_bitvecs@[b as int]@));
                    }
                }
            }
            b = b + 1;
        }
        proof {
            assert((a + 1) * next_col_bitvecs@.len() == a * next_col_bitvecs@.len()
                + next_col_bitvecs@.len()) by (nonlinear_arith);
            assert forall|p: int, q: int|
                0 <= p < a + 1 && 0 <= q < next_col_bitvecs@.len() implies in_words(
                bv_views(merged@),
                (#[trigger] current_bitvecs@[p]@) | (#[trigger] next_col_bitvecs@[q]@),
            ) by {
                if p == a as int {
                    assert(in_words(
                        bv_views(merged@),
                        current_bitvecs@[a as int]@ | next_col_bitvecs@[q]@,
                    ));
                }
            }
        }
        a = a + 1;
    }
    let ghost pre = bv_views(merged@);
    let _ = BitVec::bitsort(&mut merged);
    let ghost mid = bv_views(merged@);
    dedup_bitvecs(&mut merged);
    proof {
        assert forall|z: int|
            0 <= z < merged@.len() implies is_or_of(
            current_bitvecs@,
            next_col_bitvecs@,
            #[trigger] bv_views(merged@)[z],
        ) by {
            let zm = choose|zm: int| 0 <= zm < mid.len() && mid[zm] == bv_views(merged@)[z];
            let zp = choose|zp: int| 0 <= zp < pre.len() && pre[zp] == mid[zm];
            assert(is_or_of(current_bitvecs@, next_col_bitvecs@, pre[zp]));
            let (p, q) = choose|p: int, q: int|
                #![trigger current_bitvecs@[p], next_col_bitvecs@[q]]
                0 <= p < current_bitvecs@.len() && 0 <= q < next_col_bitvecs@.len() && pre[zp] == (
                current_bitvecs@[p]@ | next_col_bitvecs@[q]@);
            assert(bv_views(merged@)[z] == (current_bitvecs@[p]@ | next_col_bitvecs@[q]@));
        }
        assert forall|p: int, q: int|
            0 <= p < current_bitvecs@.len() && 0 <= q < next_col_bitvecs@.len() implies in_words(
            bv_views(merged@),
            (#[trigger] current_bitvecs@[p]@) | (#[trigger] next_col_bitvecs@[q]@),
        ) by {
            let zp = choose|zp: int|
                0 <= zp < pre.len() && pre[zp] == (current_bitvecs@[p]@ | next_col_bitvecs@[q]@);
            assert(in_words(mid, pre[zp]));
            let zm = choose|zm: int| 0 <= zm < mid.len() && mid[zm] == pre[zp];
            assert(in_words(bv_views(merged@), mid[zm]));
        }
        if current_bitvecs@.len() >= 1 && next_col_bitvecs@.len() >= 1 {
            assert(pre.len() >= 1) by (nonlinear_arith)
                requires
                    pre.len() == current_bitvecs@.len() * next_col_bitvecs@.len(),
                    current_bitvecs@.len() >= 1,
                    next_col_bitvecs@.len() >= 1,
            ;
        }
    }
    merged
}

/// Finds the run whose shared set-bit count equals `ones`.
fn find_group(groups: &Vec<OnesGroup>, ones: u32) -> (g: usize)
    requires
        exists|g: int| 0 <= g < groups@.len() && (#[trigger] groups@[g].n_ones) == ones,
    ensures
        g < groups@.len(),
        groups@[g as int].n_ones == ones,
{
    let mut i: usize = 0;
    while i < groups.len()
        invariant
            i <= groups@.len(),
            exists|g: int| 0 <= g < groups@.len() && (#[trigger] groups@[g].n_ones) == ones,
            forall|z: int| 0 <= z < i ==> (#[trigger] groups@[z].n_ones) != ones,
        decreases groups@.len() - i,
    {
        if groups[i].n_ones == ones {
            return i;
        }
        i = i + 1;
    }
    proof {
        let g = choose|g: int| 0 <= g < groups@.len() && (#[trigger] groups@[g].n_ones) == ones;
        assert(false);
    }
    0
}

/// Every set bit of `a` is set in `b`.
pub open spec fn bv_subset(a: u64, b: u64) -> bool {
    a & b == a
}

/// Some word of the list is a subset of `w`.
pub open spec fn dominated_in(ws: Seq<u64>, w: u64) -> bool {
    exists|z: int| 0 <= z < ws.len() && bv_subset(#[trigger] ws[z], w)
}

/// The subset order on words is reflexive.
proof fn lemma_bv_subset_refl(a: u64)
    ensures
        bv_subset(a, a),
{
    assert(a & a == a) by (bit_vector);
}

/// The subset order on words is transitive.
proof fn lemma_bv_subset_trans(a: u64, b: u64, c: u64)
    requires
        bv_subset(a, b),
        bv_subset(b, c),
    ensures
        bv_subset(a, c),
{
    assert(a & c == a) by (bit_vector)
        requires
            a & b == a && b & c == b,
    ;
}

/// The word whose low `k` bits are set.
pub open spec fn low_mask(k: u64) -> u64 {
    if k >= 64 {
        0xFFFF_FFFF_FFFF_FFFFu64
    } else {
        ((1u64 << k) - 1) as u64
    }
}

/// A word with no set bit below `k` vanishes under the low mask.
proof fn lemma_no_low_bits(num: u64, k: u64)
    requires
        k <= 64,
        forall|i: u64| i < k ==> !bv_bit(num, i),
    ensures
        num & low_mask(k) == 0,
    decreases k,
{
    if k == 0 {
        assert(num & (((1u64 << 0u64) - 1) as u64) == 0) by (bit_vector);
    } else {
        lemma_no_low_bits(num, (k - 1) as u64);
        let km = (k - 1) as u64;
        assert(!bv_bit(num, km));
        if k == 64 {
            assert((num & (((1u64 << 63u64) - 1) as u64) == 0 && num & (1u64 << 63u64) == 0)
                ==> num & 0xFFFF_FFFF_FFFF_FFFFu64 == 0) by (bit_vector);
        } else {
            assert((num & (((1u64 << km) - 1) as u64) == 0 && num & (1u64 << km) == 0 && k == km
                + 1 && km < 63) ==> num & (((1u64 << k) - 1) as u64) == 0) by (bit_vector);
        }
    }
}

/// A word with no set bit below 64 is zero.
pub proof fn lemma_no_bits_zero(num: u64)
    requires
        forall|i: u64| i < 64 ==> !bv_bit(num, i),
    ensures
        num == 0,
{
    lemma_no_low_bits(num, 64);
    assert(num & 0xFFFF_FFFF_FFFF_FFFFu64 == num) by (bit_vector);
}

/// Two words differing somewhere differ in some bit.
proof fn lemma_neq_bit(a: u64, b: u64)
    requires
        a != b,
    ensures
        exists|i: u64| i < 64 && (bv_bit(a, i) != bv_bit(b, i)),
{
    if forall|i: u64| i < 64 ==> !bv_bit(a ^ b, i) {
        lemma_no_bits_zero(a ^ b);
        assert(a ^ b == 0 ==> a == b) by (bit_vector);
    } else {
        let i = choose|i: u64| i < 64 && bv_bit(a ^ b, i);
        assert(((a ^ b) & (1u64 << i) != 0u64) ==> ((a & (1u64 << i) != 0u64) != (b & (1u64 << i)
            != 0u64))) by (bit_vector);
        assert(bv_bit(a, i) != bv_bit(b, i));
    }
}

/// With one extra bit, a subset has strictly fewer set bits below any
/// position past it.
proof fn lemma_ones_below_strict(a: u64, b: u64, i0: u64, n: int)
    requires
        i0 < 64,
        (i0 as int) < n <= 64,
        !bv_bit(a, i0),
        bv_bit(b, i0),
        forall|i: u64| i < 64 && #[trigger] bv_bit(a, i) ==> bv_bit(b, i),
    ensures
        ones_below(a, n) < ones_below(b, n),
    decreases n,
{
    if (i0 as int) < n - 1 {
        lemma_ones_below_strict(a, b, i0, n - 1);
    } else {
        lemma_ones_below_monotone(a, b, n - 1);
    }
}

/// A strict subset has strictly fewer set bits.
proof fn lemma_strict_subset_pop(a: u64, b: u64)
    requires
        bv_subset(a, b),
        a != b,
    ensures
        pop64(a) < pop64(b),
{
    assert forall|i: u64| i < 64 && #[trigger] bv_bit(a, i) implies bv_bit(b, i) by {
        assert(a & b == a && (a & (1u64 << i) != 0u64) ==> b & (1u64 << i) != 0u64)
            by (bit_vector);
    }
    lemma_neq_bit(a, b);
    let i0 = choose|i: u64| i < 64 && (bv_bit(a, i) != bv_bit(b, i));
    assert(!bv_bit(a, i0) && bv_bit(b, i0));
    lemma_ones_below_strict(a, b, i0, 64);
}

/// The empty word is a subset of every word.
proof fn lemma_bv_subset_zero(w: u64)
    ensures
        bv_subset(0u64, w),
{
    assert(0u64 & w == 0u64) by (bit_vector);
}

/// A union of two subsets of a word is a subset of it.
proof fn lemma_bv_or_subset(a: u64, b: u64, c: u64)
    requires
        bv_subset(a, c),
        bv_subset(b, c),
    ensures
        bv_subset(a | b, c),
{
    assert((a | b) & c == (a | b)) by (bit_vector)
        requires
            a & c == a && b & c == b,
    ;
}

/// A set bit of a word gives a single-bit subset of it.
proof fn lemma_bv_bit_subset(w: u64, i: u64)
    requires
        i < 64,
        bv_bit(w, i),
    ensures
        bv_subset(1u64 << i, w),
{
    assert((w & (1u64 << i) != 0u64) ==> ((1u64 << i) & w == (1u64 << i))) by (bit_vector);
}

/// Fewer set bits below any position for a subset.
proof fn lemma_ones_below_monotone(a: u64, b: u64, n: int)
    requires
        0 <= n <= 64,
        forall|i: u64| i < 64 && #[trigger] bv_bit(a, i) ==> bv_bit(b, i),
    ensures
        ones_below(a, n) <= ones_below(b, n),
    decreases n,
{
    if n > 0 {
        lemma_ones_below_monotone(a, b, n - 1);
    }
}

/// A subset has no more set bits.
proof fn lemma_pop_monotone(a: u64, b: u64)
    requires
        bv_subset(a, b),
    ensures
        pop64(a) <= pop64(b),
{
    assert forall|i: u64| i < 64 && #[trigger] bv_bit(a, i) implies bv_bit(b, i) by {
        assert(a & b == a && (a & (1u64 << i) != 0u64) ==> b & (1u64 << i) != 0u64)
            by (bit_vector);
    }
    lemma_ones_below_monotone(a, b, 64);
}

/// A marked cover always keeps an unmarked cover below it.
pub open spec fn live_dominator(tr: Seq<bool>, ws: Seq<u64>, j: int) -> bool {
    exists|i2: int| 0 <= i2 < ws.len() && i2 < tr.len() && !tr[i2] && bv_subset(#[trigger] ws[i2], ws[j])
}

/// Every marked cover keeps an unmarked cover below it.
#[verifier::opaque]
pub open spec fn marks_live(tr: Seq<bool>, ws: Seq<u64>) -> bool {
    forall|j2: int| 0 <= j2 < ws.len() && (#[trigger] tr[j2]) ==> live_dominator(tr, ws, j2)
}

/// Every strictly larger cover lying over an unmarked cover before `i` is
/// marked.
#[verifier::opaque]
pub open spec fn marked_above(tr: Seq<bool>, ws: Seq<u64>, i: int) -> bool {
    forall|i2: int, j2: int|
        0 <= i2 < i && 0 <= j2 < ws.len() && !tr[i2] && #[trigger] bv_subset(ws[i2], ws[j2])
            && pop64(ws[i2]) < pop64(ws[j2]) ==> tr[j2]
}

/// A word with more set bits than a run's count sits in a later run.
proof fn lemma_big_pop_late(groups: Seq<OnesGroup>, sorted: Seq<u64>, gi: int, j2: int)
    requires
        groups_ok(groups, sorted),
        0 <= gi < groups.len() - 1,
        0 <= j2 < sorted.len(),
        pop64(sorted[j2]) > groups[gi].n_ones,
    ensures
        j2 >= groups[gi + 1].start_offset,
{
    assert(in_some_group(groups, sorted.len() as int, j2, pop64(sorted[j2])));
    let g = choose|g: int|
        0 <= g < groups.len() && (#[trigger] groups[g].start_offset) <= j2 < group_end(
            groups,
            g,
            sorted.len() as int,
        ) && pop64(sorted[j2]) == groups[g].n_ones;
    assert(g > gi) by {
        if g < gi {
            assert(groups[g].n_ones < groups[gi].n_ones);
        }
    }
    if g > gi + 1 {
        assert(groups[gi + 1].start_offset < groups[g].start_offset);
    }
}

/// The zero word has no set bits below any position.
proof fn lemma_pop_zero(n: int)
    requires
        0 <= n <= 64,
    ensures
        ones_below(0u64, n) == 0,
    decreases n,
{
    if n > 0 {
        lemma_pop_zero(n - 1);
        assert(0u64 & (1u64 << ((n - 1) as u64)) == 0u64) by (bit_vector);
    }
}

/// Words with the same bits are the same word.
proof fn lemma_bv_eq(a: u64, b: u64)
    requires
        forall|i: u64| i < 64 ==> (bv_bit(a, i) <==> bv_bit(b, i)),
    ensures
        a == b,
{
    if a != b {
        lemma_neq_bit(a, b);
    }
}

/// Adding one fresh bit raises the below-`n` count by one when in range.
proof fn lemma_ones_below_or_fresh(w: u64, i: u64, n: int)
    requires
        i < 64,
        !bv_bit(w, i),
        0 <= n <= 64,
    ensures
        ones_below(w | (1u64 << i), n) == ones_below(w, n) + (if (i as int) < n {
            1int
        } else {
            0int
        }),
    decreases n,
{
    if n > 0 {
        lemma_ones_below_or_fresh(w, i, n - 1);
        lemma_or_bits(w, 1u64 << i, (n - 1) as u64);
        lemma_single_bit(i, (n - 1) as u64);
    }
}

/// The word of list positions (below `n`) whose term lies in `other`.
pub open spec fn members_word(d: Seq<Seq<u8>>, other: Seq<Seq<u8>>, n: int) -> u64
    decreases n,
{
    if n <= 0 {
        0u64
    } else if in_list(other, d[n - 1]) {
        members_word(d, other, n - 1) | (1u64 << ((n - 1) as u64))
    } else {
        members_word(d, other, n - 1)
    }
}

/// Which bits the members word holds.
pub proof fn lemma_members_word_bit(d: Seq<Seq<u8>>, other: Seq<Seq<u8>>, n: int, i: u64)
    requires
        0 <= n <= 64,
        i < 64,
    ensures
        bv_bit(members_word(d, other, n), i) <==> ((i as int) < n && in_list(other, d[i as int])),
    decreases n,
{
    if n > 0 {
        lemma_members_word_bit(d, other, n - 1, i);
        if in_list(other, d[n - 1]) {
            lemma_or_bits(members_word(d, other, n - 1), 1u64 << ((n - 1) as u64), i);
            lemma_single_bit((n - 1) as u64, i);
        }
    } else {
        assert(0u64 & (1u64 << i) == 0u64) by (bit_vector);
    }
}

/// The members word marks no more positions than the member list holds,
/// when both lists are duplicate-free.
pub proof fn lemma_members_count(d: Seq<Seq<u8>>, other: Seq<Seq<u8>>, n: int)
    requires
        0 <= n <= 64,
        n <= d.len(),
        forall|p: int, q: int| 0 <= p < q < d.len() ==> d[p] != d[q],
        forall|p: int, q: int| 0 <= p < q < other.len() ==> other[p] != other[q],
        forall|z: int| 0 <= z < other.len() ==> in_list(d, #[trigger] other[z]),
    ensures
        pop64(members_word(d, other, n)) <= other.len(),
    decreases other.len(),
{
    if other.len() == 0 {
        assert forall|i: u64| i < 64 implies (bv_bit(members_word(d, other, n), i) <==> bv_bit(
            0u64,
            i,
        )) by {
            lemma_members_word_bit(d, other, n, i);
            assert(0u64 & (1u64 << i) == 0u64) by (bit_vector);
        }
        lemma_bv_eq(members_word(d, other, n), 0u64);
        lemma_pop_zero(64);
    } else {
        let o2 = other.drop_last();
        let t = other.last();
        assert forall|z: int| 0 <= z < o2.len() implies in_list(d, #[trigger] o2[z]) by {
            assert(o2[z] == other[z]);
        }
        assert forall|p: int, q: int| 0 <= p < q < o2.len() implies o2[p] != o2[q] by {
            assert(o2[p] == other[p] && o2[q] == other[q]);
        }
        lemma_members_count(d, o2, n);
        assert(in_list(d, other[other.len() - 1]));
        let idx = choose|idx: int| 0 <= idx < d.len() && d[idx] == other[other.len() - 1];
        assert forall|i: int| 0 <= i < d.len() && i != idx implies (in_list(o2, #[trigger] d[i])
            <==> in_list(other, d[i])) by {
            if in_list(o2, d[i]) {
                let z = choose|z: int| 0 <= z < o2.len() && o2[z] == d[i];
                assert(other[z] == d[i]);
            }
            if in_list(other, d[i]) {
                let z = choose|z: int| 0 <= z < other.len() && other[z] == d[i];
                assert(z < o2.len()) by {
                    if z == other.len() - 1 {
                        assert(d[i] == t);
                        assert(d[i] != d[idx]);
                    }
                }
                assert(o2[z] == d[i]);
            }
        }
        assert(!in_list(o2, d[idx])) by {
            if in_list(o2, d[idx]) {
                let z = choose|z: int| 0 <= z < o2.len() && o2[z] == d[idx];
                assert(other[z] == t && other[other.len() - 1] == t);
            }
        }
        assert(in_list(other, d[idx])) by {
            assert(other[other.len() - 1] == d[idx]);
        }
        if idx < n {
            assert forall|i: u64| i < 64 implies (bv_bit(members_word(d, other, n), i) <==> bv_bit(
                members_word(d, o2, n) | (1u64 << (idx as u64)),
                i,
            )) by {
                lemma_members_word_bit(d, other, n, i);
                lemma_members_word_bit(d, o2, n, i);
                lemma_or_bits(members_word(d, o2, n), 1u64 << (idx as u64), i);
                lemma_single_bit(idx as u64, i);
            }
            lemma_bv_eq(
                members_word(d, other, n),
                members_word(d, o2, n) | (1u64 << (idx as u64)),
            );
            lemma_members_word_bit(d, o2, n, idx as u64);
            lemma_ones_below_or_fresh(members_word(d, o2, n), idx as u64, 64);
        } else {
            assert forall|i: u64| i < 64 implies (bv_bit(members_word(d, other, n), i) <==> bv_bit(
                members_word(d, o2, n),
                i,
            )) by {
                lemma_members_word_bit(d, other, n, i);
                lemma_members_word_bit(d, o2, n, i);
            }
            lemma_bv_eq(members_word(d, other, n), members_word(d, o2, n));
        }
    }
}

/// Every position's set-bit count matches some run's count.
proof fn lemma_ones_group_exists(groups: Seq<OnesGroup>, sorted: Seq<u64>, i: int)
    requires
        groups_ok(groups, sorted),
        0 <= i < sorted.len(),
    ensures
        exists|g: int| 0 <= g < groups.len() && (#[trigger] groups[g].n_ones) == pop64(sorted[i]),
{
    assert(in_some_group(groups, sorted.len() as int, i, pop64(sorted[i])));
    let g = choose|g: int|
        0 <= g < groups.len() && (#[trigger] groups[g].start_offset) <= i < group_end(
            groups,
            g,
            sorted.len() as int,
        ) && pop64(sorted[i]) == groups[g].n_ones;
    assert(groups[g].n_ones == pop64(sorted[i]));
}

/// The run holding a given index before the last run's start is not the
/// last run, and the next run starts after the index and after zero.
proof fn lemma_group_of_index(groups: Seq<OnesGroup>, sorted: Seq<u64>, i: int, gi: int)
    requires
        groups_ok(groups, sorted),
        sorted.len() >= 1,
        0 <= i < groups[groups.len() - 1].start_offset,
        0 <= gi < groups.len(),
        groups[gi].n_ones == pop64(sorted[i]),
    ensures
        gi < groups.len() - 1,
        groups[gi + 1].start_offset >= 1,
        i < groups[gi + 1].start_offset,
{
    assert(in_some_group(groups, sorted.len() as int, i, pop64(sorted[i])));
    let g = choose|g: int|
        0 <= g < groups.len() && (#[trigger] groups[g].start_offset) <= i < group_end(
            groups,
            g,
            sorted.len() as int,
        ) && pop64(sorted[i]) == groups[g].n_ones;
    assert(g == gi) by {
        if g != gi {
            assert(groups[g].n_ones != groups[gi].n_ones);
        }
    }
    assert(gi < groups.len() - 1) by {
        if gi == groups.len() - 1 {
            assert(groups[gi].start_offset <= i);
        }
    }
    assert(groups[0].start_offset < groups[gi + 1].start_offset || gi + 1 == 0);
    assert(i < group_end(groups, gi, sorted.len() as int));
}

/// Sweeping one more unmarked cover keeps every strictly larger cover it
/// lies under marked.
proof fn lemma_mark_restore(
    sorted: Seq<u64>,
    groups: Seq<OnesGroup>,
    tr: Seq<bool>,
    i: int,
    gi: int,
)
    requires
        groups_ok(groups, sorted),
        sorted.len() >= 1,
        tr.len() == sorted.len(),
        0 <= i < groups[groups.len() - 1].start_offset,
        0 <= gi < groups.len() - 1,
        groups[gi].n_ones == pop64(sorted[i]),
        forall|i2: int, j2: int|
            0 <= i2 < i && 0 <= j2 < sorted.len() && !tr[i2] && #[trigger] bv_subset(
                sorted[i2],
                sorted[j2],
            ) && pop64(sorted[i2]) < pop64(sorted[j2]) ==> tr[j2],
        forall|j2: int|
            groups[gi + 1].start_offset <= j2 < sorted.len() && #[trigger] bv_subset(
                sorted[i],
                sorted[j2],
            ) ==> tr[j2],
    ensures
        forall|i2: int, j2: int|
            0 <= i2 < i + 1 && 0 <= j2 < sorted.len() && !tr[i2] && #[trigger] bv_subset(
                sorted[i2],
                sorted[j2],
            ) && pop64(sorted[i2]) < pop64(sorted[j2]) ==> tr[j2],
{
    assert forall|i2: int, j2: int|
        0 <= i2 < i + 1 && 0 <= j2 < sorted.len() && !tr[i2] && #[trigger] bv_subset(
            sorted[i2],
            sorted[j2],
        ) && pop64(sorted[i2]) < pop64(sorted[j2]) implies tr[j2] by {
        if i2 == i {
            lemma_big_pop_late(groups, sorted, gi, j2);
        }
    }
}

/// Filtering a sorted word list keeps it sorted.
proof fn lemma_filter_sorted_words(s: Seq<u64>, keep: Seq<bool>)
    requires
        s.len() == keep.len(),
        forall|z1: int, z2: int| 0 <= z1 < z2 < s.len() ==> bv_key_le(s[z1], s[z2]),
    ensures
        forall|z1: int, z2: int|
            0 <= z1 < z2 < filter_by_flags(s, keep).len() ==> bv_key_le(
                filter_by_flags(s, keep)[z1],
                filter_by_flags(s, keep)[z2],
            ),
    decreases s.len(),
{
    if s.len() > 0 {
        lemma_filter_sorted_words(s.drop_last(), keep.drop_last());
        let f0 = filter_by_flags(s.drop_last(), keep.drop_last());
        let f1 = filter_by_flags(s, keep);
        if keep.last() {
            assert(f1 == f0.push(s.last()));
            assert forall|z1: int, z2: int|
                0 <= z1 < z2 < f1.len() implies bv_key_le(f1[z1], f1[z2]) by {
                if z2 < f0.len() {
                    assert(f1[z1] == f0[z1] && f1[z2] == f0[z2]);
                } else {
                    assert(f1[z2] == s.last());
                    assert(f1[z1] == f0[z1]);
                    lemma_filter_pair_index(s.drop_last(), s.drop_last(), keep.drop_last(), z1);
                    let i = choose|i: int|
                        0 <= i < s.drop_last().len() && #[trigger] keep.drop_last()[i]
                            && filter_by_flags(s.drop_last(), keep.drop_last())[z1]
                            == s.drop_last()[i] && filter_by_flags(s.drop_last(), keep.drop_last())[z1]
                            == s.drop_last()[i];
                    assert(s.drop_last()[i] == s[i]);
                    assert(s.last() == s[s.len() - 1]);
                    assert(bv_key_le(s[i], s[s.len() - 1]));
                }
            }
        } else {
            assert(f1 == f0);
        }
    }
}

/// Consolidated outcome of the pruning sweep: the kept covers are drawn
/// from the originals, dominate all of them, hold no strict-subset pair,
/// stay sorted, and — for duplicate-free input — stay duplicate-free.
proof fn lemma_prune_summary(
    orig: Seq<u64>,
    sorted: Seq<u64>,
    groups: Seq<OnesGroup>,
    tr: Seq<bool>,
    kept: Seq<u64>,
)
    requires
        sorted.len() >= 1,
        groups_ok(groups, sorted),
        tr.len() == sorted.len(),
        tr[0] == false,
        marked_above(tr, sorted, groups[groups.len() - 1].start_offset as int),
        kept == filter_by_flags(sorted, Seq::new(sorted.len(), |z: int| !tr[z])),
        forall|z1: int, z2: int| 0 <= z1 < z2 < sorted.len() ==> bv_key_le(sorted[z1], sorted[z2]),
        forall|z: int| 0 <= z < sorted.len() ==> in_words(orig, #[trigger] sorted[z]),
        forall|w: int| 0 <= w < orig.len() ==> in_words(sorted, #[trigger] orig[w]),
        (forall|z1: int, z2: int| 0 <= z1 < z2 < orig.len() ==> orig[z1] != orig[z2]) ==> (
        forall|z1: int, z2: int| 0 <= z1 < z2 < sorted.len() ==> sorted[z1] != sorted[z2]),
        forall|j2: int| 0 <= j2 < sorted.len() && (#[trigger] tr[j2]) ==> live_dominator(
            tr,
            sorted,
            j2,
        ),
        forall|w2: int| 0 <= w2 < sorted.len() && !tr[w2] ==> in_words(kept, #[trigger] sorted[w2]),
        forall|z: int| 0 <= z < kept.len() ==> in_words(sorted, #[trigger] kept[z]),
    ensures
        forall|z: int| 0 <= z < kept.len() ==> in_words(orig, #[trigger] kept[z]),
        forall|w: int| 0 <= w < orig.len() ==> dominated_in(kept, #[trigger] orig[w]),
        forall|z1: int, z2: int|
            0 <= z1 < kept.len() && 0 <= z2 < kept.len() && #[trigger] bv_subset(
                kept[z1],
                kept[z2],
            ) ==> kept[z1] == kept[z2],
        forall|z1: int, z2: int| 0 <= z1 < z2 < kept.len() ==> bv_key_le(kept[z1], kept[z2]),
        (forall|z1: int, z2: int| 0 <= z1 < z2 < orig.len() ==> orig[z1] != orig[z2]) ==> (
        forall|z1: int, z2: int| 0 <= z1 < z2 < kept.len() ==> kept[z1] != kept[z2]),
{
    let keepflags = Seq::new(sorted.len(), |z: int| !tr[z]);
    reveal(crate::petrick::marked_above);
    lemma_pruned_no_strict_subset(sorted, groups, tr, kept);
    lemma_filter_sorted_words(sorted, keepflags);
    assert forall|z: int| 0 <= z < kept.len() implies in_words(orig, #[trigger] kept[z]) by {
        let ws = choose|ws: int| 0 <= ws < sorted.len() && sorted[ws] == kept[z];
        assert(in_words(orig, sorted[ws]));
    }
    assert forall|w2: int| 0 <= w2 < orig.len() implies dominated_in(
        kept,
        #[trigger] orig[w2],
    ) by {
        assert(in_words(sorted, orig[w2]));
        let ws = choose|ws: int| 0 <= ws < sorted.len() && sorted[ws] == orig[w2];
        if !tr[ws] {
            assert(in_words(kept, sorted[ws]));
            let z = choose|z: int| 0 <= z < kept.len() && kept[z] == sorted[ws];
            lemma_bv_subset_refl(sorted[ws]);
            assert(bv_subset(kept[z], orig[w2]));
        } else {
            assert(live_dominator(tr, sorted, ws));
            let i2 = choose|i2: int|
                0 <= i2 < sorted.len() && i2 < tr.len() && !tr[i2] && bv_subset(
                    #[trigger] sorted[i2],
                    sorted[ws],
                );
            assert(in_words(kept, sorted[i2]));
            let z = choose|z: int| 0 <= z < kept.len() && kept[z] == sorted[i2];
            assert(bv_subset(kept[z], orig[w2]));
        }
    }
    if forall|z1: int, z2: int| 0 <= z1 < z2 < orig.len() ==> orig[z1] != orig[z2] {
        crate::lemma_filter_no_dup(sorted, keepflags);
    }
}

/// After the marking sweep, no kept cover is a strict subset of another
/// kept cover.
#[verifier::rlimit(100)]
proof fn lemma_pruned_no_strict_subset(
    sorted: Seq<u64>,
    groups: Seq<OnesGroup>,
    tr: Seq<bool>,
    kept: Seq<u64>,
)
    requires
        sorted.len() >= 1,
        groups_ok(groups, sorted),
        tr.len() == sorted.len(),
        forall|i2: int, j2: int|
            0 <= i2 < groups[groups.len() - 1].start_offset && 0 <= j2 < sorted.len() && !tr[i2]
                && #[trigger] bv_subset(sorted[i2], sorted[j2]) && pop64(sorted[i2]) < pop64(
                sorted[j2],
            ) ==> tr[j2],
        kept == filter_by_flags(sorted, Seq::new(sorted.len(), |z: int| !tr[z])),
    ensures
        forall|z1: int, z2: int|
            0 <= z1 < kept.len() && 0 <= z2 < kept.len() && #[trigger] bv_subset(
                kept[z1],
                kept[z2],
            ) ==> kept[z1] == kept[z2],
{
    let keepflags = Seq::new(sorted.len(), |z: int| !tr[z]);
    assert forall|z1: int, z2: int|
        0 <= z1 < kept.len() && 0 <= z2 < kept.len() && #[trigger] bv_subset(kept[z1], kept[z2])
        implies kept[z1] == kept[z2] by {
        if kept[z1] != kept[z2] {
            lemma_filter_pair_index(sorted, sorted, keepflags, z1);
            let ia = choose|ia: int|
                0 <= ia < sorted.len() && #[trigger] keepflags[ia] && filter_by_flags(
                    sorted,
                    keepflags,
                )[z1] == sorted[ia] && filter_by_flags(sorted, keepflags)[z1] == sorted[ia];
            lemma_filter_pair_index(sorted, sorted, keepflags, z2);
            let ib = choose|ib: int|
                0 <= ib < sorted.len() && #[trigger] keepflags[ib] && filter_by_flags(
                    sorted,
                    keepflags,
                )[z2] == sorted[ib] && filter_by_flags(sorted, keepflags)[z2] == sorted[ib];
            lemma_strict_subset_pop(sorted[ia], sorted[ib]);
            // the smaller cover's run comes before the last run
            assert(in_some_group(groups, sorted.len() as int, ia, pop64(sorted[ia])));
            let ga = choose|g: int|
                0 <= g < groups.len() && (#[trigger] groups[g].start_offset) <= ia < group_end(
                    groups,
                    g,
                    sorted.len() as int,
                ) && pop64(sorted[ia]) == groups[g].n_ones;
            assert(in_some_group(groups, sorted.len() as int, ib, pop64(sorted[ib])));
            let gb = choose|g: int|
                0 <= g < groups.len() && (#[trigger] groups[g].start_offset) <= ib < group_end(
                    groups,
                    g,
                    sorted.len() as int,
                ) && pop64(sorted[ib]) == groups[g].n_ones;
            assert(ga < groups.len() - 1) by {
                if ga == groups.len() - 1 {
                    assert(gb < groups.len());
                    if gb < ga {
                        assert(groups[gb].n_ones < groups[ga].n_ones);
                    }
                    assert(gb == ga);
                }
            }
            assert(ia < groups[ga + 1].start_offset);
            assert(ia < groups[groups.len() - 1].start_offset) by {
                if ga + 1 < groups.len() - 1 {
                    assert(groups[ga + 1].start_offset < groups[groups.len() - 1].start_offset);
                }
            }
            assert(tr[ib]);
        }
    }
}

/// Marks every strictly larger cover that the unmarked cover at `i` lies
/// under, scanning the runs after its own.
fn mark_dominated_by(
    bitvecs: &Vec<BitVec>,
    groups: &Vec<OnesGroup>,
    to_remove: &mut Vec<bool>,
    i: usize,
)
    requires
        bitvecs@.len() >= 1,
        groups_ok(groups@, bv_views(bitvecs@)),
        i < groups@[groups@.len() - 1].start_offset,
        old(to_remove)@.len() == bitvecs@.len(),
        old(to_remove)@[0] == false,
        !old(to_remove)@[i as int],
        marks_live(old(to_remove)@, bv_views(bitvecs@)),
        marked_above(old(to_remove)@, bv_views(bitvecs@), i as int),
    ensures
        final(to_remove)@.len() == old(to_remove)@.len(),
        final(to_remove)@[0] == false,
        marks_live(final(to_remove)@, bv_views(bitvecs@)),
        marked_above(final(to_remove)@, bv_views(bitvecs@), i as int + 1),
{
    proof {
        reveal(crate::petrick::marks_live);
        reveal(crate::petrick::marked_above);
    }
    let ghost sorted = bv_views(bitvecs@);
    let len = bitvecs.len();
    let ghost last_start = groups@[groups@.len() - 1].start_offset as int;
    let ones = bitvecs[i].count_ones();
    proof {
        lemma_ones_group_exists(groups@, sorted, i as int);
    }
    let gi = find_group(groups, ones);
    let glen = groups.len();
    proof {
        lemma_group_of_index(groups@, sorted, i as int, gi as int);
        assert(gi < glen);
    }
    let j0 = groups[gi + 1].start_offset;
    let mut j = j0;
    while j < len
        invariant
            j0 >= 1,
            j >= j0,
            i < j0,
            i < len,
            len == bitvecs@.len(),
            sorted == bv_views(bitvecs@),
            to_remove@.len() == len,
            to_remove@[0] == false,
            !to_remove@[i as int],
            forall|j2: int|
                0 <= j2 < len && (#[trigger] to_remove@[j2]) ==> live_dominator(
                    to_remove@,
                    sorted,
                    j2,
                ),
            forall|i2: int, j2: int|
                0 <= i2 < i && 0 <= j2 < len && !to_remove@[i2] && #[trigger] bv_subset(
                    sorted[i2],
                    sorted[j2],
                ) && pop64(sorted[i2]) < pop64(sorted[j2]) ==> to_remove@[j2],
            forall|j2: int|
                j0 <= j2 < j && #[trigger] bv_subset(sorted[i as int], sorted[j2])
                    ==> to_remove@[j2],
        decreases len - j,
    {
        if !to_remove[j] && bitvecs[i].is_subset(&bitvecs[j]) {
            let ghost tr0 = to_remove@;
            to_remove[j] = true;
            proof {
                assert(bv_subset(sorted[i as int], sorted[j as int]));
                assert forall|j2: int|
                    0 <= j2 < len && (#[trigger] to_remove@[j2]) implies live_dominator(
                    to_remove@,
                    sorted,
                    j2,
                ) by {
                    if j2 == j as int {
                        assert(!to_remove@[i as int] && bv_subset(sorted[i as int], sorted[j2]));
                    } else {
                        assert(tr0[j2]);
                        let i2 = choose|i2: int|
                            0 <= i2 < sorted.len() && i2 < tr0.len() && !tr0[i2] && bv_subset(
                                #[trigger] sorted[i2],
                                sorted[j2],
                            );
                        if i2 == j as int {
                            lemma_bv_subset_trans(sorted[i as int], sorted[i2], sorted[j2]);
                            assert(!to_remove@[i as int] && bv_subset(
                                sorted[i as int],
                                sorted[j2],
                            ));
                        } else {
                            assert(!to_remove@[i2] && bv_subset(sorted[i2], sorted[j2]));
                        }
                    }
                }
            }
        }
        j = j + 1;
    }
    proof {
        lemma_mark_restore(sorted, groups@, to_remove@, i as int, gi as int);
        assert(marks_live(to_remove@, sorted));
        assert(marked_above(to_remove@, sorted, i as int + 1));
    }
}

/// Removes every candidate cover that is a strict superset of another one:
/// a cover with more rows that contains a smaller cover is dominated by it.
/// As a side effect, sorts the remaining covers.
#[verifier::rlimit(100)]
pub fn remove_redundant(bitvecs: &mut Vec<BitVec>, time: &mut PetrickTimeInfo)
    requires
        forall|z1: int, z2: int|
            0 <= z1 < z2 < old(bitvecs)@.len() ==> bv_views(old(bitvecs)@)[z1] != bv_views(
                old(bitvecs)@,
            )[z2],
    ensures
        forall|z: int|
            0 <= z < final(bitvecs)@.len() ==> in_words(
                bv_views(old(bitvecs)@),
                #[trigger] bv_views(final(bitvecs)@)[z],
            ),
        forall|z1: int, z2: int|
            0 <= z1 < z2 < final(bitvecs)@.len() ==> bv_key_le(
                bv_views(final(bitvecs)@)[z1],
                bv_views(final(bitvecs)@)[z2],
            ),
        forall|z1: int, z2: int|
            0 <= z1 < z2 < final(bitvecs)@.len() ==> bv_views(final(bitvecs)@)[z1] != bv_views(
                final(bitvecs)@,
            )[z2],
        forall|w: int|
            0 <= w < old(bitvecs)@.len() ==> dominated_in(
                bv_views(final(bitvecs)@),
                #[trigger] bv_views(old(bitvecs)@)[w],
            ),
        forall|z1: int, z2: int|
            0 <= z1 < final(bitvecs)@.len() && 0 <= z2 < final(bitvecs)@.len()
                && #[trigger] bv_subset(bv_views(final(bitvecs)@)[z1], bv_views(final(bitvecs)@)[z2])
                ==> bv_views(final(bitvecs)@)[z1] == bv_views(final(bitvecs)@)[z2],
        old(bitvecs)@.len() >= 1 ==> final(bitvecs)@.len() >= 1,
        final(time).remove_redundant_calls == sat_inc(old(time).remove_redundant_calls),
        final(time).remove_essential_calls == old(time).remove_essential_calls,
        final(time).bitvecs_from_chart_cols_calls == old(time).bitvecs_from_chart_cols_calls,
        final(time).pairwise_and_calls == old(time).pairwise_and_calls,
{
    time.remove_redundant_calls = bump(time.remove_redundant_calls);
    let ghost orig = bv_views(bitvecs@);
    if bitvecs.len() == 0 {
        return ;
    }
    let groups = BitVec::bitsort(bitvecs);
    let ghost sorted = bv_views(bitvecs@);
    let len = bitvecs.len();
    let mut to_remove: Vec<bool> = vec![false; len];
    proof {
        assert(marks_live(to_remove@, sorted)) by {
            reveal(crate::petrick::marks_live);
        }
        assert(marked_above(to_remove@, sorted, 0)) by {
            reveal(crate::petrick::marked_above);
        }
    }
    let last_start = groups[groups.len() - 1].start_offset;
    let mut i: usize = 0;
    while i < last_start
        invariant
            i <= last_start,
            last_start < len,
            len == bitvecs@.len(),
            sorted == bv_views(bitvecs@),
            groups_ok(groups@, sorted),
            last_start == groups@[groups@.len() - 1].start_offset,
            to_remove@.len() == len,
            to_remove@[0] == false,
            marks_live(to_remove@, sorted),
            marked_above(to_remove@, sorted, i as int),
        decreases last_start - i,
    {
        if !to_remove[i] {
            mark_dominated_by(bitvecs, &groups, &mut to_remove, i);
        } else {
            proof {
                reveal(crate::petrick::marked_above);
                assert(marked_above(to_remove@, sorted, i as int + 1));
            }
        }
        i = i + 1;
    }
    // Keep the unmarked covers, in order.
    let ghost keepflags = Seq::new(sorted.len(), |z: int| !to_remove@[z]);
    let mut kept: Vec<BitVec> = Vec::new();
    let mut w: usize = 0;
    while w < len
        invariant
            w <= len,
            len == bitvecs@.len(),
            sorted == bv_views(bitvecs@),
            to_remove@.len() == len,
            to_remove@[0] == false,
            keepflags == Seq::new(sorted.len(), |z: int| !to_remove@[z]),
            forall|z1: int, z2: int|
                0 <= z1 < z2 < sorted.len() ==> bv_key_le(sorted[z1], sorted[z2]),
            forall|z: int| 0 <= z < sorted.len() ==> in_words(orig, #[trigger] sorted[z]),
            forall|w2: int| 0 <= w2 < orig.len() ==> in_words(sorted, #[trigger] orig[w2]),
            (forall|z1: int, z2: int| 0 <= z1 < z2 < orig.len() ==> orig[z1] != orig[z2]) ==> (
            forall|z1: int, z2: int| 0 <= z1 < z2 < sorted.len() ==> sorted[z1] != sorted[z2]),
            marks_live(to_remove@, sorted),
            marked_above(to_remove@, sorted, last_start as int),
            last_start == groups@[groups@.len() - 1].start_offset,
            groups_ok(groups@, sorted),
            bv_views(kept@) == filter_by_flags(sorted.take(w as int), keepflags.take(w as int)),
            forall|z: int| 0 <= z < kept@.len() ==> in_words(sorted, #[trigger] bv_views(kept@)[z]),
            forall|w2: int|
                0 <= w2 < w && !to_remove@[w2] ==> in_words(bv_views(kept@), #[trigger] sorted[w2]),
            w >= 1 ==> kept@.len() >= 1,
        decreases len - w,
    {
        proof {
            lemma_filter_step(sorted, keepflags, w as int);
        }
        if !to_remove[w] {
            let ghost k0 = bv_views(kept@);
            kept.push(bitvecs[w]);
            proof {
                assert(bv_views(kept@)[k0.len() as int] == sorted[w as int]);
                assert forall|z: int| 0 <= z < k0.len() implies bv_views(kept@)[z] == k0[z] by {}
                assert(bv_views(kept@) =~= filter_by_flags(
                    sorted.take(w + 1),
                    keepflags.take(w + 1),
                ));
                assert forall|z: int| 0 <= z < kept@.len() implies in_words(
                    sorted,
                    #[trigger] bv_views(kept@)[z],
                ) by {
                    if z < k0.len() {
                        assert(bv_views(kept@)[z] == k0[z]);
                        assert(in_words(sorted, k0[z]));
                    } else {
                        assert(bv_views(kept@)[z] == sorted[w as int]);
                    }
                }
                assert forall|w2: int|
                    0 <= w2 < w + 1 && !to_remove@[w2] implies in_words(
                    bv_views(kept@),
                    #[trigger] sorted[w2],
                ) by {
                    if w2 < w {
                        let z = choose|z: int| 0 <= z < k0.len() && k0[z] == sorted[w2];
                        assert(bv_views(kept@)[z] == sorted[w2]);
                    }
                }
            }
        } else {
            proof {
                assert(bv_views(kept@) =~= filter_by_flags(
                    sorted.take(w + 1),
                    keepflags.take(w + 1),
                ));
            }
        }
        w = w + 1;
    }
    proof {
        assert(sorted.take(len as int) =~= sorted);
        assert(keepflags.take(len as int) =~= keepflags);
        assert forall|j2: int|
            0 <= j2 < sorted.len() && (#[trigger] to_remove@[j2]) implies live_dominator(
            to_remove@,
            sorted,
            j2,
        ) by {
            reveal(crate::petrick::marks_live);
        }
        lemma_prune_summary(orig, sorted, groups@, to_remove@, bv_views(kept@));
    }
    *bitvecs = kept;
}


// --------------------------------------
// Essential prime implicant extraction.

/// Some row covers column `j`.
pub open spec fn col_covered(rows: Seq<Seq<bool>>, j: int) -> bool {
    exists|i: int| 0 <= i < rows.len() && (#[trigger] rows[i])[j]
}

/// Row `r` is the only row covering column `j`.
pub open spec fn unique_cover(rows: Seq<Seq<bool>>, j: int, r: int) -> bool {
    &&& 0 <= r < rows.len()
    &&& rows[r][j]
    &&& forall|r2: int| 0 <= r2 < rows.len() && (#[trigger] rows[r2])[j] ==> r2 == r
}

/// Row `r` is essential: it is the only cover of some column.
pub open spec fn essential_row(rows: Seq<Seq<bool>>, r: int) -> bool {
    exists|j: int| 0 <= j < rows[0].len() && #[trigger] unique_cover(rows, j, r)
}

/// Column `j` is covered by some essential row.
pub open spec fn covered_by_essential(rows: Seq<Seq<bool>>, j: int) -> bool {
    exists|r: int| 0 <= r < rows.len() && #[trigger] essential_row(rows, r) && rows[r][j]
}

/// Copies row `i` of the chart.
fn clone_row(chart: &PrimeImplicateChart, i: usize) -> (row: Vec<bool>)
    requires
        i < chart@.len(),
    ensures
        row@ == chart@[i as int],
{
    let n = chart.row_len(i);
    let mut row: Vec<bool> = Vec::new();
    let mut j: usize = 0;
    while j < n
        invariant
            j <= n,
            i < chart@.len(),
            n == chart@[i as int].len(),
            row@.len() == j,
            forall|q: int| 0 <= q < j ==> row@[q] == chart@[i as int][q],
        decreases n - j,
    {
        row.push(chart.cell(i, j));
        j = j + 1;
    }
    assert(row@ =~= chart@[i as int]);
    row
}

/// Removes the essential prime implicants from the chart and the implicant
/// list, returning them (in descending row order) together with the
/// ascending list of columns that no essential row covers.
#[verifier::rlimit(100)]
pub fn remove_essential_prime_impls(
    prime_impl_chart: &mut PrimeImplicateChart,
    prime_impls: &mut Vec<Minterm>,
    time: &mut PetrickTimeInfo,
) -> (res: (Vec<Minterm>, Vec<usize>))
    requires
        old(prime_impl_chart)@.len() == old(prime_impls)@.len(),
        old(prime_impl_chart)@.len() >= 1,
        forall|i: int|
            0 <= i < old(prime_impl_chart)@.len() ==> (#[trigger] old(prime_impl_chart)@[i]).len()
                == old(prime_impl_chart)@[0].len(),
        forall|j: int|
            0 <= j < old(prime_impl_chart)@[0].len() ==> col_covered(old(prime_impl_chart)@, j),
    ensures
        ({
            let rows = old(prime_impl_chart)@;
            let ncols = rows[0].len() as int;
            let keep = Seq::new(rows.len(), |i: int| !essential_row(rows, i));
            let ess = Seq::new(rows.len(), |i: int| essential_row(rows, i));
            &&& final(prime_impl_chart)@ == filter_by_flags(rows, keep)
            &&& term_views(final(prime_impls)@) == filter_by_flags(
                term_views(old(prime_impls)@),
                keep,
            )
            &&& term_views(res.0@) == filter_by_flags(term_views(old(prime_impls)@), ess).reverse()
            &&& forall|z: int|
                0 <= z < res.1@.len() ==> (#[trigger] res.1@[z]) < ncols && !covered_by_essential(
                    rows,
                    res.1@[z] as int,
                )
            &&& forall|j: int|
                0 <= j < ncols && !covered_by_essential(rows, j) ==> in_usize_list(
                    res.1@,
                    j as usize,
                )
            &&& forall|z1: int, z2: int| 0 <= z1 < z2 < res.1@.len() ==> res.1@[z1] < res.1@[z2]
            &&& final(time).remove_essential_calls == sat_inc(old(time).remove_essential_calls)
            &&& final(time).pairwise_and_calls == old(time).pairwise_and_calls
            &&& final(time).bitvecs_from_chart_cols_calls == old(
                time,
            ).bitvecs_from_chart_cols_calls
            &&& final(time).remove_redundant_calls == old(time).remove_redundant_calls
        }),
{
    time.remove_essential_calls = bump(time.remove_essential_calls);
    let ghost rows = prime_impl_chart@;
    let ghost terms = term_views(prime_impls@);
    let nrows = prime_impl_chart.num_rows();
    let ncols = prime_impl_chart.row_len(0);
    // Classify each column and mark the unique cover of a singly covered
    // column as essential.
    let mut is_essential: Vec<bool> = vec![false; nrows];
    let mut j: usize = 0;
    while j < ncols
        invariant
            j <= ncols,
            nrows == rows.len(),
            ncols == rows[0].len(),
            rows == prime_impl_chart@,
            forall|i: int| 0 <= i < rows.len() ==> (#[trigger] rows[i]).len() == rows[0].len(),
            is_essential@.len() == nrows,
            forall|r: int|
                0 <= r < nrows ==> ((#[trigger] is_essential@[r]) <==> exists|j2: int|
                    0 <= j2 < j && #[trigger] unique_cover(rows, j2, r)),
        decreases ncols - j,
    {
        let ghost ess0 = is_essential@;
        let mut cnt: usize = 0;
        let mut one: usize = 0;
        let ghost mut w1: int = 0;
        let ghost mut w2: int = 0;
        let mut i: usize = 0;
        while i < nrows
            invariant
                i <= nrows,
                j < ncols,
                nrows == rows.len(),
                ncols == rows[0].len(),
                rows == prime_impl_chart@,
                forall|i2: int| 0 <= i2 < rows.len() ==> (#[trigger] rows[i2]).len() == rows[0].len(),
                cnt == 0 ==> forall|r: int| 0 <= r < i ==> !(#[trigger] rows[r])[j as int],
                cnt == 1 ==> one < i && rows[one as int][j as int] && forall|r: int|
                    0 <= r < i && (#[trigger] rows[r])[j as int] ==> r == one,
                cnt >= 2 ==> 0 <= w1 < w2 < i && rows[w1][j as int] && rows[w2][j as int],
                cnt <= i,
            decreases nrows - i,
        {
            if prime_impl_chart.cell(i, j) {
                if cnt == 0 {
                    one = i;
                } else if cnt == 1 {
                    proof {
                        w1 = one as int;
                        w2 = i as int;
                    }
                }
                cnt = cnt + 1;
            }
            i = i + 1;
        }
        if cnt == 1 {
            proof {
                assert(unique_cover(rows, j as int, one as int));
            }
            is_essential[one] = true;
            proof {
                assert forall|r: int|
                    0 <= r < nrows implies ((#[trigger] is_essential@[r]) <==> exists|j2: int|
                        0 <= j2 < j + 1 && #[trigger] unique_cover(rows, j2, r)) by {
                    if r == one as int {
                        assert(unique_cover(rows, j as int, r));
                    } else {
                        if is_essential@[r] {
                            let j2 = choose|j2: int|
                                0 <= j2 < j && #[trigger] unique_cover(rows, j2, r);
                            assert(unique_cover(rows, j2, r));
                        } else {
                            if exists|j2: int| 0 <= j2 < j + 1 && #[trigger] unique_cover(rows, j2, r) {
                                let j2 = choose|j2: int|
                                    0 <= j2 < j + 1 && #[trigger] unique_cover(rows, j2, r);
                                if j2 == j as int {
                                    assert(rows[r][j as int] && r != one as int);
                                    assert(false);
                                }
                            }
                        }
                    }
                }
            }
        } else {
            proof {
                assert forall|r: int|
                    0 <= r < nrows implies ((#[trigger] is_essential@[r]) <==> exists|j2: int|
                        0 <= j2 < j + 1 && #[trigger] unique_cover(rows, j2, r)) by {
                    if is_essential@[r] {
                        let j2 = choose|j2: int| 0 <= j2 < j && #[trigger] unique_cover(rows, j2, r);
                        assert(unique_cover(rows, j2, r));
                    } else {
                        if exists|j2: int| 0 <= j2 < j + 1 && #[trigger] unique_cover(rows, j2, r) {
                            let j2 = choose|j2: int|
                                0 <= j2 < j + 1 && #[trigger] unique_cover(rows, j2, r);
                            if j2 == j as int {
                                if cnt == 0 {
                                    assert(rows[r][j as int]);
                                } else {
                                    assert(cnt >= 2);
                                    assert(rows[w1][j as int] && rows[w2][j as int]);
                                    assert(w1 == r && w2 == r);
                                }
                                assert(false);
                            }
                        }
                    }
                }
            }
        }
        j = j + 1;
    }
    proof {
        assert forall|r: int|
            0 <= r < nrows implies ((#[trigger] is_essential@[r]) <==> essential_row(rows, r)) by {}
    }
    // Columns covered by an essential row.
    let mut covered: Vec<bool> = vec![false; ncols];
    let mut r: usize = 0;
    while r < nrows
        invariant
            r <= nrows,
            nrows == rows.len(),
            ncols == rows[0].len(),
            rows == prime_impl_chart@,
            forall|i2: int| 0 <= i2 < rows.len() ==> (#[trigger] rows[i2]).len() == rows[0].len(),
            is_essential@.len() == nrows,
            forall|r2: int|
                0 <= r2 < nrows ==> ((#[trigger] is_essential@[r2]) <==> essential_row(rows, r2)),
            covered@.len() == ncols,
            forall|j2: int|
                0 <= j2 < ncols ==> ((#[trigger] covered@[j2]) <==> exists|r2: int|
                    0 <= r2 < r && #[trigger] essential_row(rows, r2) && rows[r2][j2]),
        decreases nrows - r,
    {
        if is_essential[r] {
            let mut j2: usize = 0;
            while j2 < ncols
                invariant
                    j2 <= ncols,
                    r < nrows,
                    nrows == rows.len(),
                    ncols == rows[0].len(),
                    rows == prime_impl_chart@,
                    forall|i2: int|
                        0 <= i2 < rows.len() ==> (#[trigger] rows[i2]).len() == rows[0].len(),
                    essential_row(rows, r as int),
                    covered@.len() == ncols,
                    forall|j3: int|
                        0 <= j3 < ncols ==> ((#[trigger] covered@[j3]) <==> ((exists|r2: int|
                            0 <= r2 < r && #[trigger] essential_row(rows, r2) && rows[r2][j3]) || (
                        j3 < j2 && rows[r as int][j3]))),
                decreases ncols - j2,
            {
                if prime_impl_chart.cell(r, j2) {
                    covered[j2] = true;
                }
                j2 = j2 + 1;
            }
            proof {
                assert forall|j3: int|
                    0 <= j3 < ncols implies ((#[trigger] covered@[j3]) <==> exists|r2: int|
                        0 <= r2 < r + 1 && #[trigger] essential_row(rows, r2) && rows[r2][j3]) by {
                    if covered@[j3] {
                        if exists|r2: int|
                            0 <= r2 < r && #[trigger] essential_row(rows, r2) && rows[r2][j3] {
                            let r2 = choose|r2: int|
                                0 <= r2 < r && #[trigger] essential_row(rows, r2) && rows[r2][j3];
                            assert(essential_row(rows, r2) && rows[r2][j3]);
                        } else {
                            assert(essential_row(rows, r as int) && rows[r as int][j3]);
                        }
                    } else {
                        if exists|r2: int|
                            0 <= r2 < r + 1 && #[trigger] essential_row(rows, r2) && rows[r2][j3] {
                            let r2 = choose|r2: int|
                                0 <= r2 < r + 1 && #[trigger] essential_row(rows, r2) && rows[r2][j3];
                            assert(false);
                        }
                    }
                }
            }
        } else {
            proof {
                assert forall|j3: int|
                    0 <= j3 < ncols implies ((#[trigger] covered@[j3]) <==> exists|r2: int|
                        0 <= r2 < r + 1 && #[trigger] essential_row(rows, r2) && rows[r2][j3]) by {
                    if covered@[j3] {
                        let r2 = choose|r2: int|
                            0 <= r2 < r && #[trigger] essential_row(rows, r2) && rows[r2][j3];
                        assert(essential_row(rows, r2) && rows[r2][j3]);
                    } else {
                        if exists|r2: int|
                            0 <= r2 < r + 1 && #[trigger] essential_row(rows, r2) && rows[r2][j3] {
                            let r2 = choose|r2: int|
                                0 <= r2 < r + 1 && #[trigger] essential_row(rows, r2) && rows[r2][j3];
                            if r2 == r as int {
                                assert(is_essential@[r2]);
                            }
                            assert(false);
                        }
                    }
                }
            }
        }
        r = r + 1;
    }
    proof {
        assert forall|j3: int|
            0 <= j3 < ncols implies ((#[trigger] covered@[j3]) <==> covered_by_essential(
            rows,
            j3,
        )) by {}
    }
    // Columns that keep needing a cover, ascending.
    let mut remaining_cols: Vec<usize> = Vec::new();
    let mut jj: usize = 0;
    while jj < ncols
        invariant
            jj <= ncols,
            ncols == rows[0].len(),
            covered@.len() == ncols,
            forall|j3: int|
                0 <= j3 < ncols ==> ((#[trigger] covered@[j3]) <==> covered_by_essential(rows, j3)),
            forall|z: int|
                0 <= z < remaining_cols@.len() ==> (#[trigger] remaining_cols@[z]) < jj
                    && !covered_by_essential(rows, remaining_cols@[z] as int),
            forall|j3: int|
                0 <= j3 < jj && !covered_by_essential(rows, j3) ==> in_usize_list(
                    remaining_cols@,
                    j3 as usize,
                ),
            forall|z1: int, z2: int|
                0 <= z1 < z2 < remaining_cols@.len() ==> remaining_cols@[z1] < remaining_cols@[z2],
        decreases ncols - jj,
    {
        if !covered[jj] {
            let ghost rc0 = remaining_cols@;
            remaining_cols.push(jj);
            proof {
                assert forall|j3: int|
                    0 <= j3 < jj + 1 && !covered_by_essential(rows, j3) implies in_usize_list(
                    remaining_cols@,
                    j3 as usize,
                ) by {
                    if j3 < jj {
                        let z = choose|z: int| 0 <= z < rc0.len() && rc0[z] == j3 as usize;
                        assert(remaining_cols@[z] == j3 as usize);
                    } else {
                        assert(remaining_cols@[remaining_cols@.len() - 1] == j3 as usize);
                    }
                }
            }
        }
        jj = jj + 1;
    }
    // The kept (non-essential) implicants and rows, in order.
    let ghost keep = Seq::new(rows.len(), |i: int| !essential_row(rows, i));
    let ghost essf = Seq::new(rows.len(), |i: int| essential_row(rows, i));
    let mut kept_terms: Vec<Minterm> = Vec::new();
    let mut kept_rows: Vec<Vec<bool>> = Vec::new();
    let mut i2: usize = 0;
    while i2 < nrows
        invariant
            i2 <= nrows,
            nrows == rows.len(),
            rows == prime_impl_chart@,
            terms == term_views(prime_impls@),
            terms.len() == nrows,
            is_essential@.len() == nrows,
            forall|r2: int|
                0 <= r2 < nrows ==> ((#[trigger] is_essential@[r2]) <==> essential_row(rows, r2)),
            keep == Seq::new(rows.len(), |i: int| !essential_row(rows, i)),
            term_views(kept_terms@) == filter_by_flags(terms.take(i2 as int), keep.take(i2 as int)),
            row_views(kept_rows@) == filter_by_flags(rows.take(i2 as int), keep.take(i2 as int)),
        decreases nrows - i2,
    {
        proof {
            lemma_filter_step(terms, keep, i2 as int);
            lemma_filter_step(rows, keep, i2 as int);
        }
        if !is_essential[i2] {
            let ghost kt0 = term_views(kept_terms@);
            let ghost kr0 = row_views(kept_rows@);
            kept_terms.push(prime_impls[i2].clone());
            let row = clone_row(&prime_impl_chart, i2);
            kept_rows.push(row);
            proof {
                assert(term_views(kept_terms@) =~= kt0.push(terms[i2 as int]));
                assert(row_views(kept_rows@) =~= kr0.push(rows[i2 as int]));
            }
        }
        i2 = i2 + 1;
    }
    proof {
        assert(terms.take(nrows as int) =~= terms);
        assert(rows.take(nrows as int) =~= rows);
        assert(keep.take(nrows as int) =~= keep);
    }
    // The essential implicants, in descending row order.
    let ghost essfull = filter_by_flags(terms, essf);
    let mut ess_terms: Vec<Minterm> = Vec::new();
    let mut fwd: Vec<Minterm> = Vec::new();
    let mut i3: usize = 0;
    while i3 < nrows
        invariant
            i3 <= nrows,
            nrows == rows.len(),
            terms == term_views(prime_impls@),
            terms.len() == nrows,
            is_essential@.len() == nrows,
            forall|r2: int|
                0 <= r2 < nrows ==> ((#[trigger] is_essential@[r2]) <==> essential_row(rows, r2)),
            essf == Seq::new(rows.len(), |i: int| essential_row(rows, i)),
            term_views(fwd@) == filter_by_flags(terms.take(i3 as int), essf.take(i3 as int)),
        decreases nrows - i3,
    {
        proof {
            lemma_filter_step(terms, essf, i3 as int);
        }
        if is_essential[i3] {
            let ghost f0 = term_views(fwd@);
            fwd.push(prime_impls[i3].clone());
            proof {
                assert(term_views(fwd@) =~= f0.push(terms[i3 as int]));
            }
        }
        i3 = i3 + 1;
    }
    proof {
        assert(terms.take(nrows as int) =~= terms);
        assert(essf.take(nrows as int) =~= essf);
    }
    let mut i4: usize = fwd.len();
    while i4 > 0
        invariant
            i4 <= fwd@.len(),
            term_views(fwd@) == essfull,
            term_views(ess_terms@).len() == essfull.len() - i4,
            forall|z: int|
                0 <= z < term_views(ess_terms@).len() ==> #[trigger] term_views(ess_terms@)[z]
                    == essfull[essfull.len() - 1 - z],
        decreases i4,
    {
        i4 = i4 - 1;
        let ghost e0 = term_views(ess_terms@);
        ess_terms.push(fwd[i4].clone());
        proof {
            assert forall|z: int|
                0 <= z < term_views(ess_terms@).len() implies #[trigger] term_views(ess_terms@)[z]
                    == essfull[essfull.len() - 1 - z] by {
                if z < e0.len() {
                    assert(term_views(ess_terms@)[z] == e0[z]);
                } else {
                    assert(term_views(ess_terms@)[z] == term_views(fwd@)[i4 as int]);
                    assert(essfull.len() - 1 - z == i4 as int);
                }
            }
        }
    }
    proof {
        assert(term_views(ess_terms@) =~= essfull.reverse());
    }
    *prime_impls = kept_terms;
    *prime_impl_chart = PrimeImplicateChart::from_rows(kept_rows);
    (ess_terms, remaining_cols)
}


// ----------------------------------------
// Functions implementing Petrick's method.

/// The word is the single-bit vector of one row covering column `j`.
pub open spec fn option_of(rows: Seq<Seq<bool>>, j: int, w: u64) -> bool {
    exists|i: int| 0 <= i < rows.len() && (#[trigger] rows[i])[j] && w == 1u64 << (i as u64)
}

/// The word is a single set bit at a position below `n`.
pub open spec fn single_bit_below(w: u64, n: int) -> bool {
    exists|i2: int| 0 <= i2 < n && w == #[trigger] (1u64 << (i2 as u64))
}

/// Some row whose bit is set in the word covers column `j`.
pub open spec fn bv_covers_col(w: u64, rows: Seq<Seq<bool>>, j: int) -> bool {
    exists|i: int| 0 <= i < rows.len() && i < 64 && bv_bit(w, i as u64) && (#[trigger] rows[i])[j]
}

/// Some row covering column `j` has its implicant among the chosen terms.
pub open spec fn col_covered_by_chosen(
    rows: Seq<Seq<bool>>,
    terms: Seq<Seq<u8>>,
    out: Seq<Seq<u8>>,
    j: int,
) -> bool {
    exists|i: int| 0 <= i < rows.len() && (#[trigger] rows[i])[j] && in_list(out, terms[i])
}

impl BitVec {
    /// The options of one chart column: a single-bit vector for each row
    /// that covers it.
    pub fn bitvecs_from_chart_col(
        prime_impl_chart: &PrimeImplicateChart,
        col: usize,
        time: &mut PetrickTimeInfo,
    ) -> (bit_vecs: Vec<BitVec>)
        requires
            prime_impl_chart@.len() <= 64,
            forall|i: int|
                0 <= i < prime_impl_chart@.len() ==> col < (#[trigger] prime_impl_chart@[i]).len(),
        ensures
            forall|z: int|
                0 <= z < bit_vecs@.len() ==> option_of(
                    prime_impl_chart@,
                    col as int,
                    #[trigger] bv_views(bit_vecs@)[z],
                ),
            forall|i: int|
                0 <= i < prime_impl_chart@.len() && (#[trigger] prime_impl_chart@[i])[col as int]
                    ==> in_words(bv_views(bit_vecs@), 1u64 << (i as u64)),
            forall|z1: int, z2: int|
                0 <= z1 < z2 < bit_vecs@.len() ==> bv_views(bit_vecs@)[z1] < bv_views(
                    bit_vecs@,
                )[z2],
            final(time).bitvecs_from_chart_cols_calls == sat_inc(
                old(time).bitvecs_from_chart_cols_calls,
            ),
            final(time).remove_essential_calls == old(time).remove_essential_calls,
            final(time).pairwise_and_calls == old(time).pairwise_and_calls,
            final(time).remove_redundant_calls == old(time).remove_redundant_calls,
    {
        time.bitvecs_from_chart_cols_calls = bump(time.bitvecs_from_chart_cols_calls);
        let nrows = prime_impl_chart.num_rows();
        let mut bit_vecs: Vec<BitVec> = Vec::new();
        let mut i: usize = 0;
        while i < nrows
            invariant
                i <= nrows,
                nrows == prime_impl_chart@.len(),
                nrows <= 64,
                forall|i2: int|
                    0 <= i2 < prime_impl_chart@.len() ==> col < (
                    #[trigger] prime_impl_chart@[i2]).len(),
                forall|z: int|
                    0 <= z < bit_vecs@.len() ==> option_of(
                        prime_impl_chart@,
                        col as int,
                        #[trigger] bv_views(bit_vecs@)[z],
                    ),
                forall|i2: int|
                    0 <= i2 < i && (#[trigger] prime_impl_chart@[i2])[col as int] ==> in_words(
                        bv_views(bit_vecs@),
                        1u64 << (i2 as u64),
                    ),
                forall|z: int|
                    0 <= z < bit_vecs@.len() ==> single_bit_below(
                        #[trigger] bv_views(bit_vecs@)[z],
                        i as int,
                    ),
                forall|z1: int, z2: int|
                    0 <= z1 < z2 < bit_vecs@.len() ==> bv_views(bit_vecs@)[z1] < bv_views(
                        bit_vecs@,
                    )[z2],
            decreases nrows - i,
        {
            if prime_impl_chart.cell(i, col) {
                let mut bit_vec = BitVec::default();
                bit_vec.set_bit(i);
                let ghost b0 = bv_views(bit_vecs@);
                bit_vecs.push(bit_vec);
                proof {
                    assert(bit_vec@ == 0u64 | (1u64 << (i as u64)));
                    assert(0u64 | (1u64 << (i as u64)) == 1u64 << (i as u64)) by (bit_vector);
                    assert(bv_views(bit_vecs@)[b0.len() as int] == 1u64 << (i as u64));
                    assert forall|z: int| 0 <= z < b0.len() implies bv_views(bit_vecs@)[z]
                        == b0[z] by {}
                    assert forall|z: int|
                        0 <= z < bit_vecs@.len() implies option_of(
                        prime_impl_chart@,
                        col as int,
                        #[trigger] bv_views(bit_vecs@)[z],
                    ) by {
                        if z < b0.len() {
                            assert(bv_views(bit_vecs@)[z] == b0[z]);
                            assert(option_of(prime_impl_chart@, col as int, b0[z]));
                        } else {
                            assert(prime_impl_chart@[i as int][col as int]);
                            assert(bv_views(bit_vecs@)[z] == 1u64 << (i as u64));
                        }
                    }
                    assert forall|z: int|
                        0 <= z < bit_vecs@.len() implies single_bit_below(
                        #[trigger] bv_views(bit_vecs@)[z],
                        i as int + 1,
                    ) by {
                        if z < b0.len() {
                            assert(bv_views(bit_vecs@)[z] == b0[z]);
                            assert(single_bit_below(b0[z], i as int));
                            let i2 = choose|i2: int|
                                0 <= i2 < i && b0[z] == #[trigger] (1u64 << (i2 as u64));
                            assert(bv_views(bit_vecs@)[z] == 1u64 << (i2 as u64));
                        } else {
                            assert(bv_views(bit_vecs@)[z] == 1u64 << (i as u64));
                        }
                    }
                    assert forall|z1: int, z2: int|
                        0 <= z1 < z2 < bit_vecs@.len() implies bv_views(bit_vecs@)[z1] < bv_views(
                        bit_vecs@,
                    )[z2] by {
                        if z2 == b0.len() {
                            assert(single_bit_below(b0[z1], i as int));
                            let i2 = choose|i2: int|
                                0 <= i2 < i && b0[z1] == #[trigger] (1u64 << (i2 as u64));
                            assert(bv_views(bit_vecs@)[z1] == 1u64 << (i2 as u64));
                            assert(bv_views(bit_vecs@)[z2] == 1u64 << (i as u64));
                            let a2 = i2 as u64;
                            let ai = i as u64;
                            assert((1u64 << a2) < (1u64 << ai)) by (bit_vector)
                                requires
                                    a2 < ai && ai < 64,
                            ;
                        } else {
                            assert(bv_views(bit_vecs@)[z1] == b0[z1]);
                            assert(bv_views(bit_vecs@)[z2] == b0[z2]);
                        }
                    }
                    assert forall|i2: int|
                        0 <= i2 < i + 1 && (#[trigger] prime_impl_chart@[i2])[col as int] implies
                        in_words(bv_views(bit_vecs@), 1u64 << (i2 as u64)) by {
                        if i2 < i {
                            let z = choose|z: int|
                                0 <= z < b0.len() && b0[z] == 1u64 << (i2 as u64);
                            assert(bv_views(bit_vecs@)[z] == 1u64 << (i2 as u64));
                        } else {
                            assert(bv_views(bit_vecs@)[b0.len() as int] == 1u64 << (i2 as u64));
                        }
                    }
                }
            }
            i = i + 1;
        }
        bit_vecs
    }
}


/// The word covers the first `k` of the listed columns.
pub open spec fn covers_cols_upto(w: u64, rows: Seq<Seq<bool>>, rcols: Seq<usize>, k: int) -> bool {
    forall|c2: int| 0 <= c2 < k ==> bv_covers_col(w, rows, (#[trigger] rcols[c2]) as int)
}

/// The frontier is complete: every in-range cover of the first `k` listed
/// columns has a frontier element below it.
#[verifier::opaque]
pub open spec fn frontier_complete(
    cur: Seq<u64>,
    rows: Seq<Seq<bool>>,
    rcols: Seq<usize>,
    k: int,
) -> bool {
    forall|w: u64|
        #[trigger] bv_below(w, rows.len() as int) && covers_cols_upto(w, rows, rcols, k)
            ==> dominated_in(cur, w)
}

/// Pruning dominated covers, or reordering, keeps the frontier complete.
proof fn lemma_dom_keep(
    pre: Seq<u64>,
    post: Seq<u64>,
    rows: Seq<Seq<bool>>,
    rcols: Seq<usize>,
    k: int,
)
    requires
        frontier_complete(pre, rows, rcols, k),
        forall|z: int| 0 <= z < pre.len() ==> dominated_in(post, #[trigger] pre[z]),
    ensures
        frontier_complete(post, rows, rcols, k),
{
    reveal(crate::petrick::frontier_complete);
    assert forall|w: u64|
        #[trigger] bv_below(w, rows.len() as int) && covers_cols_upto(w, rows, rcols, k) implies
        dominated_in(post, w) by {
        assert(dominated_in(pre, w));
        let zf = choose|zf: int| 0 <= zf < pre.len() && bv_subset(#[trigger] pre[zf], w);
        assert(dominated_in(post, pre[zf]));
        let z2 = choose|z2: int| 0 <= z2 < post.len() && bv_subset(#[trigger] post[z2], pre[zf]);
        lemma_bv_subset_trans(post[z2], pre[zf], w);
    }
}

/// One Petrick combination step keeps the frontier complete: any in-range
/// cover of the columns handled so far, the new one included, has a
/// frontier element below it.
proof fn lemma_dom_step(
    cur: Seq<BitVec>,
    opts: Seq<BitVec>,
    nxt: Seq<BitVec>,
    rows1: Seq<Seq<bool>>,
    rcols: Seq<usize>,
    idx: int,
)
    requires
        0 <= idx < rcols.len(),
        rows1.len() <= 64,
        forall|i: int|
            0 <= i < rows1.len() && (#[trigger] rows1[i])[rcols[idx] as int] ==> in_words(
                bv_views(opts),
                1u64 << (i as u64),
            ),
        forall|p: int, q: int|
            0 <= p < cur.len() && 0 <= q < opts.len() ==> in_words(
                bv_views(nxt),
                (#[trigger] cur[p]@) | (#[trigger] opts[q]@),
            ),
        frontier_complete(bv_views(cur), rows1, rcols, idx),
    ensures
        frontier_complete(bv_views(nxt), rows1, rcols, idx + 1),
{
    reveal(crate::petrick::frontier_complete);
    assert forall|w: u64|
        #[trigger] bv_below(w, rows1.len() as int) && covers_cols_upto(w, rows1, rcols, idx + 1)
        implies dominated_in(bv_views(nxt), w) by {
        assert(covers_cols_upto(w, rows1, rcols, idx));
        assert(dominated_in(bv_views(cur), w));
        let z = choose|z: int| 0 <= z < bv_views(cur).len() && bv_subset(bv_views(cur)[z], w);
        assert(bv_covers_col(w, rows1, rcols[idx] as int));
        let i = choose|i: int|
            0 <= i < rows1.len() && i < 64 && bv_bit(w, i as u64) && (#[trigger] rows1[i])[rcols[idx] as int];
        assert(in_words(bv_views(opts), 1u64 << (i as u64)));
        let q = choose|q: int|
            0 <= q < bv_views(opts).len() && bv_views(opts)[q] == 1u64 << (i as u64);
        assert(cur[z]@ == bv_views(cur)[z]);
        assert(opts[q]@ == bv_views(opts)[q]);
        assert(in_words(bv_views(nxt), cur[z]@ | opts[q]@));
        let z2 = choose|z2: int|
            0 <= z2 < bv_views(nxt).len() && bv_views(nxt)[z2] == (cur[z]@ | opts[q]@);
        lemma_bv_bit_subset(w, i as u64);
        lemma_bv_or_subset(cur[z]@, opts[q]@, w);
        assert(bv_subset(bv_views(nxt)[z2], w));
    }
}

/// The selection is minimal over the reduced chart: any word of row
/// indices of the reduced (essential-free) chart that covers every column
/// no essential row covers names at least as many rows as the selection
/// holds beyond the essential ones.
#[verifier::opaque]
pub open spec fn residual_minimal(rows: Seq<Seq<bool>>, terms: Seq<Seq<u8>>, res_len: int) -> bool {
    ({
        let keep = Seq::new(rows.len(), |i: int| !essential_row(rows, i));
        let reduced = filter_by_flags(rows, keep);
        let ess = Seq::new(rows.len(), |i: int| essential_row(rows, i));
        forall|w: u64|
            #[trigger] bv_below(w, reduced.len() as int) && (forall|j: int|
                0 <= j < rows[0].len() && !(#[trigger] covered_by_essential(rows, j))
                    ==> bv_covers_col(w, reduced, j)) ==> res_len <= filter_by_flags(terms, ess).len()
                + pop64(w)
    })
}

/// After extracting the essentials: the handed-back essentials are among
/// the given implicants and cover every column an essential row covers,
/// and the reduced chart stays rectangular with implicants from the given
/// list.
pub(crate) proof fn lemma_after_essentials(
    rows0: Seq<Seq<bool>>,
    terms0: Seq<Seq<u8>>,
    rows1: Seq<Seq<bool>>,
    terms1: Seq<Seq<u8>>,
    res0: Seq<Seq<u8>>,
    ncols: int,
)
    requires
        rows0.len() == terms0.len(),
        ncols == rows0[0].len(),
        forall|i: int| 0 <= i < rows0.len() ==> (#[trigger] rows0[i]).len() == ncols,
        rows1 == filter_by_flags(rows0, Seq::new(rows0.len(), |i: int| !essential_row(rows0, i))),
        terms1 == filter_by_flags(
            terms0,
            Seq::new(rows0.len(), |i: int| !essential_row(rows0, i)),
        ),
        res0 == filter_by_flags(
            terms0,
            Seq::new(rows0.len(), |i: int| essential_row(rows0, i)),
        ).reverse(),
    ensures
        terms1.len() == rows1.len(),
        rows1.len() <= rows0.len(),
        res0.len() == filter_by_flags(
            terms0,
            Seq::new(rows0.len(), |i: int| essential_row(rows0, i)),
        ).len(),
        forall|z: int| 0 <= z < res0.len() ==> in_list(terms0, #[trigger] res0[z]),
        forall|j: int|
            0 <= j < ncols && covered_by_essential(rows0, j) ==> col_covered_by_chosen(
                rows0,
                terms0,
                res0,
                j,
            ),
        forall|z: int|
            0 <= z < rows1.len() ==> (#[trigger] rows1[z]).len() == ncols && in_list(
                terms0,
                terms1[z],
            ),
        forall|z: int| 0 <= z < terms1.len() ==> in_list(terms0, #[trigger] terms1[z]),
        no_dup_terms(terms0) ==> (forall|p: int, q: int|
            0 <= p < q < res0.len() ==> res0[p] != res0[q]),
        forall|z: int|
            0 <= z < res0.len() ==> crate::drawn_from(
                terms0,
                Seq::new(rows0.len(), |i: int| essential_row(rows0, i)),
                true,
                #[trigger] res0[z],
            ),
{
    let keepf = Seq::new(rows0.len(), |i: int| !essential_row(rows0, i));
    let essf = Seq::new(rows0.len(), |i: int| essential_row(rows0, i));
    lemma_filter_same_len(rows0, terms0, keepf);
    lemma_filter_len_le(rows0, keepf);
    lemma_filter_same_len(terms0, rows0, essf);
    lemma_filter_len_le(terms0, essf);
    assert(filter_by_flags(terms0, essf).reverse().len() == filter_by_flags(terms0, essf).len());
    assert forall|z: int| 0 <= z < res0.len() implies in_list(terms0, #[trigger] res0[z]) by {
        let ff = filter_by_flags(terms0, essf);
        let zz = ff.len() - 1 - z;
        assert(res0[z] == ff[zz]);
        lemma_filter_pair_index(terms0, rows0, essf, zz);
        let i = choose|i: int|
            0 <= i < terms0.len() && #[trigger] essf[i] && filter_by_flags(terms0, essf)[zz]
                == terms0[i] && filter_by_flags(rows0, essf)[zz] == rows0[i];
        assert(in_list(terms0, terms0[i]));
    }
    assert forall|j: int|
        0 <= j < ncols && covered_by_essential(rows0, j) implies col_covered_by_chosen(
        rows0,
        terms0,
        res0,
        j,
    ) by {
        let i = choose|i: int|
            0 <= i < rows0.len() && #[trigger] essential_row(rows0, i) && rows0[i][j];
        lemma_filter_pair_contains(terms0, rows0, essf, i);
        let z = choose|z: int|
            0 <= z < filter_by_flags(terms0, essf).len() && #[trigger] filter_by_flags(
                terms0,
                essf,
            )[z] == terms0[i] && filter_by_flags(rows0, essf)[z] == rows0[i];
        let ff2 = filter_by_flags(terms0, essf);
        let zz = ff2.len() - 1 - z;
        assert(ff2.reverse()[zz] == ff2[z]);
        assert(res0[zz] == terms0[i]);
        assert(in_list(res0, terms0[i]));
    }
    assert forall|z: int| 0 <= z < rows1.len() implies (#[trigger] rows1[z]).len() == ncols
        && in_list(terms0, terms1[z]) by {
        lemma_filter_pair_index(rows0, terms0, keepf, z);
        let i = choose|i: int|
            0 <= i < rows0.len() && #[trigger] keepf[i] && filter_by_flags(rows0, keepf)[z]
                == rows0[i] && filter_by_flags(terms0, keepf)[z] == terms0[i];
        assert(in_list(terms0, terms0[i]));
    }
    assert forall|z: int| 0 <= z < terms1.len() implies in_list(terms0, #[trigger] terms1[z]) by {
        assert(rows1[z].len() == ncols && in_list(terms0, terms1[z]));
    }
    assert forall|z: int| 0 <= z < res0.len() implies crate::drawn_from(
        terms0,
        essf,
        true,
        #[trigger] res0[z],
    ) by {
        let ff = filter_by_flags(terms0, essf);
        let zz = ff.len() - 1 - z;
        assert(res0[z] == ff[zz]);
        lemma_filter_pair_index(terms0, rows0, essf, zz);
        let i = choose|i: int|
            0 <= i < terms0.len() && #[trigger] essf[i] && filter_by_flags(terms0, essf)[zz]
                == terms0[i] && filter_by_flags(rows0, essf)[zz] == rows0[i];
        assert(essf[i] == true && res0[z] == terms0[i]);
    }
    if no_dup_terms(terms0) {
        crate::lemma_filter_no_dup(terms0, essf);
        crate::lemma_reverse_no_dup(filter_by_flags(terms0, essf));
        assert forall|p: int, q: int| 0 <= p < q < res0.len() implies res0[p] != res0[q] by {
            assert(filter_by_flags(terms0, essf).reverse()[p] != filter_by_flags(
                terms0,
                essf,
            ).reverse()[q]);
        }
    }
}

/// The selection is duplicate-free: the essentials are distinct, the
/// chosen implicants come from distinct reduced rows, and no essential
/// implicant equals a non-essential one.
proof fn lemma_result_no_dup(
    rows0: Seq<Seq<bool>>,
    terms0: Seq<Seq<u8>>,
    resv: Seq<Seq<u8>>,
    e: int,
    indices: Seq<usize>,
)
    requires
        rows0.len() == terms0.len(),
        no_dup_terms(terms0),
        0 <= e <= resv.len(),
        resv.len() == e + indices.len(),
        forall|p: int, q: int| 0 <= p < q < e ==> resv[p] != resv[q],
        forall|z: int|
            0 <= z < e ==> crate::drawn_from(
                terms0,
                Seq::new(rows0.len(), |i: int| essential_row(rows0, i)),
                true,
                #[trigger] resv[z],
            ),
        forall|z: int|
            0 <= z < indices.len() ==> (#[trigger] indices[z]) < filter_by_flags(
                terms0,
                Seq::new(rows0.len(), |i: int| !essential_row(rows0, i)),
            ).len(),
        forall|z: int|
            0 <= z < indices.len() ==> #[trigger] resv[e + z] == filter_by_flags(
                terms0,
                Seq::new(rows0.len(), |i: int| !essential_row(rows0, i)),
            )[indices[z] as int],
        forall|z1: int, z2: int| 0 <= z1 < z2 < indices.len() ==> indices[z1] < indices[z2],
    ensures
        no_dup_terms(resv),
{
    let keepf = Seq::new(rows0.len(), |i: int| !essential_row(rows0, i));
    let essf = Seq::new(rows0.len(), |i: int| essential_row(rows0, i));
    let terms1 = filter_by_flags(terms0, keepf);
    crate::lemma_filter_no_dup(terms0, keepf);
    crate::lemma_filter_same_len(terms0, rows0, keepf);
    crate::lemma_filter_len_le(terms0, keepf);
    assert forall|p: int, q: int| e <= p < q < resv.len() implies resv[p] != resv[q] by {
        let z1 = p - e;
        let z2 = q - e;
        assert(resv[e + z1] == terms1[indices[z1] as int]);
        assert(resv[e + z2] == terms1[indices[z2] as int]);
        assert(indices[z1] < indices[z2]);
        assert(terms1[indices[z1] as int] != terms1[indices[z2] as int]);
    }
    assert forall|z: int| 0 <= z < e implies crate::drawn_from(
        terms0,
        essf,
        true,
        #[trigger] resv[z],
    ) by {}
    assert forall|z: int| e <= z < resv.len() implies crate::drawn_from(
        terms0,
        essf,
        false,
        #[trigger] resv[z],
    ) by {
        let zc = z - e;
        assert(resv[e + zc] == terms1[indices[zc] as int]);
        lemma_filter_pair_index(terms0, rows0, keepf, indices[zc] as int);
        let i = choose|i: int|
            0 <= i < terms0.len() && #[trigger] keepf[i] && filter_by_flags(terms0, keepf)[indices[zc] as int]
                == terms0[i] && filter_by_flags(rows0, keepf)[indices[zc] as int] == rows0[i];
        assert(essf[i] == false && resv[z] == terms0[i]);
    }
    crate::lemma_no_dup_two_sources(resv, e, terms0, essf);
}

/// Assembles the coverage guarantee: every chart column is covered by
/// some implicant of the final selection — through an essential row, or
/// through a row of the chosen residual cover.
proof fn lemma_assemble_coverage(
    rows0: Seq<Seq<bool>>,
    terms0: Seq<Seq<u8>>,
    rows1: Seq<Seq<bool>>,
    terms1: Seq<Seq<u8>>,
    rcols: Seq<usize>,
    indices: Seq<usize>,
    chosen: u64,
    res0: Seq<Seq<u8>>,
    resv: Seq<Seq<u8>>,
    ncols: int,
)
    requires
        rows0.len() == terms0.len(),
        ncols <= 64,
        rows1 == filter_by_flags(rows0, Seq::new(rows0.len(), |i: int| !essential_row(rows0, i))),
        terms1 == filter_by_flags(
            terms0,
            Seq::new(rows0.len(), |i: int| !essential_row(rows0, i)),
        ),
        terms1.len() == rows1.len(),
        forall|j: int|
            0 <= j < ncols && !covered_by_essential(rows0, j) ==> in_usize_list(rcols, j as usize),
        forall|c2: int|
            0 <= c2 < rcols.len() ==> bv_covers_col(chosen, rows1, (#[trigger] rcols[c2]) as int),
        forall|i: u64| i < 64 && #[trigger] bv_bit(chosen, i) ==> in_usize_list(indices, i as usize),
        forall|z: int| 0 <= z < indices.len() ==> in_list(resv, #[trigger] terms1[indices[z] as int]),
        forall|z: int| 0 <= z < indices.len() ==> (#[trigger] indices[z]) < terms1.len(),
        forall|z: int| 0 <= z < res0.len() ==> #[trigger] resv[z] == res0[z],
        resv.len() >= res0.len(),
        forall|j: int|
            0 <= j < ncols && covered_by_essential(rows0, j) ==> col_covered_by_chosen(
                rows0,
                terms0,
                res0,
                j,
            ),
    ensures
        forall|j: int| 0 <= j < ncols ==> col_covered_by_chosen(rows0, terms0, resv, j),
{
    let keepf = Seq::new(rows0.len(), |i: int| !essential_row(rows0, i));
    assert forall|j: int| 0 <= j < ncols implies col_covered_by_chosen(
        rows0,
        terms0,
        resv,
        j,
    ) by {
        if covered_by_essential(rows0, j) {
            let i = choose|i: int|
                0 <= i < rows0.len() && (#[trigger] rows0[i])[j] && in_list(res0, terms0[i]);
            let w = choose|w: int| 0 <= w < res0.len() && res0[w] == terms0[i];
            assert(resv[w] == terms0[i]);
            assert(in_list(resv, terms0[i]));
        } else {
            assert(in_usize_list(rcols, j as usize));
            let c2 = choose|c2: int| 0 <= c2 < rcols.len() && rcols[c2] == j as usize;
            assert(rcols[c2] as int == j);
            assert(bv_covers_col(chosen, rows1, j));
            let i1 = choose|i1: int|
                0 <= i1 < rows1.len() && i1 < 64 && bv_bit(chosen, i1 as u64) && (
                #[trigger] rows1[i1])[j];
            assert((i1 as u64) < 64 && bv_bit(chosen, i1 as u64));
            assert(in_usize_list(indices, (i1 as u64) as usize));
            assert((i1 as u64) as usize == i1 as usize);
            let z = choose|z: int| 0 <= z < indices.len() && indices[z] == i1 as usize;
            assert(in_list(resv, terms1[indices[z] as int]));
            assert(indices[z] as int == i1);
            assert(in_list(resv, terms1[i1]));
            lemma_filter_pair_index(rows0, terms0, keepf, i1);
            let iold = choose|iold: int|
                0 <= iold < rows0.len() && #[trigger] keepf[iold] && filter_by_flags(
                    rows0,
                    keepf,
                )[i1] == rows0[iold] && filter_by_flags(terms0, keepf)[i1] == terms0[iold];
            assert(rows0[iold][j]);
            assert(terms1[i1] == terms0[iold]);
        }
    }
}

/// After the final sort, the frontier is still complete and its first
/// element has the fewest set bits.
proof fn lemma_sorted_frontier(
    fin0: Seq<u64>,
    post: Seq<u64>,
    rows1: Seq<Seq<bool>>,
    rcols: Seq<usize>,
)
    requires
        post.len() == fin0.len(),
        post.len() >= 1,
        forall|w: int| 0 <= w < fin0.len() ==> in_words(post, #[trigger] fin0[w]),
        forall|z1: int, z2: int| 0 <= z1 < z2 < post.len() ==> bv_key_le(post[z1], post[z2]),
        frontier_complete(fin0, rows1, rcols, rcols.len() as int),
    ensures
        frontier_complete(post, rows1, rcols, rcols.len() as int),
        forall|z: int| 0 <= z < post.len() ==> pop64(post[0]) <= pop64(#[trigger] post[z]),
{
    assert forall|z: int| 0 <= z < fin0.len() implies dominated_in(post, #[trigger] fin0[z]) by {
        assert(in_words(post, fin0[z]));
        let z2 = choose|z2: int| 0 <= z2 < post.len() && post[z2] == fin0[z];
        lemma_bv_subset_refl(fin0[z]);
        assert(bv_subset(post[z2], fin0[z]));
    }
    lemma_dom_keep(fin0, post, rows1, rcols, rcols.len() as int);
    assert forall|z: int| 0 <= z < post.len() implies pop64(post[0]) <= pop64(
        #[trigger] post[z],
    ) by {
        if z > 0 {
            assert(bv_key_le(post[0], post[z]));
        }
    }
}

/// A selection holding exactly the essential implicants is minimal.
proof fn lemma_residual_trivial(rows0: Seq<Seq<bool>>, terms0: Seq<Seq<u8>>, res_len: int)
    requires
        res_len == filter_by_flags(
            terms0,
            Seq::new(rows0.len(), |i: int| essential_row(rows0, i)),
        ).len(),
    ensures
        residual_minimal(rows0, terms0, res_len),
{
    reveal(crate::petrick::residual_minimal);
}

/// Concludes minimality of the selection over the reduced chart.
proof fn lemma_conclude_residual(
    rows0: Seq<Seq<bool>>,
    terms0: Seq<Seq<u8>>,
    rows1: Seq<Seq<bool>>,
    rcols: Seq<usize>,
    cur: Seq<u64>,
    chosen: u64,
    res_len: int,
    ncols: int,
)
    requires
        ncols == rows0[0].len(),
        rows1 == filter_by_flags(rows0, Seq::new(rows0.len(), |i: int| !essential_row(rows0, i))),
        forall|z: int|
            0 <= z < rcols.len() ==> (#[trigger] rcols[z]) < ncols && !covered_by_essential(
                rows0,
                rcols[z] as int,
            ),
        forall|j: int|
            0 <= j < ncols && !covered_by_essential(rows0, j) ==> in_usize_list(rcols, j as usize),
        frontier_complete(cur, rows1, rcols, rcols.len() as int),
        forall|z: int| 0 <= z < cur.len() ==> pop64(chosen) <= pop64(#[trigger] cur[z]),
        res_len == filter_by_flags(
            terms0,
            Seq::new(rows0.len(), |i: int| essential_row(rows0, i)),
        ).len() + pop64(chosen),
    ensures
        residual_minimal(rows0, terms0, res_len),
{
    reveal(crate::petrick::residual_minimal);
    lemma_chosen_minimal(
        rows0,
        rows1,
        rcols,
        cur,
        chosen,
        filter_by_flags(terms0, Seq::new(rows0.len(), |i: int| essential_row(rows0, i))).len() as int,
        res_len,
        ncols,
    );
}

/// Any in-range cover of every remaining column has at least as many rows
/// as the cover chosen from the frontier.
proof fn lemma_chosen_minimal(
    rows0: Seq<Seq<bool>>,
    rows1: Seq<Seq<bool>>,
    rcols: Seq<usize>,
    cur: Seq<u64>,
    chosen: u64,
    e: int,
    res_len: int,
    ncols: int,
)
    requires
        forall|z: int|
            0 <= z < rcols.len() ==> (#[trigger] rcols[z]) < ncols && !covered_by_essential(
                rows0,
                rcols[z] as int,
            ),
        forall|j: int|
            0 <= j < ncols && !covered_by_essential(rows0, j) ==> in_usize_list(rcols, j as usize),
        frontier_complete(cur, rows1, rcols, rcols.len() as int),
        forall|z: int| 0 <= z < cur.len() ==> pop64(chosen) <= pop64(#[trigger] cur[z]),
        res_len == e + pop64(chosen),
    ensures
        forall|w: u64|
            #[trigger] bv_below(w, rows1.len() as int) && (forall|j: int|
                0 <= j < ncols && !(#[trigger] covered_by_essential(rows0, j)) ==> bv_covers_col(
                    w,
                    rows1,
                    j,
                )) ==> res_len <= e + pop64(w),
{
    reveal(crate::petrick::frontier_complete);
    assert forall|w: u64|
        #[trigger] bv_below(w, rows1.len() as int) && (forall|j: int|
            0 <= j < ncols && !(#[trigger] covered_by_essential(rows0, j)) ==> bv_covers_col(
                w,
                rows1,
                j,
            )) implies res_len <= e + pop64(w) by {
        assert(covers_cols_upto(w, rows1, rcols, rcols.len() as int)) by {
            assert forall|c2: int| 0 <= c2 < rcols.len() implies bv_covers_col(
                w,
                rows1,
                (#[trigger] rcols[c2]) as int,
            ) by {
                assert((rcols[c2] as int) < ncols && !covered_by_essential(
                    rows0,
                    rcols[c2] as int,
                ));
            }
        }
        assert(dominated_in(cur, w));
        let zf = choose|zf: int| 0 <= zf < cur.len() && bv_subset(#[trigger] cur[zf], w);
        lemma_pop_monotone(cur[zf], w);
        assert(pop64(chosen) <= pop64(cur[zf]));
    }
}

/// One Petrick combination step: unioning each partial cover with each
/// option of the next column keeps all bits in range and covers all
/// columns handled so far, the new one included.
proof fn lemma_frontier_step(
    cur: Seq<BitVec>,
    opts: Seq<BitVec>,
    nxt: Seq<BitVec>,
    rows1: Seq<Seq<bool>>,
    rcols: Seq<usize>,
    idx: int,
)
    requires
        0 <= idx < rcols.len(),
        rows1.len() <= 64,
        forall|z: int|
            0 <= z < opts.len() ==> option_of(rows1, rcols[idx] as int, #[trigger] bv_views(opts)[z]),
        forall|z: int|
            0 <= z < cur.len() ==> bv_below(#[trigger] bv_views(cur)[z], rows1.len() as int),
        forall|z: int, c2: int|
            0 <= z < cur.len() && 0 <= c2 < idx ==> bv_covers_col(
                #[trigger] bv_views(cur)[z],
                rows1,
                (#[trigger] rcols[c2]) as int,
            ),
        forall|z: int|
            0 <= z < nxt.len() ==> is_or_of(cur, opts, #[trigger] bv_views(nxt)[z]),
    ensures
        forall|z: int|
            0 <= z < nxt.len() ==> bv_below(#[trigger] bv_views(nxt)[z], rows1.len() as int),
        forall|z: int, c2: int|
            0 <= z < nxt.len() && 0 <= c2 <= idx ==> bv_covers_col(
                #[trigger] bv_views(nxt)[z],
                rows1,
                (#[trigger] rcols[c2]) as int,
            ),
{
    assert forall|z: int|
        0 <= z < nxt.len() implies bv_below(#[trigger] bv_views(nxt)[z], rows1.len() as int) && (
    forall|c2: int|
        0 <= c2 <= idx ==> bv_covers_col(
            bv_views(nxt)[z],
            rows1,
            (#[trigger] rcols[c2]) as int,
        )) by {
        assert(is_or_of(cur, opts, bv_views(nxt)[z]));
        let (p, q) = choose|p: int, q: int|
            #![trigger cur[p], opts[q]]
            0 <= p < cur.len() && 0 <= q < opts.len() && bv_views(nxt)[z] == (cur[p]@ | opts[q]@);
        let a = cur[p]@;
        let b = opts[q]@;
        assert(a == bv_views(cur)[p]);
        assert(b == bv_views(opts)[q]);
        assert(option_of(rows1, rcols[idx] as int, b));
        let bi = choose|bi: int|
            0 <= bi < rows1.len() && (#[trigger] rows1[bi])[rcols[idx] as int] && b == 1u64 << (
            bi as u64);
        assert forall|i: u64| i < 64 && #[trigger] bv_bit(a | b, i) implies i < rows1.len() by {
            lemma_or_bits(a, b, i);
            if bv_bit(b, i) {
                lemma_single_bit(bi as u64, i);
            }
        }
        assert forall|c2: int| 0 <= c2 <= idx implies bv_covers_col(
            bv_views(nxt)[z],
            rows1,
            (#[trigger] rcols[c2]) as int,
        ) by {
            if c2 < idx {
                assert(bv_covers_col(a, rows1, rcols[c2] as int));
                let ai = choose|ai: int|
                    0 <= ai < rows1.len() && ai < 64 && bv_bit(a, ai as u64) && (
                    #[trigger] rows1[ai])[rcols[c2] as int];
                lemma_or_bits(a, b, ai as u64);
                assert(bv_bit(a | b, ai as u64));
            } else {
                lemma_single_bit(bi as u64, bi as u64);
                assert(bv_bit(b, bi as u64));
                lemma_or_bits(a, b, bi as u64);
                assert(bv_bit(a | b, bi as u64));
            }
        }
    }
}

/// Selects a minimum set of the given prime implicants that covers every
/// chart column: the essential implicants always, plus a smallest cover of
/// the remaining columns chosen by Petrick's product-of-sums expansion.
/// Every returned term is one of the given implicants, and every column is
/// covered by some returned term.
#[verifier::rlimit(100)]
pub fn get_minimal_sop_terms(prime_impl_chart: PrimeImplicateChart, prime_impls: Vec<Minterm>) -> (res: (
    Vec<Minterm>,
    PetrickTimeInfo,
))
    requires
        prime_impl_chart@.len() == prime_impls@.len(),
        prime_impl_chart@.len() >= 1,
        prime_impl_chart@.len() <= 64,
        prime_impl_chart@[0].len() >= 1,
        prime_impl_chart@[0].len() <= 64,
        no_dup_terms(term_views(prime_impls@)),
        forall|i: int|
            0 <= i < prime_impl_chart@.len() ==> (#[trigger] prime_impl_chart@[i]).len()
                == prime_impl_chart@[0].len(),
        forall|j: int| 0 <= j < prime_impl_chart@[0].len() ==> col_covered(prime_impl_chart@, j),
    ensures
        forall|j: int|
            0 <= j < prime_impl_chart@[0].len() ==> col_covered_by_chosen(
                prime_impl_chart@,
                term_views(prime_impls@),
                term_views(res.0@),
                j,
            ),
        forall|z: int|
            0 <= z < res.0@.len() ==> in_list(
                term_views(prime_impls@),
                #[trigger] term_views(res.0@)[z],
            ),
        no_dup_terms(term_views(res.0@)),
        residual_minimal(prime_impl_chart@, term_views(prime_impls@), res.0@.len() as int),
{
    let ghost rows0 = prime_impl_chart@;
    let ghost terms0 = term_views(prime_impls@);
    let ghost ncols = rows0[0].len() as int;
    let mut chart = prime_impl_chart;
    let mut primes = prime_impls;
    let mut time = PetrickTimeInfo::default();
    let (mut min_expr_terms, remaining_cols) = remove_essential_prime_impls(
        &mut chart,
        &mut primes,
        &mut time,
    );
    let ghost keepf = Seq::new(rows0.len(), |i: int| !essential_row(rows0, i));
    let ghost essf = Seq::new(rows0.len(), |i: int| essential_row(rows0, i));
    let ghost rows1 = chart@;
    let ghost terms1 = term_views(primes@);
    proof {
        lemma_after_essentials(
            rows0,
            terms0,
            rows1,
            terms1,
            term_views(min_expr_terms@),
            ncols,
        );
    }
    if remaining_cols.len() == 0 {
        proof {
            assert forall|j: int| 0 <= j < ncols implies col_covered_by_chosen(
                rows0,
                terms0,
                term_views(min_expr_terms@),
                j,
            ) by {
                if !covered_by_essential(rows0, j) {
                    assert(in_usize_list(remaining_cols@, j as usize));
                }
            }
            assert(term_views(min_expr_terms@).len() == filter_by_flags(terms0, essf).len()) by {
                assert(term_views(min_expr_terms@) == filter_by_flags(terms0, essf).reverse());
                assert(filter_by_flags(terms0, essf).reverse().len() == filter_by_flags(
                    terms0,
                    essf,
                ).len());
            }
            lemma_residual_trivial(rows0, terms0, term_views(min_expr_terms@).len() as int);
            lemma_result_no_dup(
                rows0,
                terms0,
                term_views(min_expr_terms@),
                term_views(min_expr_terms@).len() as int,
                Seq::empty(),
            );
        }
        return (min_expr_terms, time);
    }
    // The options of each remaining column over the reduced chart.
    let mut col_bitvecs: Vec<Vec<BitVec>> = Vec::new();
    let mut c: usize = 0;
    while c < remaining_cols.len()
        invariant
            c <= remaining_cols@.len(),
            rows1 == chart@,
            rows1.len() <= 64,
            rows0.len() == terms0.len(),
            forall|z: int| 0 <= z < rows1.len() ==> (#[trigger] rows1[z]).len() == ncols,
            forall|z: int|
                0 <= z < remaining_cols@.len() ==> (#[trigger] remaining_cols@[z]) < ncols
                    && !covered_by_essential(rows0, remaining_cols@[z] as int),
            rows1 == filter_by_flags(rows0, keepf),
            forall|j2: int| 0 <= j2 < ncols ==> col_covered(rows0, j2),
            forall|i: int| 0 <= i < rows0.len() ==> (#[trigger] rows0[i]).len() == ncols,
            keepf == Seq::new(rows0.len(), |i: int| !essential_row(rows0, i)),
            col_bitvecs@.len() == c,
            forall|c2: int|
                0 <= c2 < c ==> (#[trigger] col_bitvecs@[c2])@.len() >= 1,
            forall|c2: int, z: int|
                0 <= c2 < c && 0 <= z < col_bitvecs@[c2]@.len() ==> option_of(
                    rows1,
                    remaining_cols@[c2] as int,
                    #[trigger] bv_views(col_bitvecs@[c2]@)[z],
                ),
            forall|c2: int, i: int|
                0 <= c2 < c && 0 <= i < rows1.len() && (#[trigger] rows1[i])[remaining_cols@[c2] as int]
                    ==> in_words(bv_views((#[trigger] col_bitvecs@[c2])@), 1u64 << (i as u64)),
        decreases remaining_cols@.len() - c,
    {
        let col = remaining_cols[c];
        proof {
            // the column still has a cover among the kept rows
            assert(col == remaining_cols@[c as int]);
            assert((col as int) < ncols && !covered_by_essential(rows0, col as int));
            assert(col_covered(rows0, col as int));
            let i = choose|i: int| 0 <= i < rows0.len() && (#[trigger] rows0[i])[col as int];
            assert(!essential_row(rows0, i)) by {
                if essential_row(rows0, i) {
                    assert(rows0[i][col as int]);
                    assert(covered_by_essential(rows0, col as int));
                }
            }
            assert(keepf[i]);
            lemma_filter_pair_contains(rows0, terms0, keepf, i);
            let z = choose|z: int|
                0 <= z < filter_by_flags(rows0, keepf).len() && #[trigger] filter_by_flags(
                    rows0,
                    keepf,
                )[z] == rows0[i] && filter_by_flags(terms0, keepf)[z] == terms0[i];
            assert(rows1[z][col as int]);
        }
        let opts = BitVec::bitvecs_from_chart_col(&chart, col, &mut time);
        proof {
            let z = choose|z: int| 0 <= z < rows1.len() && (#[trigger] rows1[z])[col as int];
            assert(in_words(bv_views(opts@), 1u64 << (z as u64)));
            assert(opts@.len() >= 1);
        }
        col_bitvecs.push(opts);
        c = c + 1;
    }
    // Petrick's expansion: combine the options column by column, pruning
    // dominated covers between columns.
    let mut current_bitvecs: Vec<BitVec> = Vec::new();
    current_bitvecs.push(BitVec::default());
    proof {
        assert(bv_views(current_bitvecs@)[0] == 0u64);
        assert forall|i: u64| i < 64 && #[trigger] bv_bit(0u64, i) implies i < rows1.len() by {
            assert(0u64 & (1u64 << i) == 0u64) by (bit_vector);
        }
        assert(frontier_complete(bv_views(current_bitvecs@), rows1, remaining_cols@, 0)) by {
            reveal(crate::petrick::frontier_complete);
            assert forall|w: u64|
                #[trigger] bv_below(w, rows1.len() as int) && covers_cols_upto(
                    w,
                    rows1,
                    remaining_cols@,
                    0,
                ) implies dominated_in(bv_views(current_bitvecs@), w) by {
                lemma_bv_subset_zero(w);
                assert(bv_subset(bv_views(current_bitvecs@)[0], w));
            }
        }
    }
    let ncb = col_bitvecs.len();
    let mut idx: usize = 0;
    while idx < ncb
        invariant
            idx <= ncb,
            ncb == col_bitvecs@.len(),
            ncb == remaining_cols@.len(),
            rows1.len() <= 64,
            current_bitvecs@.len() >= 1,
            forall|c2: int|
                0 <= c2 < ncb ==> (#[trigger] col_bitvecs@[c2])@.len() >= 1,
            forall|c2: int, z: int|
                0 <= c2 < ncb && 0 <= z < col_bitvecs@[c2]@.len() ==> option_of(
                    rows1,
                    remaining_cols@[c2] as int,
                    #[trigger] bv_views(col_bitvecs@[c2]@)[z],
                ),
            forall|z: int|
                0 <= z < current_bitvecs@.len() ==> bv_below(
                    #[trigger] bv_views(current_bitvecs@)[z],
                    rows1.len() as int,
                ),
            forall|z: int, c2: int|
                0 <= z < current_bitvecs@.len() && 0 <= c2 < idx ==> bv_covers_col(
                    #[trigger] bv_views(current_bitvecs@)[z],
                    rows1,
                    (#[trigger] remaining_cols@[c2]) as int,
                ),
            forall|c2: int, i: int|
                0 <= c2 < ncb && 0 <= i < rows1.len() && (#[trigger] rows1[i])[remaining_cols@[c2] as int]
                    ==> in_words(bv_views((#[trigger] col_bitvecs@[c2])@), 1u64 << (i as u64)),
            frontier_complete(bv_views(current_bitvecs@), rows1, remaining_cols@, idx as int),
        decreases ncb - idx,
    {
        let ghost cur0 = current_bitvecs@;
        let next = pairwise_and(&current_bitvecs, &col_bitvecs[idx], &mut time);
        proof {
            lemma_frontier_step(
                cur0,
                col_bitvecs@[idx as int]@,
                next@,
                rows1,
                remaining_cols@,
                idx as int,
            );
            assert forall|i: int|
                0 <= i < rows1.len() && (#[trigger] rows1[i])[remaining_cols@[idx as int] as int]
                implies in_words(bv_views(col_bitvecs@[idx as int]@), 1u64 << (i as u64)) by {}
            lemma_dom_step(
                cur0,
                col_bitvecs@[idx as int]@,
                next@,
                rows1,
                remaining_cols@,
                idx as int,
            );
        }
        current_bitvecs = next;
        if idx + 1 < ncb {
            let ghost mid = bv_views(current_bitvecs@);
            remove_redundant(&mut current_bitvecs, &mut time);
            proof {
                assert forall|z: int|
                    0 <= z < current_bitvecs@.len() implies bv_below(
                    #[trigger] bv_views(current_bitvecs@)[z],
                    rows1.len() as int,
                ) && (forall|c2: int|
                    0 <= c2 <= idx ==> bv_covers_col(
                        bv_views(current_bitvecs@)[z],
                        rows1,
                        #[trigger] remaining_cols@[c2] as int,
                    )) by {
                    let w = choose|w: int|
                        0 <= w < mid.len() && mid[w] == bv_views(current_bitvecs@)[z];
                }
                lemma_dom_keep(
                    mid,
                    bv_views(current_bitvecs@),
                    rows1,
                    remaining_cols@,
                    idx as int + 1,
                );
            }
        }
        idx = idx + 1;
    }
    // Pick a smallest cover and hand back its implicants.
    let ghost fin0 = bv_views(current_bitvecs@);
    let _ = BitVec::bitsort(&mut current_bitvecs);
    proof {
        let w = choose|w: int| 0 <= w < fin0.len() && fin0[w] == bv_views(current_bitvecs@)[0];
        assert(ncb as int == remaining_cols@.len());
        lemma_sorted_frontier(fin0, bv_views(current_bitvecs@), rows1, remaining_cols@);
    }
    let chosen_min_bitvec = current_bitvecs[0];
    let indices = chosen_min_bitvec.nonzero_indices();
    let ghost res0 = term_views(min_expr_terms@);
    let mut zz: usize = 0;
    while zz < indices.len()
        invariant
            zz <= indices@.len(),
            terms1 == term_views(primes@),
            terms1.len() == rows1.len(),
            forall|z: int|
                0 <= z < indices@.len() ==> (#[trigger] indices@[z]) < 64 && bv_bit(
                    chosen_min_bitvec@,
                    indices@[z] as u64,
                ),
            bv_below(chosen_min_bitvec@, rows1.len() as int),
            forall|z: int|
                0 <= z < term_views(min_expr_terms@).len() ==> in_list(
                    terms0,
                    #[trigger] term_views(min_expr_terms@)[z],
                ),
            forall|z: int| 0 <= z < terms1.len() ==> in_list(terms0, #[trigger] terms1[z]),
            forall|z: int| 0 <= z < res0.len() ==> term_views(min_expr_terms@)[z] == res0[z],
            term_views(min_expr_terms@).len() == res0.len() + zz,
            forall|z: int|
                0 <= z < zz ==> #[trigger] term_views(min_expr_terms@)[res0.len() + z]
                    == terms1[indices@[z] as int],
            chosen_min_bitvec@ == bv_views(current_bitvecs@)[0],
            indices@.len() == pop64(chosen_min_bitvec@),
            forall|z: int|
                0 <= z < zz ==> in_list(
                    term_views(min_expr_terms@),
                    #[trigger] terms1[indices@[z] as int],
                ),
        decreases indices@.len() - zz,
    {
        let i = indices[zz];
        proof {
            assert(bv_bit(chosen_min_bitvec@, i as u64));
            assert((i as u64) < rows1.len());
            lemma_term_views_push(min_expr_terms@, primes@[i as int]);
        }
        let ghost m0 = term_views(min_expr_terms@);
        min_expr_terms.push(primes[i].clone());
        proof {
            assert(term_views(min_expr_terms@) == m0.push(terms1[i as int]));
            assert(term_views(min_expr_terms@)[m0.len() as int] == terms1[i as int]);
            assert forall|z: int|
                0 <= z < zz + 1 implies #[trigger] term_views(min_expr_terms@)[res0.len() + z]
                    == terms1[indices@[z] as int] by {
                if z < zz {
                    assert(term_views(min_expr_terms@)[res0.len() + z] == m0[res0.len() + z]);
                }
            }
            assert forall|z: int|
                0 <= z < zz + 1 implies in_list(
                term_views(min_expr_terms@),
                #[trigger] terms1[indices@[z] as int],
            ) by {
                if z < zz {
                    let w = choose|w: int|
                        0 <= w < m0.len() && m0[w] == terms1[indices@[z] as int];
                    assert(term_views(min_expr_terms@)[w] == terms1[indices@[z] as int]);
                }
            }
        }
        zz = zz + 1;
    }
    proof {
        // minimality over the reduced chart: any in-range cover of all the
        // remaining columns has at least as many rows as the chosen one
        assert(res0.len() == filter_by_flags(terms0, essf).len()) by {
            assert(res0 == filter_by_flags(terms0, essf).reverse());
            assert(filter_by_flags(terms0, essf).reverse().len() == filter_by_flags(
                terms0,
                essf,
            ).len());
        }
        lemma_conclude_residual(
            rows0,
            terms0,
            rows1,
            remaining_cols@,
            bv_views(current_bitvecs@),
            chosen_min_bitvec@,
            term_views(min_expr_terms@).len() as int,
            ncols,
        );
        assert forall|c2: int|
            0 <= c2 < remaining_cols@.len() implies bv_covers_col(
            chosen_min_bitvec@,
            rows1,
            (#[trigger] remaining_cols@[c2]) as int,
        ) by {
            assert(bv_views(current_bitvecs@)[0] == chosen_min_bitvec@);
        }
        assert forall|z: int| 0 <= z < indices@.len() implies (#[trigger] indices@[z])
            < terms1.len() by {
            assert(bv_bit(chosen_min_bitvec@, indices@[z] as u64));
        }
        lemma_assemble_coverage(
            rows0,
            terms0,
            rows1,
            terms1,
            remaining_cols@,
            indices@,
            chosen_min_bitvec@,
            res0,
            term_views(min_expr_terms@),
            ncols,
        );
        assert forall|p: int, q: int|
            0 <= p < q < res0.len() implies term_views(min_expr_terms@)[p] != term_views(
            min_expr_terms@,
        )[q] by {
            assert(term_views(min_expr_terms@)[p] == res0[p]);
            assert(term_views(min_expr_terms@)[q] == res0[q]);
        }
        assert forall|z: int| 0 <= z < res0.len() implies crate::drawn_from(
            terms0,
            essf,
            true,
            #[trigger] term_views(min_expr_terms@)[z],
        ) by {
            assert(term_views(min_expr_terms@)[z] == res0[z]);
            assert(crate::drawn_from(terms0, essf, true, res0[z]));
        }
        lemma_result_no_dup(
            rows0,
            terms0,
            term_views(min_expr_terms@),
            res0.len() as int,
            indices@,
        );
    }
    (min_expr_terms, time)
}


/// The report text of the work counters.
pub open spec fn report_chars(t: PetrickTimeInfo) -> Seq<char> {
    "Petrick work counters:\n"@ + "-- remove_essential_prime_impls: "@ + crate::format::dec_chars(
        t.remove_essential_calls as int,
    ) + "\n"@ + "-- bitvecs_from_chart_cols:      "@ + crate::format::dec_chars(
        t.bitvecs_from_chart_cols_calls as int,
    ) + "\n"@ + "-- remove_redundant:             "@ + crate::format::dec_chars(
        t.remove_redundant_calls as int,
    ) + "\n"@ + "-- pairwise_and calls:           "@ + crate::format::dec_chars(
        t.pairwise_and_calls as int,
    )
}

impl PetrickTimeInfo {
    /// A human-readable report of the work counters.
    pub fn get_report(&self) -> (r: String)
        ensures
            r@ == report_chars(*self),
    {
        let mut message = String::new();
        message.append("Petrick work counters:\n");
        message.append("-- remove_essential_prime_impls: ");
        let s1 = crate::format::u64_to_string(self.remove_essential_calls);
        message.append(s1.as_str());
        message.append("\n");
        message.append("-- bitvecs_from_chart_cols:      ");
        let s2 = crate::format::u64_to_string(self.bitvecs_from_chart_cols_calls);
        message.append(s2.as_str());
        message.append("\n");
        message.append("-- remove_redundant:             ");
        let s3 = crate::format::u64_to_string(self.remove_redundant_calls);
        message.append(s3.as_str());
        message.append("\n");
        message.append("-- pairwise_and calls:           ");
        let s4 = crate::format::u64_to_string(self.pairwise_and_calls);
        message.append(s4.as_str());
        proof {
            assert(message@ =~= report_chars(*self));
        }
        message
    }
}

} // verus!
