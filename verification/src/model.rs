//! Mathematical model of product terms (cubes) over Boolean variables.
//!
//! A term is a sequence of position values, each `b'0'` (variable fixed at 0),
//! `b'1'` (fixed at 1) or `b'x'` (unconstrained).  A term with `k` positions
//! equal to `b'x'` stands for a cube of `2^k` variable assignments; a term
//! with none stands for a single assignment.

use vstd::prelude::*;

verus! {

/// Position value: variable fixed at 0.
pub const VAL_ZERO: u8 = 48;

/// Position value: variable fixed at 1.
pub const VAL_ONE: u8 = 49;

/// Position value: unconstrained ("don't care").
pub const VAL_X: u8 = 120;

/// The value fixes its position to 0 or 1.
pub open spec fn is_fixed_val(v: u8) -> bool {
    v == VAL_ZERO || v == VAL_ONE
}

/// The value is one of the three legal position values.
pub open spec fn is_term_val(v: u8) -> bool {
    is_fixed_val(v) || v == VAL_X
}

/// Every position of the term holds a legal value.
pub open spec fn wf_term(t: Seq<u8>) -> bool {
    forall|i: int| 0 <= i < t.len() ==> is_term_val(#[trigger] t[i])
}

/// Every position is fixed: the term denotes a single assignment.
pub open spec fn fully_fixed(t: Seq<u8>) -> bool {
    forall|i: int| 0 <= i < t.len() ==> is_fixed_val(#[trigger] t[i])
}

/// Term `p` covers term `m`: at every fixed position of `p`, `m` agrees.
/// For fully fixed `m` this says the assignment `m` lies in the cube of `p`.
pub open spec fn covers(p: Seq<u8>, m: Seq<u8>) -> bool {
    &&& p.len() == m.len()
    &&& forall|i: int| 0 <= i < p.len() ==> ((#[trigger] p[i]) != VAL_X ==> m[i] == p[i])
}

/// Number of unconstrained positions of a term.
pub open spec fn x_count(t: Seq<u8>) -> nat
    decreases t.len(),
{
    if t.len() == 0 {
        0
    } else {
        x_count(t.drop_last()) + (if t.last() == VAL_X {
            1nat
        } else {
            0nat
        })
    }
}

/// Terms `a` and `b` differ exactly at position `i`, where both are fixed,
/// and agree everywhere else (unconstrained positions included).
pub open spec fn mergeable_at(a: Seq<u8>, b: Seq<u8>, i: int) -> bool {
    &&& a.len() == b.len()
    &&& 0 <= i < a.len()
    &&& is_fixed_val(a[i])
    &&& is_fixed_val(b[i])
    &&& a[i] != b[i]
    &&& forall|j: int| 0 <= j < a.len() && j != i ==> a[j] == #[trigger] b[j]
}

/// Some position witnesses `mergeable_at`.
pub open spec fn mergeable(a: Seq<u8>, b: Seq<u8>) -> bool {
    exists|i: int| mergeable_at(a, b, i)
}

/// Membership of a term in a list of terms.
pub open spec fn in_list(ts: Seq<Seq<u8>>, t: Seq<u8>) -> bool {
    exists|k: int| 0 <= k < ts.len() && ts[k] == t
}

/// Every term of the list has length `n`.
pub open spec fn all_len(ts: Seq<Seq<u8>>, n: nat) -> bool {
    forall|k: int| 0 <= k < ts.len() ==> (#[trigger] ts[k]).len() == n
}

/// Every term of the list is well formed.
pub open spec fn all_wf(ts: Seq<Seq<u8>>) -> bool {
    forall|k: int| 0 <= k < ts.len() ==> wf_term(#[trigger] ts[k])
}

/// Every term of the list is fully fixed.
pub open spec fn all_fixed(ts: Seq<Seq<u8>>) -> bool {
    forall|k: int| 0 <= k < ts.len() ==> fully_fixed(#[trigger] ts[k])
}

/// The whole cube of `c` lies inside the set of assignments listed in `ms`:
/// every fully fixed term covered by `c` is an element of `ms`.
#[verifier::opaque]
pub open spec fn cube_in_onset(c: Seq<u8>, ms: Seq<Seq<u8>>) -> bool {
    forall|m: Seq<u8>| m.len() == c.len() && fully_fixed(m) && #[trigger] covers(c, m) ==> in_list(
        ms,
        m,
    )
}

/// `c` is a prime implicant of the on-set listed in `ms`: its cube lies in
/// the on-set and no enlargement (freeing one fixed position) still does.
#[verifier::opaque]
pub open spec fn prime_cube(c: Seq<u8>, ms: Seq<Seq<u8>>) -> bool {
    &&& wf_term(c)
    &&& cube_in_onset(c, ms)
    &&& forall|i: int| 0 <= i < c.len() ==> ((#[trigger] c[i]) != VAL_X ==> !cube_in_onset(
        c.update(i, VAL_X),
        ms,
    ))
}

/// A prime implicant of an on-set whose terms share one length has that
/// length: its cube is nonempty, and every covered assignment is listed.
pub proof fn lemma_prime_cube_len(c: Seq<u8>, ms: Seq<Seq<u8>>, n: nat)
    requires
        prime_cube(c, ms),
        forall|k: int| 0 <= k < ms.len() ==> (#[trigger] ms[k]).len() == n,
    ensures
        c.len() == n,
{
    reveal(crate::model::prime_cube);
    reveal(crate::model::cube_in_onset);
    let m = Seq::new(
        c.len(),
        |i: int|
            if c[i] == VAL_X {
                VAL_ZERO
            } else {
                c[i]
            },
    );
    assert(fully_fixed(m)) by {
        assert forall|i: int| 0 <= i < m.len() implies is_fixed_val(#[trigger] m[i]) by {
            assert(is_term_val(c[i]));
        }
    }
    assert(covers(c, m));
    assert(in_list(ms, m));
    let k = choose|k: int| 0 <= k < ms.len() && ms[k] == m;
    assert(ms[k].len() == n);
}

/// Every term covers itself.
pub proof fn lemma_covers_refl(t: Seq<u8>)
    ensures
        covers(t, t),
{
}

/// A fully fixed term covers only itself.
pub proof fn lemma_fixed_covers_eq(t: Seq<u8>, m: Seq<u8>)
    requires
        fully_fixed(t),
        covers(t, m),
    ensures
        m == t,
{
    assert(m =~= t);
}

/// The unconstrained-position count never exceeds the length.
pub proof fn lemma_x_count_le_len(t: Seq<u8>)
    ensures
        x_count(t) <= t.len(),
    decreases t.len(),
{
    if t.len() > 0 {
        lemma_x_count_le_len(t.drop_last());
    }
}

/// A fully fixed term has no unconstrained positions.
pub proof fn lemma_fixed_x_count_zero(t: Seq<u8>)
    requires
        fully_fixed(t),
    ensures
        x_count(t) == 0,
    decreases t.len(),
{
    if t.len() > 0 {
        assert(fully_fixed(t.drop_last()));
        lemma_fixed_x_count_zero(t.drop_last());
        assert(t.last() == t[t.len() - 1]);
    }
}

/// A well-formed term with no unconstrained positions is fully fixed.
pub proof fn lemma_x_count_zero_fixed(t: Seq<u8>)
    requires
        wf_term(t),
        x_count(t) == 0,
    ensures
        fully_fixed(t),
    decreases t.len(),
{
    if t.len() > 0 {
        assert(wf_term(t.drop_last()));
        lemma_x_count_zero_fixed(t.drop_last());
        assert(t.last() == t[t.len() - 1]);
        assert(is_term_val(t[t.len() - 1]));
        assert forall|i: int| 0 <= i < t.len() implies is_fixed_val(#[trigger] t[i]) by {
            if i < t.len() - 1 {
                assert(t.drop_last()[i] == t[i]);
                assert(is_fixed_val(t.drop_last()[i]));
            }
        }
    }
}

/// A term with an unconstrained position count above zero has such a position.
pub proof fn lemma_x_pos_exists(t: Seq<u8>)
    requires
        x_count(t) > 0,
    ensures
        exists|i: int| 0 <= i < t.len() && t[i] == VAL_X,
    decreases t.len(),
{
    if t.last() == VAL_X {
        assert(t[t.len() - 1] == VAL_X);
    } else {
        lemma_x_pos_exists(t.drop_last());
        let i = choose|i: int| 0 <= i < t.drop_last().len() && t.drop_last()[i] == VAL_X;
        assert(t[i] == VAL_X);
    }
}

/// How a single-position update changes the unconstrained-position count.
pub proof fn lemma_x_count_update(t: Seq<u8>, i: int, v: u8)
    requires
        0 <= i < t.len(),
    ensures
        x_count(t.update(i, v)) + (if t[i] == VAL_X {
            1nat
        } else {
            0nat
        }) == x_count(t) + (if v == VAL_X {
            1nat
        } else {
            0nat
        }),
    decreases t.len(),
{
    let u = t.update(i, v);
    if i == t.len() - 1 {
        assert(u.drop_last() =~= t.drop_last());
        assert(u.last() == v);
        assert(t.last() == t[i]);
    } else {
        assert(u.drop_last() =~= t.drop_last().update(i, v));
        lemma_x_count_update(t.drop_last(), i, v);
        assert(u.last() == t.last());
        assert(t.drop_last()[i] == t[i]);
    }
}

/// Terms with the same pattern of unconstrained positions have the same
/// unconstrained-position count.
pub proof fn lemma_x_count_same_pattern(a: Seq<u8>, b: Seq<u8>)
    requires
        a.len() == b.len(),
        forall|j: int| 0 <= j < a.len() ==> ((#[trigger] a[j]) == VAL_X <==> b[j] == VAL_X),
    ensures
        x_count(a) == x_count(b),
    decreases a.len(),
{
    if a.len() > 0 {
        assert(forall|j: int|
            0 <= j < a.len() - 1 ==> (#[trigger] a.drop_last()[j]) == a[j] && b.drop_last()[j]
                == b[j]);
        lemma_x_count_same_pattern(a.drop_last(), b.drop_last());
        assert(a.last() == a[a.len() - 1] && b.last() == b[b.len() - 1]);
    }
}

/// Two terms mergeable at some position have equal unconstrained counts.
pub proof fn lemma_mergeable_x_count(a: Seq<u8>, b: Seq<u8>, i: int)
    requires
        mergeable_at(a, b, i),
    ensures
        x_count(a) == x_count(b),
{
    assert forall|j: int| 0 <= j < a.len() implies ((#[trigger] a[j]) == VAL_X <==> b[j]
        == VAL_X) by {
        if j == i {
            assert(is_fixed_val(a[j]) && is_fixed_val(b[j]));
        }
    }
    lemma_x_count_same_pattern(a, b);
}

/// Merging two terms mergeable at `i` frees position `i` of either term to
/// the same result.
pub proof fn lemma_merged_sym(a: Seq<u8>, b: Seq<u8>, i: int)
    requires
        mergeable_at(a, b, i),
    ensures
        a.update(i, VAL_X) == b.update(i, VAL_X),
{
    assert(a.update(i, VAL_X) =~= b.update(i, VAL_X));
}

/// Anything covered by a term is still covered after freeing one position.
pub proof fn lemma_covers_after_free(t: Seq<u8>, i: int, m: Seq<u8>)
    requires
        0 <= i < t.len(),
        covers(t, m),
    ensures
        covers(t.update(i, VAL_X), m),
{
}

/// Anything covered by a term with one position newly fixed is covered by
/// the original term.
pub proof fn lemma_covers_after_fix(c: Seq<u8>, i: int, v: u8, m: Seq<u8>)
    requires
        0 <= i < c.len(),
        covers(c.update(i, v), m),
    ensures
        c[i] == VAL_X ==> covers(c, m),
{
    if c[i] == VAL_X {
        assert forall|j: int| 0 <= j < c.len() && (#[trigger] c[j]) != VAL_X implies m[j]
            == c[j] by {
            if j != i {
                assert(c.update(i, v)[j] == c[j]);
            }
        }
    }
}

/// The merge of two cubes of the on-set is again a cube of the on-set, one
/// level up.
pub proof fn lemma_merge_cube(a: Seq<u8>, b: Seq<u8>, i: int, ms: Seq<Seq<u8>>)
    requires
        mergeable_at(a, b, i),
        wf_term(a),
        wf_term(b),
        cube_in_onset(a, ms),
        cube_in_onset(b, ms),
    ensures
        wf_term(b.update(i, VAL_X)),
        cube_in_onset(b.update(i, VAL_X), ms),
        x_count(b.update(i, VAL_X)) == x_count(b) + 1,
        b.update(i, VAL_X).len() == b.len(),
{
    reveal(crate::model::cube_in_onset);
    reveal(crate::model::prime_cube);
    let g = b.update(i, VAL_X);
    lemma_x_count_update(b, i, VAL_X);
    assert forall|m: Seq<u8>| m.len() == g.len() && fully_fixed(m) && #[trigger] covers(g, m)
        implies in_list(ms, m) by {
        if m[i] == a[i] {
            assert forall|j: int| 0 <= j < a.len() && (#[trigger] a[j]) != VAL_X implies m[j]
                == a[j] by {
                if j != i {
                    assert(g[j] == b[j]);
                    assert(a[j] == b[j]);
                }
            }
            assert(covers(a, m));
        } else {
            assert(is_fixed_val(m[i]));
            assert(m[i] == b[i]);
            assert forall|j: int| 0 <= j < b.len() && (#[trigger] b[j]) != VAL_X implies m[j]
                == b[j] by {
                if j != i {
                    assert(g[j] == b[j]);
                }
            }
            assert(covers(b, m));
        }
    }
}

/// A fully fixed term covered by the merge of two mergeable terms is
/// covered by one of the two.
pub proof fn lemma_merged_covers_split(a: Seq<u8>, b: Seq<u8>, i: int, m: Seq<u8>)
    requires
        mergeable_at(a, b, i),
        fully_fixed(m),
        covers(b.update(i, VAL_X), m),
    ensures
        covers(a, m) || covers(b, m),
{
    let g = b.update(i, VAL_X);
    if m[i] == a[i] {
        assert forall|j: int| 0 <= j < a.len() && (#[trigger] a[j]) != VAL_X implies m[j]
            == a[j] by {
            if j != i {
                assert(g[j] == b[j]);
                assert(a[j] == b[j]);
            }
        }
        assert(covers(a, m));
    } else {
        assert(is_fixed_val(m[i]));
        assert(m[i] == b[i]);
        assert forall|j: int| 0 <= j < b.len() && (#[trigger] b[j]) != VAL_X implies m[j]
            == b[j] by {
            if j != i {
                assert(g[j] == b[j]);
            }
        }
        assert(covers(b, m));
    }
}

/// Splitting a cube with an unconstrained position `i` yields the two
/// sub-cubes one level down, mergeable back into the original.
pub proof fn lemma_cube_split(c: Seq<u8>, i: int, ms: Seq<Seq<u8>>)
    requires
        wf_term(c),
        cube_in_onset(c, ms),
        0 <= i < c.len(),
        c[i] == VAL_X,
        x_count(c) >= 1,
    ensures
        mergeable_at(c.update(i, VAL_ZERO), c.update(i, VAL_ONE), i),
        wf_term(c.update(i, VAL_ZERO)),
        wf_term(c.update(i, VAL_ONE)),
        cube_in_onset(c.update(i, VAL_ZERO), ms),
        cube_in_onset(c.update(i, VAL_ONE), ms),
        x_count(c.update(i, VAL_ZERO)) + 1 == x_count(c),
        x_count(c.update(i, VAL_ONE)) + 1 == x_count(c),
        c.update(i, VAL_ONE).update(i, VAL_X) == c,
{
    reveal(crate::model::cube_in_onset);
    reveal(crate::model::prime_cube);
    let a = c.update(i, VAL_ZERO);
    let b = c.update(i, VAL_ONE);
    lemma_x_count_update(c, i, VAL_ZERO);
    lemma_x_count_update(c, i, VAL_ONE);
    assert(b.update(i, VAL_X) =~= c);
    assert forall|m: Seq<u8>| m.len() == a.len() && fully_fixed(m) && #[trigger] covers(a, m)
        implies in_list(ms, m) by {
        lemma_covers_after_fix(c, i, VAL_ZERO, m);
    }
    assert forall|m: Seq<u8>| m.len() == b.len() && fully_fixed(m) && #[trigger] covers(b, m)
        implies in_list(ms, m) by {
        lemma_covers_after_fix(c, i, VAL_ONE, m);
    }
}

/// A cube of the on-set that is not prime has a mergeable sibling cube of
/// the on-set at the same level.
pub proof fn lemma_not_prime_sibling(c: Seq<u8>, ms: Seq<Seq<u8>>)
    requires
        wf_term(c),
        cube_in_onset(c, ms),
        !prime_cube(c, ms),
    ensures
        exists|v: Seq<u8>, i: int|
            {
                &&& #[trigger] mergeable_at(c, v, i)
                &&& wf_term(v)
                &&& cube_in_onset(v, ms)
                &&& x_count(v) == x_count(c)
                &&& v.len() == c.len()
            },
{
    reveal(crate::model::cube_in_onset);
    reveal(crate::model::prime_cube);
    let i = choose|i: int|
        0 <= i < c.len() && c[i] != VAL_X && cube_in_onset(c.update(i, VAL_X), ms);
    let w = if c[i] == VAL_ZERO {
        VAL_ONE
    } else {
        VAL_ZERO
    };
    let v = c.update(i, w);
    lemma_x_count_update(c, i, w);
    assert(mergeable_at(c, v, i));
    assert forall|m: Seq<u8>| m.len() == v.len() && fully_fixed(m) && #[trigger] covers(v, m)
        implies in_list(ms, m) by {
        assert(covers(c.update(i, VAL_X), m)) by {
            assert(forall|j: int|
                0 <= j < v.len() && j != i ==> v[j] == #[trigger] c.update(i, VAL_X)[j]);
        }
    }
    assert(mergeable_at(c, v, i) && wf_term(v) && cube_in_onset(v, ms) && x_count(v) == x_count(c)
        && v.len() == c.len());
}

/// A prime implicant cannot merge with any cube of the on-set.
pub proof fn lemma_prime_no_merge(p: Seq<u8>, v: Seq<u8>, ms: Seq<Seq<u8>>)
    requires
        prime_cube(p, ms),
        wf_term(v),
        cube_in_onset(v, ms),
    ensures
        !mergeable(p, v),
{
    reveal(crate::model::cube_in_onset);
    reveal(crate::model::prime_cube);
    if mergeable(p, v) {
        let i = choose|i: int| mergeable_at(p, v, i);
        lemma_merge_cube(p, v, i, ms);
        lemma_merged_sym(p, v, i);
        assert(!cube_in_onset(p.update(i, VAL_X), ms));
    }
}

/// From a cube with at least one unconstrained position, fixing one such
/// position yields a cube one level down.
pub proof fn lemma_cube_shrink(c: Seq<u8>, ms: Seq<Seq<u8>>)
    requires
        wf_term(c),
        cube_in_onset(c, ms),
        x_count(c) >= 1,
    ensures
        exists|d: Seq<u8>|
            {
                &&& wf_term(d)
                &&& #[trigger] cube_in_onset(d, ms)
                &&& d.len() == c.len()
                &&& x_count(d) + 1 == x_count(c)
            },
{
    reveal(crate::model::cube_in_onset);
    reveal(crate::model::prime_cube);
    lemma_x_pos_exists(c);
    let i = choose|i: int| 0 <= i < c.len() && c[i] == VAL_X;
    lemma_cube_split(c, i, ms);
    let d = c.update(i, VAL_ZERO);
    assert(wf_term(d) && cube_in_onset(d, ms) && d.len() == c.len() && x_count(d) + 1 == x_count(
        c,
    ));
}

/// Any cube of the on-set at a level at or above `r` yields one at exactly
/// level `r`.
pub proof fn lemma_cube_at_level(c: Seq<u8>, ms: Seq<Seq<u8>>, r: nat)
    requires
        wf_term(c),
        cube_in_onset(c, ms),
        x_count(c) >= r,
    ensures
        exists|d: Seq<u8>|
            {
                &&& wf_term(d)
                &&& #[trigger] cube_in_onset(d, ms)
                &&& d.len() == c.len()
                &&& x_count(d) == r
            },
    decreases x_count(c),
{
    reveal(crate::model::cube_in_onset);
    reveal(crate::model::prime_cube);
    if x_count(c) == r {
        assert(wf_term(c) && cube_in_onset(c, ms) && c.len() == c.len() && x_count(c) == r);
    } else {
        lemma_cube_shrink(c, ms);
        let d = choose|d: Seq<u8>|
            {
                &&& wf_term(d)
                &&& #[trigger] cube_in_onset(d, ms)
                &&& d.len() == c.len()
                &&& x_count(d) + 1 == x_count(c)
            };
        lemma_cube_at_level(d, ms, r);
    }
}


/// Whether a term's cube lies in an on-set depends only on which
/// assignments the on-set lists, not on their order or multiplicity.
pub proof fn lemma_cube_in_onset_same_set(ms1: Seq<Seq<u8>>, ms2: Seq<Seq<u8>>, c: Seq<u8>)
    requires
        forall|t: Seq<u8>| #[trigger] in_list(ms1, t) <==> in_list(ms2, t),
    ensures
        cube_in_onset(c, ms1) <==> cube_in_onset(c, ms2),
{
    reveal(crate::model::cube_in_onset);
    if cube_in_onset(c, ms1) {
        assert forall|m: Seq<u8>|
            m.len() == c.len() && fully_fixed(m) && #[trigger] covers(c, m) implies in_list(
            ms2,
            m,
        ) by {
            assert(in_list(ms1, m));
        }
    }
    if cube_in_onset(c, ms2) {
        assert forall|m: Seq<u8>|
            m.len() == c.len() && fully_fixed(m) && #[trigger] covers(c, m) implies in_list(
            ms1,
            m,
        ) by {
            assert(in_list(ms2, m));
        }
    }
}

/// The prime implicants of a function do not depend on the order in which
/// its on-set minterms are listed: two lists with the same members have
/// the same prime implicants.
pub proof fn lemma_primes_order_invariant(ms1: Seq<Seq<u8>>, ms2: Seq<Seq<u8>>, c: Seq<u8>)
    requires
        forall|t: Seq<u8>| #[trigger] in_list(ms1, t) <==> in_list(ms2, t),
    ensures
        prime_cube(c, ms1) <==> prime_cube(c, ms2),
{
    reveal(crate::model::prime_cube);
    lemma_cube_in_onset_same_set(ms1, ms2, c);
    if prime_cube(c, ms1) {
        assert forall|i: int| 0 <= i < c.len() && (#[trigger] c[i]) != VAL_X implies !cube_in_onset(
            c.update(i, VAL_X),
            ms2,
        ) by {
            lemma_cube_in_onset_same_set(ms1, ms2, c.update(i, VAL_X));
        }
    }
    if prime_cube(c, ms2) {
        assert forall|i: int| 0 <= i < c.len() && (#[trigger] c[i]) != VAL_X implies !cube_in_onset(
            c.update(i, VAL_X),
            ms1,
        ) by {
            lemma_cube_in_onset_same_set(ms1, ms2, c.update(i, VAL_X));
        }
    }
}

} // verus!
