//! Quine–McCluskey minimization of Boolean functions of up to six variables.
//!
//! A function is given as a list of minterms ([`Minterm`]).  The library
//! computes the complete set of prime implicants, builds the prime-implicant
//! chart, and selects a cover of the on-set either exactly (Petrick's
//! method, [`petrick`]) or greedily ([`greedy_min_sop`]), then formats the
//! result as a sum-of-products expression.

use vstd::prelude::*;

pub mod convert;
pub mod format;
pub mod greedy_min_sop;
pub mod model;
pub mod petrick;

verus! {

use vstd::string::StringSliceAdditionalSpecFns;

use crate::petrick::PetrickTimeInfo;

use crate::model::{
    all_fixed, all_len, all_wf, covers, cube_in_onset, fully_fixed, in_list, is_fixed_val,
    lemma_covers_after_free, lemma_covers_refl, lemma_cube_at_level, lemma_cube_split,
    lemma_fixed_covers_eq, lemma_fixed_x_count_zero, lemma_merge_cube, lemma_mergeable_x_count,
    lemma_merged_sym, lemma_not_prime_sibling, lemma_prime_no_merge, lemma_x_count_le_len,
    lemma_x_count_update, lemma_x_count_zero_fixed, lemma_x_pos_exists, mergeable, mergeable_at,
    prime_cube, wf_term, x_count, VAL_ONE, VAL_X, VAL_ZERO,
};

/// Views of a list of minterms, as a sequence of term sequences.
pub open spec fn term_views(s: Seq<Minterm>) -> Seq<Seq<u8>> {
    Seq::new(s.len(), |i: int| s[i]@)
}

/// View of a list of chart rows, as a sequence of Boolean sequences.
pub open spec fn row_views(s: Seq<Vec<bool>>) -> Seq<Seq<bool>> {
    Seq::new(s.len(), |i: int| s[i]@)
}

/// No two entries of the list are the same term.
pub open spec fn no_dup_terms(ts: Seq<Seq<u8>>) -> bool {
    forall|p: int, q: int| 0 <= p < q < ts.len() ==> ts[p] != ts[q]
}

// ------------------------
// Top-level API functions.

/// A failure of whole-function minimization from a hex INIT string.
#[derive(Clone, Copy, PartialEq, Eq, Structural, Debug)]
pub enum QmError {
    /// The INIT string has more than sixteen characters.
    InitTooLong,
    /// The INIT string holds a character that is not a hex digit.
    InitNotHex,
    /// More than 64 prime implicants: the cover selector's row space is a
    /// 64-bit word.
    TooManyPrimeImplicants,
}

/// The message and count describe a sum of products over the on-set `ms`:
/// a list of well-formed terms that covers every on-set term, each itself
/// covering some on-set term — and, for a fully fixed on-set, each a prime
/// implicant of it.
pub open spec fn minimized_result(ms: Seq<Seq<u8>>, n: nat, msg: Seq<char>, count: int) -> bool {
    exists|ts: Seq<Seq<u8>>|
        {
            &&& #[trigger] crate::format::sop_display(ts, true, seq![' ']) == msg
            &&& ts.len() == count
            &&& no_dup_terms(ts)
            &&& forall|z: int| 0 <= z < ts.len() ==> wf_term(#[trigger] ts[z]) && ts[z].len() == n
            &&& forall|k: int| 0 <= k < ms.len() ==> covers_some(ts, #[trigger] ms[k])
            &&& forall|z: int| 0 <= z < ts.len() ==> covered_by_some(ms, #[trigger] ts[z])
            &&& (all_fixed(ms) ==> (forall|z: int|
                0 <= z < ts.len() ==> prime_cube(#[trigger] ts[z], ms)))
        }
}

/// An empty on-set forces the empty term list, whatever the position
/// count: the result does not depend on it.
proof fn lemma_minimized_empty_any_n(ms: Seq<Seq<u8>>, n1: nat, n2: nat, msg: Seq<char>, count: int)
    requires
        ms.len() == 0,
        minimized_result(ms, n1, msg, count),
    ensures
        minimized_result(ms, n2, msg, count),
{
    reveal(crate::covered_by_some);
    let ts = choose|ts: Seq<Seq<u8>>|
        {
            &&& #[trigger] crate::format::sop_display(ts, true, seq![' ']) == msg
            &&& ts.len() == count
            &&& no_dup_terms(ts)
            &&& forall|z: int| 0 <= z < ts.len() ==> wf_term(#[trigger] ts[z]) && ts[z].len() == n1
            &&& forall|k: int| 0 <= k < ms.len() ==> covers_some(ts, #[trigger] ms[k])
            &&& forall|z: int| 0 <= z < ts.len() ==> covered_by_some(ms, #[trigger] ts[z])
            &&& (all_fixed(ms) ==> (forall|z: int|
                0 <= z < ts.len() ==> prime_cube(#[trigger] ts[z], ms)))
        };
    if ts.len() > 0 {
        assert(covered_by_some(ms, ts[0]));
        assert(!covered_by_some(ms, ts[0])) by {
            assert forall|k: int| !(0 <= k < ms.len() && covers(ts[0], #[trigger] ms[k])) by {}
        }
    }
    assert(forall|z: int| 0 <= z < ts.len() ==> wf_term(#[trigger] ts[z]) && ts[z].len() == n2);
}

/// No duplicate-free set of prime implicants that covers the whole on-set
/// has fewer members than `count`: the selection is a minimum prime cover.
#[verifier::opaque]
pub open spec fn minimal_among_prime_covers(ms: Seq<Seq<u8>>, count: int) -> bool {
    forall|other: Seq<Seq<u8>>|
        #[trigger] no_dup_terms(other) && (forall|z: int|
            0 <= z < other.len() ==> prime_cube(#[trigger] other[z], ms)) && (forall|k: int|
            0 <= k < ms.len() ==> covers_some(other, #[trigger] ms[k])) ==> count <= other.len()
}

/// Carries the selector's minimality over the reduced chart up to the
/// on-set: any duplicate-free prime cover of the on-set must hold every
/// essential prime plus a cover of the remaining columns, so it is no
/// smaller than the selection.
#[verifier::rlimit(100)]
proof fn lemma_carry_minimality(
    ms: Seq<Seq<u8>>,
    d: Seq<Seq<u8>>,
    rows: Seq<Seq<bool>>,
    n: nat,
    res_len: int,
)
    requires
        all_fixed(ms),
        1 <= ms.len() <= 64,
        1 <= d.len() <= 64,
        rows.len() == d.len(),
        forall|i: int| 0 <= i < rows.len() ==> (#[trigger] rows[i]).len() == ms.len(),
        forall|i: int, j: int|
            0 <= i < rows.len() && 0 <= j < ms.len() ==> ((#[trigger] rows[i][j]) == covers(
                d[i],
                ms[j],
            )),
        no_dup_terms(d),
        forall|k: int| 0 <= k < ms.len() ==> (#[trigger] ms[k]).len() == n,
        forall|t: Seq<u8>| #[trigger] in_list(d, t) <==> (t.len() == n && prime_cube(t, ms)),
        crate::petrick::residual_minimal(rows, d, res_len),
    ensures
        minimal_among_prime_covers(ms, res_len),
{
    reveal(crate::minimal_among_prime_covers);
    reveal(crate::petrick::residual_minimal);
    reveal(crate::covers_some);
    let keep = Seq::new(rows.len(), |i: int| !crate::petrick::essential_row(rows, i));
    let essfl = Seq::new(rows.len(), |i: int| crate::petrick::essential_row(rows, i));
    let e_list = filter_by_flags(d, essfl);
    let terms1 = filter_by_flags(d, keep);
    let rows1 = filter_by_flags(rows, keep);
    lemma_filter_same_len(d, rows, keep);
    lemma_filter_same_len(d, rows, essfl);
    lemma_filter_len_le(d, keep);
    lemma_filter_no_dup(d, essfl);
    lemma_filter_no_dup(d, keep);
    assert forall|other: Seq<Seq<u8>>|
        #[trigger] no_dup_terms(other) && (forall|z: int|
            0 <= z < other.len() ==> prime_cube(#[trigger] other[z], ms)) && (forall|k: int|
            0 <= k < ms.len() ==> covers_some(other, #[trigger] ms[k])) implies res_len
        <= other.len() by {
        // every member of the cover is one of the primes
        assert forall|z: int| 0 <= z < other.len() implies in_list(d, #[trigger] other[z]) by {
            assert(prime_cube(other[z], ms));
            crate::model::lemma_prime_cube_len(other[z], ms, n);
        }
        // every essential prime is forced into the cover
        assert forall|z: int| 0 <= z < e_list.len() implies appears_in(
            other,
            #[trigger] e_list[z],
        ) by {
            lemma_filter_pair_index(d, rows, essfl, z);
            let i = choose|i: int|
                0 <= i < d.len() && #[trigger] essfl[i] && filter_by_flags(d, essfl)[z] == d[i]
                    && filter_by_flags(rows, essfl)[z] == rows[i];
            assert(crate::petrick::essential_row(rows, i));
            let j = choose|j: int|
                0 <= j < rows[0].len() && #[trigger] crate::petrick::unique_cover(rows, j, i);
            assert(covers_some(other, ms[j]));
            let z2 = choose|z2: int| 0 <= z2 < other.len() && covers(#[trigger] other[z2], ms[j]);
            assert(in_list(d, other[z2]));
            let i2 = choose|i2: int| 0 <= i2 < d.len() && d[i2] == other[z2];
            assert(rows[i2][j] == covers(d[i2], ms[j]));
            assert(rows[i2][j]);
            assert(i2 == i);
            assert(e_list[z] == other[z2]);
        }
        // split the cover into its essential and non-essential members
        let ofl = Seq::new(other.len(), |z: int| in_list(e_list, other[z]));
        let nofl = ofl.map_values(|b: bool| !b);
        let ne = filter_by_flags(other, nofl);
        lemma_filter_complement(other, ofl);
        lemma_filter_no_dup(other, nofl);
        // the essential primes inject into the essential members
        assert forall|z: int| 0 <= z < e_list.len() implies appears_in(
            filter_by_flags(other, ofl),
            #[trigger] e_list[z],
        ) by {
            assert(appears_in(other, e_list[z]));
            let w2 = choose|w2: int| 0 <= w2 < other.len() && e_list[z] == #[trigger] other[w2];
            assert(in_list(e_list, other[w2])) by {
                assert(e_list[z] == other[w2]);
            }
            assert(ofl[w2]);
            lemma_filter_pair_contains(other, other, ofl, w2);
            let z3 = choose|z3: int|
                0 <= z3 < filter_by_flags(other, ofl).len() && #[trigger] filter_by_flags(
                    other,
                    ofl,
                )[z3] == other[w2] && filter_by_flags(other, ofl)[z3] == other[w2];
            assert(e_list[z] == filter_by_flags(other, ofl)[z3]);
        }
        lemma_nodup_in_len(e_list, filter_by_flags(other, ofl));
        // the non-essential members lie among the reduced implicants
        assert forall|z: int| 0 <= z < ne.len() implies in_list(terms1, #[trigger] ne[z]) by {
            lemma_filter_pair_index(other, other, nofl, z);
            let w2 = choose|w2: int|
                0 <= w2 < other.len() && #[trigger] nofl[w2] && filter_by_flags(other, nofl)[z]
                    == other[w2] && filter_by_flags(other, nofl)[z] == other[w2];
            assert(in_list(d, other[w2]));
            let i2 = choose|i2: int| 0 <= i2 < d.len() && d[i2] == other[w2];
            assert(!crate::petrick::essential_row(rows, i2)) by {
                if crate::petrick::essential_row(rows, i2) {
                    assert(essfl[i2]);
                    lemma_filter_pair_contains(d, rows, essfl, i2);
                    let z4 = choose|z4: int|
                        0 <= z4 < filter_by_flags(d, essfl).len() && #[trigger] filter_by_flags(
                            d,
                            essfl,
                        )[z4] == d[i2] && filter_by_flags(rows, essfl)[z4] == rows[i2];
                    assert(in_list(e_list, other[w2])) by {
                        assert(e_list[z4] == other[w2]);
                    }
                    assert(ofl[w2]);
                }
            }
            assert(keep[i2]);
            lemma_filter_pair_contains(d, rows, keep, i2);
            let z5 = choose|z5: int|
                0 <= z5 < filter_by_flags(d, keep).len() && #[trigger] filter_by_flags(
                    d,
                    keep,
                )[z5] == d[i2] && filter_by_flags(rows, keep)[z5] == rows[i2];
            assert(terms1[z5] == other[w2]);
            assert(in_list(terms1, ne[z]));
        }
        // the cover word of the non-essential members
        let w = crate::petrick::members_word(terms1, ne, terms1.len() as int);
        assert forall|p: int, q: int| 0 <= p < q < ne.len() implies ne[p] != ne[q] by {}
        crate::petrick::lemma_members_count(terms1, ne, terms1.len() as int);
        assert(crate::petrick::bv_below(w, rows1.len() as int)) by {
            assert forall|i: u64| i < 64 && #[trigger] crate::petrick::bv_bit(w, i) implies i
                < rows1.len() by {
                crate::petrick::lemma_members_word_bit(terms1, ne, terms1.len() as int, i);
            }
        }
        assert forall|j: int|
            0 <= j < rows[0].len() && !(#[trigger] crate::petrick::covered_by_essential(rows, j))
            implies crate::petrick::bv_covers_col(w, rows1, j) by {
            assert(covers_some(other, ms[j]));
            let z2 = choose|z2: int| 0 <= z2 < other.len() && covers(#[trigger] other[z2], ms[j]);
            assert(in_list(d, other[z2]));
            let i2 = choose|i2: int| 0 <= i2 < d.len() && d[i2] == other[z2];
            assert(rows[i2][j] == covers(d[i2], ms[j]));
            assert(rows[i2][j]);
            assert(!crate::petrick::essential_row(rows, i2)) by {
                if crate::petrick::essential_row(rows, i2) {
                    assert(crate::petrick::covered_by_essential(rows, j));
                }
            }
            assert(keep[i2]);
            lemma_filter_pair_contains(d, rows, keep, i2);
            let z5 = choose|z5: int|
                0 <= z5 < filter_by_flags(d, keep).len() && #[trigger] filter_by_flags(
                    d,
                    keep,
                )[z5] == d[i2] && filter_by_flags(rows, keep)[z5] == rows[i2];
            // the member is non-essential, so it sits in `ne`
            assert(!in_list(e_list, other[z2])) by {
                if in_list(e_list, other[z2]) {
                    let z6 = choose|z6: int| 0 <= z6 < e_list.len() && e_list[z6] == other[z2];
                    lemma_filter_pair_index(d, rows, essfl, z6);
                    let i3 = choose|i3: int|
                        0 <= i3 < d.len() && #[trigger] essfl[i3] && filter_by_flags(d, essfl)[z6]
                            == d[i3] && filter_by_flags(rows, essfl)[z6] == rows[i3];
                    assert(d[i3] == d[i2]);
                    assert(i3 == i2) by {
                        if i3 < i2 {
                            assert(d[i3] != d[i2]);
                        } else if i2 < i3 {
                            assert(d[i2] != d[i3]);
                        }
                    }
                }
            }
            assert(nofl[z2]);
            lemma_filter_pair_contains(other, other, nofl, z2);
            let z7 = choose|z7: int|
                0 <= z7 < filter_by_flags(other, nofl).len() && #[trigger] filter_by_flags(
                    other,
                    nofl,
                )[z7] == other[z2] && filter_by_flags(other, nofl)[z7] == other[z2];
            assert(in_list(ne, terms1[z5])) by {
                assert(ne[z7] == terms1[z5]);
            }
            crate::petrick::lemma_members_word_bit(
                terms1,
                ne,
                terms1.len() as int,
                z5 as u64,
            );
            assert(crate::petrick::bv_bit(w, z5 as u64) && rows1[z5][j]);
        }
        // apply the reduced-chart minimality and count the cover
        assert(res_len <= filter_by_flags(d, essfl).len() + crate::petrick::pop64(w));
        assert(res_len <= other.len());
    }
}

/// More than 64 distinct implicants, each covering some on-set term.
pub open spec fn too_many_primes(ms: Seq<Seq<u8>>) -> bool {
    exists|ts: Seq<Seq<u8>>|
        {
            &&& #[trigger] no_dup_terms(ts)
            &&& ts.len() > 64
            &&& forall|z: int| 0 <= z < ts.len() ==> covered_by_some(ms, #[trigger] ts[z])
            &&& (all_fixed(ms) ==> (forall|z: int|
                0 <= z < ts.len() ==> prime_cube(#[trigger] ts[z], ms)))
        }
}

/// The fully fixed terms of the set bits of an INIT value, ascending.
pub open spec fn init_terms(s: Seq<char>) -> Seq<Seq<u8>> {
    Seq::new(
        crate::convert::bits_list(crate::convert::hex_val(s) as u64, 64).len(),
        |z: int| crate::convert::bin_term(crate::convert::bits_list(crate::convert::hex_val(s) as u64, 64)[z], 6),
    )
}

/// Minimizes the function whose on-set is the given minterm list into a
/// sum of products, chosen exactly by Petrick's method; hands back the
/// formatted expression, its term count and the work counters.  For a
/// fully fixed on-set the term count is minimal among all duplicate-free
/// prime-implicant covers.  An empty list yields `False`; the result is
/// `None` only when the function has more than 64 prime implicants.
#[verifier::rlimit(100)]
pub fn qm_simplify(minterms: &Vec<Minterm>) -> (r: Option<(String, usize, PetrickTimeInfo)>)
    requires
        minterms@.len() <= 64,
        all_wf(term_views(minterms@)),
        forall|z: int|
            0 <= z < minterms@.len() ==> (#[trigger] term_views(minterms@)[z]).len() == term_views(
                minterms@,
            )[0].len(),
        forall|z: int|
            0 <= z < minterms@.len() ==> 1 <= (#[trigger] term_views(minterms@)[z]).len() <= 6,
    ensures
        match r {
            Some(res) => minimized_result(
                term_views(minterms@),
                minterms@[0]@.len(),
                res.0@,
                res.1 as int,
            ) && (all_fixed(term_views(minterms@)) ==> minimal_among_prime_covers(
                term_views(minterms@),
                res.1 as int,
            )),
            None => too_many_primes(term_views(minterms@)),
        },
{
    let ghost s = term_views(minterms@);
    let ghost n = minterms@[0]@.len();
    if minterms.len() == 0 {
        let mut msg = String::new();
        msg.append("False");
        proof {
            reveal_strlit("False");
            assert(msg@ =~= crate::format::false_chars());
            let ts = Seq::<Seq<u8>>::empty();
            assert(crate::format::sop_display(ts, true, seq![' ']) == msg@);
            assert(minimized_result(s, n, msg@, 0));
            assert(minimal_among_prime_covers(s, 0)) by {
                reveal(crate::minimal_among_prime_covers);
            }
        }
        return Some((msg, 0, PetrickTimeInfo::default()));
    }
    proof {
        assert(term_views(minterms@)[0] == minterms@[0]@);
        assert(all_len(s, n));
        assert(1 <= n <= 6);
    }
    let prime_impls = get_prime_implicants(minterms);
    let ghost d = term_views(prime_impls@);
    if prime_impls.len() > 64 {
        proof {
            assert(no_dup_terms(d) && d.len() > 64 && (forall|z: int|
                0 <= z < d.len() ==> covered_by_some(s, #[trigger] d[z])));
            if all_fixed(s) {
                assert forall|z: int| 0 <= z < d.len() implies prime_cube(#[trigger] d[z], s) by {
                    assert(in_list(d, d[z]));
                }
            }
        }
        return None;
    }
    proof {
        assert forall|i: int, k: int|
            0 <= i < prime_impls@.len() && 0 <= k < minterms@.len() implies (
        #[trigger] prime_impls@[i])@.len() == (#[trigger] minterms@[k])@.len() by {
            assert(d[i] == prime_impls@[i]@);
            assert(s[k] == minterms@[k]@);
        }
    }
    let prime_impl_chart = create_prime_implicant_chart(&prime_impls, minterms);
    proof {
        reveal(crate::covers_some);
        assert forall|j: int|
            0 <= j < prime_impl_chart@[0].len() implies crate::petrick::col_covered(
            prime_impl_chart@,
            j,
        ) by {
            assert(covers_some(d, s[j]));
            let p = choose|p: int| 0 <= p < d.len() && covers(#[trigger] d[p], s[j]);
            assert(prime_impl_chart@[p][j] == covers(d[p], s[j]));
        }
        assert(prime_impl_chart@[0].len() == minterms@.len());
    }
    let (mut minimal_sops, time) = crate::petrick::get_minimal_sop_terms(
        prime_impl_chart,
        prime_impls,
    );
    let ghost pre = term_views(minimal_sops@);
    crate::format::display_sort_minterms(&mut minimal_sops);
    let ghost ts = term_views(minimal_sops@);
    proof {
        assert(no_dup_terms(ts));
        // each final term is one of the prime implicants
        assert forall|z: int| 0 <= z < ts.len() implies in_list(d, #[trigger] ts[z]) by {
            assert(in_list(pre, ts[z]));
            let w = choose|w: int| 0 <= w < pre.len() && pre[w] == ts[z];
            assert(in_list(d, pre[w]));
        }
        assert forall|z: int| 0 <= z < ts.len() implies wf_term(#[trigger] ts[z]) && ts[z].len()
            == n && covered_by_some(s, ts[z]) by {
            let w = choose|w: int| 0 <= w < d.len() && d[w] == ts[z];
            assert(wf_term(d[w]) && d[w].len() == n);
            assert(covered_by_some(s, d[w]));
        }
        if all_fixed(s) {
            assert forall|z: int| 0 <= z < ts.len() implies prime_cube(#[trigger] ts[z], s) by {
                assert(in_list(d, ts[z]));
            }
        }
        // every input minterm stays covered
        assert forall|k: int| 0 <= k < s.len() implies covers_some(ts, #[trigger] s[k]) by {
            assert(crate::petrick::col_covered_by_chosen(prime_impl_chart@, d, pre, k));
            let i = choose|i: int|
                0 <= i < prime_impl_chart@.len() && (#[trigger] prime_impl_chart@[i])[k] && in_list(
                    pre,
                    d[i],
                );
            assert(prime_impl_chart@[i][k] == covers(d[i], s[k]));
            let w = choose|w: int| 0 <= w < pre.len() && pre[w] == d[i];
            assert(in_list(ts, pre[w]));
            let z = choose|z: int| 0 <= z < ts.len() && ts[z] == d[i];
            assert(covers(ts[z], s[k]));
        }
    }
    let message = crate::format::string_for_sop_minterms(&minimal_sops, true, Some(" "));
    proof {
        reveal_strlit(" ");
        assert(crate::format::sep_view(Some(" ")) =~= seq![' ']);
        assert(crate::format::sop_display(ts, true, seq![' ']) == message@);
        if all_fixed(s) {
            lemma_carry_minimality(s, d, prime_impl_chart@, n, minimal_sops@.len() as int);
        }
    }
    Some((message, minimal_sops.len(), time))
}

/// Minimizes the function whose on-set is the given minterm list into a
/// sum of products chosen by the greedy selector; hands back the formatted
/// expression and its term count.  An empty list yields `False`.
#[verifier::rlimit(100)]
pub fn qm_simplify_greedy(minterms: &Vec<Minterm>) -> (r: (String, usize))
    requires
        minterms@.len() <= 64,
        all_wf(term_views(minterms@)),
        forall|z: int|
            0 <= z < minterms@.len() ==> (#[trigger] term_views(minterms@)[z]).len() == term_views(
                minterms@,
            )[0].len(),
        forall|z: int|
            0 <= z < minterms@.len() ==> 1 <= (#[trigger] term_views(minterms@)[z]).len() <= 6,
    ensures
        minimized_result(term_views(minterms@), minterms@[0]@.len(), r.0@, r.1 as int),
{
    let ghost s = term_views(minterms@);
    let ghost n = minterms@[0]@.len();
    if minterms.len() == 0 {
        let mut msg = String::new();
        msg.append("False");
        proof {
            reveal_strlit("False");
            assert(msg@ =~= crate::format::false_chars());
            let ts = Seq::<Seq<u8>>::empty();
            assert(crate::format::sop_display(ts, true, seq![' ']) == msg@);
            assert(minimized_result(s, n, msg@, 0));
        }
        return (msg, 0);
    }
    proof {
        assert(term_views(minterms@)[0] == minterms@[0]@);
        assert(all_len(s, n));
        assert(1 <= n <= 6);
    }
    let prime_impls = get_prime_implicants(minterms);
    let ghost d = term_views(prime_impls@);
    proof {
        assert forall|i: int, k: int|
            0 <= i < prime_impls@.len() && 0 <= k < minterms@.len() implies (
        #[trigger] prime_impls@[i])@.len() == (#[trigger] minterms@[k])@.len() by {
            assert(d[i] == prime_impls@[i]@);
            assert(s[k] == minterms@[k]@);
        }
    }
    let prime_impl_chart = create_prime_implicant_chart(&prime_impls, minterms);
    proof {
        reveal(crate::covers_some);
        assert forall|j: int|
            0 <= j < prime_impl_chart@[0].len() implies crate::petrick::col_covered(
            prime_impl_chart@,
            j,
        ) by {
            assert(covers_some(d, s[j]));
            let p = choose|p: int| 0 <= p < d.len() && covers(#[trigger] d[p], s[j]);
            assert(prime_impl_chart@[p][j] == covers(d[p], s[j]));
        }
        assert(prime_impl_chart@[0].len() == minterms@.len());
    }
    let mut minimal_sops = crate::greedy_min_sop::get_minimal_sops(prime_impl_chart, prime_impls);
    let ghost pre = term_views(minimal_sops@);
    crate::format::display_sort_minterms(&mut minimal_sops);
    let ghost ts = term_views(minimal_sops@);
    proof {
        assert(no_dup_terms(ts));
        assert forall|z: int| 0 <= z < ts.len() implies in_list(d, #[trigger] ts[z]) by {
            assert(in_list(pre, ts[z]));
            let w = choose|w: int| 0 <= w < pre.len() && pre[w] == ts[z];
            assert(in_list(d, pre[w]));
        }
        assert forall|z: int| 0 <= z < ts.len() implies wf_term(#[trigger] ts[z]) && ts[z].len()
            == n && covered_by_some(s, ts[z]) by {
            let w = choose|w: int| 0 <= w < d.len() && d[w] == ts[z];
            assert(wf_term(d[w]) && d[w].len() == n);
            assert(covered_by_some(s, d[w]));
        }
        if all_fixed(s) {
            assert forall|z: int| 0 <= z < ts.len() implies prime_cube(#[trigger] ts[z], s) by {
                assert(in_list(d, ts[z]));
            }
        }
        assert forall|k: int| 0 <= k < s.len() implies covers_some(ts, #[trigger] s[k]) by {
            assert(crate::petrick::col_covered_by_chosen(prime_impl_chart@, d, pre, k));
            let i = choose|i: int|
                0 <= i < prime_impl_chart@.len() && (#[trigger] prime_impl_chart@[i])[k] && in_list(
                    pre,
                    d[i],
                );
            assert(prime_impl_chart@[i][k] == covers(d[i], s[k]));
            let w = choose|w: int| 0 <= w < pre.len() && pre[w] == d[i];
            assert(in_list(ts, pre[w]));
            let z = choose|z: int| 0 <= z < ts.len() && ts[z] == d[i];
            assert(covers(ts[z], s[k]));
        }
    }
    let message = crate::format::string_for_sop_minterms(&minimal_sops, true, Some(" "));
    proof {
        reveal_strlit(" ");
        assert(crate::format::sep_view(Some(" ")) =~= seq![' ']);
        assert(crate::format::sop_display(ts, true, seq![' ']) == message@);
    }
    (message, minimal_sops.len())
}

/// Minimizes the function encoded by a hex INIT string, exactly: the
/// term count is minimal among all duplicate-free prime-implicant covers.
/// An all-zero INIT denotes the empty on-set and yields `False`.
pub fn qm_simplify_init(init_str: &str) -> (r: Result<(String, usize, PetrickTimeInfo), QmError>)
    ensures
        match r {
            Ok(res) => init_str@.len() <= 16 && crate::convert::all_hex(init_str@)
                && minimized_result(init_terms(init_str@), 6, res.0@, res.1 as int)
                && minimal_among_prime_covers(init_terms(init_str@), res.1 as int),
            Err(e) => match e {
                QmError::InitTooLong => init_str@.len() > 16,
                QmError::InitNotHex => init_str@.len() <= 16 && !crate::convert::all_hex(
                    init_str@,
                ),
                QmError::TooManyPrimeImplicants => too_many_primes(init_terms(init_str@)),
            },
        },
{
    let minterms = match crate::convert::init_to_minterms(init_str) {
        Ok(v) => v,
        Err(crate::convert::InitError::TooLong) => {
            return Err(QmError::InitTooLong);
        },
        Err(crate::convert::InitError::NotHex) => {
            return Err(QmError::InitNotHex);
        },
    };
    proof {
        crate::convert::lemma_bits_list_len(
            crate::convert::hex_val(init_str@) as u64,
            64,
        );
        assert(term_views(minterms@) =~= init_terms(init_str@));
        assert(all_wf(term_views(minterms@)));
    }
    let res = match qm_simplify(&minterms) {
        Some(res) => res,
        None => {
            return Err(QmError::TooManyPrimeImplicants);
        },
    };
    proof {
        assert(all_fixed(term_views(minterms@)));
        if minterms@.len() == 0 {
            lemma_minimized_empty_any_n(
                term_views(minterms@),
                minterms@[0]@.len(),
                6,
                res.0@,
                res.1 as int,
            );
        } else {
            assert(term_views(minterms@)[0] == minterms@[0]@);
            assert(minterms@[0]@.len() == 6);
        }
    }
    Ok(res)
}

/// Minimizes the function encoded by a hex INIT string with the greedy
/// selector.  An all-zero INIT denotes the empty on-set and yields
/// `False`.
pub fn qm_simplify_init_greedy(init_str: &str) -> (r: Result<(String, usize), QmError>)
    ensures
        match r {
            Ok(res) => init_str@.len() <= 16 && crate::convert::all_hex(init_str@)
                && minimized_result(init_terms(init_str@), 6, res.0@, res.1 as int),
            Err(e) => match e {
                QmError::InitTooLong => init_str@.len() > 16,
                QmError::InitNotHex => init_str@.len() <= 16 && !crate::convert::all_hex(
                    init_str@,
                ),
                QmError::TooManyPrimeImplicants => false,
            },
        },
{
    let minterms = match crate::convert::init_to_minterms(init_str) {
        Ok(v) => v,
        Err(crate::convert::InitError::TooLong) => {
            return Err(QmError::InitTooLong);
        },
        Err(crate::convert::InitError::NotHex) => {
            return Err(QmError::InitNotHex);
        },
    };
    proof {
        crate::convert::lemma_bits_list_len(
            crate::convert::hex_val(init_str@) as u64,
            64,
        );
        assert(term_views(minterms@) =~= init_terms(init_str@));
        assert(all_wf(term_views(minterms@)));
    }
    let res = qm_simplify_greedy(&minterms);
    proof {
        if minterms@.len() == 0 {
            lemma_minimized_empty_any_n(
                term_views(minterms@),
                minterms@[0]@.len(),
                6,
                res.0@,
                res.1 as int,
            );
        } else {
            assert(term_views(minterms@)[0] == minterms@[0]@);
            assert(minterms@[0]@.len() == 6);
        }
    }
    Ok(res)
}

// ------------------
// Minterm structure.

/// A product term over up to six variables: one byte per position, each
/// `b'0'`, `b'1'` or `b'x'`.  See [`model`] for the cube reading.
pub struct Minterm {
    values: Vec<u8>,
}

impl View for Minterm {
    type V = Seq<u8>;

    closed spec fn view(&self) -> Seq<u8> {
        self.values@
    }
}

/// Copies a byte vector element by element.
fn clone_bytes(v: &Vec<u8>) -> (r: Vec<u8>)
    ensures
        r@ == v@,
{
    let mut r: Vec<u8> = Vec::new();
    let mut i: usize = 0;
    while i < v.len()
        invariant
            i <= v.len(),
            r@ == v@.take(i as int),
        decreases v.len() - i,
    {
        r.push(v[i]);
        assert(v@.take(i + 1) =~= v@.take(i as int).push(v@[i as int]));
        i = i + 1;
    }
    assert(v@.take(v@.len() as int) =~= v@);
    r
}

impl Clone for Minterm {
    fn clone(&self) -> (r: Self)
        ensures
            r@ == self@,
    {
        Minterm { values: clone_bytes(&self.values) }
    }
}

impl Minterm {
    /// The term is well formed: every position value is legal.
    pub open spec fn wf(&self) -> bool {
        wf_term(self@)
    }

    /// Builds a term from its text form, one byte per position.
    pub fn from_text(s: &str) -> (r: Minterm)
        ensures
            r@ == s.spec_bytes(),
    {
        let values = s.as_bytes_vec();
        Minterm { values }
    }

    /// Number of positions.
    pub fn len(&self) -> (n: usize)
        ensures
            n == self@.len(),
    {
        self.values.len()
    }

    /// A term of `n` positions, all unconstrained.
    pub fn unconstrained(n: usize) -> (r: Minterm)
        ensures
            r@.len() == n,
            forall|i: int| 0 <= i < n ==> r@[i] == VAL_X,
    {
        let values = vec![VAL_X; n];
        Minterm { values }
    }

    /// Sets the value of one position.
    pub fn set_value(&mut self, i: usize, v: u8)
        requires
            i < old(self)@.len(),
        ensures
            final(self)@ == old(self)@.update(i as int, v),
    {
        self.values[i] = v;
    }

    /// The value at one position.
    pub fn value_at(&self, i: usize) -> (v: u8)
        requires
            i < self@.len(),
        ensures
            v == self@[i as int],
    {
        self.values[i]
    }

    /// The result of merging with a term differing only at `first_diff`:
    /// a copy of `other` with that position made unconstrained.
    pub fn merge(&self, other: &Minterm, first_diff: usize) -> (r: Minterm)
        requires
            first_diff < other@.len(),
        ensures
            r@ == other@.update(first_diff as int, VAL_X),
    {
        let mut outterm = other.clone();
        outterm.values[first_diff] = VAL_X;
        outterm
    }
}

/// Compares two terms for equality of their position values.
fn terms_equal(a: &Minterm, b: &Minterm) -> (r: bool)
    ensures
        r <==> a@ == b@,
{
    if a.values.len() != b.values.len() {
        return false;
    }
    let n = a.values.len();
    let mut i: usize = 0;
    while i < n
        invariant
            i <= n,
            n == a@.len() == b@.len(),
            forall|j: int| 0 <= j < i ==> a@[j] == b@[j],
        decreases n - i,
    {
        if a.values[i] != b.values[i] {
            return false;
        }
        i = i + 1;
    }
    assert(a@ =~= b@);
    true
}

/// Whether the list holds a term with the same position values.
fn contains_term(v: &Vec<Minterm>, t: &Minterm) -> (r: bool)
    ensures
        r <==> in_list(term_views(v@), t@),
{
    let mut i: usize = 0;
    while i < v.len()
        invariant
            i <= v@.len(),
            forall|k: int| 0 <= k < i ==> term_views(v@)[k] != t@,
        decreases v@.len() - i,
    {
        if terms_equal(&v[i], t) {
            assert(term_views(v@)[i as int] == t@);
            return true;
        }
        i = i + 1;
    }
    false
}

// -----------------------------------------
// Compute prime implicants from implicants.

/// Minterms can be merged if they differ in exactly one position, with both
/// terms fixed there and agreeing everywhere else; returns that position.
fn can_merge(minterm_1: &Minterm, minterm_2: &Minterm) -> (r: Option<usize>)
    requires
        minterm_1@.len() == minterm_2@.len(),
        minterm_1.wf(),
        minterm_2.wf(),
    ensures
        match r {
            Some(i) => mergeable_at(minterm_1@, minterm_2@, i as int),
            None => !mergeable(minterm_1@, minterm_2@),
        },
{
    let n = minterm_1.values.len();
    let mut first_diff: Option<usize> = None;
    let mut i: usize = 0;
    while i < n
        invariant
            i <= n,
            n == minterm_1@.len() == minterm_2@.len(),
            minterm_1.wf(),
            minterm_2.wf(),
            match first_diff {
                None => forall|j: int| 0 <= j < i ==> minterm_1@[j] == minterm_2@[j],
                Some(d) => {
                    &&& 0 <= d < i
                    &&& is_fixed_val(minterm_1@[d as int])
                    &&& is_fixed_val(minterm_2@[d as int])
                    &&& minterm_1@[d as int] != minterm_2@[d as int]
                    &&& forall|j: int| 0 <= j < i && j != d ==> minterm_1@[j] == minterm_2@[j]
                },
            },
        decreases n - i,
    {
        let va = minterm_1.values[i];
        let vb = minterm_2.values[i];
        if va != vb {
            if va == VAL_X || vb == VAL_X {
                assert(minterm_1@[i as int] != minterm_2@[i as int]);
                assert forall|k: int| !mergeable_at(minterm_1@, minterm_2@, k) by {
                    if mergeable_at(minterm_1@, minterm_2@, k) {
                        if k == i as int {
                            assert(is_fixed_val(minterm_1@[k]) && is_fixed_val(minterm_2@[k]));
                        } else {
                            assert(minterm_1@[i as int] == minterm_2@[i as int]);
                        }
                    }
                }
                return None;
            }
            if first_diff.is_none() {
                first_diff = Some(i);
            } else {
                let ghost d = first_diff->0 as int;
                assert(minterm_1@[d] != minterm_2@[d] && minterm_1@[i as int] != minterm_2@[i as int] && d != i as int);
                assert forall|k: int| !mergeable_at(minterm_1@, minterm_2@, k) by {
                    if mergeable_at(minterm_1@, minterm_2@, k) {
                        if k != d {
                            assert(minterm_1@[d] == minterm_2@[d]);
                        } else {
                            assert(minterm_1@[i as int] == minterm_2@[i as int]);
                        }
                    }
                }
                return None;
            }
        }
        i = i + 1;
    }
    match first_diff {
        None => {
            assert forall|k: int| !mergeable_at(minterm_1@, minterm_2@, k) by {
                if mergeable_at(minterm_1@, minterm_2@, k) {
                    assert(minterm_1@[k] == minterm_2@[k]);
                }
            }
            None
        },
        Some(d) => {
            assert(mergeable_at(minterm_1@, minterm_2@, d as int));
            Some(d)
        },
    }
}

// --------------------------------------------------
// Specification of one round of adjacency merging.

/// No term of the list can merge with `t`.
#[verifier::opaque]
pub open spec fn no_partner(c: Seq<Seq<u8>>, t: Seq<u8>) -> bool {
    forall|q: int| 0 <= q < c.len() ==> !mergeable(t, #[trigger] c[q])
}

/// `t` is the merge of some mergeable pair of the list.
#[verifier::opaque]
pub open spec fn is_merge_of(c: Seq<Seq<u8>>, t: Seq<u8>) -> bool {
    exists|p: int, q: int, i: int|
        0 <= p < c.len() && 0 <= q < c.len() && #[trigger] mergeable_at(c[p], c[q], i) && t == c[q].update(
            i,
            VAL_X,
        )
}

/// Some pair of the list is mergeable.
#[verifier::opaque]
pub open spec fn any_merge(c: Seq<Seq<u8>>) -> bool {
    exists|p: int, q: int, i: int|
        0 <= p < c.len() && 0 <= q < c.len() && #[trigger] mergeable_at(c[p], c[q], i)
}

/// `d` is the outcome of one merging round over `c`: it holds exactly the
/// merges of mergeable pairs plus the terms that merged with nothing.
#[verifier::opaque]
pub open spec fn round_rel(c: Seq<Seq<u8>>, d: Seq<Seq<u8>>) -> bool {
    &&& forall|k: int|
        0 <= k < d.len() ==> is_merge_of(c, #[trigger] d[k]) || (in_list(c, d[k]) && no_partner(
            c,
            d[k],
        ))
    &&& forall|p: int, q: int, i: int|
        0 <= p < c.len() && 0 <= q < c.len() && #[trigger] mergeable_at(c[p], c[q], i)
            ==> in_list(d, c[q].update(i, VAL_X))
    &&& forall|k: int| 0 <= k < c.len() && no_partner(c, #[trigger] c[k]) ==> in_list(d, c[k])
}

/// Some term of the list covers `m`.
#[verifier::opaque]
pub open spec fn covers_some(ts: Seq<Seq<u8>>, m: Seq<u8>) -> bool {
    exists|j: int| 0 <= j < ts.len() && covers(#[trigger] ts[j], m)
}

/// `t` covers some term of the list.
#[verifier::opaque]
pub open spec fn covered_by_some(ts: Seq<Seq<u8>>, t: Seq<u8>) -> bool {
    exists|k: int| 0 <= k < ts.len() && covers(t, #[trigger] ts[k])
}

/// Every assignment covered by some term of the list is covered by some
/// term of the input list: merging never enlarges the covered set.
#[verifier::opaque]
pub open spec fn within_inputs(ts: Seq<Seq<u8>>, ins: Seq<Seq<u8>>) -> bool {
    forall|z: int, m: Seq<u8>|
        0 <= z < ts.len() && fully_fixed(m) && #[trigger] covers(ts[z], m) ==> covers_some(ins, m)
}

/// A merging round never enlarges the covered set.
proof fn lemma_round_within(c: Seq<Seq<u8>>, d: Seq<Seq<u8>>, s: Seq<Seq<u8>>)
    requires
        round_rel(c, d),
        within_inputs(c, s),
    ensures
        within_inputs(d, s),
{
    reveal(crate::round_rel);
    reveal(crate::is_merge_of);
    reveal(crate::no_partner);
    reveal(crate::within_inputs);
    assert forall|z: int, m: Seq<u8>|
        0 <= z < d.len() && fully_fixed(m) && #[trigger] covers(d[z], m) implies covers_some(
        s,
        m,
    ) by {
        if is_merge_of(c, d[z]) {
            let (p, q, i) = choose|p: int, q: int, i: int|
                0 <= p < c.len() && 0 <= q < c.len() && #[trigger] mergeable_at(c[p], c[q], i)
                    && d[z] == c[q].update(i, VAL_X);
            crate::model::lemma_merged_covers_split(c[p], c[q], i, m);
            if covers(c[p], m) {
                assert(covers_some(s, m));
            } else {
                assert(covers(c[q], m));
                assert(covers_some(s, m));
            }
        } else {
            let w = choose|w: int| 0 <= w < c.len() && c[w] == d[z];
            assert(covers(c[w], m));
        }
    }
}

/// Nothing in a value-subset of a merge-free list can merge either.
proof fn lemma_no_merge_subset(c: Seq<Seq<u8>>, d: Seq<Seq<u8>>)
    requires
        !any_merge(c),
        forall|j: int| 0 <= j < d.len() ==> in_list(c, #[trigger] d[j]),
    ensures
        !any_merge(d),
{
    reveal(crate::any_merge);
    if any_merge(d) {
        let (p, q, i) = choose|p: int, q: int, i: int|
            0 <= p < d.len() && 0 <= q < d.len() && #[trigger] mergeable_at(d[p], d[q], i);
        let cp = choose|cp: int| 0 <= cp < c.len() && c[cp] == d[p];
        let cq = choose|cq: int| 0 <= cq < c.len() && c[cq] == d[q];
        assert(mergeable_at(c[cp], c[cq], i));
    }
}

/// Every mergeable pair of the list sits at level `r` or above.
#[verifier::opaque]
pub open spec fn merge_floor(c: Seq<Seq<u8>>, r: nat) -> bool {
    forall|p: int, q: int, i: int|
        0 <= p < c.len() && 0 <= q < c.len() && #[trigger] mergeable_at(c[p], c[q], i) ==> x_count(
            c[p],
        ) >= r
}

/// Every term of the working set at round `r` is either a level-`r` cube
/// of the on-set or a prime implicant of a lower level.
#[verifier::opaque]
pub open spec fn level_classified(c: Seq<Seq<u8>>, s: Seq<Seq<u8>>, r: nat) -> bool {
    forall|k: int|
        0 <= k < c.len() ==> ((x_count(#[trigger] c[k]) == r && cube_in_onset(c[k], s)) || (x_count(
            c[k],
        ) < r && prime_cube(c[k], s)))
}

/// Every level-`r` cube of the on-set is in the working set.
#[verifier::opaque]
pub open spec fn level_cubes_present(c: Seq<Seq<u8>>, s: Seq<Seq<u8>>, r: nat, n: nat) -> bool {
    forall|c0: Seq<u8>|
        c0.len() == n && wf_term(c0) && x_count(c0) == r && #[trigger] cube_in_onset(c0, s)
            ==> in_list(c, c0)
}

/// Every prime implicant of level below `r` is in the working set.
#[verifier::opaque]
pub open spec fn level_primes_present(c: Seq<Seq<u8>>, s: Seq<Seq<u8>>, r: nat, n: nat) -> bool {
    forall|c0: Seq<u8>|
        c0.len() == n && wf_term(c0) && x_count(c0) < r && #[trigger] prime_cube(c0, s)
            ==> in_list(c, c0)
}

/// The working set at round `r`, for a fully fixed on-set `s`: it holds
/// exactly the level-`r` cubes of the on-set together with all prime
/// implicants of lower level.
pub open spec fn level_ok(c: Seq<Seq<u8>>, s: Seq<Seq<u8>>, r: nat, n: nat) -> bool {
    &&& level_classified(c, s, r)
    &&& level_cubes_present(c, s, r, n)
    &&& level_primes_present(c, s, r, n)
}

/// A round keeps every input term covered by some working-set term.
proof fn lemma_round_keeps_covering(c: Seq<Seq<u8>>, d: Seq<Seq<u8>>, s: Seq<Seq<u8>>)
    requires
        round_rel(c, d),
        forall|k: int| 0 <= k < s.len() ==> covers_some(c, #[trigger] s[k]),
    ensures
        forall|k: int| 0 <= k < s.len() ==> covers_some(d, #[trigger] s[k]),
{
    reveal(crate::round_rel);
    reveal(crate::no_partner);
    reveal(crate::covers_some);
    reveal(crate::is_merge_of);
    assert forall|k: int| 0 <= k < s.len() implies covers_some(d, s[k]) by {
        let j = choose|j: int| 0 <= j < c.len() && covers(#[trigger] c[j], s[k]);
        if no_partner(c, c[j]) {
            assert(in_list(d, c[j]));
            let jd = choose|jd: int| 0 <= jd < d.len() && d[jd] == c[j];
            assert(covers(d[jd], s[k]));
        } else {
            let q = choose|q: int| 0 <= q < c.len() && mergeable(c[j], #[trigger] c[q]);
            let i = choose|i: int| mergeable_at(c[j], c[q], i);
            assert(in_list(d, c[q].update(i, VAL_X)));
            lemma_merged_sym(c[j], c[q], i);
            lemma_covers_after_free(c[j], i, s[k]);
            let jd = choose|jd: int| 0 <= jd < d.len() && d[jd] == c[q].update(i, VAL_X);
            assert(covers(d[jd], s[k]));
        }
    }
}

/// A round keeps every working-set term covering some input term.
proof fn lemma_round_keeps_covered(c: Seq<Seq<u8>>, d: Seq<Seq<u8>>, s: Seq<Seq<u8>>)
    requires
        round_rel(c, d),
        forall|j: int| 0 <= j < c.len() ==> covered_by_some(s, #[trigger] c[j]),
    ensures
        forall|j: int| 0 <= j < d.len() ==> covered_by_some(s, #[trigger] d[j]),
{
    reveal(crate::round_rel);
    reveal(crate::no_partner);
    reveal(crate::covered_by_some);
    reveal(crate::is_merge_of);
    assert forall|j: int| 0 <= j < d.len() implies covered_by_some(s, d[j]) by {
        if is_merge_of(c, d[j]) {
            let (p, q, i) = choose|p: int, q: int, i: int|
                0 <= p < c.len() && 0 <= q < c.len() && #[trigger] mergeable_at(c[p], c[q], i)
                    && d[j] == c[q].update(i, VAL_X);
            let k = choose|k: int| 0 <= k < s.len() && covers(c[q], #[trigger] s[k]);
            lemma_covers_after_free(c[q], i, s[k]);
            assert(covers(d[j], s[k]));
        } else {
            let q = choose|q: int| 0 <= q < c.len() && c[q] == d[j];
            assert(covered_by_some(s, c[q]));
        }
    }
}

/// A round raises the level floor of mergeable pairs by one.
proof fn lemma_round_floor(c: Seq<Seq<u8>>, d: Seq<Seq<u8>>, r: nat)
    requires
        round_rel(c, d),
        merge_floor(c, r),
    ensures
        merge_floor(d, r + 1),
{
    reveal(crate::round_rel);
    reveal(crate::no_partner);
    reveal(crate::is_merge_of);
    reveal(crate::merge_floor);
    assert forall|p: int, q: int, i: int|
        0 <= p < d.len() && 0 <= q < d.len() && #[trigger] mergeable_at(d[p], d[q], i) implies
        x_count(d[p]) >= r + 1 by {
        lemma_mergeable_x_count(d[p], d[q], i);
        if is_merge_of(c, d[p]) {
            let (a, b, m) = choose|a: int, b: int, m: int|
                0 <= a < c.len() && 0 <= b < c.len() && #[trigger] mergeable_at(c[a], c[b], m)
                    && d[p] == c[b].update(m, VAL_X);
            lemma_mergeable_x_count(c[a], c[b], m);
            lemma_x_count_update(c[b], m, VAL_X);
        } else if is_merge_of(c, d[q]) {
            let (a, b, m) = choose|a: int, b: int, m: int|
                0 <= a < c.len() && 0 <= b < c.len() && #[trigger] mergeable_at(c[a], c[b], m)
                    && d[q] == c[b].update(m, VAL_X);
            lemma_mergeable_x_count(c[a], c[b], m);
            lemma_x_count_update(c[b], m, VAL_X);
        } else {
            let qq = choose|qq: int| 0 <= qq < c.len() && c[qq] == d[q];
            assert(mergeable(d[p], c[qq]));
            assert(!mergeable(d[p], c[qq]));
        }
    }
}

/// An unmerged level-`r` term of a complete working set is prime.
proof fn lemma_unmerged_prime(c: Seq<Seq<u8>>, s: Seq<Seq<u8>>, r: nat, n: nat, t: Seq<u8>)
    requires
        level_cubes_present(c, s, r, n),
        in_list(c, t),
        no_partner(c, t),
        wf_term(t),
        t.len() == n,
        x_count(t) == r,
        cube_in_onset(t, s),
    ensures
        prime_cube(t, s),
{
    reveal(crate::level_cubes_present);
    reveal(crate::no_partner);
    reveal(crate::model::cube_in_onset);
    reveal(crate::model::prime_cube);
    if !prime_cube(t, s) {
        lemma_not_prime_sibling(t, s);
        let (v, i) = choose|v: Seq<u8>, i: int|
            {
                &&& #[trigger] mergeable_at(t, v, i)
                &&& wf_term(v)
                &&& cube_in_onset(v, s)
                &&& x_count(v) == x_count(t)
                &&& v.len() == t.len()
            };
        assert(in_list(c, v));
        let q = choose|q: int| 0 <= q < c.len() && c[q] == v;
        assert(mergeable(t, c[q]));
        assert(!mergeable(t, c[q]));
    }
}

/// A round keeps every working-set term classified, one level up.
proof fn lemma_round_classified(c: Seq<Seq<u8>>, d: Seq<Seq<u8>>, s: Seq<Seq<u8>>, r: nat, n: nat)
    requires
        all_wf(c),
        all_len(c, n),
        round_rel(c, d),
        merge_floor(c, r),
        level_classified(c, s, r),
        level_cubes_present(c, s, r, n),
    ensures
        level_classified(d, s, r + 1),
{
    reveal(crate::round_rel);
    reveal(crate::no_partner);
    reveal(crate::is_merge_of);
    reveal(crate::merge_floor);
    reveal(crate::level_classified);
    reveal(crate::model::cube_in_onset);
    reveal(crate::model::prime_cube);
    assert forall|k: int|
        0 <= k < d.len() implies ((x_count(#[trigger] d[k]) == r + 1 && cube_in_onset(d[k], s)) || (
        x_count(d[k]) < r + 1 && prime_cube(d[k], s))) by {
        if is_merge_of(c, d[k]) {
            let (p, q, i) = choose|p: int, q: int, i: int|
                0 <= p < c.len() && 0 <= q < c.len() && #[trigger] mergeable_at(c[p], c[q], i)
                    && d[k] == c[q].update(i, VAL_X);
            lemma_mergeable_x_count(c[p], c[q], i);
            assert(x_count(c[p]) >= r);
            assert(x_count(c[p]) == r && cube_in_onset(c[p], s));
            assert(x_count(c[q]) == r && cube_in_onset(c[q], s));
            lemma_merge_cube(c[p], c[q], i, s);
        } else {
            let j = choose|j: int| 0 <= j < c.len() && c[j] == d[k];
            if x_count(c[j]) == r {
                lemma_unmerged_prime(c, s, r, n, d[k]);
            }
        }
    }
}

/// After a round, every cube of the on-set one level up is present.
proof fn lemma_round_cubes_present(
    c: Seq<Seq<u8>>,
    d: Seq<Seq<u8>>,
    s: Seq<Seq<u8>>,
    r: nat,
    n: nat,
)
    requires
        round_rel(c, d),
        level_cubes_present(c, s, r, n),
    ensures
        level_cubes_present(d, s, (r + 1) as nat, n),
{
    reveal(crate::round_rel);
    reveal(crate::level_cubes_present);
    assert forall|c0: Seq<u8>|
        c0.len() == n && wf_term(c0) && x_count(c0) == r + 1 && #[trigger] cube_in_onset(c0, s)
        implies in_list(d, c0) by {
        lemma_x_pos_exists(c0);
        let i = choose|i: int| 0 <= i < c0.len() && c0[i] == VAL_X;
        lemma_cube_split(c0, i, s);
        let a = c0.update(i, VAL_ZERO);
        let b = c0.update(i, VAL_ONE);
        assert(in_list(c, a));
        assert(in_list(c, b));
        let p = choose|p: int| 0 <= p < c.len() && c[p] == a;
        let q = choose|q: int| 0 <= q < c.len() && c[q] == b;
        assert(mergeable_at(c[p], c[q], i));
        assert(in_list(d, c[q].update(i, VAL_X)));
        assert(c[q].update(i, VAL_X) == c0);
    }
}

/// After a round, every prime implicant at or below the old level is present.
proof fn lemma_round_primes_present(
    c: Seq<Seq<u8>>,
    d: Seq<Seq<u8>>,
    s: Seq<Seq<u8>>,
    r: nat,
    n: nat,
)
    requires
        all_wf(c),
        round_rel(c, d),
        level_classified(c, s, r),
        level_cubes_present(c, s, r, n),
        level_primes_present(c, s, r, n),
    ensures
        level_primes_present(d, s, (r + 1) as nat, n),
{
    reveal(crate::round_rel);
    reveal(crate::no_partner);
    reveal(crate::level_classified);
    reveal(crate::level_cubes_present);
    reveal(crate::level_primes_present);
    reveal(crate::model::cube_in_onset);
    reveal(crate::model::prime_cube);
    assert forall|c0: Seq<u8>|
        c0.len() == n && wf_term(c0) && x_count(c0) < r + 1 && #[trigger] prime_cube(c0, s)
        implies in_list(d, c0) by {
        assert(cube_in_onset(c0, s));
        assert(in_list(c, c0));
        let j = choose|j: int| 0 <= j < c.len() && c[j] == c0;
        assert forall|q: int| 0 <= q < c.len() implies !mergeable(c0, #[trigger] c[q]) by {
            assert(cube_in_onset(c[q], s));
            lemma_prime_no_merge(c0, c[q], s);
        }
        assert(no_partner(c, c[j]));
        assert(in_list(d, c[j]));
    }
}

/// When no pair is mergeable, the round returns the working set itself.
proof fn lemma_fixpoint_same_set(c: Seq<Seq<u8>>, d: Seq<Seq<u8>>)
    requires
        round_rel(c, d),
        !any_merge(c),
    ensures
        forall|j: int| 0 <= j < d.len() ==> in_list(c, #[trigger] d[j]),
        forall|j: int| 0 <= j < c.len() ==> in_list(d, #[trigger] c[j]),
{
    reveal(crate::round_rel);
    reveal(crate::no_partner);
    reveal(crate::is_merge_of);
    reveal(crate::any_merge);
    assert forall|j: int| 0 <= j < d.len() implies in_list(c, d[j]) by {
        if is_merge_of(c, d[j]) {
            let (p, q, i) = choose|p: int, q: int, i: int|
                0 <= p < c.len() && 0 <= q < c.len() && #[trigger] mergeable_at(c[p], c[q], i)
                    && d[j] == c[q].update(i, VAL_X);
            assert(any_merge(c));
        }
    }
    assert forall|j: int| 0 <= j < c.len() implies in_list(d, c[j]) by {
        assert forall|q: int| 0 <= q < c.len() implies !mergeable(c[j], #[trigger] c[q]) by {
            if mergeable(c[j], c[q]) {
                let i = choose|i: int| mergeable_at(c[j], c[q], i);
                assert(any_merge(c));
            }
        }
        assert(no_partner(c, c[j]));
    }
}

/// At the fixed point, every term of a complete working set is prime.
proof fn lemma_fixpoint_sound(c: Seq<Seq<u8>>, s: Seq<Seq<u8>>, r: nat, n: nat, t: Seq<u8>)
    requires
        all_wf(c),
        all_len(c, n),
        !any_merge(c),
        level_classified(c, s, r),
        level_cubes_present(c, s, r, n),
        in_list(c, t),
    ensures
        t.len() == n && prime_cube(t, s),
{
    reveal(crate::any_merge);
    reveal(crate::no_partner);
    reveal(crate::level_classified);
    reveal(crate::model::cube_in_onset);
    reveal(crate::model::prime_cube);
    let j = choose|j: int| 0 <= j < c.len() && c[j] == t;
    assert(wf_term(t));
    if x_count(t) == r {
        assert forall|q: int| 0 <= q < c.len() implies !mergeable(t, #[trigger] c[q]) by {
            if mergeable(t, c[q]) {
                let i = choose|i: int| mergeable_at(t, c[q], i);
                assert(mergeable_at(c[j], c[q], i));
                assert(any_merge(c));
            }
        }
        lemma_unmerged_prime(c, s, r, n, t);
    }
}

/// At the fixed point, every prime implicant is in the working set.
proof fn lemma_fixpoint_complete(c: Seq<Seq<u8>>, s: Seq<Seq<u8>>, r: nat, n: nat, t: Seq<u8>)
    requires
        !any_merge(c),
        level_cubes_present(c, s, r, n),
        level_primes_present(c, s, r, n),
        t.len() == n,
        prime_cube(t, s),
    ensures
        in_list(c, t),
{
    reveal(crate::any_merge);
    reveal(crate::level_cubes_present);
    reveal(crate::level_primes_present);
    reveal(crate::model::cube_in_onset);
    reveal(crate::model::prime_cube);
    if x_count(t) <= r {
        if x_count(t) == r {
            assert(cube_in_onset(t, s));
            assert(in_list(c, t));
        }
    } else {
        lemma_cube_at_level(t, s, (r + 1) as nat);
        let e = choose|e: Seq<u8>|
            {
                &&& wf_term(e)
                &&& #[trigger] cube_in_onset(e, s)
                &&& e.len() == t.len()
                &&& x_count(e) == r + 1
            };
        lemma_x_pos_exists(e);
        let i = choose|i: int| 0 <= i < e.len() && e[i] == VAL_X;
        lemma_cube_split(e, i, s);
        let a = e.update(i, VAL_ZERO);
        let b = e.update(i, VAL_ONE);
        assert(in_list(c, a));
        assert(in_list(c, b));
        let p = choose|p: int| 0 <= p < c.len() && c[p] == a;
        let q = choose|q: int| 0 <= q < c.len() && c[q] == b;
        assert(mergeable_at(c[p], c[q], i));
        assert(any_merge(c));
    }
}

/// Pair `(p, q)` comes before the sweep position `(i, j)` in the ordered
/// double loop over pairs of a list of length `len`.
pub open spec fn pair_before(p: int, q: int, i: int, j: int, len: int) -> bool {
    0 <= p < q < len && (p < i || (p == i && q < j))
}

/// The merged flags agree with the pairs swept so far.
#[verifier::opaque]
pub open spec fn flags_ok(c: Seq<Seq<u8>>, fl: Seq<bool>, i: int, j: int) -> bool {
    forall|k: int|
        0 <= k < c.len() ==> ((#[trigger] fl[k]) <==> exists|p: int, q: int|
            pair_before(p, q, i, j, c.len() as int) && (k == p || k == q) && #[trigger] mergeable(c[p], c[q]))
}

/// Every mergeable pair swept so far has its merge in the result.
#[verifier::opaque]
pub open spec fn merges_complete(c: Seq<Seq<u8>>, d: Seq<Seq<u8>>, i: int, j: int) -> bool {
    forall|p: int, q: int, ii: int|
        pair_before(p, q, i, j, c.len() as int) && #[trigger] mergeable_at(c[p], c[q], ii) ==> in_list(
            d,
            c[q].update(ii, VAL_X),
        )
}

/// `t` is the merge of some mergeable pair swept so far.
#[verifier::opaque]
pub open spec fn frontier_merge(c: Seq<Seq<u8>>, t: Seq<u8>, i: int, j: int) -> bool {
    exists|p: int, q: int, ii: int|
        pair_before(p, q, i, j, c.len() as int) && #[trigger] mergeable_at(c[p], c[q], ii) && t
            == c[q].update(ii, VAL_X)
}

/// Every result term is the merge of some mergeable pair swept so far.
#[verifier::opaque]
pub open spec fn merges_only(c: Seq<Seq<u8>>, d: Seq<Seq<u8>>, i: int, j: int) -> bool {
    forall|k: int| 0 <= k < d.len() ==> frontier_merge(c, #[trigger] d[k], i, j)
}

/// The `any` flag agrees with the pairs swept so far.
#[verifier::opaque]
pub open spec fn any_flag_ok(c: Seq<Seq<u8>>, any: bool, i: int, j: int) -> bool {
    any <==> exists|p: int, q: int, ii: int|
        pair_before(p, q, i, j, c.len() as int) && #[trigger] mergeable_at(c[p], c[q], ii)
}

/// Appending a minterm appends its view.
pub(crate) proof fn lemma_term_views_push(s: Seq<Minterm>, m: Minterm)
    ensures
        term_views(s.push(m)) == term_views(s).push(m@),
{
    assert(term_views(s.push(m)) =~= term_views(s).push(m@));
}

/// Appends the term unless an equal one is already present.
fn push_unique(v: &mut Vec<Minterm>, m: Minterm)
    ensures
        final(v)@.len() == old(v)@.len() || final(v)@.len() == old(v)@.len() + 1,
        forall|z: int|
            0 <= z < old(v)@.len() ==> term_views(final(v)@)[z] == term_views(old(v)@)[z],
        in_list(term_views(final(v)@), m@),
        final(v)@.len() == old(v)@.len() + 1 ==> term_views(final(v)@)[old(v)@.len() as int] == m@,
        no_dup_terms(term_views(old(v)@)) ==> no_dup_terms(term_views(final(v)@)),
{
    let present = contains_term(v, &m);
    if !present {
        let ghost d0 = term_views(v@);
        proof {
            lemma_term_views_push(v@, m);
        }
        v.push(m);
        proof {
            assert(term_views(v@) == d0.push(m@));
            assert(term_views(v@)[d0.len() as int] == m@);
            if no_dup_terms(d0) {
                assert forall|p: int, q: int|
                    0 <= p < q < term_views(v@).len() implies term_views(v@)[p] != term_views(
                    v@,
                )[q] by {
                    if q < d0.len() {
                        assert(term_views(v@)[p] == d0[p] && term_views(v@)[q] == d0[q]);
                    } else {
                        assert(term_views(v@)[q] == m@);
                        assert(term_views(v@)[p] == d0[p]);
                        assert(!in_list(d0, m@));
                    }
                }
            }
        }
    }
}

/// After the full sweep, the collected merges, flags and leftovers make up
/// exactly one merging round.
proof fn lemma_sweep_round_rel(c: Seq<Seq<u8>>, d: Seq<Seq<u8>>, fl: Seq<bool>)
    requires
        fl.len() == c.len(),
        flags_ok(c, fl, c.len() as int, c.len() as int + 1),
        merges_complete(c, d, c.len() as int, c.len() as int + 1),
        forall|z: int|
            0 <= z < d.len() ==> is_merge_of(c, #[trigger] d[z]) || (in_list(c, d[z])
                && no_partner(c, d[z])),
        forall|m: int| 0 <= m < c.len() && !fl[m] ==> in_list(d, #[trigger] c[m]),
    ensures
        round_rel(c, d),
{
    reveal(crate::flags_ok);
    reveal(crate::merges_complete);
    reveal(crate::round_rel);
    reveal(crate::no_partner);
    let fi = c.len() as int;
    let fj = c.len() as int + 1;
    assert forall|p: int, q: int, ii: int|
        0 <= p < c.len() && 0 <= q < c.len() && #[trigger] mergeable_at(c[p], c[q], ii) implies
        in_list(d, c[q].update(ii, VAL_X)) by {
        if p < q {
            assert(pair_before(p, q, fi, fj, c.len() as int));
        } else if q < p {
            assert(mergeable_at(c[q], c[p], ii));
            assert(pair_before(q, p, fi, fj, c.len() as int));
            assert(in_list(d, c[p].update(ii, VAL_X)));
            lemma_merged_sym(c[q], c[p], ii);
        }
    }
    assert forall|k2: int|
        0 <= k2 < c.len() && no_partner(c, #[trigger] c[k2]) implies in_list(d, c[k2]) by {
        if fl[k2] {
            let (p, q) = choose|p: int, q: int|
                pair_before(p, q, fi, fj, c.len() as int) && (k2 == p || k2 == q)
                    && #[trigger] mergeable(c[p], c[q]);
            if k2 == p {
                assert(!mergeable(c[k2], c[q]));
            } else {
                let ii = choose|ii: int| mergeable_at(c[p], c[q], ii);
                assert(mergeable_at(c[q], c[p], ii));
                assert(mergeable(c[k2], c[p]));
                assert(!mergeable(c[k2], c[p]));
            }
        }
    }
}

/// After the full sweep, the `any` flag says whether any pair is mergeable.
proof fn lemma_sweep_any(c: Seq<Seq<u8>>, any: bool)
    requires
        any_flag_ok(c, any, c.len() as int, c.len() as int + 1),
    ensures
        any == any_merge(c),
{
    reveal(crate::any_flag_ok);
    reveal(crate::any_merge);
    let fi = c.len() as int;
    let fj = c.len() as int + 1;
    if any {
        let (p, q, ii) = choose|p: int, q: int, ii: int|
            pair_before(p, q, fi, fj, c.len() as int) && #[trigger] mergeable_at(c[p], c[q], ii);
        assert(any_merge(c));
    } else {
        if any_merge(c) {
            let (p, q, ii) = choose|p: int, q: int, ii: int|
                0 <= p < c.len() && 0 <= q < c.len() && #[trigger] mergeable_at(c[p], c[q], ii);
            if p < q {
                assert(pair_before(p, q, fi, fj, c.len() as int));
            } else if q < p {
                assert(mergeable_at(c[q], c[p], ii));
                assert(pair_before(q, p, fi, fj, c.len() as int));
            }
        }
    }
}

/// Every term collected by the sweep is the merge of some mergeable pair.
proof fn lemma_frontier_to_merge_of(c: Seq<Seq<u8>>, d: Seq<Seq<u8>>)
    requires
        merges_only(c, d, c.len() as int, c.len() as int + 1),
    ensures
        forall|z: int| 0 <= z < d.len() ==> is_merge_of(c, #[trigger] d[z]),
{
    reveal(crate::merges_only);
    reveal(crate::frontier_merge);
    reveal(crate::is_merge_of);
    assert forall|z: int| 0 <= z < d.len() implies is_merge_of(c, d[z]) by {
        let (p, q, ii) = choose|p: int, q: int, ii: int|
            pair_before(p, q, c.len() as int, c.len() as int + 1, c.len() as int)
                && #[trigger] mergeable_at(c[p], c[q], ii) && d[z] == c[q].update(ii, VAL_X);
        assert(0 <= p < c.len() && 0 <= q < c.len());
    }
}

/// One sweep over all pairs of the working list: collects the merge of
/// every mergeable pair, then every term that merged with nothing, without
/// duplicates; also reports whether any pair merged.
#[verifier::rlimit(100)]
fn merge_round(current: &Vec<Minterm>) -> (res: (Vec<Minterm>, bool))
    requires
        current@.len() >= 1,
        all_wf(term_views(current@)),
        all_len(term_views(current@), current@[0]@.len()),
    ensures
        no_dup_terms(term_views(res.0@)),
        all_wf(term_views(res.0@)),
        all_len(term_views(res.0@), current@[0]@.len()),
        round_rel(term_views(current@), term_views(res.0@)),
        res.1 == any_merge(term_views(current@)),
{
    let ghost c = term_views(current@);
    let ghost n = current@[0]@.len();
    let len = current.len();
    let mut result: Vec<Minterm> = Vec::new();
    let mut was_merged: Vec<bool> = vec![false; len];
    let mut any = false;
    let mut i: usize = 0;
    proof {
        reveal(crate::flags_ok);
        reveal(crate::merges_complete);
        reveal(crate::merges_only);
        reveal(crate::frontier_merge);
        reveal(crate::any_flag_ok);
        assert(flags_ok(c, was_merged@, 0, 1));
        assert(merges_complete(c, term_views(result@), 0, 1));
        assert(merges_only(c, term_views(result@), 0, 1));
        assert(any_flag_ok(c, any, 0, 1));
    }
    while i < len
        invariant
            i <= len,
            len == current@.len(),
            current@.len() >= 1,
            c == term_views(current@),
            n == current@[0]@.len(),
            all_wf(c),
            all_len(c, n),
            was_merged@.len() == len,
            no_dup_terms(term_views(result@)),
            all_wf(term_views(result@)),
            all_len(term_views(result@), n),
            flags_ok(c, was_merged@, i as int, i as int + 1),
            merges_complete(c, term_views(result@), i as int, i as int + 1),
            merges_only(c, term_views(result@), i as int, i as int + 1),
            any_flag_ok(c, any, i as int, i as int + 1),
        decreases len - i,
    {
        let mut j: usize = i + 1;
        while j < len
            invariant
                i < len,
                i < j,
                j <= len,
                len == current@.len(),
                current@.len() >= 1,
                c == term_views(current@),
                n == current@[0]@.len(),
                all_wf(c),
                all_len(c, n),
                was_merged@.len() == len,
                no_dup_terms(term_views(result@)),
                all_wf(term_views(result@)),
                all_len(term_views(result@), n),
                flags_ok(c, was_merged@, i as int, j as int),
                merges_complete(c, term_views(result@), i as int, j as int),
                merges_only(c, term_views(result@), i as int, j as int),
                any_flag_ok(c, any, i as int, j as int),
            decreases len - j,
        {
            let ghost fl0 = was_merged@;
            let ghost d0 = term_views(result@);
            proof {
                assert(c[i as int] == current@[i as int]@);
                assert(c[j as int] == current@[j as int]@);
                assert(c[i as int].len() == n && c[j as int].len() == n);
                assert(wf_term(c[i as int]) && wf_term(c[j as int]));
            }
            match can_merge(&current[i], &current[j]) {
                Some(pos) => {
                    proof {
                        assert(mergeable_at(c[i as int], c[j as int], pos as int));
                    }
                    let m = current[i].merge(&current[j], pos);
                    let ghost mv = m@;
                    proof {
                        assert(mv == c[j as int].update(pos as int, VAL_X));
                        assert forall|z: int|
                            0 <= z < mv.len() implies crate::model::is_term_val(mv[z]) by {
                            if z != pos {
                                assert(mv[z] == c[j as int][z]);
                            }
                        }
                        assert(wf_term(mv));
                        assert(mv.len() == n);
                    }
                    push_unique(&mut result, m);
                    was_merged[i] = true;
                    was_merged[j] = true;
                    any = true;
                    proof {
                        reveal(crate::flags_ok);
                        reveal(crate::merges_complete);
                        reveal(crate::merges_only);
                        reveal(crate::frontier_merge);
                        reveal(crate::any_flag_ok);
                        let d1 = term_views(result@);
                        let fl1 = was_merged@;
                        assert(in_list(d1, c[j as int].update(pos as int, VAL_X)));
                        assert forall|z: int| 0 <= z < d1.len() implies wf_term(#[trigger] d1[z])
                            && d1[z].len() == n by {
                            if z < d0.len() {
                                assert(d1[z] == d0[z]);
                            } else {
                                assert(d1[z] == mv);
                            }
                        }
                        // flags at the next frontier
                        assert forall|k: int| 0 <= k < c.len() implies ((#[trigger] fl1[k])
                            <==> exists|p: int, q: int|
                            pair_before(p, q, i as int, j as int + 1, c.len() as int) && (k == p
                                || k == q) && #[trigger] mergeable(c[p], c[q])) by {
                            if k == i as int || k == j as int {
                                assert(pair_before(
                                    i as int,
                                    j as int,
                                    i as int,
                                    j as int + 1,
                                    c.len() as int,
                                ));
                                assert(mergeable(c[i as int], c[j as int]));
                            } else {
                                if fl1[k] {
                                    assert(fl0[k]);
                                    let (p, q) = choose|p: int, q: int|
                                        pair_before(p, q, i as int, j as int, c.len() as int) && (k
                                            == p || k == q) && #[trigger] mergeable(c[p], c[q]);
                                    assert(pair_before(
                                        p,
                                        q,
                                        i as int,
                                        j as int + 1,
                                        c.len() as int,
                                    ));
                                } else {
                                    if exists|p: int, q: int|
                                        pair_before(p, q, i as int, j as int + 1, c.len() as int)
                                            && (k == p || k == q) && #[trigger] mergeable(
                                            c[p],
                                            c[q],
                                        ) {
                                        let (p, q) = choose|p: int, q: int|
                                            pair_before(p, q, i as int, j as int + 1, c.len() as int)
                                                && (k == p || k == q) && #[trigger] mergeable(
                                                c[p],
                                                c[q],
                                            );
                                        assert(pair_before(p, q, i as int, j as int, c.len() as int));
                                        assert(fl0[k]);
                                    }
                                }
                            }
                        }
                        // merges at the next frontier
                        assert forall|p: int, q: int, ii: int|
                            pair_before(p, q, i as int, j as int + 1, c.len() as int)
                                && #[trigger] mergeable_at(c[p], c[q], ii) implies in_list(
                            d1,
                            c[q].update(ii, VAL_X),
                        ) by {
                            if p == i as int && q == j as int {
                                assert(ii == pos as int);
                            } else {
                                assert(pair_before(p, q, i as int, j as int, c.len() as int));
                                assert(in_list(d0, c[q].update(ii, VAL_X)));
                                let z = choose|z: int|
                                    0 <= z < d0.len() && d0[z] == c[q].update(ii, VAL_X);
                                assert(d1[z] == c[q].update(ii, VAL_X));
                            }
                        }
                        assert forall|k: int| 0 <= k < d1.len() implies frontier_merge(
                            c,
                            d1[k],
                            i as int,
                            j as int + 1,
                        ) by {
                            if k < d0.len() {
                                assert(d1[k] == d0[k]);
                                assert(frontier_merge(c, d0[k], i as int, j as int));
                                let (p, q, ii) = choose|p: int, q: int, ii: int|
                                    pair_before(p, q, i as int, j as int, c.len() as int)
                                        && #[trigger] mergeable_at(c[p], c[q], ii) && d0[k]
                                        == c[q].update(ii, VAL_X);
                                assert(pair_before(p, q, i as int, j as int + 1, c.len() as int));
                            } else {
                                assert(d1[k] == mv);
                                assert(pair_before(
                                    i as int,
                                    j as int,
                                    i as int,
                                    j as int + 1,
                                    c.len() as int,
                                ));
                                assert(mergeable_at(c[i as int], c[j as int], pos as int));
                            }
                        }
                        assert(pair_before(i as int, j as int, i as int, j as int + 1, c.len() as int));
                        assert(mergeable_at(c[i as int], c[j as int], pos as int));
                        assert(flags_ok(c, fl1, i as int, j as int + 1));
                        assert(merges_complete(c, d1, i as int, j as int + 1));
                        assert(merges_only(c, d1, i as int, j as int + 1));
                        assert(any_flag_ok(c, true, i as int, j as int + 1));
                    }
                },
                None => {
                    proof {
                        reveal(crate::flags_ok);
                        reveal(crate::merges_complete);
                        reveal(crate::merges_only);
                        reveal(crate::frontier_merge);
                        reveal(crate::any_flag_ok);
                        assert(!mergeable(c[i as int], c[j as int]));
                        assert forall|k: int| 0 <= k < c.len() implies ((#[trigger] fl0[k])
                            <==> exists|p: int, q: int|
                            pair_before(p, q, i as int, j as int + 1, c.len() as int) && (k == p
                                || k == q) && #[trigger] mergeable(c[p], c[q])) by {
                            if fl0[k] {
                                let (p, q) = choose|p: int, q: int|
                                    pair_before(p, q, i as int, j as int, c.len() as int) && (k == p
                                        || k == q) && #[trigger] mergeable(c[p], c[q]);
                                assert(pair_before(p, q, i as int, j as int + 1, c.len() as int));
                            } else {
                                if exists|p: int, q: int|
                                    pair_before(p, q, i as int, j as int + 1, c.len() as int) && (k
                                        == p || k == q) && #[trigger] mergeable(c[p], c[q]) {
                                    let (p, q) = choose|p: int, q: int|
                                        pair_before(p, q, i as int, j as int + 1, c.len() as int)
                                            && (k == p || k == q) && #[trigger] mergeable(
                                            c[p],
                                            c[q],
                                        );
                                    assert(pair_before(p, q, i as int, j as int, c.len() as int));
                                }
                            }
                        }
                        assert forall|p: int, q: int, ii: int|
                            pair_before(p, q, i as int, j as int + 1, c.len() as int)
                                && #[trigger] mergeable_at(c[p], c[q], ii) implies in_list(
                            d0,
                            c[q].update(ii, VAL_X),
                        ) by {
                            if p == i as int && q == j as int {
                                assert(mergeable(c[p], c[q]));
                            } else {
                                assert(pair_before(p, q, i as int, j as int, c.len() as int));
                            }
                        }
                        assert forall|k: int| 0 <= k < d0.len() implies frontier_merge(
                            c,
                            d0[k],
                            i as int,
                            j as int + 1,
                        ) by {
                            let (p, q, ii) = choose|p: int, q: int, ii: int|
                                pair_before(p, q, i as int, j as int, c.len() as int)
                                    && #[trigger] mergeable_at(c[p], c[q], ii) && d0[k]
                                    == c[q].update(ii, VAL_X);
                            assert(pair_before(p, q, i as int, j as int + 1, c.len() as int));
                        }
                        if any {
                            let (p, q, ii) = choose|p: int, q: int, ii: int|
                                pair_before(p, q, i as int, j as int, c.len() as int)
                                    && #[trigger] mergeable_at(c[p], c[q], ii);
                            assert(pair_before(p, q, i as int, j as int + 1, c.len() as int));
                        } else {
                            if exists|p: int, q: int, ii: int|
                                pair_before(p, q, i as int, j as int + 1, c.len() as int)
                                    && #[trigger] mergeable_at(c[p], c[q], ii) {
                                let (p, q, ii) = choose|p: int, q: int, ii: int|
                                    pair_before(p, q, i as int, j as int + 1, c.len() as int)
                                        && #[trigger] mergeable_at(c[p], c[q], ii);
                                if p == i as int && q == j as int {
                                    assert(mergeable(c[p], c[q]));
                                } else {
                                    assert(pair_before(p, q, i as int, j as int, c.len() as int));
                                }
                            }
                        }
                        assert(flags_ok(c, fl0, i as int, j as int + 1));
                        assert(merges_complete(c, d0, i as int, j as int + 1));
                        assert(merges_only(c, d0, i as int, j as int + 1));
                        assert(any_flag_ok(c, any, i as int, j as int + 1));
                    }
                },
            }
            j = j + 1;
        }
        proof {
            reveal(crate::flags_ok);
            reveal(crate::merges_complete);
            reveal(crate::merges_only);
            reveal(crate::frontier_merge);
            reveal(crate::any_flag_ok);
            let d = term_views(result@);
            let fl = was_merged@;
            assert forall|k: int| 0 <= k < c.len() implies ((#[trigger] fl[k]) <==> exists|p: int, q: int|
                pair_before(p, q, i as int + 1, i as int + 2, c.len() as int) && (k == p || k == q)
                    && #[trigger] mergeable(c[p], c[q])) by {
                if fl[k] {
                    let (p, q) = choose|p: int, q: int|
                        pair_before(p, q, i as int, len as int, c.len() as int) && (k == p || k == q)
                            && #[trigger] mergeable(c[p], c[q]);
                    assert(pair_before(p, q, i as int + 1, i as int + 2, c.len() as int));
                } else {
                    if exists|p: int, q: int|
                        pair_before(p, q, i as int + 1, i as int + 2, c.len() as int) && (k == p || k
                            == q) && #[trigger] mergeable(c[p], c[q]) {
                        let (p, q) = choose|p: int, q: int|
                            pair_before(p, q, i as int + 1, i as int + 2, c.len() as int) && (k == p
                                || k == q) && #[trigger] mergeable(c[p], c[q]);
                        assert(pair_before(p, q, i as int, len as int, c.len() as int));
                    }
                }
            }
            assert forall|p: int, q: int, ii: int|
                pair_before(p, q, i as int + 1, i as int + 2, c.len() as int)
                    && #[trigger] mergeable_at(c[p], c[q], ii) implies in_list(
                d,
                c[q].update(ii, VAL_X),
            ) by {
                assert(pair_before(p, q, i as int, len as int, c.len() as int));
            }
            assert forall|k: int| 0 <= k < d.len() implies frontier_merge(
                c,
                d[k],
                i as int + 1,
                i as int + 2,
            ) by {
                let (p, q, ii) = choose|p: int, q: int, ii: int|
                    pair_before(p, q, i as int, len as int, c.len() as int) && #[trigger] mergeable_at(
                        c[p],
                        c[q],
                        ii,
                    ) && d[k] == c[q].update(ii, VAL_X);
                assert(pair_before(p, q, i as int + 1, i as int + 2, c.len() as int));
            }
            if any {
                let (p, q, ii) = choose|p: int, q: int, ii: int|
                    pair_before(p, q, i as int, len as int, c.len() as int) && #[trigger] mergeable_at(
                        c[p],
                        c[q],
                        ii,
                    );
                assert(pair_before(p, q, i as int + 1, i as int + 2, c.len() as int));
            } else {
                if exists|p: int, q: int, ii: int|
                    pair_before(p, q, i as int + 1, i as int + 2, c.len() as int)
                        && #[trigger] mergeable_at(c[p], c[q], ii) {
                    let (p, q, ii) = choose|p: int, q: int, ii: int|
                        pair_before(p, q, i as int + 1, i as int + 2, c.len() as int)
                            && #[trigger] mergeable_at(c[p], c[q], ii);
                    assert(pair_before(p, q, i as int, len as int, c.len() as int));
                }
            }
            assert(flags_ok(c, fl, i as int + 1, i as int + 2));
            assert(merges_complete(c, d, i as int + 1, i as int + 2));
            assert(merges_only(c, d, i as int + 1, i as int + 2));
            assert(any_flag_ok(c, any, i as int + 1, i as int + 2));
        }
        i = i + 1;
    }
    // Now every pair has been swept; add the terms that merged with nothing.
    let ghost full_i = len as int;
    let ghost full_j = len as int + 1;
    proof {
        lemma_frontier_to_merge_of(c, term_views(result@));
    }
    let mut k: usize = 0;
    while k < len
        invariant
            k <= len,
            len == current@.len(),
            current@.len() >= 1,
            c == term_views(current@),
            n == current@[0]@.len(),
            all_wf(c),
            all_len(c, n),
            was_merged@.len() == len,
            no_dup_terms(term_views(result@)),
            all_wf(term_views(result@)),
            all_len(term_views(result@), n),
            full_i == len as int,
            full_j == len as int + 1,
            flags_ok(c, was_merged@, full_i, full_j),
            merges_complete(c, term_views(result@), full_i, full_j),
            any_flag_ok(c, any, full_i, full_j),
            forall|z: int|
                0 <= z < term_views(result@).len() ==> is_merge_of(
                    c,
                    #[trigger] term_views(result@)[z],
                ) || (in_list(c, term_views(result@)[z]) && no_partner(c, term_views(result@)[z])),
            forall|m: int|
                0 <= m < k && !was_merged@[m] ==> in_list(term_views(result@), #[trigger] c[m]),
        decreases len - k,
    {
        let ghost d0 = term_views(result@);
        if !was_merged[k] {
            proof {
                reveal(crate::flags_ok);
                reveal(crate::no_partner);
                assert(c[k as int] == current@[k as int]@);
                assert forall|q: int| 0 <= q < c.len() implies !mergeable(
                    c[k as int],
                    #[trigger] c[q],
                ) by {
                    if mergeable(c[k as int], c[q]) {
                        let ii = choose|ii: int| mergeable_at(c[k as int], c[q], ii);
                        if (k as int) < q {
                            assert(pair_before(k as int, q, full_i, full_j, c.len() as int));
                            assert(mergeable(c[k as int], c[q]));
                            assert(was_merged@[k as int]);
                        } else if q < k as int {
                            assert(mergeable_at(c[q], c[k as int], ii));
                            assert(mergeable(c[q], c[k as int]));
                            assert(pair_before(q, k as int, full_i, full_j, c.len() as int));
                            assert(was_merged@[k as int]);
                        }
                    }
                }
                assert(no_partner(c, c[k as int]));
                assert(wf_term(c[k as int]) && c[k as int].len() == n);
            }
            push_unique(&mut result, current[k].clone());
            proof {
                reveal(crate::merges_complete);
                reveal(crate::is_merge_of);
                reveal(crate::no_partner);
                let d1 = term_views(result@);
                assert(in_list(d1, c[k as int]));
                assert forall|z: int| 0 <= z < d1.len() implies wf_term(#[trigger] d1[z]) && d1[
                    z
                ].len() == n by {
                    if z < d0.len() {
                        assert(d1[z] == d0[z]);
                    } else {
                        assert(d1[z] == c[k as int]);
                    }
                }
                assert forall|p: int, q: int, ii: int|
                    pair_before(p, q, full_i, full_j, c.len() as int) && #[trigger] mergeable_at(
                        c[p],
                        c[q],
                        ii,
                    ) implies in_list(d1, c[q].update(ii, VAL_X)) by {
                    assert(in_list(d0, c[q].update(ii, VAL_X)));
                    let z = choose|z: int| 0 <= z < d0.len() && d0[z] == c[q].update(ii, VAL_X);
                    assert(d1[z] == c[q].update(ii, VAL_X));
                }
                assert forall|z: int| 0 <= z < d1.len() implies is_merge_of(c, #[trigger] d1[z])
                    || (in_list(c, d1[z]) && no_partner(c, d1[z])) by {
                    if z < d0.len() {
                        assert(d1[z] == d0[z]);
                    } else {
                        assert(d1[z] == c[k as int]);
                        assert(in_list(c, c[k as int]));
                    }
                }
                assert forall|m: int|
                    0 <= m < k + 1 && !was_merged@[m] implies in_list(d1, #[trigger] c[m]) by {
                    if m < k {
                        assert(in_list(d0, c[m]));
                        let z = choose|z: int| 0 <= z < d0.len() && d0[z] == c[m];
                        assert(d1[z] == c[m]);
                    }
                }
                assert(merges_complete(c, d1, full_i, full_j));
            }
        }
        k = k + 1;
    }
    proof {
        lemma_sweep_round_rel(c, term_views(result@), was_merged@);
        lemma_sweep_any(c, any);
    }
    (result, any)
}

/// Copies a list of minterms element by element.
fn clone_terms(v: &Vec<Minterm>) -> (r: Vec<Minterm>)
    ensures
        term_views(r@) == term_views(v@),
{
    let mut r: Vec<Minterm> = Vec::new();
    let mut i: usize = 0;
    while i < v.len()
        invariant
            i <= v@.len(),
            r@.len() == i,
            forall|z: int| 0 <= z < i ==> term_views(r@)[z] == term_views(v@)[z],
        decreases v@.len() - i,
    {
        let ghost r0 = r@;
        r.push(v[i].clone());
        proof {
            assert forall|z: int| 0 <= z < i + 1 implies term_views(r@)[z] == term_views(v@)[z] by {
                if z < i {
                    assert(term_views(r0)[z] == term_views(v@)[z]);
                    assert(r@[z] == r0[z]);
                }
            }
        }
        i = i + 1;
    }
    assert(term_views(r@) =~= term_views(v@));
    r
}

/// One merging round preserves all working-set invariants, one level up.
proof fn lemma_step_all(c: Seq<Seq<u8>>, d: Seq<Seq<u8>>, s: Seq<Seq<u8>>, r: nat, n: nat)
    requires
        all_wf(c),
        all_len(c, n),
        round_rel(c, d),
        merge_floor(c, r),
        forall|k: int| 0 <= k < s.len() ==> covers_some(c, #[trigger] s[k]),
        forall|j: int| 0 <= j < c.len() ==> covered_by_some(s, #[trigger] c[j]),
        all_fixed(s) ==> level_ok(c, s, r, n),
    ensures
        merge_floor(d, r + 1),
        forall|k: int| 0 <= k < s.len() ==> covers_some(d, #[trigger] s[k]),
        forall|j: int| 0 <= j < d.len() ==> covered_by_some(s, #[trigger] d[j]),
        all_fixed(s) ==> level_ok(d, s, r + 1, n),
{
    lemma_round_keeps_covering(c, d, s);
    lemma_round_keeps_covered(c, d, s);
    lemma_round_floor(c, d, r);
    if all_fixed(s) {
        lemma_round_classified(c, d, s, r, n);
        lemma_round_cubes_present(c, d, s, r, n);
        lemma_round_primes_present(c, d, s, r, n);
    }
}

/// At the fixed point the round hands back the working set: coverage of
/// and by the input terms carries over.
proof fn lemma_fixpoint_cover(c: Seq<Seq<u8>>, d: Seq<Seq<u8>>, s: Seq<Seq<u8>>)
    requires
        round_rel(c, d),
        !any_merge(c),
        forall|k: int| 0 <= k < s.len() ==> covers_some(c, #[trigger] s[k]),
        forall|j: int| 0 <= j < c.len() ==> covered_by_some(s, #[trigger] c[j]),
    ensures
        forall|k: int| 0 <= k < s.len() ==> covers_some(d, #[trigger] s[k]),
        forall|j: int| 0 <= j < d.len() ==> covered_by_some(s, #[trigger] d[j]),
{
    reveal(crate::covers_some);
    reveal(crate::covered_by_some);
    lemma_fixpoint_same_set(c, d);
    assert forall|k: int| 0 <= k < s.len() implies covers_some(d, s[k]) by {
        let j = choose|j: int| 0 <= j < c.len() && covers(#[trigger] c[j], s[k]);
        assert(in_list(d, c[j]));
        let jd = choose|jd: int| 0 <= jd < d.len() && d[jd] == c[j];
        assert(covers(d[jd], s[k]));
    }
    assert forall|j: int| 0 <= j < d.len() implies covered_by_some(s, d[j]) by {
        let q = choose|q: int| 0 <= q < c.len() && c[q] == d[j];
        assert(covered_by_some(s, c[q]));
    }
}

/// At the fixed point, for a fully fixed input list, the returned set is
/// exactly the set of prime implicants of the on-set.
#[verifier::rlimit(100)]
proof fn lemma_fixpoint_prime(c: Seq<Seq<u8>>, d: Seq<Seq<u8>>, s: Seq<Seq<u8>>, r: nat, n: nat)
    requires
        all_wf(c),
        all_len(c, n),
        round_rel(c, d),
        !any_merge(c),
        all_fixed(s),
        level_ok(c, s, r, n),
    ensures
        forall|t: Seq<u8>| #[trigger] in_list(d, t) <==> (t.len() == n && prime_cube(t, s)),
{
    lemma_fixpoint_same_set(c, d);
    assert forall|t: Seq<u8>| #[trigger] in_list(d, t) implies (t.len() == n && prime_cube(
        t,
        s,
    )) by {
        let jd = choose|jd: int| 0 <= jd < d.len() && d[jd] == t;
        assert(in_list(c, d[jd]));
        lemma_fixpoint_sound(c, s, r, n, t);
    }
    assert forall|t: Seq<u8>| t.len() == n && prime_cube(t, s) implies #[trigger] in_list(
        d,
        t,
    ) by {
        lemma_fixpoint_complete(c, s, r, n, t);
        let j = choose|j: int| 0 <= j < c.len() && c[j] == t;
        assert(in_list(d, c[j]));
    }
}

/// Combined fixed-point facts.
proof fn lemma_fixpoint_all(c: Seq<Seq<u8>>, d: Seq<Seq<u8>>, s: Seq<Seq<u8>>, r: nat, n: nat)
    requires
        all_wf(c),
        all_len(c, n),
        round_rel(c, d),
        !any_merge(c),
        forall|k: int| 0 <= k < s.len() ==> covers_some(c, #[trigger] s[k]),
        forall|j: int| 0 <= j < c.len() ==> covered_by_some(s, #[trigger] c[j]),
        all_fixed(s) ==> level_ok(c, s, r, n),
    ensures
        forall|k: int| 0 <= k < s.len() ==> covers_some(d, #[trigger] s[k]),
        forall|j: int| 0 <= j < d.len() ==> covered_by_some(s, #[trigger] d[j]),
        all_fixed(s) ==> (forall|t: Seq<u8>|
            #[trigger] in_list(d, t) <==> (t.len() == n && prime_cube(t, s))),
{
    lemma_fixpoint_cover(c, d, s);
    if all_fixed(s) {
        lemma_fixpoint_prime(c, d, s, r, n);
    }
}

/// Computes the set of prime implicants reachable from the given list by
/// repeated adjacency merging: for a list of fully fixed minterms this is
/// exactly the set of prime implicants of the on-set they list.  In every
/// case each input term is covered by some result term, each result term
/// covers some input term, and the result holds no duplicates.
#[verifier::rlimit(100)]
pub fn get_prime_implicants(minterms: &Vec<Minterm>) -> (out: Vec<Minterm>)
    requires
        minterms@.len() >= 1,
        all_wf(term_views(minterms@)),
        all_len(term_views(minterms@), minterms@[0]@.len()),
    ensures
        out@.len() >= 1,
        no_dup_terms(term_views(out@)),
        all_wf(term_views(out@)),
        all_len(term_views(out@), minterms@[0]@.len()),
        forall|k: int|
            0 <= k < minterms@.len() ==> covers_some(term_views(out@), #[trigger] term_views(
                minterms@,
            )[k]),
        forall|j: int|
            0 <= j < out@.len() ==> covered_by_some(term_views(minterms@), #[trigger] term_views(
                out@,
            )[j]),
        !any_merge(term_views(out@)),
        within_inputs(term_views(out@), term_views(minterms@)),
        all_fixed(term_views(minterms@)) ==> (forall|t: Seq<u8>|
            #[trigger] in_list(term_views(out@), t) <==> (t.len() == minterms@[0]@.len()
                && prime_cube(t, term_views(minterms@)))),
{
    let ghost s = term_views(minterms@);
    let ghost n = minterms@[0]@.len();
    let mut current: Vec<Minterm> = clone_terms(minterms);
    let ghost mut r: nat = 0;
    proof {
        reveal(crate::covers_some);
        reveal(crate::covered_by_some);
        reveal(crate::merge_floor);
        reveal(crate::level_classified);
        reveal(crate::level_cubes_present);
        reveal(crate::level_primes_present);
        assert(term_views(current@).len() == term_views(minterms@).len());
        assert(current@.len() == minterms@.len());
        assert(merge_floor(term_views(current@), 0));
        assert forall|k: int| 0 <= k < s.len() implies covers_some(term_views(current@), s[k]) by {
            lemma_covers_refl(s[k]);
            assert(term_views(current@)[k] == s[k]);
            assert(covers(term_views(current@)[k], s[k]));
        }
        assert forall|j: int|
            0 <= j < current@.len() implies covered_by_some(s, term_views(current@)[j]) by {
            lemma_covers_refl(s[j]);
            assert(covers(term_views(current@)[j], s[j]));
        }
        assert(within_inputs(term_views(current@), s)) by {
            reveal(crate::within_inputs);
            reveal(crate::covers_some);
            assert forall|z: int, m: Seq<u8>|
                0 <= z < term_views(current@).len() && fully_fixed(m) && #[trigger] covers(
                    term_views(current@)[z],
                    m,
                ) implies covers_some(s, m) by {
                assert(term_views(current@)[z] == s[z]);
                assert(covers(s[z], m));
            }
        }
        if all_fixed(s) {
            reveal(crate::model::cube_in_onset);
            let c = term_views(current@);
            assert forall|k: int| 0 <= k < c.len() implies ((x_count(#[trigger] c[k]) == 0
                && cube_in_onset(c[k], s)) || (x_count(c[k]) < 0 && prime_cube(c[k], s))) by {
                lemma_fixed_x_count_zero(c[k]);
                assert forall|m: Seq<u8>|
                    m.len() == c[k].len() && fully_fixed(m) && #[trigger] covers(c[k], m) implies
                    in_list(s, m) by {
                    lemma_fixed_covers_eq(c[k], m);
                    assert(s[k] == m);
                }
            }
            assert forall|c0: Seq<u8>|
                c0.len() == n && wf_term(c0) && x_count(c0) == 0 && #[trigger] cube_in_onset(c0, s)
                implies in_list(term_views(current@), c0) by {
                lemma_x_count_zero_fixed(c0);
                lemma_covers_refl(c0);
                assert(in_list(s, c0));
                let k = choose|k: int| 0 <= k < s.len() && s[k] == c0;
                assert(term_views(current@)[k] == c0);
            }
            assert(level_ok(term_views(current@), s, 0, n));
        }
    }
    loop
        invariant
            current@.len() >= 1,
            s == term_views(minterms@),
            s.len() >= 1,
            n == minterms@[0]@.len(),
            all_wf(term_views(current@)),
            all_len(term_views(current@), n),
            merge_floor(term_views(current@), r),
            r <= n + 1,
            forall|k: int| 0 <= k < s.len() ==> covers_some(term_views(current@), #[trigger] s[k]),
            forall|j: int|
                0 <= j < current@.len() ==> covered_by_some(s, #[trigger] term_views(current@)[j]),
            within_inputs(term_views(current@), s),
            all_fixed(s) ==> level_ok(term_views(current@), s, r, n),
        decreases n + 1 - r,
    {
        let ghost c = term_views(current@);
        proof {
            assert(term_views(current@)[0] == current@[0]@);
            assert(term_views(current@)[0].len() == n);
        }
        let (next, merged_any) = merge_round(&current);
        let ghost d = term_views(next@);
        if !merged_any {
            proof {
                lemma_fixpoint_all(c, d, s, r, n);
                lemma_round_within(c, d, s);
                lemma_fixpoint_same_set(c, d);
                lemma_no_merge_subset(c, d);
                assert(covers_some(d, s[0]));
                reveal(crate::covers_some);
                let jd = choose|jd: int| 0 <= jd < d.len() && covers(#[trigger] d[jd], s[0]);
                assert(d.len() >= 1);
            }
            return next;
        }
        proof {
            lemma_step_all(c, d, s, r, n);
            lemma_round_within(c, d, s);
            reveal(crate::any_merge);
            reveal(crate::merge_floor);
            let (p, q, ii) = choose|p: int, q: int, ii: int|
                0 <= p < c.len() && 0 <= q < c.len() && #[trigger] mergeable_at(c[p], c[q], ii);
            lemma_x_count_le_len(c[p]);
            assert(r <= n);
            reveal(crate::round_rel);
            assert(in_list(d, c[q].update(ii, VAL_X)));
            let z = choose|z: int| 0 <= z < d.len() && d[z] == c[q].update(ii, VAL_X);
            assert(next@.len() >= 1);
            r = r + 1;
        }
        current = next;
    }
}

/// No prime implicant is strictly covered by another: if two prime
/// implicants of one on-set are such that one covers the other, they are
/// the same term.  Together with the contract of
/// [`get_prime_implicants`], no term of its result for a fully fixed
/// input list is strictly covered by another term of the result.
pub proof fn lemma_no_dominated_prime(ms: Seq<Seq<u8>>, p: Seq<u8>, q: Seq<u8>)
    requires
        prime_cube(p, ms),
        prime_cube(q, ms),
        covers(q, p),
    ensures
        p == q,
{
    reveal(crate::model::cube_in_onset);
    reveal(crate::model::prime_cube);
    if p != q {
        if forall|i: int| 0 <= i < p.len() ==> p[i] == #[trigger] q[i] {
            assert(p =~= q);
        }
        let i = choose|i: int| 0 <= i < p.len() && p[i] != #[trigger] q[i];
        assert(q[i] == VAL_X);
        assert(p[i] != VAL_X);
        let u = p.update(i, VAL_X);
        assert forall|m: Seq<u8>|
            m.len() == u.len() && fully_fixed(m) && #[trigger] covers(u, m) implies in_list(
            ms,
            m,
        ) by {
            assert forall|j: int| 0 <= j < q.len() implies ((#[trigger] q[j]) != VAL_X ==> m[j]
                == q[j]) by {
                if j != i && q[j] != VAL_X {
                    assert(p[j] == q[j]);
                    assert(u[j] == p[j]);
                }
            }
            assert(covers(q, m));
        }
        assert(cube_in_onset(u, ms));
        assert(!cube_in_onset(p.update(i, VAL_X), ms));
    }
}

// ---------------------------
// Prime implicate chart type.

/// A Boolean matrix with one row per prime implicant and one column per
/// original on-set minterm; a cell is true when the row's implicant covers
/// the column's minterm.
pub struct PrimeImplicateChart {
    rows: Vec<Vec<bool>>,
}

impl View for PrimeImplicateChart {
    type V = Seq<Seq<bool>>;

    closed spec fn view(&self) -> Seq<Seq<bool>> {
        row_views(self.rows@)
    }
}

impl PrimeImplicateChart {
    /// Number of rows (prime implicants).
    pub fn num_rows(&self) -> (n: usize)
        ensures
            n == self@.len(),
    {
        self.rows.len()
    }

    /// Length of one row (number of chart columns).
    pub fn row_len(&self, i: usize) -> (n: usize)
        requires
            i < self@.len(),
        ensures
            n == self@[i as int].len(),
    {
        self.rows[i].len()
    }

    /// One cell: whether row `i` covers column `j`.
    pub fn cell(&self, i: usize, j: usize) -> (b: bool)
        requires
            i < self@.len(),
            j < self@[i as int].len(),
        ensures
            b == self@[i as int][j as int],
    {
        self.rows[i][j]
    }

    /// Builds a chart from its rows.
    pub(crate) fn from_rows(rows: Vec<Vec<bool>>) -> (c: PrimeImplicateChart)
        ensures
            c@ == row_views(rows@),
    {
        PrimeImplicateChart { rows }
    }

    /// Removes row `i`, shifting the later rows up.
    pub(crate) fn remove_row(&mut self, i: usize)
        requires
            i < old(self)@.len(),
        ensures
            final(self)@ == old(self)@.remove(i as int),
    {
        self.rows.remove(i);
        assert(final(self)@ =~= old(self)@.remove(i as int));
    }

    /// Number of true cells in one row.
    pub fn count_in_row(&self, row: usize) -> (n: usize)
        requires
            row < self@.len(),
    ensures
            n == count_true(self@[row as int], self@[row as int].len() as int),
    {
        let r = &self.rows[row];
        let mut n: usize = 0;
        let mut j: usize = 0;
        while j < r.len()
            invariant
                j <= r@.len(),
                n == count_true(r@, j as int),
                n <= j,
                r@ == self@[row as int],
            decreases r@.len() - j,
        {
            if r[j] {
                n = n + 1;
            }
            j = j + 1;
        }
        n
    }
}

/// Keeps the entries whose flag is set, in order.
pub open spec fn filter_by_flags<T>(s: Seq<T>, keep: Seq<bool>) -> Seq<T>
    decreases s.len(),
{
    if s.len() == 0 {
        Seq::empty()
    } else if keep.len() == s.len() && keep.last() {
        filter_by_flags(s.drop_last(), keep.drop_last()).push(s.last())
    } else {
        filter_by_flags(s.drop_last(), keep.drop_last())
    }
}

/// The filtered list is never longer than the original.
pub proof fn lemma_filter_len_le<T>(s: Seq<T>, keep: Seq<bool>)
    ensures
        filter_by_flags(s, keep).len() <= s.len(),
    decreases s.len(),
{
    if s.len() > 0 {
        lemma_filter_len_le(s.drop_last(), keep.drop_last());
    }
}

/// Filtering two parallel lists with the same flags keeps them parallel.
pub proof fn lemma_filter_same_len<A, B>(a: Seq<A>, b: Seq<B>, keep: Seq<bool>)
    requires
        a.len() == b.len(),
    ensures
        filter_by_flags(a, keep).len() == filter_by_flags(b, keep).len(),
    decreases a.len(),
{
    if a.len() > 0 {
        lemma_filter_same_len(a.drop_last(), b.drop_last(), keep.drop_last());
    }
}

/// Extending the prefix by one element extends the filtered prefix by that
/// element exactly when its flag is set.
pub proof fn lemma_filter_step<T>(s: Seq<T>, keep: Seq<bool>, i: int)
    requires
        0 <= i < s.len(),
        s.len() == keep.len(),
    ensures
        filter_by_flags(s.take(i + 1), keep.take(i + 1)) == (if keep[i] {
            filter_by_flags(s.take(i), keep.take(i)).push(s[i])
        } else {
            filter_by_flags(s.take(i), keep.take(i))
        }),
{
    assert(s.take(i + 1).drop_last() =~= s.take(i));
    assert(keep.take(i + 1).drop_last() =~= keep.take(i));
    assert(s.take(i + 1).last() == s[i]);
    assert(keep.take(i + 1).last() == keep[i]);
}

/// Each entry of two parallel filtered lists comes from one common source
/// position with its flag set.
pub proof fn lemma_filter_pair_index<A, B>(a: Seq<A>, b: Seq<B>, keep: Seq<bool>, z: int)
    requires
        a.len() == b.len(),
        a.len() == keep.len(),
        0 <= z < filter_by_flags(a, keep).len(),
    ensures
        exists|i: int|
            0 <= i < a.len() && #[trigger] keep[i] && filter_by_flags(a, keep)[z] == a[i]
                && filter_by_flags(b, keep)[z] == b[i],
    decreases a.len(),
{
    lemma_filter_same_len(a, b, keep);
    let fa = filter_by_flags(a, keep);
    let fb = filter_by_flags(b, keep);
    lemma_filter_len_le(a, keep);
    if keep.last() && z == fa.len() - 1 {
        assert(keep[a.len() - 1]);
        assert(fa[z] == a[a.len() - 1]);
        assert(fb[z] == b[b.len() - 1]);
    } else {
        lemma_filter_pair_index(a.drop_last(), b.drop_last(), keep.drop_last(), z);
        let i = choose|i: int|
            0 <= i < a.drop_last().len() && #[trigger] keep.drop_last()[i] && filter_by_flags(
                a.drop_last(),
                keep.drop_last(),
            )[z] == a.drop_last()[i] && filter_by_flags(b.drop_last(), keep.drop_last())[z]
                == b.drop_last()[i];
        assert(keep[i]);
        assert(fa[z] == a[i] && fb[z] == b[i]);
    }
}

/// Each source position with its flag set appears in both parallel
/// filtered lists, at one common position.
pub proof fn lemma_filter_pair_contains<A, B>(a: Seq<A>, b: Seq<B>, keep: Seq<bool>, i: int)
    requires
        a.len() == b.len(),
        a.len() == keep.len(),
        0 <= i < a.len(),
        keep[i],
    ensures
        exists|z: int|
            0 <= z < filter_by_flags(a, keep).len() && #[trigger] filter_by_flags(a, keep)[z]
                == a[i] && filter_by_flags(b, keep)[z] == b[i],
    decreases a.len(),
{
    lemma_filter_same_len(a, b, keep);
    let fa = filter_by_flags(a, keep);
    let fb = filter_by_flags(b, keep);
    if i == a.len() - 1 {
        assert(keep.last());
        assert(fa[fa.len() - 1] == a[i] && fb[fa.len() - 1] == b[i]);
    } else {
        assert(keep.drop_last()[i]);
        assert(a.drop_last()[i] == a[i] && b.drop_last()[i] == b[i]);
        lemma_filter_pair_contains(a.drop_last(), b.drop_last(), keep.drop_last(), i);
        let z = choose|z: int|
            0 <= z < filter_by_flags(a.drop_last(), keep.drop_last()).len()
                && #[trigger] filter_by_flags(a.drop_last(), keep.drop_last())[z]
                == a.drop_last()[i] && filter_by_flags(b.drop_last(), keep.drop_last())[z]
                == b.drop_last()[i];
        lemma_filter_same_len(a.drop_last(), b.drop_last(), keep.drop_last());
        lemma_filter_len_le(a.drop_last(), keep.drop_last());
        assert(fa[z] == a[i] && fb[z] == b[i]);
    }
}

/// Inserting an element anywhere adds exactly it to the multiset.
pub proof fn lemma_insert_to_multiset<T>(s: Seq<T>, pos: int, x: T)
    requires
        0 <= pos <= s.len(),
    ensures
        s.insert(pos, x).to_multiset() == s.to_multiset().insert(x),
{
    let a = s.take(pos);
    let b = s.skip(pos);
    assert(s.insert(pos, x) =~= a.push(x) + b);
    assert(s =~= a + b);
    vstd::seq_lib::lemma_multiset_commutative(a.push(x), b);
    vstd::seq_lib::lemma_multiset_commutative(a, b);
    a.to_multiset_ensures();
    assert(a.push(x).to_multiset() =~= a.to_multiset().insert(x));
    assert(s.insert(pos, x).to_multiset() =~= s.to_multiset().insert(x));
}

/// The value occurs somewhere in the list.
pub open spec fn appears_in<T>(f: Seq<T>, x: T) -> bool {
    exists|w: int| 0 <= w < f.len() && x == #[trigger] f[w]
}

/// A duplicate-free list whose every entry occurs in another list is no
/// longer than it.
pub proof fn lemma_nodup_in_len<T>(e: Seq<T>, f: Seq<T>)
    requires
        forall|p: int, q: int| 0 <= p < q < e.len() ==> e[p] != e[q],
        forall|z: int| 0 <= z < e.len() ==> appears_in(f, #[trigger] e[z]),
    ensures
        e.len() <= f.len(),
    decreases e.len(),
{
    if e.len() > 0 {
        let last = e.last();
        assert(appears_in(f, e[e.len() - 1]));
        let w0 = choose|w: int| 0 <= w < f.len() && e[e.len() - 1] == #[trigger] f[w];
        let f2 = f.remove(w0);
        let e2 = e.drop_last();
        assert forall|p: int, q: int| 0 <= p < q < e2.len() implies e2[p] != e2[q] by {
            assert(e2[p] == e[p] && e2[q] == e[q]);
        }
        assert forall|z: int| 0 <= z < e2.len() implies appears_in(f2, #[trigger] e2[z]) by {
            assert(e2[z] == e[z]);
            assert(appears_in(f, e[z]));
            let w = choose|w: int| 0 <= w < f.len() && e[z] == #[trigger] f[w];
            assert(e[z] != e[e.len() - 1]);
            assert(w != w0);
            if w < w0 {
                assert(f2[w] == f[w]);
                assert(e2[z] == f2[w]);
            } else {
                assert(f2[w - 1] == f[w]);
                assert(e2[z] == f2[w - 1]);
            }
        }
        lemma_nodup_in_len(e2, f2);
    }
}

/// The flagged and unflagged parts of a list together make up the list.
pub proof fn lemma_filter_complement<T>(s: Seq<T>, keep: Seq<bool>)
    requires
        s.len() == keep.len(),
    ensures
        filter_by_flags(s, keep).len() + filter_by_flags(
            s,
            keep.map_values(|b: bool| !b),
        ).len() == s.len(),
    decreases s.len(),
{
    if s.len() > 0 {
        let nk = keep.map_values(|b: bool| !b);
        assert(nk.drop_last() =~= keep.drop_last().map_values(|b: bool| !b));
        assert(nk.last() == !keep.last());
        lemma_filter_complement(s.drop_last(), keep.drop_last());
    }
}

/// Filtering a duplicate-free list keeps it duplicate-free.
pub proof fn lemma_filter_no_dup<T>(s: Seq<T>, keep: Seq<bool>)
    requires
        s.len() == keep.len(),
        forall|p: int, q: int| 0 <= p < q < s.len() ==> s[p] != s[q],
    ensures
        forall|p: int, q: int|
            0 <= p < q < filter_by_flags(s, keep).len() ==> filter_by_flags(s, keep)[p]
                != filter_by_flags(s, keep)[q],
    decreases s.len(),
{
    if s.len() > 0 {
        lemma_filter_no_dup(s.drop_last(), keep.drop_last());
        let f0 = filter_by_flags(s.drop_last(), keep.drop_last());
        let f1 = filter_by_flags(s, keep);
        if keep.last() {
            assert(f1 == f0.push(s.last()));
            assert forall|p: int, q: int| 0 <= p < q < f1.len() implies f1[p] != f1[q] by {
                if q < f0.len() {
                    assert(f1[p] == f0[p] && f1[q] == f0[q]);
                } else {
                    assert(f1[q] == s.last());
                    assert(f1[p] == f0[p]);
                    lemma_filter_pair_index(s.drop_last(), s.drop_last(), keep.drop_last(), p);
                    let i = choose|i: int|
                        0 <= i < s.drop_last().len() && #[trigger] keep.drop_last()[i]
                            && filter_by_flags(s.drop_last(), keep.drop_last())[p]
                            == s.drop_last()[i] && filter_by_flags(s.drop_last(), keep.drop_last())[p]
                            == s.drop_last()[i];
                    assert(s.drop_last()[i] == s[i]);
                    assert(s.last() == s[s.len() - 1]);
                    assert(s[i] != s[s.len() - 1]);
                }
            }
        } else {
            assert(f1 == f0);
        }
    }
}

/// Reversing a duplicate-free term list keeps it duplicate-free.
pub proof fn lemma_reverse_no_dup(ts: Seq<Seq<u8>>)
    requires
        no_dup_terms(ts),
    ensures
        no_dup_terms(ts.reverse()),
{
    if ts.len() > 0 {
        assert forall|p: int, q: int|
            0 <= p < q < ts.reverse().len() implies ts.reverse()[p] != ts.reverse()[q] by {
            assert(ts.reverse()[p] == ts[ts.len() - 1 - p]);
            assert(ts.reverse()[q] == ts[ts.len() - 1 - q]);
        }
    }
}

/// The term equals a source entry whose flag has the wanted value.
pub open spec fn drawn_from(
    terms0: Seq<Seq<u8>>,
    flags: Seq<bool>,
    want: bool,
    t: Seq<u8>,
) -> bool {
    exists|i: int| 0 <= i < terms0.len() && (#[trigger] flags[i]) == want && t == terms0[i]
}

/// A list whose first part draws from the flagged entries of a
/// duplicate-free source and whose second part draws from the unflagged
/// ones, each part duplicate-free, is duplicate-free as a whole.
pub proof fn lemma_no_dup_two_sources(
    resv: Seq<Seq<u8>>,
    e: int,
    terms0: Seq<Seq<u8>>,
    flags: Seq<bool>,
)
    requires
        0 <= e <= resv.len(),
        flags.len() == terms0.len(),
        no_dup_terms(terms0),
        forall|p: int, q: int| 0 <= p < q < e ==> resv[p] != resv[q],
        forall|p: int, q: int| e <= p < q < resv.len() ==> resv[p] != resv[q],
        forall|z: int| 0 <= z < e ==> drawn_from(terms0, flags, true, #[trigger] resv[z]),
        forall|z: int|
            e <= z < resv.len() ==> drawn_from(terms0, flags, false, #[trigger] resv[z]),
    ensures
        no_dup_terms(resv),
{
    assert forall|p: int, q: int| 0 <= p < q < resv.len() implies resv[p] != resv[q] by {
        if p < e && q >= e {
            if resv[p] == resv[q] {
                assert(drawn_from(terms0, flags, true, resv[p]));
                assert(drawn_from(terms0, flags, false, resv[q]));
                let i1 = choose|i: int|
                    0 <= i < terms0.len() && (#[trigger] flags[i]) == true && resv[p] == terms0[i];
                let i2 = choose|i: int|
                    0 <= i < terms0.len() && (#[trigger] flags[i]) == false && resv[q] == terms0[i];
                assert(i1 != i2);
                if i1 < i2 {
                    assert(terms0[i1] != terms0[i2]);
                } else {
                    assert(terms0[i2] != terms0[i1]);
                }
            }
        }
    }
}

/// Number of true entries among the first `k` of a Boolean sequence.
pub open spec fn count_true(r: Seq<bool>, k: int) -> nat
    decreases k,
{
    if k <= 0 {
        0
    } else {
        count_true(r, k - 1) + (if 0 <= k - 1 < r.len() && r[k - 1] {
            1nat
        } else {
            0nat
        })
    }
}

/// Whether one term covers another, position by position.
fn check_match(minterm_1: &Minterm, minterm_2: &Minterm) -> (r: bool)
    requires
        minterm_1@.len() == minterm_2@.len(),
    ensures
        r == covers(minterm_1@, minterm_2@),
{
    let n = minterm_1.values.len();
    let mut i: usize = 0;
    while i < n
        invariant
            i <= n,
            n == minterm_1@.len() == minterm_2@.len(),
            forall|j: int|
                0 <= j < i ==> ((#[trigger] minterm_1@[j]) != VAL_X ==> minterm_2@[j]
                    == minterm_1@[j]),
        decreases n - i,
    {
        if minterm_1.values[i] != VAL_X && minterm_1.values[i] != minterm_2.values[i] {
            return false;
        }
        i = i + 1;
    }
    true
}

/// Fills `matches` with the coverage row of `patt_term` over `minterms`.
fn set_matches(patt_term: &Minterm, minterms: &Vec<Minterm>, matches: &mut Vec<bool>)
    requires
        old(matches)@.len() == minterms@.len(),
        forall|k: int| 0 <= k < minterms@.len() ==> (#[trigger] minterms@[k])@.len()
            == patt_term@.len(),
    ensures
        final(matches)@.len() == minterms@.len(),
        forall|j: int| 0 <= j < minterms@.len() ==> final(matches)@[j] == covers(
            patt_term@,
            minterms@[j]@,
        ),
{
    let mut i: usize = 0;
    while i < minterms.len()
        invariant
            i <= minterms@.len(),
            matches@.len() == minterms@.len(),
            forall|k: int| 0 <= k < minterms@.len() ==> (#[trigger] minterms@[k])@.len()
                == patt_term@.len(),
            forall|j: int| 0 <= j < i ==> matches@[j] == covers(patt_term@, minterms@[j]@),
        decreases minterms@.len() - i,
    {
        let m = check_match(patt_term, &minterms[i]);
        matches[i] = m;
        i = i + 1;
    }
}

/// Builds the prime-implicant chart: cell `(i, j)` is true when prime
/// implicant `i` covers minterm `j`.
pub fn create_prime_implicant_chart(prime_impls: &Vec<Minterm>, minterms: &Vec<Minterm>) -> (chart:
    PrimeImplicateChart)
    requires
        forall|i: int, k: int|
            0 <= i < prime_impls@.len() && 0 <= k < minterms@.len() ==> (
            #[trigger] prime_impls@[i])@.len() == (#[trigger] minterms@[k])@.len(),
    ensures
        chart@.len() == prime_impls@.len(),
        forall|i: int| 0 <= i < prime_impls@.len() ==> (#[trigger] chart@[i]).len()
            == minterms@.len(),
        forall|i: int, j: int|
            0 <= i < prime_impls@.len() && 0 <= j < minterms@.len() ==> (#[trigger] chart@[i][j])
                == covers(prime_impls@[i]@, minterms@[j]@),
{
    let mut rows: Vec<Vec<bool>> = Vec::new();
    let mut i: usize = 0;
    while i < prime_impls.len()
        invariant
            i <= prime_impls@.len(),
            rows@.len() == i,
            forall|p: int, k: int|
                0 <= p < prime_impls@.len() && 0 <= k < minterms@.len() ==> (
                #[trigger] prime_impls@[p])@.len() == (#[trigger] minterms@[k])@.len(),
            forall|p: int| 0 <= p < i ==> (#[trigger] rows@[p])@.len() == minterms@.len(),
            forall|p: int, j: int|
                0 <= p < i && 0 <= j < minterms@.len() ==> (#[trigger] rows@[p]@[j]) == covers(
                    prime_impls@[p]@,
                    minterms@[j]@,
                ),
        decreases prime_impls@.len() - i,
    {
        let mut row: Vec<bool> = vec![false; minterms.len()];
        set_matches(&prime_impls[i], minterms, &mut row);
        rows.push(row);
        i = i + 1;
    }
    PrimeImplicateChart { rows }
}

} // verus!
