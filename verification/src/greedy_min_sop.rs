//! Greedy set-cover selection of prime implicants: a fast approximation to
//! Petrick's exact method, choosing at each step the implicant that covers
//! the most still-uncovered columns.

use vstd::prelude::*;

verus! {

use crate::model::in_list;
use crate::petrick::{
    col_covered, col_covered_by_chosen, covered_by_essential, essential_row,
    lemma_after_essentials, remove_essential_prime_impls, PetrickTimeInfo,
};
use crate::{
    drawn_from, filter_by_flags, lemma_filter_len_le, lemma_filter_no_dup,
    lemma_filter_pair_contains, lemma_filter_pair_index, lemma_filter_same_len, lemma_filter_step,
    lemma_no_dup_two_sources, lemma_term_views_push, no_dup_terms, term_views, Minterm,
    PrimeImplicateChart,
};

/// Number of uncovered columns among the first `k`.
pub open spec fn count_false(cov: Seq<bool>, k: int) -> nat
    decreases k,
{
    if k <= 0 {
        0
    } else {
        count_false(cov, k - 1) + (if 0 <= k - 1 < cov.len() && !cov[k - 1] {
            1nat
        } else {
            0nat
        })
    }
}

/// Number of uncovered columns among the first `k` that the row covers.
pub open spec fn count_gain(cov: Seq<bool>, row: Seq<bool>, k: int) -> nat
    decreases k,
{
    if k <= 0 {
        0
    } else {
        count_gain(cov, row, k - 1) + (if 0 <= k - 1 < cov.len() && 0 <= k - 1 < row.len() && !cov[k
            - 1] && row[k - 1] {
            1nat
        } else {
            0nat
        })
    }
}

/// The greedy choice among the first `i` rows: the lowest-index
/// not-yet-selected row of maximal gain, or -1 when every row is selected.
pub open spec fn greedy_best(rows: Seq<Seq<bool>>, cov: Seq<bool>, sel: Seq<bool>, i: int) -> int
    decreases i,
{
    if i <= 0 {
        -1
    } else {
        let prev = greedy_best(rows, cov, sel, i - 1);
        if sel[i - 1] {
            prev
        } else if prev == -1 {
            i - 1
        } else if count_gain(cov, rows[i - 1], cov.len() as int) > count_gain(
            cov,
            rows[prev],
            cov.len() as int,
        ) {
            i - 1
        } else {
            prev
        }
    }
}

/// The covered columns after selecting a row.
pub open spec fn cover_union(cov: Seq<bool>, row: Seq<bool>) -> Seq<bool> {
    Seq::new(cov.len(), |j: int| cov[j] || (0 <= j < row.len() && row[j]))
}

/// The selection flags the greedy loop ends with: while a column is
/// uncovered, select the lowest-index unselected row of maximal gain and
/// mark its columns covered.
pub open spec fn greedy_sel(
    rows: Seq<Seq<bool>>,
    cov: Seq<bool>,
    sel: Seq<bool>,
    fuel: nat,
) -> Seq<bool>
    decreases fuel,
{
    if fuel == 0 || !(exists|j: int| 0 <= j < cov.len() && !cov[j]) {
        sel
    } else {
        let r = greedy_best(rows, cov, sel, rows.len() as int);
        if r == -1 {
            sel
        } else {
            greedy_sel(rows, cover_union(cov, rows[r]), sel.update(r, true), (fuel - 1) as nat)
        }
    }
}

/// The uncovered count is at most the column count.
proof fn lemma_count_false_le(cov: Seq<bool>, k: int)
    ensures
        count_false(cov, k) <= (if k >= 0 {
            k
        } else {
            0
        }),
    decreases k,
{
    if k > 0 {
        lemma_count_false_le(cov, k - 1);
    }
}

/// Covering one more column strictly lowers the uncovered count.
proof fn lemma_count_false_lt(cov: Seq<bool>, cov2: Seq<bool>, j0: int, k: int)
    requires
        cov.len() == cov2.len(),
        forall|j: int| 0 <= j < cov.len() && (#[trigger] cov[j]) ==> cov2[j],
        0 <= j0 < cov.len(),
        !cov[j0],
        cov2[j0],
    ensures
        j0 < k ==> count_false(cov2, k) < count_false(cov, k),
        count_false(cov2, k) <= count_false(cov, k),
    decreases k,
{
    if k > 0 {
        lemma_count_false_lt(cov, cov2, j0, k - 1);
    }
}

/// An uncovered column makes the uncovered count positive.
proof fn lemma_count_false_pos(cov: Seq<bool>, j0: int, k: int)
    requires
        0 <= j0 < k,
        0 <= j0 < cov.len(),
        !cov[j0],
    ensures
        count_false(cov, k) >= 1,
    decreases k,
{
    if j0 < k - 1 {
        lemma_count_false_pos(cov, j0, k - 1);
    }
}

/// A positive gain names an uncovered column that the row covers.
proof fn lemma_gain_pos(cov: Seq<bool>, row: Seq<bool>, k: int)
    requires
        count_gain(cov, row, k) > 0,
    ensures
        exists|j: int| 0 <= j < k && 0 <= j < cov.len() && 0 <= j < row.len() && !cov[j] && row[j],
    decreases k,
{
    if k > 0 {
        if 0 <= k - 1 < cov.len() && 0 <= k - 1 < row.len() && !cov[k - 1] && row[k - 1] {
            assert(0 <= k - 1 < k && !cov[k - 1] && row[k - 1]);
        } else {
            lemma_gain_pos(cov, row, k - 1);
        }
    }
}

/// A witness column makes the gain positive.
proof fn lemma_gain_witness(cov: Seq<bool>, row: Seq<bool>, j0: int, k: int)
    requires
        0 <= j0 < k,
        0 <= j0 < cov.len(),
        0 <= j0 < row.len(),
        !cov[j0],
        row[j0],
    ensures
        count_gain(cov, row, k) > 0,
    decreases k,
{
    if j0 < k - 1 {
        lemma_gain_witness(cov, row, j0, k - 1);
    }
}

/// Whether any column is still uncovered.
fn has_uncovered(covered: &Vec<bool>) -> (r: bool)
    ensures
        r <==> exists|j: int| 0 <= j < covered@.len() && !(#[trigger] covered@[j]),
{
    let mut j: usize = 0;
    while j < covered.len()
        invariant
            j <= covered@.len(),
            forall|q: int| 0 <= q < j ==> (#[trigger] covered@[q]),
        decreases covered@.len() - j,
    {
        if !covered[j] {
            assert(!covered@[j as int]);
            return true;
        }
        j = j + 1;
    }
    false
}

/// Number of uncovered columns that selecting this chart row would cover.
fn count_additional_covered(
    covered: &Vec<bool>,
    chart: &PrimeImplicateChart,
    row: usize,
) -> (n: usize)
    requires
        row < chart@.len(),
        chart@[row as int].len() == covered@.len(),
    ensures
        n == count_gain(covered@, chart@[row as int], covered@.len() as int),
{
    let mut n: usize = 0;
    let mut j: usize = 0;
    while j < covered.len()
        invariant
            j <= covered@.len(),
            row < chart@.len(),
            chart@[row as int].len() == covered@.len(),
            n == count_gain(covered@, chart@[row as int], j as int),
            n <= j,
        decreases covered@.len() - j,
    {
        if !covered[j] && chart.cell(row, j) {
            n = n + 1;
        }
        j = j + 1;
    }
    n
}

/// The greedy result is duplicate-free: essentials are distinct, selected
/// implicants come from distinct reduced rows, and the two sets are
/// disjoint.
proof fn lemma_greedy_no_dup(
    rows0: Seq<Seq<bool>>,
    terms0: Seq<Seq<u8>>,
    resv: Seq<Seq<u8>>,
    e: int,
    sel: Seq<bool>,
)
    requires
        rows0.len() == terms0.len(),
        no_dup_terms(terms0),
        0 <= e <= resv.len(),
        forall|p: int, q: int| 0 <= p < q < e ==> resv[p] != resv[q],
        forall|z: int|
            0 <= z < e ==> drawn_from(
                terms0,
                Seq::new(rows0.len(), |i: int| essential_row(rows0, i)),
                true,
                #[trigger] resv[z],
            ),
        sel.len() == filter_by_flags(
            terms0,
            Seq::new(rows0.len(), |i: int| !essential_row(rows0, i)),
        ).len(),
        resv.len() == e + filter_by_flags(
            filter_by_flags(terms0, Seq::new(rows0.len(), |i: int| !essential_row(rows0, i))),
            sel,
        ).len(),
        forall|z: int|
            e <= z < resv.len() ==> #[trigger] resv[z] == filter_by_flags(
                filter_by_flags(terms0, Seq::new(rows0.len(), |i: int| !essential_row(rows0, i))),
                sel,
            )[z - e],
    ensures
        no_dup_terms(resv),
{
    let keepf = Seq::new(rows0.len(), |i: int| !essential_row(rows0, i));
    let essf = Seq::new(rows0.len(), |i: int| essential_row(rows0, i));
    let terms1 = filter_by_flags(terms0, keepf);
    let chosen = filter_by_flags(terms1, sel);
    lemma_filter_no_dup(terms0, keepf);
    lemma_filter_no_dup(terms1, sel);
    lemma_filter_same_len(terms0, rows0, keepf);
    lemma_filter_len_le(terms1, sel);
    assert forall|p: int, q: int| e <= p < q < resv.len() implies resv[p] != resv[q] by {
        assert(resv[p] == chosen[p - e]);
        assert(resv[q] == chosen[q - e]);
    }
    assert forall|z: int| e <= z < resv.len() implies drawn_from(
        terms0,
        essf,
        false,
        #[trigger] resv[z],
    ) by {
        assert(resv[z] == chosen[z - e]);
        lemma_filter_pair_index(terms1, terms1, sel, z - e);
        let i2 = choose|i2: int|
            0 <= i2 < terms1.len() && #[trigger] sel[i2] && filter_by_flags(terms1, sel)[z - e]
                == terms1[i2] && filter_by_flags(terms1, sel)[z - e] == terms1[i2];
        lemma_filter_pair_index(terms0, rows0, keepf, i2);
        let i = choose|i: int|
            0 <= i < terms0.len() && #[trigger] keepf[i] && filter_by_flags(terms0, keepf)[i2]
                == terms0[i] && filter_by_flags(rows0, keepf)[i2] == rows0[i];
        assert(essf[i] == false && resv[z] == terms0[i]);
    }
    lemma_no_dup_two_sources(resv, e, terms0, essf);
}

/// Selects a set of the given prime implicants covering every chart
/// column: the essential implicants, in descending row order, followed by
/// the greedy choices in ascending reduced-row order — at each step the
/// not-yet-selected implicant covering the most uncovered columns,
/// earliest row first on ties, as [`greedy_sel`] writes out.  Every
/// returned term is one of the given implicants, every column is covered
/// by some returned term, and the result holds no duplicates.
#[verifier::rlimit(100)]
pub fn get_minimal_sops(prime_impl_chart: PrimeImplicateChart, prime_impls: Vec<Minterm>) -> (res:
    Vec<Minterm>)
    requires
        prime_impl_chart@.len() == prime_impls@.len(),
        prime_impl_chart@.len() >= 1,
        prime_impl_chart@[0].len() >= 1,
        prime_impl_chart@[0].len() <= 64,
        no_dup_terms(term_views(prime_impls@)),
        forall|i: int|
            0 <= i < prime_impl_chart@.len() ==> (#[trigger] prime_impl_chart@[i]).len()
                == prime_impl_chart@[0].len(),
        forall|j: int| 0 <= j < prime_impl_chart@[0].len() ==> col_covered(prime_impl_chart@, j),
    ensures
        forall|j: int|
            0 <= j < prime_impl_chart@[0].len() ==> col_covered_by_chosen(
                prime_impl_chart@,
                term_views(prime_impls@),
                term_views(res@),
                j,
            ),
        forall|z: int|
            0 <= z < res@.len() ==> in_list(term_views(prime_impls@), #[trigger] term_views(res@)[z]),
        no_dup_terms(term_views(res@)),
        ({
            let rows = prime_impl_chart@;
            let terms = term_views(prime_impls@);
            let keep = Seq::new(rows.len(), |i: int| !essential_row(rows, i));
            let ess = Seq::new(rows.len(), |i: int| essential_row(rows, i));
            let reduced = filter_by_flags(rows, keep);
            let cov0 = Seq::new(rows[0].len(), |j: int| covered_by_essential(rows, j));
            let sel = greedy_sel(
                reduced,
                cov0,
                Seq::new(reduced.len(), |z: int| false),
                (rows[0].len() + 1) as nat,
            );
            term_views(res@) == filter_by_flags(terms, ess).reverse() + filter_by_flags(
                filter_by_flags(terms, keep),
                sel,
            )
        }),
{
    let ghost rows0 = prime_impl_chart@;
    let ghost terms0 = term_views(prime_impls@);
    let ghost ncols = rows0[0].len() as int;
    let mut chart = prime_impl_chart;
    let mut primes = prime_impls;
    let mut time = PetrickTimeInfo::default();
    let (mut min_expr_terms, remaining_cols) = remove_essential_prime_impls(
        &mut chart,
        &mut primes,
        &mut time,
    );
    let ghost keepf = Seq::new(rows0.len(), |i: int| !essential_row(rows0, i));
    let ghost essf = Seq::new(rows0.len(), |i: int| essential_row(rows0, i));
    let ghost rows1 = chart@;
    let ghost terms1 = term_views(primes@);
    let ghost cov0g = Seq::new(rows0[0].len(), |j: int| covered_by_essential(rows0, j));
    let ghost selinit = Seq::new(rows1.len(), |z: int| false);
    let ghost fuel0 = (rows0[0].len() + 1) as nat;
    let ghost res0g = term_views(min_expr_terms@);
    proof {
        lemma_after_essentials(rows0, terms0, rows1, terms1, res0g, ncols);
    }
    if remaining_cols.len() == 0 {
        proof {
            assert forall|j: int| 0 <= j < ncols implies col_covered_by_chosen(
                rows0,
                terms0,
                term_views(min_expr_terms@),
                j,
            ) by {
                if !covered_by_essential(rows0, j) {
                    assert(crate::petrick::in_usize_list(remaining_cols@, j as usize));
                }
            }
            // with everything covered, the greedy loop selects nothing
            assert forall|j: int| 0 <= j < cov0g.len() implies (#[trigger] cov0g[j]) by {
                if !covered_by_essential(rows0, j) {
                    assert(crate::petrick::in_usize_list(remaining_cols@, j as usize));
                }
            }
            assert(greedy_sel(rows1, cov0g, selinit, fuel0) == selinit);
            assert(filter_by_flags(terms1, selinit).len() == 0 && term_views(min_expr_terms@)
                =~= res0g + filter_by_flags(terms1, selinit)) by {
                lemma_filter_none(terms1, selinit);
            }
            lemma_greedy_no_dup(
                rows0,
                terms0,
                term_views(min_expr_terms@),
                term_views(min_expr_terms@).len() as int,
                selinit,
            );
        }
        return min_expr_terms;
    }
    proof {
        // some column is uncovered, so a non-essential row survived
        let j = remaining_cols@[0] as int;
        assert(!covered_by_essential(rows0, j) && j < ncols);
        assert(col_covered(rows0, j));
        let i = choose|i: int| 0 <= i < rows0.len() && (#[trigger] rows0[i])[j];
        assert(!essential_row(rows0, i)) by {
            if essential_row(rows0, i) {
                assert(covered_by_essential(rows0, j));
            }
        }
        assert(keepf[i]);
        lemma_filter_pair_contains(rows0, terms0, keepf, i);
        assert(rows1.len() >= 1);
        assert(rows1[0].len() == ncols);
    }
    let ncols_e = chart.row_len(0);
    let nrows1 = chart.num_rows();
    // Columns already covered by the essential implicants.
    let mut covered: Vec<bool> = vec![true; ncols_e];
    let mut c: usize = 0;
    while c < remaining_cols.len()
        invariant
            c <= remaining_cols@.len(),
            covered@.len() == ncols,
            ncols <= 64,
            forall|z: int|
                0 <= z < remaining_cols@.len() ==> (#[trigger] remaining_cols@[z]) < ncols
                    && !covered_by_essential(rows0, remaining_cols@[z] as int),
            forall|j: int|
                0 <= j < ncols && !covered_by_essential(rows0, j) ==> crate::petrick::in_usize_list(
                    remaining_cols@,
                    j as usize,
                ),
            forall|z1: int, z2: int|
                0 <= z1 < z2 < remaining_cols@.len() ==> remaining_cols@[z1] < remaining_cols@[z2],
            forall|j: int|
                0 <= j < ncols ==> ((#[trigger] covered@[j]) <==> !(exists|z: int|
                    0 <= z < c && (#[trigger] remaining_cols@[z]) == j as usize)),
        decreases remaining_cols@.len() - c,
    {
        let col = remaining_cols[c];
        covered[col] = false;
        proof {
            assert forall|j: int|
                0 <= j < ncols implies ((#[trigger] covered@[j]) <==> !(exists|z: int|
                    0 <= z < c + 1 && (#[trigger] remaining_cols@[z]) == j as usize)) by {
                if j == col as int {
                    assert(remaining_cols@[c as int] == j as usize);
                } else {
                    if exists|z: int| 0 <= z < c + 1 && (#[trigger] remaining_cols@[z]) == j as usize {
                        let z = choose|z: int|
                            0 <= z < c + 1 && (#[trigger] remaining_cols@[z]) == j as usize;
                        if z == c {
                            assert(remaining_cols@[c as int] == col);
                            assert(col == j as usize);
                            assert(col as int == (j as usize) as int);
                            assert((j as usize) as int == j);
                        }
                        assert(z < c);
                    }
                }
            }
        }
        c = c + 1;
    }
    proof {
        assert forall|j: int| 0 <= j < ncols implies ((#[trigger] covered@[j])
            <==> covered_by_essential(rows0, j)) by {
            if covered_by_essential(rows0, j) {
                if !covered@[j] {
                    let z = choose|z: int|
                        0 <= z < remaining_cols@.len() && (#[trigger] remaining_cols@[z]) == j as usize;
                    assert(!covered_by_essential(rows0, remaining_cols@[z] as int));
                }
            } else {
                assert(crate::petrick::in_usize_list(remaining_cols@, j as usize));
                let z = choose|z: int|
                    0 <= z < remaining_cols@.len() && (#[trigger] remaining_cols@[z]) == j as usize;
            }
        }
        assert(covered@ =~= cov0g);
    }
    let mut selected_rows: Vec<bool> = vec![false; nrows1];
    let ghost mut fuel: int = ncols + 1;
    proof {
        assert(selected_rows@ =~= selinit);
        lemma_count_false_le(covered@, ncols);
    }
    // Keep selecting the next best implicant until the cover is complete.
    while has_uncovered(&covered)
        invariant
            covered@.len() == ncols,
            ncols_e == ncols,
            selected_rows@.len() == nrows1,
            nrows1 == rows1.len(),
            rows1 == chart@,
            rows1 == filter_by_flags(rows0, keepf),
            terms0.len() == rows0.len(),
            keepf == Seq::new(rows0.len(), |i: int| !essential_row(rows0, i)),
            forall|z: int| 0 <= z < rows1.len() ==> (#[trigger] rows1[z]).len() == ncols,
            forall|j2: int| 0 <= j2 < ncols ==> col_covered(rows0, j2),
            forall|i: int| 0 <= i < rows0.len() ==> (#[trigger] rows0[i]).len() == ncols,
            forall|j: int|
                0 <= j < ncols ==> ((#[trigger] covered@[j]) <==> (covered_by_essential(rows0, j)
                    || (exists|i: int|
                    0 <= i < nrows1 && (#[trigger] selected_rows@[i]) && rows1[i][j]))),
            fuel >= 1 + count_false(covered@, ncols),
            greedy_sel(rows1, cov0g, selinit, fuel0) == greedy_sel(
                rows1,
                covered@,
                selected_rows@,
                fuel as nat,
            ),
        decreases count_false(covered@, ncols),
    {
        let ghost cov0 = covered@;
        proof {
            let j = choose|j: int| 0 <= j < cov0.len() && !(#[trigger] cov0[j]);
            assert(!covered_by_essential(rows0, j));
            assert(col_covered(rows0, j));
            let i = choose|i: int| 0 <= i < rows0.len() && (#[trigger] rows0[i])[j];
            assert(!essential_row(rows0, i)) by {
                if essential_row(rows0, i) {
                    assert(covered_by_essential(rows0, j));
                }
            }
            assert(keepf[i]);
            lemma_filter_pair_contains(rows0, terms0, keepf, i);
            let z = choose|z: int|
                0 <= z < filter_by_flags(rows0, keepf).len() && #[trigger] filter_by_flags(
                    rows0,
                    keepf,
                )[z] == rows0[i] && filter_by_flags(terms0, keepf)[z] == terms0[i];
            assert(rows1[z][j]);
            assert(!selected_rows@[z]) by {
                if selected_rows@[z] {
                    assert(cov0[j]);
                }
            }
            lemma_gain_witness(cov0, rows1[z], j, ncols);
        }
        // Find the not-yet-selected row covering the most uncovered columns.
        let mut found = false;
        let mut best_row: usize = 0;
        let mut best_cnt: usize = 0;
        let mut i: usize = 0;
        while i < nrows1
            invariant
                i <= nrows1,
                nrows1 == rows1.len(),
                rows1 == chart@,
                covered@.len() == ncols,
                selected_rows@.len() == nrows1,
                forall|z: int| 0 <= z < rows1.len() ==> (#[trigger] rows1[z]).len() == ncols,
                found ==> best_row < i && !selected_rows@[best_row as int] && best_cnt == count_gain(
                    covered@,
                    rows1[best_row as int],
                    ncols,
                ),
                forall|i2: int|
                    0 <= i2 < i && !(#[trigger] selected_rows@[i2]) ==> found && count_gain(
                        covered@,
                        rows1[i2],
                        ncols,
                    ) <= best_cnt,
                !found ==> greedy_best(rows1, covered@, selected_rows@, i as int) == -1,
                found ==> greedy_best(rows1, covered@, selected_rows@, i as int) == best_row as int,
            decreases nrows1 - i,
        {
            if !selected_rows[i] {
                let cnt = count_additional_covered(&covered, &chart, i);
                if !found || cnt > best_cnt {
                    found = true;
                    best_row = i;
                    best_cnt = cnt;
                }
            }
            i = i + 1;
        }
        proof {
            let j = choose|j: int| 0 <= j < cov0.len() && !(#[trigger] cov0[j]);
            let z0 = choose|z: int|
                0 <= z < rows1.len() && !(#[trigger] selected_rows@[z]) && count_gain(
                    cov0,
                    rows1[z],
                    ncols,
                ) > 0;
            assert(found);
            assert(best_cnt >= count_gain(cov0, rows1[z0], ncols));
            assert(best_cnt >= 1);
            lemma_gain_pos(cov0, rows1[best_row as int], ncols);
        }
        let ghost sel0 = selected_rows@;
        let ghost fuelpre = fuel;
        selected_rows[best_row] = true;
        let mut j: usize = 0;
        while j < ncols_e
            invariant
                j <= ncols,
                ncols_e == ncols,
                best_row < nrows1,
                nrows1 == rows1.len(),
                rows1 == chart@,
                covered@.len() == ncols,
                selected_rows@.len() == nrows1,
                selected_rows@[best_row as int],
                selected_rows@ == sel0.update(best_row as int, true),
                forall|z: int| 0 <= z < rows1.len() ==> (#[trigger] rows1[z]).len() == ncols,
                forall|q: int|
                    0 <= q < ncols ==> ((#[trigger] covered@[q]) <==> (cov0[q] || (q < j
                        && rows1[best_row as int][q]))),
            decreases ncols_e - j,
        {
            if chart.cell(best_row, j) {
                covered[j] = true;
            }
            j = j + 1;
        }
        proof {
            // the uncovered count went strictly down
            let j0 = choose|j0: int|
                0 <= j0 < ncols && 0 <= j0 < cov0.len() && 0 <= j0 < rows1[best_row as int].len()
                    && !cov0[j0] && rows1[best_row as int][j0];
            assert(covered@[j0]);
            lemma_count_false_lt(cov0, covered@, j0, ncols);
            // the covered set keeps its meaning
            assert forall|q: int|
                0 <= q < ncols implies ((#[trigger] covered@[q]) <==> (covered_by_essential(
                rows0,
                q,
            ) || (exists|i2: int|
                0 <= i2 < nrows1 && (#[trigger] selected_rows@[i2]) && rows1[i2][q]))) by {
                if covered@[q] {
                    if !cov0[q] {
                        assert(selected_rows@[best_row as int] && rows1[best_row as int][q]);
                    } else {
                        if !covered_by_essential(rows0, q) {
                            let i2 = choose|i2: int|
                                0 <= i2 < nrows1 && (#[trigger] sel0[i2]) && rows1[i2][q];
                            assert(selected_rows@[i2]);
                        }
                    }
                } else {
                    if exists|i2: int|
                        0 <= i2 < nrows1 && (#[trigger] selected_rows@[i2]) && rows1[i2][q] {
                        let i2 = choose|i2: int|
                            0 <= i2 < nrows1 && (#[trigger] selected_rows@[i2]) && rows1[i2][q];
                        assert(i2 != best_row as int);
                        assert(false);
                    }
                }
            }
            // the specification takes the same step as the loop
            assert(covered@ =~= cover_union(cov0, rows1[best_row as int]));
            assert(fuelpre >= 1);
            assert(greedy_best(rows1, cov0, sel0, nrows1 as int) == best_row as int);
            assert(greedy_sel(rows1, cov0, sel0, fuelpre as nat) == greedy_sel(
                rows1,
                covered@,
                selected_rows@,
                (fuelpre - 1) as nat,
            ));
            fuel = fuel - 1;
        }
    }
    // Hand back the essential implicants plus the selected ones.
    proof {
        // no column is uncovered, so the greedy specification stops here
        assert(greedy_sel(rows1, covered@, selected_rows@, fuel as nat) == selected_rows@);
        assert(selected_rows@ == greedy_sel(rows1, cov0g, selinit, fuel0));
        assert(terms1.len() == selected_rows@.len());
    }
    let mut row: usize = 0;
    while row < nrows1
        invariant
            row <= nrows1,
            nrows1 == rows1.len(),
            terms1 == term_views(primes@),
            terms1.len() == rows1.len(),
            terms1.len() == selected_rows@.len(),
            res0g.len() <= term_views(min_expr_terms@).len(),
            selected_rows@.len() == nrows1,
            term_views(min_expr_terms@) == res0g + filter_by_flags(
                terms1.take(row as int),
                selected_rows@.take(row as int),
            ),
            forall|z: int|
                0 <= z < term_views(min_expr_terms@).len() ==> in_list(
                    terms0,
                    #[trigger] term_views(min_expr_terms@)[z],
                ),
            forall|z: int| 0 <= z < rows1.len() ==> in_list(terms0, #[trigger] terms1[z]),
            forall|j: int|
                0 <= j < ncols && covered_by_essential(rows0, j) ==> col_covered_by_chosen(
                    rows0,
                    terms0,
                    term_views(min_expr_terms@),
                    j,
                ),
            forall|i2: int|
                0 <= i2 < row && (#[trigger] selected_rows@[i2]) ==> in_list(
                    term_views(min_expr_terms@),
                    terms1[i2],
                ),
        decreases nrows1 - row,
    {
        proof {
            lemma_filter_step(terms1, selected_rows@, row as int);
        }
        if selected_rows[row] {
            proof {
                lemma_term_views_push(min_expr_terms@, primes@[row as int]);
            }
            let ghost m0 = term_views(min_expr_terms@);
            min_expr_terms.push(primes[row].clone());
            proof {
                assert(term_views(min_expr_terms@) == m0.push(terms1[row as int]));
                assert(term_views(min_expr_terms@)[m0.len() as int] == terms1[row as int]);
                assert(term_views(min_expr_terms@) =~= res0g + filter_by_flags(
                    terms1.take(row + 1),
                    selected_rows@.take(row + 1),
                ));
                assert forall|i2: int|
                    0 <= i2 < row + 1 && (#[trigger] selected_rows@[i2]) implies in_list(
                    term_views(min_expr_terms@),
                    terms1[i2],
                ) by {
                    if i2 < row {
                        let w = choose|w: int| 0 <= w < m0.len() && m0[w] == terms1[i2];
                        assert(term_views(min_expr_terms@)[w] == terms1[i2]);
                    }
                }
                assert forall|j: int|
                    0 <= j < ncols && covered_by_essential(rows0, j) implies col_covered_by_chosen(
                    rows0,
                    terms0,
                    term_views(min_expr_terms@),
                    j,
                ) by {
                    let i = choose|i: int|
                        0 <= i < rows0.len() && (#[trigger] rows0[i])[j] && in_list(m0, terms0[i]);
                    let w = choose|w: int| 0 <= w < m0.len() && m0[w] == terms0[i];
                    assert(term_views(min_expr_terms@)[w] == terms0[i]);
                    assert(in_list(term_views(min_expr_terms@), terms0[i]));
                }
            }
        } else {
            proof {
                assert(term_views(min_expr_terms@) =~= res0g + filter_by_flags(
                    terms1.take(row + 1),
                    selected_rows@.take(row + 1),
                ));
            }
        }
        row = row + 1;
    }
    proof {
        assert(terms1.take(nrows1 as int) =~= terms1);
        assert(selected_rows@.take(nrows1 as int) =~= selected_rows@);
        assert(term_views(min_expr_terms@) == res0g + filter_by_flags(terms1, selected_rows@));
        assert forall|j: int| 0 <= j < ncols implies col_covered_by_chosen(
            rows0,
            terms0,
            term_views(min_expr_terms@),
            j,
        ) by {
            if !covered_by_essential(rows0, j) {
                assert(covered@[j]);
                let i2 = choose|i2: int|
                    0 <= i2 < nrows1 && (#[trigger] selected_rows@[i2]) && rows1[i2][j];
                assert(in_list(term_views(min_expr_terms@), terms1[i2]));
                lemma_filter_pair_index(rows0, terms0, keepf, i2);
                let iold = choose|iold: int|
                    0 <= iold < rows0.len() && #[trigger] keepf[iold] && filter_by_flags(
                        rows0,
                        keepf,
                    )[i2] == rows0[iold] && filter_by_flags(terms0, keepf)[i2] == terms0[iold];
                assert(rows0[iold][j]);
                assert(terms1[i2] == terms0[iold]);
            }
        }
        lemma_filter_same_len(terms1, rows1, selected_rows@);
        lemma_greedy_no_dup(
            rows0,
            terms0,
            term_views(min_expr_terms@),
            res0g.len() as int,
            selected_rows@,
        );
    }
    min_expr_terms
}

/// Filtering by all-false flags keeps nothing.
proof fn lemma_filter_none<T>(s: Seq<T>, flags: Seq<bool>)
    requires
        flags.len() == s.len(),
        forall|z: int| 0 <= z < flags.len() ==> !(#[trigger] flags[z]),
    ensures
        filter_by_flags(s, flags).len() == 0,
    decreases s.len(),
{
    if s.len() > 0 {
        assert(!flags.last());
        lemma_filter_none(s.drop_last(), flags.drop_last());
    }
}

} // verus!
