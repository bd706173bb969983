//! Formatting of terms as product expressions, and the canonical display
//! order of a list of terms.

use vstd::prelude::*;

verus! {

use crate::model::{in_list, wf_term, VAL_ONE, VAL_X, VAL_ZERO};
use crate::{term_views, Minterm};

/// Display rank of a position value: positive literal, negative literal,
/// then unconstrained.
pub open spec fn val_rank(v: u8) -> int {
    if v == VAL_ONE {
        0
    } else if v == VAL_ZERO {
        1
    } else {
        2
    }
}

/// Display rank of display position `k` (first variable first); positions
/// past the end count as unconstrained.
pub open spec fn rank_at(t: Seq<u8>, k: int) -> int {
    if k < t.len() {
        val_rank(t[t.len() - 1 - k])
    } else {
        2
    }
}

/// Lexicographic display order over the ranks of positions `k..6`.
pub open spec fn term_le(a: Seq<u8>, b: Seq<u8>, k: int) -> bool
    decreases 6 - k,
{
    if k >= 6 {
        true
    } else {
        rank_at(a, k) < rank_at(b, k) || (rank_at(a, k) == rank_at(b, k) && term_le(a, b, k + 1))
    }
}

/// The display order is total.
proof fn lemma_term_le_total(a: Seq<u8>, b: Seq<u8>, k: int)
    ensures
        term_le(a, b, k) || term_le(b, a, k),
    decreases 6 - k,
{
    if k < 6 {
        lemma_term_le_total(a, b, k + 1);
    }
}

/// The display order is transitive.
proof fn lemma_term_le_trans(a: Seq<u8>, b: Seq<u8>, c: Seq<u8>, k: int)
    requires
        term_le(a, b, k),
        term_le(b, c, k),
    ensures
        term_le(a, c, k),
    decreases 6 - k,
{
    if k < 6 {
        if rank_at(a, k) == rank_at(b, k) && rank_at(b, k) == rank_at(c, k) {
            lemma_term_le_trans(a, b, c, k + 1);
        }
    }
}

/// Exec comparison in the display order.
fn term_le_exec(a: &Minterm, b: &Minterm) -> (r: bool)
    ensures
        r == term_le(a@, b@, 0),
{
    let mut k: usize = 0;
    let la = a.len();
    let lb = b.len();
    while k < 6
        invariant
            k <= 6,
            la == a@.len(),
            lb == b@.len(),
            term_le(a@, b@, 0) == term_le(a@, b@, k as int),
            term_le(b@, a@, 0) == term_le(b@, a@, k as int),
        decreases 6 - k,
    {
        let ra: usize = if k < la {
            let v = a.value_at(la - 1 - k);
            if v == VAL_ONE {
                0
            } else if v == VAL_ZERO {
                1
            } else {
                2
            }
        } else {
            2
        };
        let rb: usize = if k < lb {
            let v = b.value_at(lb - 1 - k);
            if v == VAL_ONE {
                0
            } else if v == VAL_ZERO {
                1
            } else {
                2
            }
        } else {
            2
        };
        proof {
            assert(ra == rank_at(a@, k as int));
            assert(rb == rank_at(b@, k as int));
        }
        if ra < rb {
            return true;
        }
        if ra > rb {
            return false;
        }
        k = k + 1;
    }
    true
}

/// Sorts minterms for canonical display: per variable, positive literals
/// first, then negative, then unconstrained; earlier variables weigh more.
#[verifier::rlimit(100)]
pub fn display_sort_minterms(minterms: &mut Vec<Minterm>)
    ensures
        final(minterms)@.len() == old(minterms)@.len(),
        term_views(final(minterms)@).to_multiset() == term_views(old(minterms)@).to_multiset(),
        forall|z: int|
            0 <= z < final(minterms)@.len() ==> in_list(
                term_views(old(minterms)@),
                #[trigger] term_views(final(minterms)@)[z],
            ),
        forall|z: int|
            0 <= z < old(minterms)@.len() ==> in_list(
                term_views(final(minterms)@),
                #[trigger] term_views(old(minterms)@)[z],
            ),
        forall|z1: int, z2: int|
            0 <= z1 < z2 < final(minterms)@.len() ==> term_le(
                term_views(final(minterms)@)[z1],
                term_views(final(minterms)@)[z2],
                0,
            ),
        crate::no_dup_terms(term_views(old(minterms)@)) ==> crate::no_dup_terms(
            term_views(final(minterms)@),
        ),
{
    let ghost orig = term_views(minterms@);
    let mut sorted: Vec<Minterm> = Vec::new();
    proof {
        let e1 = orig.take(0);
        let e2 = term_views(sorted@);
        e1.to_multiset_ensures();
        e2.to_multiset_ensures();
        assert forall|x: Seq<u8>|
            e1.to_multiset().count(x) == e2.to_multiset().count(x) by {
            assert(!e1.contains(x) && !e2.contains(x));
            assert(e1.to_multiset().count(x) == 0 && e2.to_multiset().count(x) == 0);
        }
        assert(e1.to_multiset() =~= e2.to_multiset());
    }
    let mut i: usize = 0;
    while i < minterms.len()
        invariant
            i <= minterms@.len(),
            orig == term_views(minterms@),
            sorted@.len() == i,
            term_views(sorted@).to_multiset() == orig.take(i as int).to_multiset(),
            crate::no_dup_terms(orig) ==> crate::no_dup_terms(term_views(sorted@)),
            forall|z: int|
                0 <= z < sorted@.len() ==> in_list(orig.take(i as int), #[trigger] term_views(
                    sorted@,
                )[z]),
            forall|w: int| 0 <= w < i ==> in_list(term_views(sorted@), #[trigger] orig[w]),
            forall|z1: int, z2: int|
                0 <= z1 < z2 < sorted@.len() ==> term_le(
                    term_views(sorted@)[z1],
                    term_views(sorted@)[z2],
                    0,
                ),
        decreases minterms@.len() - i,
    {
        let x = minterms[i].clone();
        let ghost s0 = sorted@;
        let mut pos: usize = 0;
        loop
            invariant
                pos <= sorted@.len(),
                sorted@ == s0,
                x@ == orig[i as int],
                forall|z: int| 0 <= z < pos ==> term_le(term_views(sorted@)[z], x@, 0),
                forall|z1: int, z2: int|
                    0 <= z1 < z2 < sorted@.len() ==> term_le(
                        term_views(sorted@)[z1],
                        term_views(sorted@)[z2],
                        0,
                    ),
            ensures
                pos <= sorted@.len(),
                sorted@ == s0,
                forall|z: int| 0 <= z < pos ==> term_le(term_views(sorted@)[z], x@, 0),
                forall|z: int| pos <= z < sorted@.len() ==> term_le(x@, term_views(sorted@)[z], 0),
            decreases sorted@.len() - pos,
        {
            if pos >= sorted.len() {
                break ;
            }
            if !term_le_exec(&sorted[pos], &x) {
                proof {
                    lemma_term_le_total(term_views(sorted@)[pos as int], x@, 0);
                    assert forall|z: int| pos <= z < sorted@.len() implies term_le(
                        x@,
                        term_views(sorted@)[z],
                        0,
                    ) by {
                        if z > pos {
                            lemma_term_le_trans(
                                x@,
                                term_views(sorted@)[pos as int],
                                term_views(sorted@)[z],
                                0,
                            );
                        }
                    }
                }
                break ;
            }
            pos = pos + 1;
        }
        sorted.insert(pos, x);
        proof {
            let s1 = sorted@;
            assert(s1 == s0.insert(pos as int, x));
            assert forall|z: int| 0 <= z < s1.len() implies term_views(s1)[z] == (if z < pos {
                term_views(s0)[z]
            } else if z == pos {
                x@
            } else {
                term_views(s0)[z - 1]
            }) by {
                if z < pos {
                    assert(s1[z] == s0[z]);
                } else if z == pos {
                    assert(s1[z] == x);
                } else {
                    assert(s1[z] == s0[z - 1]);
                }
            }
            assert forall|z1: int, z2: int|
                0 <= z1 < z2 < s1.len() implies term_le(
                term_views(s1)[z1],
                term_views(s1)[z2],
                0,
            ) by {}
            assert(term_views(s1) =~= term_views(s0).insert(pos as int, x@));
            crate::lemma_insert_to_multiset(term_views(s0), pos as int, x@);
            assert(orig.take(i + 1) =~= orig.take(i as int).push(orig[i as int]));
            orig.take(i as int).to_multiset_ensures();
            assert(orig.take(i + 1).to_multiset() =~= orig.take(i as int).to_multiset().insert(
                orig[i as int],
            ));
            assert forall|z: int| 0 <= z < s1.len() implies in_list(
                orig.take(i + 1),
                #[trigger] term_views(s1)[z],
            ) by {
                if z != pos {
                    let w = if z < pos {
                        z
                    } else {
                        z - 1
                    };
                    assert(in_list(orig.take(i as int), term_views(s0)[w]));
                    let w2 = choose|w2: int|
                        0 <= w2 < orig.take(i as int).len() && orig.take(i as int)[w2]
                            == term_views(s0)[w];
                    assert(orig.take(i + 1)[w2] == term_views(s1)[z]);
                } else {
                    assert(term_views(s1)[z] == orig[i as int]);
                    assert(orig.take(i + 1)[i as int] == orig[i as int]);
                }
            }
            if crate::no_dup_terms(orig) {
                assert forall|z1: int, z2: int|
                    0 <= z1 < z2 < s1.len() implies term_views(s1)[z1] != term_views(s1)[z2] by {
                    if z1 != pos && z2 != pos {
                        let w1 = if z1 < pos {
                            z1
                        } else {
                            z1 - 1
                        };
                        let w2 = if z2 < pos {
                            z2
                        } else {
                            z2 - 1
                        };
                        assert(term_views(s1)[z1] == term_views(s0)[w1]);
                        assert(term_views(s1)[z2] == term_views(s0)[w2]);
                    } else {
                        // one side is the inserted element, fresh among the prefix
                        let zo = if z1 == pos {
                            z2
                        } else {
                            z1
                        };
                        let w = if zo < pos {
                            zo
                        } else {
                            zo - 1
                        };
                        assert(term_views(s1)[zo] == term_views(s0)[w]);
                        assert(in_list(orig.take(i as int), term_views(s0)[w]));
                        let ws = choose|ws: int|
                            0 <= ws < orig.take(i as int).len() && orig.take(i as int)[ws]
                                == term_views(s0)[w];
                        assert(orig[ws] == term_views(s0)[w]);
                        assert(orig[ws] != orig[i as int]);
                        assert(term_views(s1)[pos as int] == orig[i as int]);
                    }
                }
            }
            assert forall|w: int| 0 <= w < i + 1 implies in_list(
                term_views(s1),
                #[trigger] orig[w],
            ) by {
                if w < i {
                    let z = choose|z: int| 0 <= z < s0.len() && term_views(s0)[z] == orig[w];
                    if z < pos {
                        assert(term_views(s1)[z] == orig[w]);
                    } else {
                        assert(term_views(s1)[z + 1] == orig[w]);
                    }
                } else {
                    assert(term_views(s1)[pos as int] == orig[w]);
                }
            }
        }
        i = i + 1;
    }
    proof {
        assert(orig.take(orig.len() as int) =~= orig);
        assert forall|z: int| 0 <= z < sorted@.len() implies in_list(
            orig,
            #[trigger] term_views(sorted@)[z],
        ) by {
            assert(in_list(orig.take(orig.len() as int), term_views(sorted@)[z]));
        }
    }
    *minterms = sorted;
}

// ----------------------------
// String formatting functions.

/// The letter of display position `k`.
pub open spec fn letter_char(k: int) -> char {
    if k == 0 {
        'A'
    } else if k == 1 {
        'B'
    } else if k == 2 {
        'C'
    } else if k == 3 {
        'D'
    } else if k == 4 {
        'E'
    } else {
        'F'
    }
}

/// The characters of one literal: the letter, negated with `~` for a
/// position fixed at 0.
pub open spec fn lit_chars(v: u8, k: int) -> Seq<char> {
    if v == VAL_ZERO {
        seq!['~', letter_char(k)]
    } else {
        seq![letter_char(k)]
    }
}

/// The literal text of the first `k` display positions, joined by `&`.
pub open spec fn term_chars_upto(t: Seq<u8>, k: int) -> Seq<char>
    decreases k,
{
    if k <= 0 {
        Seq::empty()
    } else {
        let prev = term_chars_upto(t, k - 1);
        let v = t[t.len() - k];
        if v == VAL_X {
            prev
        } else if prev.len() == 0 {
            lit_chars(v, k - 1)
        } else {
            prev + seq![' ', '&', ' '] + lit_chars(v, k - 1)
        }
    }
}

/// The text `True`.
pub open spec fn true_chars() -> Seq<char> {
    seq!['T', 'r', 'u', 'e']
}

/// The text `False`.
pub open spec fn false_chars() -> Seq<char> {
    seq!['F', 'a', 'l', 's', 'e']
}

/// The display text of one term: its literals joined by `&`, or `True` for
/// a term with no fixed position.
pub open spec fn minterm_display(t: Seq<u8>) -> Seq<char> {
    if term_chars_upto(t, t.len() as int).len() == 0 {
        true_chars()
    } else {
        term_chars_upto(t, t.len() as int)
    }
}

/// The letter of display position `k`, as text.
fn letter_str(k: usize) -> (r: &'static str)
    requires
        k < 6,
    ensures
        r@ == seq![letter_char(k as int)],
{
    proof {
        reveal_strlit("A");
        reveal_strlit("B");
        reveal_strlit("C");
        reveal_strlit("D");
        reveal_strlit("E");
        reveal_strlit("F");
    }
    let r = if k == 0 {
        "A"
    } else if k == 1 {
        "B"
    } else if k == 2 {
        "C"
    } else if k == 3 {
        "D"
    } else if k == 4 {
        "E"
    } else {
        "F"
    };
    proof {
        assert(r@ =~= seq![letter_char(k as int)]);
    }
    r
}

/// Formats one term as a product of literals, `True` when empty.
pub fn string_for_minterm(minterm: &Minterm) -> (r: String)
    requires
        minterm@.len() <= 6,
        wf_term(minterm@),
    ensures
        r@ == minterm_display(minterm@),
{
    let n = minterm.len();
    let mut term_string = String::new();
    let mut has_lit = false;
    let mut k: usize = 0;
    while k < n
        invariant
            k <= n,
            n == minterm@.len(),
            n <= 6,
            wf_term(minterm@),
            term_string@ == term_chars_upto(minterm@, k as int),
            has_lit <==> term_chars_upto(minterm@, k as int).len() > 0,
        decreases n - k,
    {
        let v = minterm.value_at(n - 1 - k);
        if v != VAL_X {
            if has_lit {
                term_string.append(" & ");
                proof {
                    reveal_strlit(" & ");
                    assert(" & "@ =~= seq![' ', '&', ' ']);
                }
            }
            if v == VAL_ZERO {
                term_string.append("~");
                proof {
                    reveal_strlit("~");
                    assert("~"@ =~= seq!['~']);
                }
            }
            term_string.append(letter_str(k));
            has_lit = true;
            proof {
                assert(minterm@[n - 1 - k as int] == v);
                assert(term_string@ =~= term_chars_upto(minterm@, k as int + 1));
            }
        } else {
            proof {
                assert(term_chars_upto(minterm@, k as int + 1) == term_chars_upto(
                    minterm@,
                    k as int,
                ));
            }
        }
        k = k + 1;
    }
    if has_lit {
        term_string
    } else {
        let mut s = String::new();
        s.append("True");
        proof {
            reveal_strlit("True");
            assert(s@ =~= true_chars());
        }
        s
    }
}

/// The separator characters between products: the given text, or a single
/// space.
pub open spec fn sep_view(separator: Option<&str>) -> Seq<char> {
    match separator {
        Some(s) => s@,
        None => seq![' '],
    }
}

/// The text of the first `k` terms, each parenthesized, joined by the
/// separator and `| `, omitting `True` products when asked.
pub open spec fn sop_chars(ts: Seq<Seq<u8>>, omit: bool, sep: Seq<char>, k: int) -> Seq<char>
    decreases k,
{
    if k <= 0 {
        Seq::empty()
    } else {
        let prev = sop_chars(ts, omit, sep, k - 1);
        let tc = minterm_display(ts[k - 1]);
        if omit && tc == true_chars() {
            prev
        } else {
            let item = seq!['('] + tc + seq![')'];
            if prev.len() == 0 {
                item
            } else {
                prev + sep + seq!['|', ' '] + item
            }
        }
    }
}

/// The display text of a sum of products: `False` for no terms, `True` for
/// an otherwise empty result, else the joined products.
pub open spec fn sop_display(ts: Seq<Seq<u8>>, omit: bool, sep: Seq<char>) -> Seq<char> {
    if ts.len() == 0 {
        false_chars()
    } else if sop_chars(ts, omit, sep, ts.len() as int).len() == 0 {
        true_chars()
    } else {
        sop_chars(ts, omit, sep, ts.len() as int)
    }
}

/// Formats the sum of products with minterm set `minterms`.
#[verifier::rlimit(100)]
pub fn string_for_sop_minterms(
    minterms: &Vec<Minterm>,
    omit_trivial: bool,
    separator: Option<&str>,
) -> (r: String)
    requires
        forall|z: int|
            0 <= z < minterms@.len() ==> (#[trigger] term_views(minterms@)[z]).len() <= 6
                && wf_term(term_views(minterms@)[z]),
    ensures
        r@ == sop_display(term_views(minterms@), omit_trivial, sep_view(separator)),
{
    if minterms.len() == 0 {
        let mut s = String::new();
        s.append("False");
        proof {
            reveal_strlit("False");
            assert(s@ =~= false_chars());
        }
        return s;
    }
    let sep_str: &str = match separator {
        Some(s) => s,
        None => " ",
    };
    proof {
        reveal_strlit(" ");
        assert(sep_str@ =~= sep_view(separator));
    }
    let mut expr_string = String::new();
    let mut has_item = false;
    let truth = {
        let mut t = String::new();
        t.append("True");
        t
    };
    proof {
        reveal_strlit("True");
        assert(truth@ =~= true_chars());
    }
    let mut k: usize = 0;
    while k < minterms.len()
        invariant
            k <= minterms@.len(),
            truth@ == true_chars(),
            sep_str@ == sep_view(separator),
            forall|z: int|
                0 <= z < minterms@.len() ==> (#[trigger] term_views(minterms@)[z]).len() <= 6
                    && wf_term(term_views(minterms@)[z]),
            expr_string@ == sop_chars(
                term_views(minterms@),
                omit_trivial,
                sep_view(separator),
                k as int,
            ),
            has_item <==> sop_chars(
                term_views(minterms@),
                omit_trivial,
                sep_view(separator),
                k as int,
            ).len() > 0,
        decreases minterms@.len() - k,
    {
        proof {
            assert(term_views(minterms@)[k as int] == minterms@[k as int]@);
        }
        let term_string = string_for_minterm(&minterms[k]);
        let is_true = term_string.eq(&truth);
        if omit_trivial && is_true {
            proof {
                assert(sop_chars(
                    term_views(minterms@),
                    omit_trivial,
                    sep_view(separator),
                    k as int + 1,
                ) == sop_chars(term_views(minterms@), omit_trivial, sep_view(separator), k as int));
            }
        } else {
            if has_item {
                expr_string.append(sep_str);
                expr_string.append("| ");
                proof {
                    reveal_strlit("| ");
                    assert("| "@ =~= seq!['|', ' ']);
                }
            }
            expr_string.append("(");
            expr_string.append(term_string.as_str());
            expr_string.append(")");
            has_item = true;
            proof {
                reveal_strlit("(");
                reveal_strlit(")");
                assert("("@ =~= seq!['(']);
                assert(")"@ =~= seq![')']);
                assert(expr_string@ =~= sop_chars(
                    term_views(minterms@),
                    omit_trivial,
                    sep_view(separator),
                    k as int + 1,
                ));
            }
        }
        k = k + 1;
    }
    if has_item {
        expr_string
    } else {
        truth
    }
}

/// The decimal digit character of a value below ten.
pub open spec fn digit_char(d: int) -> char {
    if d == 0 {
        '0'
    } else if d == 1 {
        '1'
    } else if d == 2 {
        '2'
    } else if d == 3 {
        '3'
    } else if d == 4 {
        '4'
    } else if d == 5 {
        '5'
    } else if d == 6 {
        '6'
    } else if d == 7 {
        '7'
    } else if d == 8 {
        '8'
    } else {
        '9'
    }
}

/// The decimal digits of a number, most significant first.
pub open spec fn dec_chars(n: int) -> Seq<char>
    decreases n,
{
    if n < 10 {
        seq![digit_char(n)]
    } else {
        dec_chars(n / 10) + seq![digit_char(n % 10)]
    }
}

/// The decimal digit of a value below ten, as text.
fn digit_str(d: u64) -> (r: &'static str)
    requires
        d < 10,
    ensures
        r@ == seq![digit_char(d as int)],
{
    proof {
        reveal_strlit("0");
        reveal_strlit("1");
        reveal_strlit("2");
        reveal_strlit("3");
        reveal_strlit("4");
        reveal_strlit("5");
        reveal_strlit("6");
        reveal_strlit("7");
        reveal_strlit("8");
        reveal_strlit("9");
    }
    let r = if d == 0 {
        "0"
    } else if d == 1 {
        "1"
    } else if d == 2 {
        "2"
    } else if d == 3 {
        "3"
    } else if d == 4 {
        "4"
    } else if d == 5 {
        "5"
    } else if d == 6 {
        "6"
    } else if d == 7 {
        "7"
    } else if d == 8 {
        "8"
    } else {
        "9"
    };
    proof {
        assert(r@ =~= seq![digit_char(d as int)]);
    }
    r
}

/// Writes a number in decimal.
pub fn u64_to_string(n: u64) -> (s: String)
    ensures
        s@ == dec_chars(n as int),
    decreases n,
{
    if n < 10 {
        let mut s = String::new();
        s.append(digit_str(n));
        proof {
            assert(s@ =~= dec_chars(n as int));
        }
        s
    } else {
        let mut s = u64_to_string(n / 10);
        s.append(digit_str(n % 10));
        proof {
            assert(s@ =~= dec_chars(n as int));
        }
        s
    }
}

} // verus!
