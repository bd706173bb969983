//! Conversions between representations of a logical function: hex INIT
//! strings, minterm lists, and sum-of-products text.  The INIT string is a
//! right-justified hexadecimal encoding of the 64-entry truth table of a
//! function of up to six variables: bit `k` set means the assignment whose
//! index is `k` is in the on-set, with the first variable as the lowest
//! bit of the index.

use vstd::prelude::*;

verus! {

use vstd::string::StringSliceAdditionalSpecFns;
use vstd::string::StrSliceExecFns;

use crate::model::{covers, wf_term, VAL_ONE, VAL_X, VAL_ZERO};
use crate::petrick::{bv_bit, lemma_no_bits_zero, lemma_or_bits, lemma_single_bit};
use crate::{term_views, Minterm};

/// A malformed hex INIT string.
#[derive(Clone, Copy, PartialEq, Eq, Structural, Debug)]
pub enum InitError {
    /// More than sixteen characters.
    TooLong,
    /// A character that is not a hexadecimal digit.
    NotHex,
}

/// Malformed sum-of-products text.
#[derive(Clone, Copy, PartialEq, Eq, Structural, Debug)]
pub enum SopError {
    /// A product is not parenthesized and not a single variable letter.
    BadProduct,
    /// A literal names no variable among `A` to `F`.
    BadVariable,
}

/// Whether the character is a hexadecimal digit.
pub open spec fn is_hex_digit(c: char) -> bool {
    (48 <= c as int <= 57) || (65 <= c as int <= 70) || (97 <= c as int <= 102)
}

/// The value of a hexadecimal digit character.
pub open spec fn hex_digit_val(c: char) -> int {
    if 48 <= c as int <= 57 {
        c as int - 48
    } else if 65 <= c as int <= 70 {
        c as int - 55
    } else if 97 <= c as int <= 102 {
        c as int - 87
    } else {
        0
    }
}

/// Every character is a hexadecimal digit.
pub open spec fn all_hex(s: Seq<char>) -> bool {
    forall|i: int| 0 <= i < s.len() ==> is_hex_digit(#[trigger] s[i])
}

/// The value of a string of hexadecimal digits, most significant first.
pub open spec fn hex_val(s: Seq<char>) -> int
    decreases s.len(),
{
    if s.len() == 0 {
        0
    } else {
        hex_val(s.drop_last()) * 16 + hex_digit_val(s.last())
    }
}

/// Sixteen to the given power.
pub open spec fn pow16(n: int) -> int
    decreases n,
{
    if n <= 0 {
        1
    } else {
        pow16(n - 1) * 16
    }
}

/// The value of a hex string is bounded by sixteen to its length.
proof fn lemma_hex_val_bound(s: Seq<char>)
    ensures
        0 <= hex_val(s) < pow16(s.len() as int),
    decreases s.len(),
{
    if s.len() > 0 {
        lemma_hex_val_bound(s.drop_last());
        assert(hex_digit_val(s.last()) < 16);
        assert(hex_val(s.drop_last()) * 16 <= (pow16(s.len() - 1) - 1) * 16) by (nonlinear_arith)
            requires
                hex_val(s.drop_last()) <= pow16(s.len() - 1) - 1,
        ;
    }
}

/// Sixteen to a power grows with the power.
proof fn lemma_pow16_le(a: int, b: int)
    requires
        0 <= a <= b,
    ensures
        pow16(a) <= pow16(b),
    decreases b - a,
{
    if a < b {
        lemma_pow16_le(a, b - 1);
        lemma_pow16_pos(b - 1);
        assert(pow16(b - 1) * 16 >= pow16(b - 1)) by (nonlinear_arith)
            requires
                pow16(b - 1) >= 1,
        ;
    }
}

/// Sixteen to a power is positive.
proof fn lemma_pow16_pos(n: int)
    ensures
        pow16(n) >= 1,
    decreases n,
{
    if n > 0 {
        lemma_pow16_pos(n - 1);
        assert(pow16(n - 1) * 16 >= 16) by (nonlinear_arith)
            requires
                pow16(n - 1) >= 1,
        ;
    }
}

/// The hexadecimal digit value of a character, when it has one.
fn hex_digit_value(c: char) -> (r: Option<u64>)
    ensures
        match r {
            Some(v) => is_hex_digit(c) && v == hex_digit_val(c) && v < 16,
            None => !is_hex_digit(c),
        },
{
    let u = c as u32;
    if 48 <= u && u <= 57 {
        Some((u - 48) as u64)
    } else if 65 <= u && u <= 70 {
        Some((u - 55) as u64)
    } else if 97 <= u && u <= 102 {
        Some((u - 87) as u64)
    } else {
        None
    }
}

/// Parses a hex INIT string of at most sixteen characters into the 64-bit
/// truth-table word it denotes.
pub fn parse_init_hex(hex_str: &str) -> (r: Result<u64, InitError>)
    ensures
        match r {
            Ok(n) => hex_str@.len() <= 16 && all_hex(hex_str@) && n == hex_val(hex_str@),
            Err(e) => match e {
                InitError::TooLong => hex_str@.len() > 16,
                InitError::NotHex => hex_str@.len() <= 16 && !all_hex(hex_str@),
            },
        },
{
    let l = hex_str.unicode_len();
    if l > 16 {
        return Err(InitError::TooLong);
    }
    let mut n: u64 = 0;
    let mut i: usize = 0;
    while i < l
        invariant
            i <= l,
            l == hex_str@.len(),
            l <= 16,
            n == hex_val(hex_str@.take(i as int)),
            forall|q: int| 0 <= q < i ==> is_hex_digit(#[trigger] hex_str@[q]),
        decreases l - i,
    {
        let c = hex_str.get_char(i);
        match hex_digit_value(c) {
            Some(d) => {
                proof {
                    lemma_hex_val_bound(hex_str@.take(i as int));
                    lemma_pow16_le(i as int, 15);
                    assert(pow16(15) == 0x1000_0000_0000_0000) by {
                        assert(pow16(0) == 1);
                        assert(pow16(1) == 16);
                        assert(pow16(2) == 0x100);
                        assert(pow16(3) == 0x1000);
                        assert(pow16(4) == 0x1_0000);
                        assert(pow16(5) == 0x10_0000);
                        assert(pow16(6) == 0x100_0000);
                        assert(pow16(7) == 0x1000_0000);
                        assert(pow16(8) == 0x1_0000_0000);
                        assert(pow16(9) == 0x10_0000_0000);
                        assert(pow16(10) == 0x100_0000_0000);
                        assert(pow16(11) == 0x1000_0000_0000);
                        assert(pow16(12) == 0x1_0000_0000_0000);
                        assert(pow16(13) == 0x10_0000_0000_0000);
                        assert(pow16(14) == 0x100_0000_0000_0000);
                        assert(pow16(15) == 0x100_0000_0000_0000 * 16);
                    }
                    assert(n < 0x1000_0000_0000_0000);
                }
                n = n * 16 + d;
                proof {
                    assert(hex_str@.take(i + 1).drop_last() =~= hex_str@.take(i as int));
                    assert(hex_str@.take(i + 1).last() == hex_str@[i as int]);
                }
                i = i + 1;
            },
            None => {
                return Err(InitError::NotHex);
            },
        }
    }
    proof {
        assert(hex_str@.take(l as int) =~= hex_str@);
    }
    Ok(n)
}

/// The term of `n` positions denoting the assignment with index `k`: the
/// first variable is the lowest bit of `k`, written last.
pub open spec fn bin_term(k: u64, n: nat) -> Seq<u8> {
    Seq::new(
        n,
        |i: int|
            if bv_bit(k, (n - 1 - i) as u64) {
                VAL_ONE
            } else {
                VAL_ZERO
            },
    )
}

/// The text of the assignment with index `k`, over `n` binary digits.
pub open spec fn bin_chars(k: u64, n: nat) -> Seq<char> {
    Seq::new(
        n,
        |i: int|
            if bv_bit(k, (n - 1 - i) as u64) {
                '1'
            } else {
                '0'
            },
    )
}

/// The indices below `k` whose bits are set in the word, ascending.
pub open spec fn bits_list(num: u64, k: int) -> Seq<u64>
    decreases k,
{
    if k <= 0 {
        Seq::empty()
    } else {
        bits_list(num, k - 1) + (if bv_bit(num, (k - 1) as u64) {
            seq![(k - 1) as u64]
        } else {
            Seq::empty()
        })
    }
}

/// The set-bit list below `k` has at most `k` entries.
pub proof fn lemma_bits_list_len(num: u64, k: int)
    ensures
        bits_list(num, k).len() <= (if k >= 0 { k } else { 0 }),
    decreases k,
{
    if k > 0 {
        lemma_bits_list_len(num, k - 1);
    }
}

/// An empty set-bit list means no bit is set.
proof fn lemma_bits_list_empty(num: u64, k: int)
    requires
        bits_list(num, k).len() == 0,
    ensures
        forall|i: u64| i < k ==> !bv_bit(num, i),
    decreases k,
{
    if k > 0 {
        lemma_bits_list_empty(num, k - 1);
    }
}

/// The six-character binary strings of the set bits of an INIT value,
/// ascending.
pub fn binary_strings_from_init_hex(hex_str: &str) -> (r: Result<Vec<String>, InitError>)
    ensures
        match r {
            Ok(v) => {
                &&& hex_str@.len() <= 16
                &&& all_hex(hex_str@)
                &&& v@.len() == bits_list(hex_val(hex_str@) as u64, 64).len()
                &&& forall|z: int|
                    0 <= z < v@.len() ==> (#[trigger] v@[z])@ == bin_chars(
                        bits_list(hex_val(hex_str@) as u64, 64)[z],
                        6,
                    )
            },
            Err(e) => match e {
                InitError::TooLong => hex_str@.len() > 16,
                InitError::NotHex => hex_str@.len() <= 16 && !all_hex(hex_str@),
            },
        },
{
    let num = match parse_init_hex(hex_str) {
        Ok(n) => n,
        Err(e) => {
            return Err(e);
        },
    };
    let mut strings: Vec<String> = Vec::new();
    let mut i: usize = 0;
    while i < 64
        invariant
            i <= 64,
            num == hex_val(hex_str@),
            strings@.len() == bits_list(num, i as int).len(),
            forall|z: int|
                0 <= z < strings@.len() ==> (#[trigger] strings@[z])@ == bin_chars(
                    bits_list(num, i as int)[z],
                    6,
                ),
        decreases 64 - i,
    {
        proof {
            assert((1u64 << (i as u64)) != 0u64) by (bit_vector)
                requires
                    i < 64,
            ;
        }
        let mask: u64 = 1u64 << (i as u64);
        if mask & num > 0 {
            proof {
                assert((num & (1u64 << (i as u64))) == ((1u64 << (i as u64)) & num))
                    by (bit_vector);
                assert(bv_bit(num, i as u64));
            }
            let mut s = String::new();
            let mut j: usize = 0;
            while j < 6
                invariant
                    j <= 6,
                    i < 64,
                    s@.len() == j,
                    forall|q: int| 0 <= q < j ==> s@[q] == bin_chars(i as u64, 6)[q],
                decreases 6 - j,
            {
                let bitpos = 5 - j;
                proof {
                    assert(((i as u64) >> (bitpos as u64)) & 1u64 == 1u64 <==> (i as u64) & (1u64
                        << (bitpos as u64)) != 0u64) by (bit_vector);
                }
                if ((i as u64) >> (bitpos as u64)) & 1u64 == 1u64 {
                    s.append("1");
                    proof {
                        reveal_strlit("1");
                        assert("1"@ =~= seq!['1']);
                    }
                } else {
                    s.append("0");
                    proof {
                        reveal_strlit("0");
                        assert("0"@ =~= seq!['0']);
                    }
                }
                j = j + 1;
            }
            proof {
                assert(s@ =~= bin_chars(i as u64, 6));
            }
            let ghost st0 = strings@;
            strings.push(s);
            proof {
                assert(bits_list(num, i as int + 1) =~= bits_list(num, i as int) + seq![
                    i as u64,
                ]);
                assert forall|z: int|
                    0 <= z < strings@.len() implies (#[trigger] strings@[z])@ == bin_chars(
                    bits_list(num, i as int + 1)[z],
                    6,
                ) by {
                    if z < st0.len() {
                        assert(strings@[z] == st0[z]);
                        assert(bits_list(num, i as int + 1)[z] == bits_list(num, i as int)[z]);
                    } else {
                        assert(bits_list(num, i as int + 1)[z] == i as u64);
                    }
                }
            }
        } else {
            proof {
                assert((num & (1u64 << (i as u64))) == ((1u64 << (i as u64)) & num))
                    by (bit_vector);
                assert(!bv_bit(num, i as u64));
                assert(bits_list(num, i as int + 1) =~= bits_list(num, i as int));
            }
        }
        i = i + 1;
    }
    Ok(strings)
}

/// The minterms of the set bits of an INIT value, ascending: each a fully
/// fixed six-position term.
pub fn init_to_minterms(init_str: &str) -> (r: Result<Vec<Minterm>, InitError>)
    ensures
        match r {
            Ok(v) => {
                &&& init_str@.len() <= 16
                &&& all_hex(init_str@)
                &&& v@.len() == bits_list(hex_val(init_str@) as u64, 64).len()
                &&& forall|z: int|
                    0 <= z < v@.len() ==> #[trigger] term_views(v@)[z] == bin_term(
                        bits_list(hex_val(init_str@) as u64, 64)[z],
                        6,
                    )
                &&& forall|z: int|
                    0 <= z < v@.len() ==> wf_term(#[trigger] term_views(v@)[z]) && term_views(
                        v@,
                    )[z].len() == 6 && crate::model::fully_fixed(term_views(v@)[z])
                &&& (hex_val(init_str@) != 0 ==> v@.len() >= 1)
            },
            Err(e) => match e {
                InitError::TooLong => init_str@.len() > 16,
                InitError::NotHex => init_str@.len() <= 16 && !all_hex(init_str@),
            },
        },
{
    let num = match parse_init_hex(init_str) {
        Ok(n) => n,
        Err(e) => {
            return Err(e);
        },
    };
    let mut terms: Vec<Minterm> = Vec::new();
    let mut i: usize = 0;
    while i < 64
        invariant
            i <= 64,
            num == hex_val(init_str@),
            terms@.len() == bits_list(num, i as int).len(),
            forall|z: int|
                0 <= z < terms@.len() ==> #[trigger] term_views(terms@)[z] == bin_term(
                    bits_list(num, i as int)[z],
                    6,
                ),
        decreases 64 - i,
    {
        proof {
            assert((num & (1u64 << (i as u64))) == ((1u64 << (i as u64)) & num)) by (bit_vector);
        }
        let mask: u64 = 1u64 << (i as u64);
        if mask & num > 0 {
            proof {
                assert(bv_bit(num, i as u64));
            }
            let mut t = Minterm::unconstrained(6);
            let mut j: usize = 0;
            while j < 6
                invariant
                    j <= 6,
                    i < 64,
                    t@.len() == 6,
                    forall|q: int| 0 <= q < j ==> t@[q] == bin_term(i as u64, 6)[q],
                decreases 6 - j,
            {
                let bitpos = 5 - j;
                proof {
                    assert(((i as u64) >> (bitpos as u64)) & 1u64 == 1u64 <==> (i as u64) & (1u64
                        << (bitpos as u64)) != 0u64) by (bit_vector);
                }
                if ((i as u64) >> (bitpos as u64)) & 1u64 == 1u64 {
                    t.set_value(j, VAL_ONE);
                } else {
                    t.set_value(j, VAL_ZERO);
                }
                j = j + 1;
            }
            proof {
                assert(t@ =~= bin_term(i as u64, 6));
            }
            let ghost t0 = terms@;
            terms.push(t);
            proof {
                assert(bits_list(num, i as int + 1) =~= bits_list(num, i as int) + seq![
                    i as u64,
                ]);
                assert forall|z: int|
                    0 <= z < terms@.len() implies #[trigger] term_views(terms@)[z] == bin_term(
                    bits_list(num, i as int + 1)[z],
                    6,
                ) by {
                    if z < t0.len() {
                        assert(terms@[z] == t0[z]);
                        assert(term_views(terms@)[z] == term_views(t0)[z]);
                        assert(bits_list(num, i as int + 1)[z] == bits_list(num, i as int)[z]);
                    } else {
                        assert(terms@[z] == t);
                        assert(bits_list(num, i as int + 1)[z] == i as u64);
                    }
                }
            }
        } else {
            proof {
                assert(!bv_bit(num, i as u64));
                assert(bits_list(num, i as int + 1) =~= bits_list(num, i as int));
            }
        }
        i = i + 1;
    }
    proof {
        assert forall|z: int|
            0 <= z < terms@.len() implies wf_term(#[trigger] term_views(terms@)[z]) && term_views(
            terms@,
        )[z].len() == 6 && crate::model::fully_fixed(term_views(terms@)[z]) by {
            assert(term_views(terms@)[z] == bin_term(bits_list(num, 64)[z], 6));
        }
        if num != 0 {
            if terms@.len() == 0 {
                lemma_bits_list_empty(num, 64);
                lemma_no_bits_zero(num);
            }
        }
    }
    Ok(terms)
}


/// Some term of the list covers the assignment with index `k`.
pub open spec fn covers_assignment(ts: Seq<Seq<u8>>, k: u64, n: nat) -> bool {
    exists|z: int| 0 <= z < ts.len() && covers(#[trigger] ts[z], bin_term(k, n))
}

/// The uppercase hexadecimal digit character of a value below sixteen.
pub open spec fn hex_digit_char(d: int) -> char {
    if d < 10 {
        crate::format::digit_char(d)
    } else if d == 10 {
        'A'
    } else if d == 11 {
        'B'
    } else if d == 12 {
        'C'
    } else if d == 13 {
        'D'
    } else if d == 14 {
        'E'
    } else {
        'F'
    }
}

/// The sixteen-character uppercase hexadecimal text of a 64-bit word, most
/// significant digit first.
pub open spec fn hex16_chars(v: u64) -> Seq<char> {
    Seq::new(16, |i: int| hex_digit_char(((v >> ((4 * (15 - i)) as u64)) & 0xF) as int))
}

/// Number of assignments of `n` variables.
pub open spec fn num_assignments(n: nat) -> int
    decreases n,
{
    if n == 0 {
        1
    } else {
        2 * num_assignments((n - 1) as nat)
    }
}

/// The uppercase hexadecimal digit of a value below sixteen, as text.
fn hex_char_str(d: u64) -> (r: &'static str)
    requires
        d < 16,
    ensures
        r@ == seq![hex_digit_char(d as int)],
{
    proof {
        reveal_strlit("0");
        reveal_strlit("1");
        reveal_strlit("2");
        reveal_strlit("3");
        reveal_strlit("4");
        reveal_strlit("5");
        reveal_strlit("6");
        reveal_strlit("7");
        reveal_strlit("8");
        reveal_strlit("9");
        reveal_strlit("A");
        reveal_strlit("B");
        reveal_strlit("C");
        reveal_strlit("D");
        reveal_strlit("E");
        reveal_strlit("F");
    }
    let r = if d == 0 {
        "0"
    } else if d == 1 {
        "1"
    } else if d == 2 {
        "2"
    } else if d == 3 {
        "3"
    } else if d == 4 {
        "4"
    } else if d == 5 {
        "5"
    } else if d == 6 {
        "6"
    } else if d == 7 {
        "7"
    } else if d == 8 {
        "8"
    } else if d == 9 {
        "9"
    } else if d == 10 {
        "A"
    } else if d == 11 {
        "B"
    } else if d == 12 {
        "C"
    } else if d == 13 {
        "D"
    } else if d == 14 {
        "E"
    } else {
        "F"
    };
    proof {
        assert(r@ =~= seq![hex_digit_char(d as int)]);
    }
    r
}

/// Whether the term covers the assignment with index `k`.
fn term_covers(t: &Minterm, k: u64, n: usize) -> (r: bool)
    requires
        t@.len() == n,
        1 <= n <= 6,
        k < 64,
        wf_term(t@),
    ensures
        r == covers(t@, bin_term(k, n as nat)),
{
    let mut j: usize = 0;
    while j < n
        invariant
            j <= n,
            t@.len() == n,
            1 <= n <= 6,
            k < 64,
            wf_term(t@),
            forall|q: int|
                0 <= q < j ==> ((#[trigger] t@[q]) != VAL_X ==> bin_term(k, n as nat)[q] == t@[q]),
        decreases n - j,
    {
        let v = t.value_at(j);
        if v != VAL_X {
            let bitpos = (n - 1 - j) as u64;
            proof {
                assert(((k >> bitpos) & 1u64 == 1u64) <==> (k & (1u64 << bitpos) != 0u64))
                    by (bit_vector);
            }
            let bit_set = (k >> bitpos) & 1u64 == 1u64;
            if v == VAL_ONE {
                if !bit_set {
                    proof {
                        assert(bin_term(k, n as nat)[j as int] == VAL_ZERO);
                    }
                    return false;
                }
            } else {
                if bit_set {
                    proof {
                        assert(bin_term(k, n as nat)[j as int] == VAL_ONE);
                        assert(t@[j as int] == VAL_ZERO);
                    }
                    return false;
                }
            }
        }
        j = j + 1;
    }
    true
}

/// Whether some term of the list covers the assignment with index `k`.
fn any_covers(minterms: &Vec<Minterm>, k: u64, n: usize) -> (r: bool)
    requires
        1 <= n <= 6,
        k < 64,
        forall|z: int|
            0 <= z < minterms@.len() ==> (#[trigger] term_views(minterms@)[z]).len() == n
                && wf_term(term_views(minterms@)[z]),
    ensures
        r == covers_assignment(term_views(minterms@), k, n as nat),
{
    let mut z: usize = 0;
    while z < minterms.len()
        invariant
            z <= minterms@.len(),
            1 <= n <= 6,
            k < 64,
            forall|q: int|
                0 <= q < minterms@.len() ==> (#[trigger] term_views(minterms@)[q]).len() == n
                    && wf_term(term_views(minterms@)[q]),
            forall|q: int| 0 <= q < z ==> !covers(#[trigger] term_views(minterms@)[q], bin_term(k, n as nat)),
        decreases minterms@.len() - z,
    {
        proof {
            assert(term_views(minterms@)[z as int] == minterms@[z as int]@);
        }
        if term_covers(&minterms[z], k, n) {
            return true;
        }
        z = z + 1;
    }
    false
}

/// Encodes a list of same-length terms as the sixteen-character hex INIT
/// string of the truth table they cover.
#[verifier::rlimit(100)]
pub fn minterms_to_init(minterms: &Vec<Minterm>) -> (r: String)
    requires
        forall|z: int|
            0 <= z < minterms@.len() ==> (#[trigger] term_views(minterms@)[z]).len() == (
            if minterms@.len() == 0 {
                6int
            } else {
                minterms@[0]@.len() as int
            }) && wf_term(term_views(minterms@)[z]),
        minterms@.len() >= 1 ==> 1 <= minterms@[0]@.len() <= 6,
    ensures
        exists|v: u64|
            {
                &&& r@ == #[trigger] hex16_chars(v)
                &&& forall|k: u64|
                    k < 64 ==> (#[trigger] bv_bit(v, k) <==> ((k as int) < num_assignments(
                        (if minterms@.len() == 0 {
                            6int
                        } else {
                            minterms@[0]@.len() as int
                        }) as nat,
                    ) && covers_assignment(
                        term_views(minterms@),
                        k,
                        (if minterms@.len() == 0 {
                            6int
                        } else {
                            minterms@[0]@.len() as int
                        }) as nat,
                    )))
            },
{
    let nlen: usize = if minterms.len() == 0 {
        6
    } else {
        minterms[0].len()
    };
    proof {
        assert(minterms@.len() >= 1 ==> term_views(minterms@)[0] == minterms@[0]@);
    }
    let limit: usize = if nlen == 0 {
        1
    } else if nlen == 1 {
        2
    } else if nlen == 2 {
        4
    } else if nlen == 3 {
        8
    } else if nlen == 4 {
        16
    } else if nlen == 5 {
        32
    } else {
        64
    };
    proof {
        assert(num_assignments(0) == 1);
        assert(num_assignments(1) == 2);
        assert(num_assignments(2) == 4);
        assert(num_assignments(3) == 8);
        assert(num_assignments(4) == 16);
        assert(num_assignments(5) == 32);
        assert(num_assignments(6) == 64);
        assert(limit == num_assignments(nlen as nat));
    }
    let mut num: u64 = 0;
    proof {
        assert forall|kk: u64| kk < 64 implies !bv_bit(0u64, kk) by {
            assert(0u64 & (1u64 << kk) == 0u64) by (bit_vector);
        }
    }
    let mut k: usize = 0;
    while k < limit
        invariant
            k <= limit,
            limit <= 64,
            limit == num_assignments(nlen as nat),
            1 <= nlen <= 6,
            nlen == (if minterms@.len() == 0 {
                6int
            } else {
                minterms@[0]@.len() as int
            }),
            forall|z: int|
                0 <= z < minterms@.len() ==> (#[trigger] term_views(minterms@)[z]).len() == nlen
                    && wf_term(term_views(minterms@)[z]),
            forall|kk: u64|
                kk < 64 ==> (#[trigger] bv_bit(num, kk) <==> ((kk as int) < k
                    && covers_assignment(term_views(minterms@), kk, nlen as nat))),
        decreases limit - k,
    {
        if any_covers(minterms, k as u64, nlen) {
            let ghost num0 = num;
            num = num | (1u64 << (k as u64));
            proof {
                assert forall|kk: u64|
                    kk < 64 implies (#[trigger] bv_bit(num, kk) <==> ((kk as int) < k + 1
                        && covers_assignment(term_views(minterms@), kk, nlen as nat))) by {
                    lemma_or_bits(num0, 1u64 << (k as u64), kk);
                    lemma_single_bit(k as u64, kk);
                }
            }
        } else {
            proof {
                assert forall|kk: u64|
                    kk < 64 implies (#[trigger] bv_bit(num, kk) <==> ((kk as int) < k + 1
                        && covers_assignment(term_views(minterms@), kk, nlen as nat))) by {}
            }
        }
        k = k + 1;
    }
    proof {
        assert forall|kk: u64|
            kk < 64 implies (#[trigger] bv_bit(num, kk) <==> ((kk as int) < limit
                && covers_assignment(term_views(minterms@), kk, nlen as nat))) by {}
    }
    let mut r = String::new();
    let mut i: usize = 0;
    while i < 16
        invariant
            i <= 16,
            r@.len() == i,
            forall|q: int| 0 <= q < i ==> r@[q] == hex16_chars(num)[q],
        decreases 16 - i,
    {
        let shift: u64 = (4 * (15 - i)) as u64;
        proof {
            assert(((num >> shift) & 0xF) < 16) by (bit_vector);
        }
        let d = (num >> shift) & 0xF;
        r.append(hex_char_str(d));
        i = i + 1;
    }
    proof {
        assert(r@ =~= hex16_chars(num));
    }
    r
}

// ------------------------
// Sum-of-products parsing.

/// The first position at or past `lo` (up to `hi`) that is not a space.
pub open spec fn skip_spaces_spec(s: Seq<u8>, lo: int, hi: int) -> int
    decreases hi - lo,
{
    if lo >= hi || s[lo] != 32 {
        lo
    } else {
        skip_spaces_spec(s, lo + 1, hi)
    }
}

/// The end of the range `[lo, hi)` with trailing spaces dropped.
pub open spec fn trim_end_spec(s: Seq<u8>, lo: int, hi: int) -> int
    decreases hi - lo,
{
    if hi <= lo || s[hi - 1] != 32 {
        hi
    } else {
        trim_end_spec(s, lo, hi - 1)
    }
}

/// A six-position term with every position unconstrained.
pub open spec fn all_x6() -> Seq<u8> {
    Seq::new(6, |i: int| VAL_X)
}

/// Parses the literals of a product from `p` on (inside the parentheses):
/// spaces are skipped, a literal is a variable letter `A` to `F`
/// optionally preceded by `!` or `~`, literals are separated by `&`, and
/// each literal fixes its variable's position in the accumulated term.
pub open spec fn parse_literals(s: Seq<u8>, p: int, end: int, acc: Seq<u8>) -> Option<Seq<u8>>
    decreases end - p, 1int,
{
    if p >= end {
        None
    } else if s[p] == 32 {
        parse_literals(s, p + 1, end, acc)
    } else {
        let neg = s[p] == 33 || s[p] == 126;
        let pv = if neg {
            p + 1
        } else {
            p
        };
        if pv >= end {
            None
        } else if !(65 <= s[pv] && s[pv] <= 70) {
            None
        } else {
            parse_after_literal(
                s,
                pv + 1,
                end,
                acc.update(
                    70 - s[pv] as int,
                    if neg {
                        VAL_ZERO
                    } else {
                        VAL_ONE
                    },
                ),
            )
        }
    }
}

/// After a literal: spaces, then either the end of the product or `&` and
/// further literals.
pub open spec fn parse_after_literal(s: Seq<u8>, p: int, end: int, acc: Seq<u8>) -> Option<Seq<u8>>
    decreases end - p, 0int,
{
    if p >= end {
        Some(acc)
    } else if s[p] == 32 {
        parse_after_literal(s, p + 1, end, acc)
    } else if s[p] != 38 {
        None
    } else {
        parse_literals(s, p + 1, end, acc)
    }
}

/// Parses one product over the byte range `[lo, hi)`: after trimming, a
/// single variable letter, or a parenthesized `&`-separated list of
/// optionally negated variable letters.
pub open spec fn parse_product_spec(s: Seq<u8>, lo: int, hi: int) -> Option<Seq<u8>> {
    let a = skip_spaces_spec(s, lo, hi);
    let b = trim_end_spec(s, a, hi);
    if a >= b {
        None
    } else if s[a] != 40 {
        if b - a != 1 {
            None
        } else if 65 <= s[a] && s[a] <= 70 {
            Some(all_x6().update(70 - s[a] as int, VAL_ONE))
        } else {
            None
        }
    } else if s[b - 1] != 41 {
        None
    } else {
        parse_literals(s, a + 1, b - 1, all_x6())
    }
}

/// Parses sum-of-products text from byte `q` on, the current product
/// having started at `start`: products are separated by `|`.
pub open spec fn parse_sop_spec(s: Seq<u8>, start: int, q: int) -> Option<Seq<Seq<u8>>>
    decreases s.len() - q,
{
    if q >= s.len() {
        match parse_product_spec(s, start, s.len() as int) {
            Some(m) => Some(seq![m]),
            None => None,
        }
    } else if s[q] == 124 {
        match parse_product_spec(s, start, q) {
            Some(m) => match parse_sop_spec(s, q + 1, q + 1) {
                Some(rest) => Some(seq![m] + rest),
                None => None,
            },
            None => None,
        }
    } else {
        parse_sop_spec(s, start, q + 1)
    }
}

/// Skipping spaces does not change what the literals parse to.
proof fn lemma_literals_skip(s: Seq<u8>, p: int, end: int, acc: Seq<u8>)
    requires
        p <= end,
    ensures
        parse_literals(s, p, end, acc) == parse_literals(
            s,
            skip_spaces_spec(s, p, end),
            end,
            acc,
        ),
    decreases end - p,
{
    if p < end && s[p] == 32 {
        lemma_literals_skip(s, p + 1, end, acc);
    }
}

/// Skipping spaces does not change what follows a literal.
proof fn lemma_after_skip(s: Seq<u8>, p: int, end: int, acc: Seq<u8>)
    requires
        p <= end,
    ensures
        parse_after_literal(s, p, end, acc) == parse_after_literal(
            s,
            skip_spaces_spec(s, p, end),
            end,
            acc,
        ),
    decreases end - p,
{
    if p < end && s[p] == 32 {
        lemma_after_skip(s, p + 1, end, acc);
    }
}

/// Advances past spaces, up to `end`.
fn skip_spaces(bytes: &Vec<u8>, p: usize, end: usize) -> (r: usize)
    requires
        p <= end,
        end <= bytes@.len(),
    ensures
        p <= r <= end,
        r == skip_spaces_spec(bytes@, p as int, end as int),
        r == end || bytes@[r as int] != 32,
{
    let mut q = p;
    while q < end && bytes[q] == 32
        invariant
            p <= q <= end,
            end <= bytes@.len(),
            skip_spaces_spec(bytes@, p as int, end as int) == skip_spaces_spec(
                bytes@,
                q as int,
                end as int,
            ),
        decreases end - q,
    {
        q = q + 1;
    }
    q
}

/// The position index of a variable letter byte: `A` is the last position.
fn char_to_index(ch: u8) -> (r: Option<usize>)
    ensures
        match r {
            Some(i) => 65 <= ch <= 70 && i == 70 - ch as int,
            None => !(65 <= ch <= 70),
        },
{
    if 65 <= ch && ch <= 70 {
        Some((70 - ch) as usize)
    } else {
        None
    }
}

/// Parses one product term from a byte range, as [`parse_product_spec`]
/// writes it out: either a single variable letter, or a parenthesized
/// conjunction of literals separated by `&`, each a variable letter `A`
/// to `F` optionally negated by `!` or `~`.
#[verifier::rlimit(100)]
fn parse_product(bytes: &Vec<u8>, lo: usize, hi: usize) -> (r: Result<Minterm, SopError>)
    requires
        lo <= hi <= bytes@.len(),
    ensures
        match r {
            Ok(m) => parse_product_spec(bytes@, lo as int, hi as int) == Some(m@) && m@.len() == 6
                && wf_term(m@),
            Err(_) => parse_product_spec(bytes@, lo as int, hi as int) is None,
        },
{
    let a = skip_spaces(bytes, lo, hi);
    let mut b = hi;
    while b > a && bytes[b - 1] == 32
        invariant
            lo <= a <= b <= bytes@.len(),
            trim_end_spec(bytes@, a as int, hi as int) == trim_end_spec(
                bytes@,
                a as int,
                b as int,
            ),
        decreases b,
    {
        b = b - 1;
    }
    proof {
        assert(b as int == trim_end_spec(bytes@, a as int, hi as int));
    }
    let mut m = Minterm::unconstrained(6);
    proof {
        assert(m@ =~= all_x6());
    }
    if a >= b {
        return Err(SopError::BadProduct);
    }
    if bytes[a] != 40 {
        if b - a != 1 {
            return Err(SopError::BadProduct);
        }
        match char_to_index(bytes[a]) {
            Some(i) => {
                m.set_value(i, VAL_ONE);
                proof {
                    assert(m@ == all_x6().update(70 - bytes@[a as int] as int, VAL_ONE));
                }
                return Ok(m);
            },
            None => {
                return Err(SopError::BadVariable);
            },
        }
    }
    if bytes[b - 1] != 41 {
        return Err(SopError::BadProduct);
    }
    let mut p = a + 1;
    let inner_end = b - 1;
    proof {
        assert(parse_product_spec(bytes@, lo as int, hi as int) == parse_literals(
            bytes@,
            p as int,
            inner_end as int,
            m@,
        ));
    }
    loop
        invariant_except_break
            parse_product_spec(bytes@, lo as int, hi as int) == parse_literals(
                bytes@,
                p as int,
                inner_end as int,
                m@,
            ),
        invariant
            p <= inner_end,
            inner_end < bytes@.len(),
            m@.len() == 6,
            wf_term(m@),
        ensures
            parse_product_spec(bytes@, lo as int, hi as int) == Some(m@),
            m@.len() == 6,
            wf_term(m@),
        decreases inner_end - p,
    {
        let ghost pin = p as int;
        let ghost macc = m@;
        p = skip_spaces(bytes, p, inner_end);
        proof {
            lemma_literals_skip(bytes@, pin, inner_end as int, macc);
        }
        if p >= inner_end {
            return Err(SopError::BadProduct);
        }
        let neg = bytes[p] == 33 || bytes[p] == 126;
        if neg {
            p = p + 1;
            if p >= inner_end {
                return Err(SopError::BadVariable);
            }
        }
        match char_to_index(bytes[p]) {
            Some(i) => {
                let ghost macc1 = m@;
                m.set_value(
                    i,
                    if neg {
                        VAL_ZERO
                    } else {
                        VAL_ONE
                    },
                );
                proof {
                    assert forall|z: int|
                        0 <= z < m@.len() implies crate::model::is_term_val(#[trigger] m@[z]) by {
                        if z != i {
                            assert(m@[z] == macc1[z]);
                        }
                    }
                }
                p = p + 1;
            },
            None => {
                return Err(SopError::BadVariable);
            },
        }
        proof {
            assert(parse_product_spec(bytes@, lo as int, hi as int) == parse_after_literal(
                bytes@,
                p as int,
                inner_end as int,
                m@,
            ));
        }
        let ghost pin2 = p as int;
        let ghost macc2 = m@;
        p = skip_spaces(bytes, p, inner_end);
        proof {
            lemma_after_skip(bytes@, pin2, inner_end as int, macc2);
        }
        if p >= inner_end {
            proof {
                assert(parse_after_literal(bytes@, p as int, inner_end as int, m@) == Some(m@));
            }
            break ;
        }
        if bytes[p] != 38 {
            return Err(SopError::BadProduct);
        }
        proof {
            assert(parse_after_literal(bytes@, p as int, inner_end as int, m@) == parse_literals(
                bytes@,
                p as int + 1,
                inner_end as int,
                m@,
            ));
        }
        p = p + 1;
    }
    Ok(m)
}

/// Parses sum-of-products text, as [`parse_sop_spec`] writes it out:
/// product terms separated by `|`, each over six variables.
pub fn sop_to_minterms(sop_str: &str) -> (r: Result<Vec<Minterm>, SopError>)
    ensures
        match r {
            Ok(v) => {
                &&& parse_sop_spec(sop_str.spec_bytes(), 0, 0) == Some(term_views(v@))
                &&& v@.len() >= 1
                &&& forall|z: int|
                    0 <= z < v@.len() ==> (#[trigger] term_views(v@)[z]).len() == 6 && wf_term(
                        term_views(v@)[z],
                    )
            },
            Err(_) => parse_sop_spec(sop_str.spec_bytes(), 0, 0) is None,
        },
{
    let bytes = sop_str.as_bytes_vec();
    let mut minterms: Vec<Minterm> = Vec::new();
    let mut start: usize = 0;
    let mut q: usize = 0;
    while q < bytes.len()
        invariant
            start <= q,
            q <= bytes@.len(),
            bytes@ == sop_str.spec_bytes(),
            forall|z: int|
                0 <= z < minterms@.len() ==> (#[trigger] term_views(minterms@)[z]).len() == 6
                    && wf_term(term_views(minterms@)[z]),
            parse_sop_spec(bytes@, 0, 0) == (match parse_sop_spec(
                bytes@,
                start as int,
                q as int,
            ) {
                Some(rest) => Some(term_views(minterms@) + rest),
                None => None,
            }),
        decreases bytes@.len() - q,
    {
        if bytes[q] == 124 {
            let ghost m0 = term_views(minterms@);
            match parse_product(&bytes, start, q) {
                Ok(m) => {
                    proof {
                        crate::lemma_term_views_push(minterms@, m);
                    }
                    let ghost mv = m@;
                    minterms.push(m);
                    proof {
                        assert(term_views(minterms@) == m0.push(mv));
                        assert forall|z: int|
                            0 <= z < minterms@.len() implies (#[trigger] term_views(
                            minterms@,
                        )[z]).len() == 6 && wf_term(term_views(minterms@)[z]) by {
                            if z < m0.len() {
                                assert(term_views(minterms@)[z] == m0[z]);
                            }
                        }
                        assert forall|rest: Seq<Seq<u8>>|
                            parse_sop_spec(bytes@, q + 1, q + 1) == Some::<Seq<Seq<u8>>>(rest)
                            implies m0 + (seq![mv] + rest) =~= term_views(minterms@) + rest by {}
                    }
                },
                Err(e) => {
                    return Err(e);
                },
            }
            start = q + 1;
        }
        q = q + 1;
    }
    let ghost m0 = term_views(minterms@);
    match parse_product(&bytes, start, bytes.len()) {
        Ok(m) => {
            proof {
                crate::lemma_term_views_push(minterms@, m);
            }
            let ghost mv = m@;
            minterms.push(m);
            proof {
                assert(term_views(minterms@) == m0.push(mv));
                assert(m0 + seq![mv] =~= term_views(minterms@));
                assert forall|z: int|
                    0 <= z < minterms@.len() implies (#[trigger] term_views(minterms@)[z]).len()
                        == 6 && wf_term(term_views(minterms@)[z]) by {
                    if z < m0.len() {
                        assert(term_views(minterms@)[z] == m0[z]);
                    }
                }
            }
        },
        Err(e) => {
            return Err(e);
        },
    }
    Ok(minterms)
}

/// Converts sum-of-products text to its hex INIT string: the parsed
/// products' coverage, encoded bit-exactly over 64 assignments.
pub fn sop_string_to_init(sop_str: &str) -> (r: Result<String, SopError>)
    ensures
        match r {
            Ok(out) => {
                &&& parse_sop_spec(sop_str.spec_bytes(), 0, 0) is Some
                &&& exists|v: u64|
                    {
                        &&& out@ == #[trigger] hex16_chars(v)
                        &&& forall|k: u64|
                            k < 64 ==> (bv_bit(v, k) <==> covers_assignment(
                                parse_sop_spec(sop_str.spec_bytes(), 0, 0).unwrap(),
                                k,
                                6,
                            ))
                    }
            },
            Err(_) => parse_sop_spec(sop_str.spec_bytes(), 0, 0) is None,
        },
{
    let minterms = match sop_to_minterms(sop_str) {
        Ok(v) => v,
        Err(e) => {
            return Err(e);
        },
    };
    proof {
        assert(term_views(minterms@)[0] == minterms@[0]@);
    }
    let out = minterms_to_init(&minterms);
    proof {
        assert(num_assignments(6) == 64) by {
            assert(num_assignments(0) == 1);
            assert(num_assignments(1) == 2);
            assert(num_assignments(2) == 4);
            assert(num_assignments(3) == 8);
            assert(num_assignments(4) == 16);
            assert(num_assignments(5) == 32);
        }
        let v = choose|v: u64|
            {
                &&& out@ == #[trigger] hex16_chars(v)
                &&& forall|k: u64|
                    k < 64 ==> (#[trigger] bv_bit(v, k) <==> ((k as int) < num_assignments(
                        (if minterms@.len() == 0 {
                            6int
                        } else {
                            minterms@[0]@.len() as int
                        }) as nat,
                    ) && covers_assignment(
                        term_views(minterms@),
                        k,
                        (if minterms@.len() == 0 {
                            6int
                        } else {
                            minterms@[0]@.len() as int
                        }) as nat,
                    )))
            };
        assert forall|k: u64| k < 64 implies (bv_bit(v, k) <==> covers_assignment(
            parse_sop_spec(sop_str.spec_bytes(), 0, 0).unwrap(),
            k,
            6,
        )) by {}
        assert(out@ == hex16_chars(v));
    }
    Ok(out)
}

} // verus!
