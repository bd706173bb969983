//! Tests of the hex INIT conversions and whole-pipeline round trips.

use logic_minimization::convert::{
    binary_strings_from_init_hex, init_to_minterms, minterms_to_init, sop_string_to_init,
    sop_to_minterms, InitError,
};
use logic_minimization::format::string_for_sop_minterms;
use logic_minimization::{qm_simplify_init, qm_simplify_init_greedy, Minterm, QmError};

/// Evaluates a sum-of-products (as positions: index 5 is `A`) at the
/// assignment with index `k` (bit 0 of `k` is `A`), independently of the
/// library, to cross-check the INIT encoding.
fn eval_sop(products: &[&[(usize, bool)]], k: u64) -> bool {
    products.iter().any(|lits| {
        lits.iter().all(|&(pos, positive)| {
            // position 5 is `A`, which is bit 0 of the assignment index
            let bit = (k >> (5 - pos)) & 1 == 1;
            bit == positive
        })
    })
}

#[test]
fn sop_to_init_matches_truth_table() {
    // `(A & !F) | (B & !C & D)`: the encoded INIT equals the truth table
    // computed by brute force.
    let sop = "(A & !F) | (B & !C & D)";
    // A = position 5, B = 4, C = 3, D = 2, F = 0
    let products: [&[(usize, bool)]; 2] =
        [&[(5, true), (0, false)], &[(4, true), (3, false), (2, true)]];
    let mut expected: u64 = 0;
    for k in 0..64u64 {
        if eval_sop(&products, k) {
            expected |= 1 << k;
        }
    }
    let init = sop_string_to_init(sop).unwrap();
    assert_eq!(init, format!("{expected:016X}"));
    // round-tripping through minimization preserves the truth table
    let (minimized, _count, _time) = qm_simplify_init(&init).unwrap();
    assert_eq!(sop_string_to_init(&minimized).unwrap(), init);
}

#[test]
fn two_minterms_collapse_to_one_product() {
    let (message, count, _time) = qm_simplify_init("000000000000000C").unwrap();
    assert_eq!(count, 1);
    assert_eq!(message, "(B & ~C & ~D & ~E & ~F)");
}

#[test]
fn zero_padding_is_invariant() {
    let long = qm_simplify_init("000000000000000C").unwrap();
    let short = qm_simplify_init("C").unwrap();
    assert_eq!(long.0, short.0);
    assert_eq!(long.1, short.1);
}

#[test]
fn empty_on_set_formats_false() {
    // An all-zero INIT denotes the empty on-set, which minimizes to False.
    let (message, count, _time) = qm_simplify_init("0000000000000000").unwrap();
    assert_eq!(message, "False");
    assert_eq!(count, 0);
    let minterms = init_to_minterms("0000000000000000").unwrap();
    assert!(minterms.is_empty());
    assert_eq!(string_for_sop_minterms(&minterms, true, None), "False");
}

#[test]
fn empty_on_set_greedy_formats_false() {
    let (message, count) = qm_simplify_init_greedy("0").unwrap();
    assert_eq!(message, "False");
    assert_eq!(count, 0);
}

#[test]
fn full_on_set_formats_true() {
    let (message, count, _time) = qm_simplify_init("FFFFFFFFFFFFFFFF").unwrap();
    assert_eq!(message, "True");
    assert_eq!(count, 1);
}

#[test]
fn overlong_hex_is_rejected() {
    let too_long = "11111111111111111";
    assert_eq!(qm_simplify_init(too_long).unwrap_err(), QmError::InitTooLong);
    assert!(matches!(
        binary_strings_from_init_hex(too_long),
        Err(InitError::TooLong)
    ));
}

#[test]
fn non_hex_is_rejected() {
    assert_eq!(qm_simplify_init("GG").unwrap_err(), QmError::InitNotHex);
    assert!(matches!(init_to_minterms("xyz"), Err(InitError::NotHex)));
}

#[test]
fn parser_rejects_unknown_variable() {
    assert!(sop_to_minterms("(G)").is_err());
    assert!(sop_to_minterms("G").is_err());
    assert!(sop_to_minterms("(A & )").is_err());
    assert!(sop_to_minterms("A & B").is_err());
}

#[test]
fn binary_strings_list_set_bits() {
    let strings = binary_strings_from_init_hex("C").unwrap();
    assert_eq!(strings, vec!["000010".to_string(), "000011".to_string()]);
    let empty = binary_strings_from_init_hex("0").unwrap();
    assert!(empty.is_empty());
}

#[test]
fn init_round_trip_through_minterms() {
    let init = "0123456789ABCDEF";
    let minterms = init_to_minterms(init).unwrap();
    assert_eq!(minterms_to_init(&minterms), init);
}

#[test]
fn lowercase_hex_is_accepted() {
    let a = init_to_minterms("00ff").unwrap();
    let b = init_to_minterms("00FF").unwrap();
    assert_eq!(minterms_to_init(&a), minterms_to_init(&b));
}

#[test]
fn exact_round_trip_sampled() {
    // The primary round-trip invariant, sampled: minimizing the function
    // of an INIT string and re-encoding the result gives the INIT back.
    let mut state: u64 = 0x243F_6A88_85A3_08D3;
    let mut checked = 0;
    while checked < 12 {
        // xorshift pseudorandom value
        state ^= state << 13;
        state ^= state >> 7;
        state ^= state << 17;
        if state == 0 {
            state = 1;
        }
        let init = format!("{state:016X}");
        match qm_simplify_init(&init) {
            Ok((sop, _count, _time)) => {
                assert_eq!(sop_string_to_init(&sop).unwrap(), init, "INIT {init}");
            }
            Err(QmError::TooManyPrimeImplicants) => {}
            Err(e) => panic!("unexpected error {e:?} for {init}"),
        }
        checked += 1;
    }
}

#[test]
fn greedy_round_trip_sampled() {
    let mut state: u64 = 0xB7E1_5162_8AED_2A6B;
    let mut checked = 0;
    while checked < 25 {
        state ^= state << 13;
        state ^= state >> 7;
        state ^= state << 17;
        if state == 0 {
            state = 1;
        }
        let init = format!("{state:016X}");
        let (sop, count, ) = match qm_simplify_init_greedy(&init) {
            Ok(r) => r,
            Err(e) => panic!("unexpected error {e:?} for {init}"),
        };
        assert!(count >= 1);
        assert_eq!(sop_string_to_init(&sop).unwrap(), init, "INIT {init}");
        checked += 1;
    }
}

#[test]
fn greedy_cover_is_no_smaller_than_exact() {
    let inits = ["00000000000000FF", "A00AA00A50055005", "0F0F0F0F0F0F0F0F"];
    for init in inits {
        let exact = qm_simplify_init(init).unwrap();
        let greedy = qm_simplify_init_greedy(init).unwrap();
        assert!(greedy.1 >= exact.1, "INIT {init}");
        assert_eq!(sop_string_to_init(&exact.0).unwrap(), init);
        assert_eq!(sop_string_to_init(&greedy.0).unwrap(), init);
    }
}

#[test]
fn report_lists_counters() {
    let (_message, _count, time) = qm_simplify_init("A00AA00A50055005").unwrap();
    let report = time.get_report();
    assert!(report.starts_with("Petrick work counters:"));
    assert!(report.contains("pairwise_and"));
}

#[test]
fn minterm_text_round_trip() {
    let m = Minterm::from_text("01x01x");
    assert_eq!(m.len(), 6);
    assert_eq!(m.value_at(2), b'x');
}
