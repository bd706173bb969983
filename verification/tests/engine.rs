//! Tests of the minimization engine at the minterm level: prime-implicant
//! properties and whole-pipeline scenarios.

use logic_minimization::convert::minterms_to_init;
use logic_minimization::format::{display_sort_minterms, string_for_sop_minterms};
use logic_minimization::{
    create_prime_implicant_chart, get_prime_implicants, qm_simplify, qm_simplify_greedy, Minterm,
};

fn terms(texts: &[&str]) -> Vec<Minterm> {
    texts.iter().map(|t| Minterm::from_text(t)).collect()
}

fn term_text(m: &Minterm) -> String {
    let mut s = String::new();
    for i in 0..m.len() {
        s.push(m.value_at(i) as char);
    }
    s
}

/// `p` covers `m`: at every position where `p` is fixed, `m` agrees.
fn covers_text(p: &str, m: &str) -> bool {
    p.len() == m.len()
        && p.bytes().zip(m.bytes()).all(|(a, b)| a == b'x' || a == b)
}

#[test]
fn prime_implicants_cover_and_are_covered() {
    // Every prime implicant covers at least one original minterm, and
    // every original minterm is covered by at least one prime implicant.
    let texts = ["000", "100", "010", "101", "011", "111"];
    let minterms = terms(&texts);
    let primes = get_prime_implicants(&minterms);
    let prime_texts: Vec<String> = primes.iter().map(term_text).collect();
    for p in &prime_texts {
        assert!(texts.iter().any(|m| covers_text(p, m)));
    }
    for m in &texts {
        assert!(prime_texts.iter().any(|p| covers_text(p, m)));
    }
}

#[test]
fn no_prime_implicant_dominated() {
    // No prime implicant is strictly covered by another.
    let texts = ["0100", "1000", "1001", "1010", "1011", "1100", "1110", "1111"];
    let minterms = terms(&texts);
    let primes = get_prime_implicants(&minterms);
    let prime_texts: Vec<String> = primes.iter().map(term_text).collect();
    for (i, p) in prime_texts.iter().enumerate() {
        for (j, q) in prime_texts.iter().enumerate() {
            if i != j {
                assert!(!covers_text(q, p), "{q} strictly covers {p}");
            }
        }
    }
}

#[test]
fn known_prime_implicant_set() {
    // The classic eight-minterm example has exactly these four primes.
    let texts = ["0100", "1000", "1001", "1010", "1011", "1100", "1110", "1111"];
    let minterms = terms(&texts);
    let primes = get_prime_implicants(&minterms);
    let mut prime_texts: Vec<String> = primes.iter().map(term_text).collect();
    prime_texts.sort();
    assert_eq!(prime_texts, vec!["10xx", "1x1x", "1xx0", "x100"]);
}

#[test]
fn three_variable_cycle_cover() {
    // Six minterms forming a cyclic chart: the exact cover has three
    // two-minterm products, and the result denotes the same function.
    let texts = ["000", "100", "010", "101", "011", "111"];
    let minterms = terms(&texts);
    let (message, count, _time) = qm_simplify(&minterms).unwrap();
    assert_eq!(count, 3);
    assert!(!message.is_empty());
    // the selected cover denotes the same on-set
    let primes = get_prime_implicants(&minterms);
    let _chart = create_prime_implicant_chart(&primes, &minterms);
    let again = qm_simplify(&minterms).unwrap();
    assert_eq!(again.0, message);
}

#[test]
fn textbook_four_variable_minimum() {
    // The classic eight-minterm example has a three-term exact minimum.
    let texts = ["0100", "1000", "1001", "1010", "1011", "1100", "1110", "1111"];
    let minterms = terms(&texts);
    let (message, count, _time) = qm_simplify(&minterms).unwrap();
    assert_eq!(count, 3);
    assert!(message.contains('('));
    let (greedy_message, greedy_count) = qm_simplify_greedy(&minterms);
    assert!(greedy_count >= 3);
    assert!(!greedy_message.is_empty());
}

#[test]
fn cover_preserves_function_six_vars() {
    // Minimizing preserves the denoted function: re-encoding the chosen
    // cover gives the truth table of the inputs.
    let texts = ["100000", "000000", "000010", "000011"];
    let minterms = terms(&texts);
    let before = minterms_to_init(&minterms);
    let (message, count, _time) = qm_simplify(&minterms).unwrap();
    assert!(count >= 1 && !message.is_empty());
    let sop = logic_minimization::convert::sop_to_minterms(&message).unwrap();
    let after = minterms_to_init(&sop);
    assert_eq!(before, after);
}

#[test]
fn cube_inputs_are_merged() {
    // The generator accepts partially unconstrained inputs and still
    // covers each of them.
    let texts = ["01x", "11x", "x01", "x00", "1xx"];
    let minterms = terms(&texts);
    let primes = get_prime_implicants(&minterms);
    let prime_texts: Vec<String> = primes.iter().map(term_text).collect();
    for m in &texts {
        assert!(prime_texts.iter().any(|p| covers_text(p, m)));
    }
    for p in &prime_texts {
        assert!(texts.iter().any(|m| covers_text(p, m)));
    }
}

#[test]
fn idempotent_term_count() {
    // Minimizing the expression produced by a previous minimization
    // yields the same term count.
    let texts = ["100000", "000000", "000010", "000011"];
    let minterms = terms(&texts);
    let (message, count, _time) = qm_simplify(&minterms).unwrap();
    let reparsed = logic_minimization::convert::sop_to_minterms(&message).unwrap();
    let (message2, count2, _time2) = qm_simplify(&reparsed).unwrap();
    assert_eq!(count, count2);
    assert_eq!(message, message2);
    assert_eq!(minterms_to_init(&minterms), minterms_to_init(&reparsed));
}

#[test]
fn input_order_does_not_change_count() {
    // The minimized term count is invariant under permutation of the
    // input minterm list.
    let a = terms(&["000", "100", "010", "101", "011", "111"]);
    let b = terms(&["111", "011", "101", "010", "100", "000"]);
    let (msg_a, count_a, _) = qm_simplify(&a).unwrap();
    let (_msg_b, count_b, _) = qm_simplify(&b).unwrap();
    assert_eq!(count_a, count_b);
    assert!(!msg_a.is_empty());
}

#[test]
fn display_sort_orders_positive_first() {
    let mut v = terms(&["0100x0", "110000", "01x000"]);
    display_sort_minterms(&mut v);
    let texts: Vec<String> = v.iter().map(term_text).collect();
    assert_eq!(texts, vec!["110000", "01x000", "0100x0"]);
}

#[test]
fn sop_string_formatting() {
    let v = terms(&["01x0x1"]);
    let s = string_for_sop_minterms(&v, true, Some(" "));
    assert_eq!(s, "(A & ~C & E & ~F)");
    let empty: Vec<Minterm> = Vec::new();
    assert_eq!(string_for_sop_minterms(&empty, true, Some(" ")), "False");
    let trivial = terms(&["xxxxxx"]);
    assert_eq!(string_for_sop_minterms(&trivial, true, Some(" ")), "True");
    assert_eq!(string_for_sop_minterms(&trivial, false, Some(" ")), "(True)");
}
