use prime_support::primes::generate_primes;
use prime_support::labels::format_label;
use prime_support::support::SupportAnalyzerRust;

fn is_prime_by_trial(n: usize) -> bool {
    if n < 2 {
        return false;
    }
    for d in 2..n {
        if n % d == 0 {
            return false;
        }
    }
    true
}

#[test]
fn primes_up_to_50() {
    let primes = generate_primes(50);
    assert_eq!(
        primes,
        vec![2, 3, 5, 7, 11, 13, 17, 19, 23, 29, 31, 37, 41, 43, 47]
    );
}

#[test]
fn prime_counts_match_pi() {
    assert_eq!(generate_primes(0).len(), 0);
    assert_eq!(generate_primes(1).len(), 0);
    assert_eq!(generate_primes(2).len(), 1);
    assert_eq!(generate_primes(10).len(), 4);
    assert_eq!(generate_primes(50).len(), 15);
}

#[test]
fn primes_ascending_bounded_and_prime() {
    let bound: usize = 200;
    let primes = generate_primes(bound);
    for w in primes.windows(2) {
        assert!(w[0] < w[1]);
    }
    for &p in &primes {
        assert!(p <= bound);
        assert!(is_prime_by_trial(p));
    }
    for n in 0..=bound {
        if is_prime_by_trial(n) {
            assert!(primes.contains(&n));
        }
    }
}

#[test]
fn label_formatting() {
    assert_eq!(format_label(0), "(0)");
    assert_eq!(format_label(7), "(7)");
    assert_eq!(format_label(47), "(47)");
    assert_eq!(format_label(1234567890), "(1234567890)");
}

#[test]
fn support_preserves_length_and_order() {
    let analyzer = SupportAnalyzerRust::new(10);
    let support = analyzer.compute_support();
    let expected: Vec<String> = ["(2)", "(3)", "(5)", "(7)"]
        .iter()
        .map(|s| s.to_string())
        .collect();
    assert_eq!(support, expected);
}

#[test]
fn empty_support_is_closed_for_any_prime_count() {
    let empty: Vec<String> = Vec::new();
    for bound in [1usize, 2, 10, 50] {
        let analyzer = SupportAnalyzerRust::new(bound);
        assert!(analyzer.is_zariski_closed(&empty));
    }
}

#[test]
fn full_nonempty_support_is_not_closed() {
    let analyzer = SupportAnalyzerRust::new(10);
    let support = analyzer.compute_support();
    assert_eq!(support.len(), 4);
    assert!(!analyzer.is_zariski_closed(&support));
}

#[test]
fn strictly_smaller_support_is_closed() {
    let analyzer = SupportAnalyzerRust::new(10);
    let support = analyzer.compute_support();
    assert!(analyzer.is_zariski_closed(&support[..2]));
    assert!(analyzer.is_zariski_closed(&support[..3]));
}

#[test]
fn scenario_bound_50() {
    let analyzer = SupportAnalyzerRust::new(50);
    let support = analyzer.compute_support();
    assert_eq!(support.len(), 15);
    let first_ten: Vec<&str> = support.iter().take(10).map(|s| s.as_str()).collect();
    assert_eq!(
        first_ten.join(" "),
        "(2) (3) (5) (7) (11) (13) (17) (19) (23) (29)"
    );
    let closed = analyzer.is_zariski_closed(&support);
    assert!(!closed);
    assert_eq!(if closed { "Yes" } else { "No" }, "No");
}

#[test]
fn scenario_bound_1() {
    let analyzer = SupportAnalyzerRust::new(1);
    let support = analyzer.compute_support();
    assert_eq!(support.len(), 0);
    let first_ten: Vec<&str> = support.iter().take(10).map(|s| s.as_str()).collect();
    assert_eq!(first_ten.join(" "), "");
    let closed = analyzer.is_zariski_closed(&support);
    assert!(closed);
    assert_eq!(if closed { "Yes" } else { "No" }, "Yes");
}

#[test]
fn scenario_bound_2() {
    let analyzer = SupportAnalyzerRust::new(2);
    let support = analyzer.compute_support();
    assert_eq!(support, vec!["(2)".to_string()]);
    let closed = analyzer.is_zariski_closed(&support);
    assert!(!closed);
    assert_eq!(if closed { "Yes" } else { "No" }, "No");
}
