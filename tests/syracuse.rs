use collatz::{
    basic, basic_with_count, bitwise, bitwise_with_count, format_results, optimum_syracuse,
    optimum_syracuse_with_count, optimum_syracuse_with_min_count, reduced_bitwise,
    reduced_bitwise_with_count, reduced_syracuse_bitwise_while,
    reduced_syracuse_bitwise_while_with_count, syracuse, Elapsed, Incremental, Method, Natural,
    SyracuseError, TIMEOUT_SECS,
};

fn natural(v: u64) -> Natural {
    Natural::from_u64(v)
}

fn reference_counts(mut v: u64) -> (u64, u64) {
    let (mut m, mut d) = (0, 0);
    while v != 1 {
        if v % 2 == 0 {
            v /= 2;
            d += 1;
        } else {
            v = 3 * v + 1;
            m += 1;
        }
    }
    (m, d)
}

fn all_counted(n: &Natural) -> Vec<(u64, u64)> {
    vec![
        basic_with_count(n),
        bitwise_with_count(n),
        reduced_bitwise_with_count(n),
        reduced_syracuse_bitwise_while_with_count(n),
        optimum_syracuse_with_count(n),
    ]
}

#[test]
fn test_syracuse() {
    let my_big_number = natural(112);
    let result = optimum_syracuse_with_min_count(&my_big_number).unwrap();
    assert_eq!(result.0 + result.1, 20);
    let my_big_number = natural(261);
    let result = optimum_syracuse_with_min_count(&my_big_number).unwrap();
    assert_eq!(result.0 + result.1, 29);
    let my_big_number = natural(806);
    let result = optimum_syracuse_with_min_count(&my_big_number).unwrap();
    assert_eq!(result.0 + result.1, 20);
    let my_big_number = natural(190);
    let result = optimum_syracuse_with_min_count(&my_big_number).unwrap();
    assert_eq!(result.0 + result.1, 106);
    let my_big_number = natural(1000);
    let result = optimum_syracuse_with_min_count(&my_big_number).unwrap();
    assert_eq!(result.0 + result.1, 111);
}

#[test]
fn counted_variants_agree_with_reference() {
    for v in 1..600u64 {
        let expected = reference_counts(v);
        for counts in all_counted(&natural(v)) {
            assert_eq!(counts, expected, "start {v}");
        }
    }
}

#[test]
fn reference_totals_for_every_variant() {
    for (v, total) in [(112u64, 20u64), (261, 29), (806, 20), (190, 106), (1000, 111)] {
        for counts in all_counted(&natural(v)) {
            assert_eq!(counts.0 + counts.1, total);
        }
    }
}

#[test]
fn known_counts_of_27() {
    assert_eq!(basic_with_count(&natural(27)), (41, 70));
    assert_eq!(optimum_syracuse_with_count(&natural(27)), (41, 70));
}

#[test]
fn uncounted_variants_finish_with_zero_counts() {
    for v in [1u64, 2, 3, 7, 27, 97, 871, 1 << 40] {
        let n = natural(v);
        assert_eq!(basic(&n), (0, 0));
        assert_eq!(bitwise(&n), (0, 0));
        assert_eq!(reduced_bitwise(&n), (0, 0));
        assert_eq!(reduced_syracuse_bitwise_while(&n), (0, 0));
        assert_eq!(optimum_syracuse(&n), (0, 0));
    }
}

#[test]
fn one_has_no_steps() {
    let one = natural(1);
    for counts in all_counted(&one) {
        assert_eq!(counts, (0, 0));
    }
    let r = optimum_syracuse_with_min_count(&one).unwrap();
    assert_eq!((r.0, r.1, r.3), (0, 0, 0));
}

#[test]
fn rerun_gives_same_counts() {
    let n = natural(77031);
    let first = all_counted(&n);
    let second = all_counted(&n);
    assert_eq!(first, second);
    let a = optimum_syracuse_with_min_count(&n).unwrap();
    let b = optimum_syracuse_with_min_count(&n).unwrap();
    assert_eq!((a.0, a.1, a.3), (b.0, b.1, b.3));
}

#[test]
fn powers_of_two_only_halve() {
    let n = Natural::from_digits(vec![0, 0, 1]);
    for counts in all_counted(&n) {
        assert_eq!(counts, (0, 64));
    }
}

#[test]
fn large_start_beyond_u64() {
    // 2^64 + 1
    let n = Natural::from_digits(vec![1, 0, 1]);
    let counts = all_counted(&n);
    for c in &counts {
        assert_eq!(*c, counts[0]);
    }
    assert!(counts[0].0 > 0 && counts[0].1 > 64);
}

#[test]
fn min_count_never_reports_a_cycle() {
    for v in 1..3000u64 {
        let r = optimum_syracuse_with_min_count(&natural(v));
        assert!(r.is_ok(), "start {v}");
        let t = r.unwrap();
        assert_eq!((t.0, t.1), reference_counts(v));
        assert!(t.3 <= t.0);
    }
    assert_ne!(
        optimum_syracuse_with_min_count(&natural(9)),
        Err(SyracuseError::CycleDetected)
    );
}

#[test]
fn min_count_of_seven() {
    // odd values after each fused step: 11, 17, 13, 5, 1; new minima: 5, 1
    let t = optimum_syracuse_with_min_count(&natural(7)).unwrap();
    assert_eq!(t.3, 2);
}

#[test]
fn method_names() {
    assert_eq!(Method::from_name("optimum"), Method::Optimum);
    assert_eq!(Method::from_name("while"), Method::While);
    assert_eq!(Method::from_name("reduced"), Method::Reduced);
    assert_eq!(Method::from_name("bitwise"), Method::Bitwise);
    assert_eq!(Method::from_name("basic"), Method::Basic);
    assert_eq!(Method::from_name(""), Method::Basic);
    assert_eq!(Method::from_name("optimu"), Method::Basic);
}

#[test]
fn syracuse_dispatch() {
    let n = natural(1000);
    for m in ["optimum", "while", "reduced", "bitwise", "", "basic"] {
        let r = syracuse(&n, true, m);
        assert_eq!((r.0, r.1), reference_counts(1000));
        assert!(r.2.nanos < 1_000_000_000);
        let r = syracuse(&n, false, m);
        assert_eq!((r.0, r.1), (0, 0));
    }
}

#[test]
fn format_results_line() {
    let s = format_results((12, 345, Elapsed { secs: 1, nanos: 500_000_000 }));
    assert_eq!(s, "12,345,1.50s");
    let s = format_results((0, 0, Elapsed { secs: 0, nanos: 1_234_567 }));
    assert_eq!(s, "0,0,1.23ms");
    let s = format_results((u64::MAX, 10, Elapsed { secs: 0, nanos: 5 }));
    assert_eq!(s, "18446744073709551615,10,5.00ns");
}

#[test]
fn natural_constructors() {
    let a = Natural::from_u64(0x1_0000_0002);
    assert_eq!(a.digits, vec![2, 1]);
    let b = Natural::from_digits(vec![2, 1]);
    assert_eq!(a.digits, b.digits);
    assert_eq!(a.duplicate().digits, a.digits);
    assert_eq!(Natural::from_u64(7).digits, vec![7, 0]);
}

fn run_incremental(n: &Natural, optimal: bool) -> u64 {
    let mut run = Incremental::new(n, optimal);
    let mut rounds = 0u64;
    while !run.is_finished() {
        assert!(!run.poll(0));
        rounds += 1;
        assert!(rounds < 100_000);
    }
    rounds
}

#[test]
fn incremental_small_values_settled_at_once() {
    for v in [0u64, 1, 2, 27, u64::MAX] {
        for optimal in [false, true] {
            let run = Incremental::new(&natural(v), optimal);
            assert!(run.is_finished());
            assert_eq!(run_incremental(&natural(v), optimal), 0);
        }
    }
}

#[test]
fn incremental_large_values_finish() {
    let starts = [
        vec![0, 0, 1],
        vec![1, 0, 1],
        vec![3, 0, 1],
        vec![27, 5, 7],
        vec![0xffff_ffff, 0xffff_ffff, 0xffff_ffff],
    ];
    for d in starts {
        let n = Natural::from_digits(d);
        for optimal in [false, true] {
            let run = Incremental::new(&n, optimal);
            assert!(!run.is_finished());
            let rounds = run_incremental(&n, optimal);
            assert!(rounds >= 1);
        }
    }
}

#[test]
fn incremental_even_start_stops_after_one_halving() {
    // 2^64 + 2 is even: the plain check halves it once, then sees it below the start
    let n = Natural::from_digits(vec![2, 0, 1]);
    assert_eq!(run_incremental(&n, false), 2);
}

#[test]
fn incremental_timeout_warning() {
    let n = Natural::from_digits(vec![7, 0, 1]);
    let mut run = Incremental::new(&n, true);
    assert!(!run.poll(TIMEOUT_SECS));
    if !run.is_finished() {
        assert!(run.poll(TIMEOUT_SECS + 1));
    }
    let mut run = Incremental::new(&n, false);
    assert!(run.poll(TIMEOUT_SECS + 1));
}
