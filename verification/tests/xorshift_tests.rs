use fem_poisson_1d::xorshift::Xorshift64Star;

#[test]
fn generator_output_matches_known_values() {
    let mut generator = Xorshift64Star::new(0x2026_0816);
    assert_eq!(generator.next_u53(), 2964229572523146);
    assert_eq!(generator.next_u53(), 2011170244154955);
    assert_eq!(generator.next_u53(), 3602696663325778);
}

#[test]
fn generator_from_seed_one() {
    let mut generator = Xorshift64Star::new(1);
    assert_eq!(generator.next_u53(), 2529537253518747);
}

#[test]
fn outputs_stay_below_two_to_the_53() {
    let mut generator = Xorshift64Star::new(u64::MAX);
    for _ in 0..1000 {
        assert!(generator.next_u53() < (1u64 << 53));
    }
}

#[test]
fn zero_seed_stays_zero_and_nonzero_seed_keeps_moving() {
    let mut stuck = Xorshift64Star::new(0);
    for _ in 0..10 {
        assert_eq!(stuck.next_u53(), 0);
    }
    let mut generator = Xorshift64Star::new(12345);
    let mut all_zero = true;
    for _ in 0..100 {
        if generator.next_u53() != 0 {
            all_zero = false;
        }
    }
    assert!(!all_zero);
}

#[test]
fn same_seed_gives_the_same_sequence() {
    let mut first = Xorshift64Star::new(42);
    let mut second = Xorshift64Star::new(42);
    for _ in 0..50 {
        assert_eq!(first.next_u53(), second.next_u53());
    }
}
