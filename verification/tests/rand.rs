use lib::rand::{Rand, StdRand};

#[test]
fn std_rand_is_xorshift() {
    let mut r = StdRand::new(1);
    let x: u64 = 1;
    let a = x ^ (x << 13);
    let b = a ^ (a >> 7);
    let c = b ^ (b << 17);
    assert_eq!(r.next(), c);
}

#[test]
fn same_seed_same_numbers() {
    let mut a = StdRand::new(1337);
    let mut b = StdRand::new(1337);
    for _ in 0..10 {
        assert_eq!(a.next(), b.next());
    }
}

#[test]
fn zero_seed_is_not_stuck() {
    let mut r = StdRand::new(0);
    assert_ne!(r.next(), 0);
}

#[test]
fn below_and_between_stay_in_range() {
    let mut r = StdRand::new(42);
    assert_eq!(r.below(0), 0);
    assert_eq!(r.below(1), 0);
    for _ in 0..100 {
        assert!(r.below(7) < 7);
        let v = r.between(3, 5);
        assert!(3 <= v && v <= 5);
    }
    assert_eq!(r.between(4, 4), 4);
}

#[test]
fn below_and_between_use_the_next_number() {
    let mut a = StdRand::new(99);
    let mut b = StdRand::new(99);
    let x = b.next();
    assert_eq!(a.below(1000), x % 1000);
    let mut c = StdRand::new(7);
    let mut d = StdRand::new(7);
    let y = d.next();
    assert_eq!(c.between(10, 20), 10 + y % 11);
    let mut e = StdRand::new(5);
    let mut f = StdRand::new(5);
    assert_eq!(e.between(3, 3), 3);
    assert_eq!(e.next(), f.next());
}
