use potter_poc::rng::Rng;

#[test]
fn splitmix_reference_outputs() {
    let mut r = Rng::new(0);
    assert_eq!(r.next_u64(), 0xE220A8397B1DCDAF);
    assert_eq!(r.next_u64(), 0x6E789E6AA1B965F4);
    assert_eq!(r.next_u64(), 0x06C45D188009454F);
}

#[test]
fn state_advances_by_gamma() {
    let mut r = Rng::new(5);
    r.next_u64();
    r.next_u64();
    assert_eq!(r.s, 5u64.wrapping_add(0x9E3779B97F4A7C15u64.wrapping_mul(2)));
}

#[test]
fn same_seed_same_stream() {
    let mut a = Rng::new(42);
    let mut b = Rng::new(42);
    for _ in 0..100 {
        assert_eq!(a.next_u64(), b.next_u64());
    }
}
