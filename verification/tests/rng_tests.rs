use tsplat::rng::Rng;

#[test]
fn splitmix_stream_from_seed_zero() {
    let mut r = Rng::new(0);
    assert_eq!(r.next_u64(), 0x6e78_9e6a_a1b9_65f4);
    assert_eq!(r.next_u64(), 0x06c4_5d18_8009_454f);
    assert_eq!(r.next_u64(), 0xf88b_b8a8_724c_81ec);
}

#[test]
fn same_seed_same_stream() {
    let mut a = Rng::new(42);
    let mut b = Rng::new(42);
    for _ in 0..100 {
        assert_eq!(a.next_u64(), b.next_u64());
    }
    let mut c = Rng::new(42);
    assert_eq!(c.next_u64(), 0x28ef_e333_b266_f103);
    assert_eq!(c.next_u64(), 0x4752_6757_130f_9f52);
}

#[test]
fn unit_bits_are_the_top_24_bits() {
    let mut r = Rng::new(42);
    let k = r.unit_bits();
    assert_eq!(k, 0x28efe3);
    assert!(k < (1 << 24));
    let mut s = Rng::new(0xC0FFEE);
    assert_eq!(s.unit_bits(), 15524955);
    let mut t = Rng::new(7);
    for _ in 0..1000 {
        assert!(t.unit_bits() < (1 << 24));
    }
}
