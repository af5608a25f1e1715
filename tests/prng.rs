use lualex::{Prng, PrngState};

#[test]
fn init_prng() {
    let prng: PrngState = PrngState::new();

    for i in 0..4 {
        assert!(prng.get(i).is_some());
    }

    assert!(prng.get(4).is_none());
}

#[test]
fn seed_secure() {
    let mut prng: PrngState = PrngState::new();

    for i in 0..4 {
        assert!(prng.get(i).eq(&Some(0)))
    }

    prng.seed_secure();

    for i in 0..4 {
        assert!(prng.get(i).ne(&Some(0)));
    }
}

#[test]
fn gen_u64() {
    let mut prng: PrngState = PrngState::new();
    prng.seed_secure();

    let mut g1 = prng.gen_u64();

    for _ in 1..100 {
        prng.condition();
        let g2 = prng.gen_u64();

        assert_ne!(g1, g2);

        g1 = g2;
    }
}

#[test]
fn condition_raises_small_words() {
    let mut prng = PrngState::new();
    prng.condition();
    assert_eq!(prng.get(0), Some(2));
    assert_eq!(prng.get(1), Some(64));
    assert_eq!(prng.get(2), Some(64));
    assert_eq!(prng.get(3), Some(0x20000));
}

#[test]
fn gen_u64d_has_unit_exponent() {
    let mut prng = PrngState::new();
    prng.seed_secure();
    for _ in 0..10 {
        let d = prng.gen_u64d();
        assert_eq!(d >> 52, 0x3ff);
    }
}
