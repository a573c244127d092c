use blazing_goldbach::{Config, ModuloStrategy};

#[test]
fn default_config_values() {
    let cfg = Config::default();
    assert_eq!(cfg.sieve_judge_bound, 100_000);
    assert_eq!(cfg.sieve_screen_bound, 100_000);
    assert_eq!(cfg.base_start, 79);
    assert_eq!(cfg.segment_init, 4096);
    assert_eq!(cfg.segment_growth, 2);
    assert_eq!(cfg.serial_head, 2);
    assert_eq!(cfg.mr_rounds, 25);
    assert!(matches!(cfg.modulo_strategy, ModuloStrategy::Bignum));
}

#[test]
fn primorial_config_screens_further() {
    let cfg = Config::for_primorial(71);
    assert_eq!(cfg.sieve_screen_bound, 10_000_000);
    match cfg.modulo_strategy {
        ModuloStrategy::Incremental { factors } => {
            assert_eq!(factors.len(), 20);
            assert_eq!(factors[19], 71);
        }
        ModuloStrategy::Bignum => panic!("expected factors"),
    }
    let big = Config::for_primorial(5_000_000);
    assert_eq!(big.sieve_screen_bound, 20_000_000);
}
