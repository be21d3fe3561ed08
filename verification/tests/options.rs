use fri::field::Felt;
use fri::options::ConfigurationError;
use fri::options::FriOptions;

#[test]
fn options_keep_their_parameters() {
    let options = FriOptions::new(4, 2, 16).unwrap();
    assert_eq!(options.blowup_factor(), 4);
    assert_eq!(options.folding_factor(), 2);
    assert_eq!(options.max_remainder_size(), 16);
}

#[test]
fn unsupported_folding_factors_are_refused() {
    for k in [0usize, 1, 3, 5, 6, 7, 12, 32, 64] {
        assert_eq!(
            FriOptions::new(4, k, 16).err(),
            Some(ConfigurationError::UnsupportedFoldingFactor(k))
        );
    }
    for k in [2usize, 4, 8, 16] {
        assert!(FriOptions::new(4, k, 16).is_ok());
    }
}

#[test]
fn zero_blowup_is_refused() {
    assert_eq!(FriOptions::new(0, 2, 16).err(), Some(ConfigurationError::ZeroBlowupFactor));
}

#[test]
fn remainder_below_blowup_is_refused() {
    assert_eq!(
        FriOptions::new(8, 2, 4).err(),
        Some(ConfigurationError::RemainderBelowBlowup(4, 8))
    );
    assert!(FriOptions::new(8, 2, 8).is_ok());
}

#[test]
fn folding_factor_is_checked_before_the_blowup() {
    assert_eq!(
        FriOptions::new(0, 3, 0).err(),
        Some(ConfigurationError::UnsupportedFoldingFactor(3))
    );
}

#[test]
fn num_layers_counts_the_foldings() {
    let options = FriOptions::new(4, 2, 16).unwrap();
    assert_eq!(options.num_layers(256), 4);
    assert_eq!(options.num_layers(17), 1);
    assert_eq!(options.num_layers(16), 0);
    assert_eq!(options.num_layers(1), 0);
    assert_eq!(options.num_layers(0), 0);
    let minimal = FriOptions::new(4, 2, 4).unwrap();
    assert_eq!(minimal.num_layers(8), 1);
    let four = FriOptions::new(2, 4, 8).unwrap();
    assert_eq!(four.num_layers(32), 1);
    assert_eq!(four.num_layers(33), 1);
    assert_eq!(four.num_layers(36), 2);
    let sixteen = FriOptions::new(1, 16, 1).unwrap();
    assert_eq!(sixteen.num_layers(65536), 4);
}

#[test]
fn remainder_size_is_what_the_foldings_leave() {
    let options = FriOptions::new(4, 2, 16).unwrap();
    assert_eq!(options.remainder_size(256), 16);
    assert_eq!(options.remainder_size(17), 8);
    assert_eq!(options.remainder_size(16), 16);
    assert_eq!(options.remainder_size(3), 3);
    let minimal = FriOptions::new(4, 2, 4).unwrap();
    assert_eq!(minimal.remainder_size(8), 4);
    let four = FriOptions::new(2, 4, 8).unwrap();
    assert_eq!(four.remainder_size(32), 8);
    assert_eq!(four.remainder_size(33), 8);
    assert_eq!(four.remainder_size(36), 2);
    // 48, 24, 12 with blowup 3
    let three = FriOptions::new(3, 2, 12).unwrap();
    assert_eq!(three.remainder_size(48), 12);
    assert_eq!(three.num_layers(48), 2);
}

#[test]
fn layers_and_remainder_agree() {
    for k in [2usize, 4, 8, 16] {
        let options = FriOptions::new(2, k, 32).unwrap();
        for n in [1usize, 2, 31, 32, 33, 64, 100, 1024, 4096, 65536] {
            let mut size = n;
            for _ in 0..options.num_layers(n) {
                assert!(size > 32);
                size /= k;
            }
            assert!(size <= 32);
            assert_eq!(options.remainder_size(n), size);
        }
    }
}

#[test]
fn domain_offset_is_the_generator() {
    let options = FriOptions::new(4, 2, 16).unwrap();
    assert_eq!(options.domain_offset(), Felt::from_u64(7));
}
