use fri::channel::element_of_digest;
use fri::channel::u64_le_bytes;
use fri::channel::ProverChannel;
use fri::channel::PublicCoin;
use fri::field::Felt;
use sha2::Digest;
use sha2::Sha256;

fn draw_by_hand(seed: &[u8], data: &[u8]) -> Felt {
    // seed the coin, absorb the data, and take digests until one is below the modulus
    let start = Sha256::digest(seed).to_vec();
    let mut joined = start.clone();
    joined.extend_from_slice(data);
    let seeded = Sha256::digest(&joined).to_vec();
    let mut counter: u64 = 0;
    loop {
        counter += 1;
        let mut input = seeded.clone();
        input.extend_from_slice(&counter.to_le_bytes());
        let digest = Sha256::digest(&input).to_vec();
        if let Some(element) = element_of_digest(&digest) {
            return element;
        }
    }
}

#[test]
fn counter_bytes_are_little_endian() {
    assert_eq!(u64_le_bytes(0), vec![0u8; 8]);
    assert_eq!(u64_le_bytes(1), vec![1, 0, 0, 0, 0, 0, 0, 0]);
    assert_eq!(u64_le_bytes(0x0102030405060708), vec![8, 7, 6, 5, 4, 3, 2, 1]);
    assert_eq!(u64_le_bytes(u64::MAX), vec![255u8; 8]);
}

#[test]
fn digest_stands_for_its_low_255_bits() {
    let mut digest = vec![0u8; 32];
    digest[0] = 5;
    assert_eq!(element_of_digest(&digest), Some(Felt::from_u64(5)));
    // the highest bit does not count
    digest[31] = 0x80;
    assert_eq!(element_of_digest(&digest), Some(Felt::from_u64(5)));
    digest[8] = 1;
    digest[16] = 2;
    digest[24] = 3;
    assert_eq!(element_of_digest(&digest), Felt::from_limbs(5, 1, 2, 3));
    digest[9] = 1;
    assert_eq!(element_of_digest(&digest), Felt::from_limbs(5, 257, 2, 3));
}

#[test]
fn digest_at_or_above_the_modulus_stands_for_nothing() {
    assert_eq!(element_of_digest(&vec![255u8; 32]), None);
    // the modulus itself, low byte first
    let modulus: Vec<u8> = [
        0xffff_ffff_0000_0001u64,
        0x53bd_a402_fffe_5bfe,
        0x3339_d808_09a1_d805,
        0x73ed_a753_299d_7d48,
    ]
    .iter()
    .flat_map(|l| l.to_le_bytes())
    .collect();
    assert_eq!(element_of_digest(&modulus), None);
    let mut below = modulus.clone();
    below[0] = 0;
    assert_eq!(
        element_of_digest(&below),
        Felt::from_limbs(0xffff_ffff_0000_0000, 0x53bd_a402_fffe_5bfe, 0x3339_d808_09a1_d805, 0x73ed_a753_299d_7d48)
    );
}

#[test]
fn draw_takes_the_first_digest_below_the_modulus() {
    for seed in [&b"a"[..], &b"seed"[..], &b""[..], &b"another seed"[..]] {
        let mut coin = PublicCoin::new(&seed.to_vec());
        coin.reseed(&b"root".to_vec());
        assert_eq!(coin.draw(), draw_by_hand(seed, b"root"));
    }
}

#[test]
fn coins_with_the_same_history_draw_the_same() {
    let mut a = PublicCoin::new(&b"seed".to_vec());
    let mut b = PublicCoin::new(&b"seed".to_vec());
    a.reseed(&vec![1, 2, 3]);
    b.reseed(&vec![1, 2, 3]);
    let first = a.draw();
    assert_eq!(first, b.draw());
    let second = a.draw();
    assert_eq!(second, b.draw());
    assert_ne!(first, second);
}

#[test]
fn coins_with_different_histories_draw_differently() {
    let mut a = PublicCoin::new(&b"seed".to_vec());
    let mut b = PublicCoin::new(&b"seed".to_vec());
    let mut c = PublicCoin::new(&b"other".to_vec());
    a.reseed(&vec![1, 2, 3]);
    b.reseed(&vec![1, 2, 4]);
    c.reseed(&vec![1, 2, 3]);
    let x = a.draw();
    assert_ne!(x, b.draw());
    assert_ne!(x, c.draw());
}

#[test]
fn channel_commits_by_reseeding_and_draws_like_the_coin() {
    let mut channel = PublicCoin::new(&b"seed".to_vec());
    let mut coin = PublicCoin::new(&b"seed".to_vec());
    channel.commit_fri_layer(&vec![9u8; 32]);
    coin.reseed(&vec![9u8; 32]);
    assert_eq!(channel.draw_fri_alpha(), coin.draw());
    channel.commit_fri_layer(&vec![8u8; 32]);
    coin.reseed(&vec![8u8; 32]);
    assert_eq!(channel.draw_fri_alpha(), coin.draw());
}
