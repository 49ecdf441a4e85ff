use xorbreak::breaker::{break_xor_char, break_xor_key, max_char_with, transpose};
use xorbreak::hamming::hamming;
use xorbreak::keysize::{guess_chunked_key_size, guess_key_size};
use xorbreak::model::{score_with, FreqModel};
use xorbreak::xor_cipher::{xor_with_byte, xor_with_key};

/// English byte-frequency model: letter frequencies per ten thousand, the
/// same weight for both cases, and a heavy weight for the space byte.
fn english_model() -> FreqModel {
    let letters: [(u8, u64); 26] = [
        (b'a', 817),
        (b'b', 149),
        (b'c', 278),
        (b'd', 425),
        (b'e', 1270),
        (b'f', 223),
        (b'g', 202),
        (b'h', 609),
        (b'i', 697),
        (b'j', 15),
        (b'k', 77),
        (b'l', 403),
        (b'm', 241),
        (b'n', 675),
        (b'o', 751),
        (b'p', 193),
        (b'q', 10),
        (b'r', 599),
        (b's', 633),
        (b't', 906),
        (b'u', 276),
        (b'v', 98),
        (b'w', 236),
        (b'x', 15),
        (b'y', 197),
        (b'z', 7),
    ];
    let mut nums = vec![0u64; 256];
    for &(b, w) in letters.iter() {
        nums[b as usize] = w;
        nums[(b - b'a' + b'A') as usize] = w;
    }
    nums[b' ' as usize] = 1800;
    FreqModel::new(nums, 10000)
}

fn hex_to_bytes(s: &str) -> Vec<u8> {
    let digits: Vec<u8> = s
        .bytes()
        .map(|b| match b {
            b'0'..=b'9' => b - b'0',
            b'a'..=b'f' => b - b'a' + 10,
            b'A'..=b'F' => b - b'A' + 10,
            _ => panic!("not a hex digit"),
        })
        .collect();
    digits.chunks(2).map(|p| (p[0] << 4) | p[1]).collect()
}

#[test]
fn round_trip_restores_plaintext() {
    let key = b"ICE";
    let plaintext = b"any plaintext at all, of any length whatsoever...";
    let ciphertext = xor_with_key(key, plaintext);
    let back = xor_with_key(key, &ciphertext);
    assert_eq!(back, plaintext.to_vec());
}

#[test]
fn round_trip_single_byte() {
    let data = vec![0u8, 1, 2, 250, 255, 17];
    let once = xor_with_byte(&data, 0x5a);
    let twice = xor_with_byte(&once, 0x5a);
    assert_eq!(twice, data);
}

#[test]
fn xor_with_key_known_vector() {
    let plaintext =
        b"Burning 'em, if you ain't quick and nimble\nI go crazy when I hear a cymbal";
    let expected = hex_to_bytes(
        "0b3637272a2b2e63622c2e69692a23693a2a3c6324202d623d63343c2a26226324272765272a\
         282b2f20430a652e2c652a3124333a653e2b2027630c692b20283165286326302e27282f",
    );
    assert_eq!(xor_with_key(b"ICE", plaintext), expected);
}

#[test]
fn score_exact_value() {
    let mut nums = vec![0u64; 256];
    nums[b'a' as usize] = 3;
    nums[b'b' as usize] = 5;
    let model = FreqModel::new(nums, 16);
    // 'a' + 'b' + 'a' + unknown 'z' = 3 + 5 + 3 + 0 = 11 sixteenths
    let score = score_with(&model, b"abaz");
    assert_eq!(score.num, 11);
    assert_eq!(score.den, 16);
    // the empty string scores zero
    let zero = score_with(&model, b"");
    assert_eq!(zero.num, 0);
}

#[test]
fn scorer_monotonic_concrete() {
    let model = english_model();
    // every symbol of the first string outweighs the one at the same
    // position of the second ('z' is lightest, 'q' below 'j'; '#' is absent)
    let high = score_with(&model, b"the beast");
    let low = score_with(&model, b"zqj bjazz");
    assert_eq!(high.den, low.den);
    assert!(high.num >= low.num);
    let absent = score_with(&model, b"#########");
    assert!(low.num >= absent.num);
}

#[test]
fn single_byte_recovery() {
    let model = english_model();
    let charset: Vec<u8> = (0u8..=127).collect();
    let plaintext = b"Cooking MC's like a pound of bacon";
    let ciphertext = xor_with_byte(plaintext, 0x58);
    let (best, _score) = break_xor_char(&model, &charset, &ciphertext);
    assert_eq!(best, 0x58);
}

#[test]
fn tie_break_later_candidate_wins() {
    // 'a' and 'b' carry the same weight, so key bytes 0x61 and 0x62 decrypt
    // the zero byte to equally scored strings: the later candidate must win.
    let mut nums = vec![0u64; 256];
    nums[b'a' as usize] = 7;
    nums[b'b' as usize] = 7;
    let model = FreqModel::new(nums, 100);
    let ciphertext = [0x00u8];
    let (best, score) = max_char_with(&model, &[b'a', b'b'], &ciphertext);
    assert_eq!(best, b'b');
    assert_eq!(score.num, 7);
    let (best_rev, _) = max_char_with(&model, &[b'b', b'a'], &ciphertext);
    assert_eq!(best_rev, b'a');
}

#[test]
fn empty_charset_sentinel() {
    let model = english_model();
    let (best, score) = max_char_with(&model, &[], b"whatever");
    assert_eq!(best, 0);
    assert_eq!(score.num, 0);
}

#[test]
fn all_scores_zero_last_candidate_wins() {
    // on an empty string every candidate scores 0; ties keep overwriting,
    // so the last charset element comes back
    let model = english_model();
    let (best, score) = max_char_with(&model, &[1, 2, 3], b"");
    assert_eq!(best, 3);
    assert_eq!(score.num, 0);
}

#[test]
fn transpose_columns() {
    let cols = transpose(b"abcdefg", 3);
    assert_eq!(cols.len(), 3);
    assert_eq!(cols[0], b"adg".to_vec());
    assert_eq!(cols[1], b"be".to_vec());
    assert_eq!(cols[2], b"cf".to_vec());
}

#[test]
fn hamming_known_vector() {
    assert_eq!(hamming(b"this is a test", b"wokka wokka!!!"), 37);
    assert_eq!(hamming(b"abc", b"abc"), 0);
}

#[test]
fn key_length_estimation() {
    // a plaintext with period 3 makes every multiple of 3 score a pairwise
    // distance of 0: the stable minimum tie-breaks deterministically to 3,
    // the first minimum-scoring candidate in iteration order
    let plaintext: Vec<u8> = b"the".repeat(70);
    assert!(plaintext.len() >= 200);
    let ciphertext = xor_with_key(b"ICE", &plaintext);
    let sizes: Vec<usize> = (1usize..=20).collect();
    assert_eq!(guess_key_size(&sizes, &ciphertext), 3);
}

#[test]
fn end_to_end_key_recovery() {
    let plaintext =
        b"Burning 'em, if you ain't quick and nimble\nI go crazy when I hear a cymbal";
    let ciphertext = xor_with_key(b"ICE", plaintext);
    let model = english_model();
    let charset: Vec<u8> = (0u8..=255).collect();
    let sizes = [3usize, 5, 7];
    let keysize = guess_key_size(&sizes, &ciphertext);
    assert_eq!(keysize, 3);
    let key = break_xor_key(&model, &charset, keysize, &ciphertext);
    assert_eq!(key, b"ICE".to_vec());
    let recovered = xor_with_key(&key, &ciphertext);
    assert_eq!(recovered, plaintext.to_vec());
}

#[test]
fn insufficient_data_returns_sentinel() {
    let short = [0u8; 40];
    // 10 chunks of even the smallest candidate need 50 bytes
    let sizes = [5usize, 7, 9];
    assert_eq!(guess_key_size(&sizes, &short), 0);
    assert_eq!(guess_chunked_key_size(10, &sizes, &short), None);
}

#[test]
fn chunked_estimator_small_sample() {
    // two chunks of one byte each: the only qualifying candidate wins
    let buf = [0b1010_1010u8, 0b1010_1011];
    assert_eq!(guess_chunked_key_size(2, &[1, 4], &buf), Some(1));
    // with a zero-distance candidate present, it beats a noisier one
    let periodic = [7u8, 9, 7, 9, 7, 9, 7, 9];
    assert_eq!(guess_chunked_key_size(4, &[2, 1], &periodic), Some(2));
    // ties go to the earliest candidate: both 1 and 2 score zero here
    let constant = [42u8; 8];
    assert_eq!(guess_chunked_key_size(3, &[2, 1], &constant), Some(2));
    assert_eq!(guess_chunked_key_size(3, &[1, 2], &constant), Some(1));
}

#[test]
fn keysize_zero_gives_empty_key() {
    let model = english_model();
    let charset: Vec<u8> = (0u8..=255).collect();
    let key = break_xor_key(&model, &charset, 0, b"some bytes");
    assert!(key.is_empty());
}

#[test]
fn recovered_key_length_matches_keysize() {
    let model = english_model();
    let charset: Vec<u8> = (0u8..=255).collect();
    let key = break_xor_key(&model, &charset, 5, b"short");
    assert_eq!(key.len(), 5);
}
