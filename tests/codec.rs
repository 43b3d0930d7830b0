use diary::codec::{decrypt, encrypt, CHUNK, TAG_LEN, WINDOW};
use diary::error::CipherError;

const KEY: [u8; 32] = [7u8; 32];
const NONCE: [u8; 19] = [3u8; 19];

fn sample(len: usize) -> Vec<u8> {
    (0..len).map(|i| (i * 31 % 251) as u8).collect()
}

fn sealed_len(len: usize) -> usize {
    len + (len / WINDOW + 1) * TAG_LEN
}

#[test]
fn round_trip_at_window_boundaries() {
    for len in [0usize, 1, 499, 500, 501, 999, 1000, 1001, 2600] {
        let plain = sample(len);
        let sealed = encrypt(&plain, &KEY, &NONCE).unwrap();
        assert_eq!(sealed.len(), sealed_len(len), "length {len}");
        assert_eq!(decrypt(&sealed, &KEY, &NONCE).unwrap(), plain, "length {len}");
    }
}

#[test]
fn encryption_hides_the_plaintext() {
    let plain = vec![0u8; WINDOW];
    let sealed = encrypt(&plain, &KEY, &NONCE).unwrap();
    assert_ne!(&sealed[..WINDOW], &plain[..]);
}

#[test]
fn encryption_is_deterministic_for_fixed_key_and_nonce() {
    let plain = sample(1234);
    assert_eq!(
        encrypt(&plain, &KEY, &NONCE).unwrap(),
        encrypt(&plain, &KEY, &NONCE).unwrap()
    );
    assert_ne!(
        encrypt(&plain, &KEY, &NONCE).unwrap(),
        encrypt(&plain, &KEY, &[4u8; 19]).unwrap()
    );
}

#[test]
fn whole_windows_end_with_an_empty_last_chunk() {
    let plain = sample(2 * WINDOW);
    let sealed = encrypt(&plain, &KEY, &NONCE).unwrap();
    assert_eq!(sealed.len(), 2 * CHUNK + TAG_LEN);
    let opened = decrypt(&sealed, &KEY, &NONCE).unwrap();
    assert_eq!(opened.len(), 2 * WINDOW);
    assert_eq!(opened, plain);
}

#[test]
fn empty_plaintext_is_one_tag() {
    let sealed = encrypt(&[], &KEY, &NONCE).unwrap();
    assert_eq!(sealed.len(), TAG_LEN);
    assert_eq!(decrypt(&sealed, &KEY, &NONCE).unwrap(), Vec::<u8>::new());
}

#[test]
fn any_flipped_bit_fails_authentication() {
    let plain = sample(1300);
    let sealed = encrypt(&plain, &KEY, &NONCE).unwrap();
    for pos in [0usize, 250, 515, 516, 800, 1031, 1032, sealed.len() - 1] {
        for bit in [0u8, 7] {
            let mut tampered = sealed.clone();
            tampered[pos] ^= 1 << bit;
            assert_eq!(
                decrypt(&tampered, &KEY, &NONCE),
                Err(CipherError::Authentication),
                "byte {pos} bit {bit}"
            );
        }
    }
}

#[test]
fn dropping_the_last_chunk_is_malformed() {
    let plain = sample(1300);
    let sealed = encrypt(&plain, &KEY, &NONCE).unwrap();
    let cut = &sealed[..2 * CHUNK];
    assert_eq!(decrypt(cut, &KEY, &NONCE), Err(CipherError::Format));
    assert_eq!(decrypt(&[], &KEY, &NONCE), Err(CipherError::Format));
}

#[test]
fn whole_window_stream_without_its_empty_last_chunk_is_malformed() {
    let plain = sample(WINDOW);
    let sealed = encrypt(&plain, &KEY, &NONCE).unwrap();
    assert_eq!(decrypt(&sealed[..CHUNK], &KEY, &NONCE), Err(CipherError::Format));
}

#[test]
fn trailing_bytes_fail_authentication() {
    let plain = sample(700);
    let mut sealed = encrypt(&plain, &KEY, &NONCE).unwrap();
    sealed.push(0);
    assert_eq!(decrypt(&sealed, &KEY, &NONCE), Err(CipherError::Authentication));
}

#[test]
fn cutting_inside_the_last_chunk_fails_authentication() {
    let plain = sample(700);
    let sealed = encrypt(&plain, &KEY, &NONCE).unwrap();
    let cut = &sealed[..sealed.len() - 1];
    assert_eq!(decrypt(cut, &KEY, &NONCE), Err(CipherError::Authentication));
}

#[test]
fn a_last_chunk_shorter_than_a_tag_is_malformed() {
    let plain = sample(700);
    let sealed = encrypt(&plain, &KEY, &NONCE).unwrap();
    let cut = &sealed[..CHUNK + TAG_LEN - 1];
    assert_eq!(decrypt(cut, &KEY, &NONCE), Err(CipherError::Format));
}

#[test]
fn swapped_chunks_fail_authentication() {
    let plain = sample(1300);
    let sealed = encrypt(&plain, &KEY, &NONCE).unwrap();
    let mut swapped = Vec::new();
    swapped.extend_from_slice(&sealed[CHUNK..2 * CHUNK]);
    swapped.extend_from_slice(&sealed[..CHUNK]);
    swapped.extend_from_slice(&sealed[2 * CHUNK..]);
    assert_eq!(decrypt(&swapped, &KEY, &NONCE), Err(CipherError::Authentication));
}

#[test]
fn wrong_key_or_nonce_fails_authentication() {
    let plain = sample(600);
    let sealed = encrypt(&plain, &KEY, &NONCE).unwrap();
    assert_eq!(decrypt(&sealed, &[8u8; 32], &NONCE), Err(CipherError::Authentication));
    assert_eq!(decrypt(&sealed, &KEY, &[0u8; 19]), Err(CipherError::Authentication));
}
