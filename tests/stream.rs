use diary::codec::{encrypt, CHUNK, TAG_LEN, WINDOW};
use diary::container::{begin_open, begin_seal, begin_seal_with, open, HEADER_LEN};
use diary::error::CipherError;
use diary::stream::{Decryptor, Encryptor};

const KEY: [u8; 32] = [11u8; 32];
const NONCE: [u8; 19] = [12u8; 19];

fn sample(len: usize) -> Vec<u8> {
    (0..len).map(|i| (i * 17 % 253) as u8).collect()
}

fn seal_in_pieces(plain: &[u8], piece: usize) -> Vec<u8> {
    let mut enc = Encryptor::new(&KEY, &NONCE);
    let mut out = Vec::new();
    for part in plain.chunks(piece) {
        out.extend(enc.write(part).unwrap());
    }
    out.extend(enc.finish());
    out
}

fn open_in_pieces(sealed: &[u8], piece: usize) -> Result<Vec<u8>, CipherError> {
    let mut dec = Decryptor::new(&KEY, &NONCE);
    let mut out = Vec::new();
    for part in sealed.chunks(piece) {
        out.extend(dec.feed(part)?);
    }
    out.extend(dec.finish()?);
    Ok(out)
}

#[test]
fn sealing_in_pieces_matches_sealing_at_once() {
    for len in [0usize, 1, 499, 500, 501, 1000, 1777] {
        let plain = sample(len);
        let whole = encrypt(&plain, &KEY, &NONCE).unwrap();
        for piece in [1usize, 7, 500, 501, 4096] {
            assert_eq!(seal_in_pieces(&plain, piece), whole, "length {len} piece {piece}");
        }
    }
}

#[test]
fn opening_in_pieces_recovers_the_plaintext() {
    for len in [0usize, 499, 500, 501, 1000, 1777] {
        let plain = sample(len);
        let sealed = encrypt(&plain, &KEY, &NONCE).unwrap();
        for piece in [1usize, 13, 516, 517, 4096] {
            assert_eq!(open_in_pieces(&sealed, piece).unwrap(), plain, "length {len} piece {piece}");
        }
    }
}

#[test]
fn encryptor_emits_each_full_window_at_once() {
    let mut enc = Encryptor::new(&KEY, &NONCE);
    assert_eq!(enc.write(&sample(WINDOW - 1)).unwrap().len(), 0);
    assert_eq!(enc.write(&[1]).unwrap().len(), CHUNK);
    assert_eq!(enc.write(&sample(2 * WINDOW + 3)).unwrap().len(), 2 * CHUNK);
    assert_eq!(enc.finish().len(), 3 + TAG_LEN);
}

#[test]
fn decryptor_stops_at_the_first_altered_chunk() {
    let plain = sample(1600);
    let mut sealed = encrypt(&plain, &KEY, &NONCE).unwrap();
    sealed[CHUNK + 10] ^= 0x80;
    let mut dec = Decryptor::new(&KEY, &NONCE);
    assert_eq!(dec.feed(&sealed[..CHUNK]).unwrap(), plain[..WINDOW].to_vec());
    assert_eq!(dec.feed(&sealed[CHUNK..]), Err(CipherError::Authentication));
}

#[test]
fn decryptor_rejects_a_stream_cut_at_a_chunk_boundary() {
    let plain = sample(1000);
    let sealed = encrypt(&plain, &KEY, &NONCE).unwrap();
    let mut dec = Decryptor::new(&KEY, &NONCE);
    assert_eq!(dec.feed(&sealed[..2 * CHUNK]).unwrap(), plain);
    assert_eq!(dec.finish(), Err(CipherError::Format));
}

#[test]
fn decryptor_rejects_an_altered_last_chunk() {
    let plain = sample(600);
    let mut sealed = encrypt(&plain, &KEY, &NONCE).unwrap();
    let last = sealed.len() - 1;
    sealed[last] ^= 1;
    assert_eq!(open_in_pieces(&sealed, 100), Err(CipherError::Authentication));
}

#[test]
fn container_sealed_in_pieces_opens_at_once() {
    let payload = sample(1234);
    let (header, mut enc) = begin_seal_with(b"pw", &[1u8; 16], &[2u8; 19]).unwrap();
    assert_eq!(header.len(), HEADER_LEN);
    let mut container = header;
    for part in payload.chunks(300) {
        container.extend(enc.write(part).unwrap());
    }
    container.extend(enc.finish());
    assert_eq!(open(b"pw", &container).unwrap(), payload);

    let mut dec = begin_open(b"pw", &container[..HEADER_LEN]).unwrap();
    let mut opened = dec.feed(&container[HEADER_LEN..]).unwrap();
    opened.extend(dec.finish().unwrap());
    assert_eq!(opened, payload);
}

#[test]
fn begin_open_rejects_a_short_header() {
    assert!(matches!(begin_open(b"pw", &[0u8; 20]), Err(CipherError::Format)));
}

#[test]
fn fresh_streaming_seal_opens_with_its_password() {
    let (header, mut enc) = begin_seal(b"pw").unwrap();
    let mut container = header;
    container.extend(enc.write(b"entry text").unwrap());
    container.extend(enc.finish());
    assert_eq!(open(b"pw", &container).unwrap(), b"entry text".to_vec());
    assert_eq!(open(b"other", &container), Err(CipherError::Authentication));
}
