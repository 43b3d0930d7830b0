use diary::codec::TAG_LEN;
use diary::container::{open, parse_header, seal, seal_with, write_header, HEADER_LEN};
use diary::error::CipherError;

#[test]
fn header_round_trip() {
    let salt: [u8; 16] = core::array::from_fn(|i| i as u8);
    let nonce: [u8; 19] = core::array::from_fn(|i| 100 + i as u8);
    let header = write_header(&salt, &nonce);
    assert_eq!(header.len(), HEADER_LEN);
    assert_eq!(&header[..16], &salt[..]);
    assert_eq!(&header[16..], &nonce[..]);
    let mut container = header.clone();
    container.extend_from_slice(b"rest");
    assert_eq!(parse_header(&container), Ok((salt, nonce)));
}

#[test]
fn short_container_is_malformed() {
    assert_eq!(parse_header(&[0u8; 34]), Err(CipherError::Format));
    assert_eq!(open(b"pw", &[0u8; 34]), Err(CipherError::Format));
    assert_eq!(open(b"pw", &[]), Err(CipherError::Format));
}

#[test]
fn seal_with_writes_header_then_stream() {
    let salt = [5u8; 16];
    let nonce = [6u8; 19];
    let container = seal_with(b"pw", &salt, &nonce, b"abc").unwrap();
    assert_eq!(container.len(), HEADER_LEN + 3 + TAG_LEN);
    assert_eq!(&container[..16], &salt[..]);
    assert_eq!(&container[16..HEADER_LEN], &nonce[..]);
    assert_eq!(open(b"pw", &container).unwrap(), b"abc".to_vec());
}

#[test]
fn sealing_twice_uses_fresh_salt_and_nonce() {
    let first = seal(b"pw", b"same").unwrap();
    let second = seal(b"pw", b"same").unwrap();
    assert_ne!(&first[..HEADER_LEN], &second[..HEADER_LEN]);
    assert_eq!(open(b"pw", &first).unwrap(), b"same".to_vec());
}

#[test]
fn header_only_container_is_malformed() {
    let container = seal_with(b"pw", &[5u8; 16], &[6u8; 19], b"").unwrap();
    assert_eq!(open(b"pw", &container[..HEADER_LEN]), Err(CipherError::Format));
}

#[test]
fn altered_salt_fails_authentication() {
    let mut container = seal_with(b"pw", &[5u8; 16], &[6u8; 19], b"abc").unwrap();
    container[0] ^= 1;
    assert_eq!(open(b"pw", &container), Err(CipherError::Authentication));
}
