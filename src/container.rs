//! The container: a header of salt (16 bytes) and base nonce (19 bytes),
//! followed by the chunk stream sealed under the key derived from the
//! password and that salt.
use rand::RngCore;
use vstd::prelude::*;

use crate::codec::{decrypt, encrypt, sealed_as, stream_length_error, MAX_POSITION, WINDOW};
use crate::error::CipherError;
use crate::kdf::{argon2id_key, hash_password, MAX_PASSWORD_LEN};
use crate::stream::{Decryptor, Encryptor};

verus! {

/// Length of the container header: the 16-byte salt, then the 19-byte nonce.
pub const HEADER_LEN: usize = 35;

/// Where the nonce starts in the header.
pub const NONCE_OFFSET: usize = 16;

/// The salt stored at the front of a container.
pub open spec fn header_salt(container: Seq<u8>) -> Seq<u8> {
    container.subrange(0, NONCE_OFFSET as int)
}

/// The base nonce stored after the salt.
pub open spec fn header_nonce(container: Seq<u8>) -> Seq<u8> {
    container.subrange(NONCE_OFFSET as int, HEADER_LEN as int)
}

/// The chunk stream that follows the header.
pub open spec fn container_body(container: Seq<u8>) -> Seq<u8> {
    container.skip(HEADER_LEN as int)
}

/// `container` holds `payload` sealed under `password`: a header with the salt
/// and nonce, then the STREAM sealing of `payload` under the key derived from
/// the password and that salt (so the password is one a key can be derived from).
pub open spec fn container_seals(password: Seq<u8>, container: Seq<u8>, payload: Seq<u8>) -> bool {
    &&& password.len() <= MAX_PASSWORD_LEN
    &&& container.len() >= HEADER_LEN
    &&& sealed_as(
        argon2id_key(password, header_salt(container)),
        header_nonce(container),
        0,
        container_body(container),
        payload,
    )
}

/// Relies on rand's `rand::rng()`, the thread-local generator seeded from the
/// operating system, and `RngCore::fill_bytes`, which overwrites the buffer.
#[verifier::external_body]
fn fill_random(buf: &mut [u8])
    ensures
        final(buf)@.len() == old(buf)@.len(),
{
    rand::rng().fill_bytes(buf)
}

/// The header of a container: its salt and nonce, in that order.
pub fn write_header(salt: &[u8; 16], nonce: &[u8; 19]) -> (r: Vec<u8>)
    ensures
        r@ == salt@ + nonce@,
{
    let mut out: Vec<u8> = Vec::new();
    out.extend_from_slice(salt.as_slice());
    out.extend_from_slice(nonce.as_slice());
    proof {
        assert(out@ =~= salt@ + nonce@);
    }
    out
}

/// Reads the salt and nonce back from the front of a container; fails with
/// `Format` on a container shorter than its header.
pub fn parse_header(container: &[u8]) -> (r: Result<([u8; 16], [u8; 19]), CipherError>)
    ensures
        r is Ok <==> container@.len() >= HEADER_LEN,
        r matches Ok((salt, nonce)) ==> salt@ == header_salt(container@) && nonce@
            == header_nonce(container@),
        r matches Err(e) ==> e == CipherError::Format,
{
    if container.len() < HEADER_LEN {
        return Err(CipherError::Format);
    }
    let mut salt = [0u8; 16];
    let mut i: usize = 0;
    while i < NONCE_OFFSET
        invariant
            i <= NONCE_OFFSET,
            container@.len() >= HEADER_LEN,
            forall|k: int| 0 <= k < i ==> salt@[k] == container@[k],
        decreases NONCE_OFFSET - i,
    {
        salt[i] = container[i];
        i = i + 1;
    }
    let mut nonce = [0u8; 19];
    let mut j: usize = 0;
    while j < HEADER_LEN - NONCE_OFFSET
        invariant
            j <= HEADER_LEN - NONCE_OFFSET,
            container@.len() >= HEADER_LEN,
            forall|k: int| 0 <= k < j ==> nonce@[k] == container@[NONCE_OFFSET + k],
        decreases HEADER_LEN - NONCE_OFFSET - j,
    {
        nonce[j] = container[NONCE_OFFSET + j];
        j = j + 1;
    }
    proof {
        assert(salt@ =~= header_salt(container@));
        assert(nonce@ =~= header_nonce(container@));
    }
    Ok((salt, nonce))
}

/// Seals `payload` under `password` with the given salt and nonce: derives the
/// key, writes the header, then the chunk stream.
pub fn seal_with(password: &[u8], salt: &[u8; 16], nonce: &[u8; 19], payload: &[u8]) -> (r: Result<
    Vec<u8>,
    CipherError,
>)
    ensures
        r is Ok <==> password@.len() <= MAX_PASSWORD_LEN && payload@.len() / (WINDOW as nat)
            <= MAX_POSITION,
        r matches Ok(c) ==> header_salt(c@) == salt@ && header_nonce(c@) == nonce@
            && container_seals(password@, c@, payload@),
        r matches Err(e) ==> if password@.len() > MAX_PASSWORD_LEN {
            e == CipherError::KeyDerivation
        } else {
            e == CipherError::StreamTooLong
        },
{
    let key = match hash_password(password, salt) {
        Ok(key) => key,
        Err(e) => return Err(e),
    };
    let mut body = match encrypt(payload, &key, nonce) {
        Ok(body) => body,
        Err(e) => return Err(e),
    };
    let mut out = write_header(salt, nonce);
    let ghost sealed_body = body@;
    out.append(&mut body);
    proof {
        assert(header_salt(out@) =~= salt@);
        assert(header_nonce(out@) =~= nonce@);
        assert(container_body(out@) =~= sealed_body);
    }
    Ok(out)
}

/// Seals `payload` under `password` with a fresh random salt and nonce.
pub fn seal(password: &[u8], payload: &[u8]) -> (r: Result<Vec<u8>, CipherError>)
    ensures
        r is Ok <==> password@.len() <= MAX_PASSWORD_LEN && payload@.len() / (WINDOW as nat)
            <= MAX_POSITION,
        r matches Ok(c) ==> container_seals(password@, c@, payload@),
        r matches Err(e) ==> if password@.len() > MAX_PASSWORD_LEN {
            e == CipherError::KeyDerivation
        } else {
            e == CipherError::StreamTooLong
        },
{
    let mut salt = [0u8; 16];
    fill_random(&mut salt);
    let mut nonce = [0u8; 19];
    fill_random(&mut nonce);
    seal_with(password, &salt, &nonce, payload)
}

/// Opens a container under `password`. Fails with `Format` on a container
/// shorter than its header, with `KeyDerivation` on a password too long to
/// hash, and otherwise as `decrypt` does on the chunk stream: whatever it
/// returns is exactly what the container seals under this password, and a
/// genuine container always opens to its payload.
pub fn open(password: &[u8], container: &[u8]) -> (r: Result<Vec<u8>, CipherError>)
    ensures
        container@.len() < HEADER_LEN ==> r == Err::<Vec<u8>, CipherError>(CipherError::Format),
        container@.len() >= HEADER_LEN && password@.len() > MAX_PASSWORD_LEN ==> r == Err::<
            Vec<u8>,
            CipherError,
        >(CipherError::KeyDerivation),
        r matches Ok(p) ==> container_seals(password@, container@, p@),
        forall|p: Seq<u8>|
            #[trigger] container_seals(password@, container@, p) ==> (r matches Ok(q) && q@ == p),
        container@.len() >= HEADER_LEN && password@.len() <= MAX_PASSWORD_LEN ==> match stream_length_error(
            container_body(container@).len(),
        ) {
            Some(e) => r == Err::<Vec<u8>, CipherError>(e),
            None => r is Ok || r == Err::<Vec<u8>, CipherError>(CipherError::Authentication),
        },
{
    let (salt, nonce) = match parse_header(container) {
        Ok(header) => header,
        Err(e) => return Err(e),
    };
    let key = match hash_password(password, &salt) {
        Ok(key) => key,
        Err(e) => return Err(e),
    };
    let body = vstd::slice::slice_subrange(container, HEADER_LEN, container.len());
    proof {
        assert(body@ =~= container_body(container@));
    }
    decrypt(body, &key, &nonce)
}

/// Starts sealing a container in pieces: returns its header, with `salt` and
/// `nonce`, and an `Encryptor` under the key derived from the password and
/// salt, for the chunk stream that follows the header.
pub fn begin_seal_with(password: &[u8], salt: &[u8; 16], nonce: &[u8; 19]) -> (r: Result<
    (Vec<u8>, Encryptor),
    CipherError,
>)
    ensures
        r is Ok <==> password@.len() <= MAX_PASSWORD_LEN,
        r matches Ok((header, enc)) ==> {
            &&& header@ == salt@ + nonce@
            &&& enc.wf()
            &&& enc.key() == argon2id_key(password@, salt@)
            &&& enc.nonce() == nonce@
            &&& enc.written() == Seq::<u8>::empty()
            &&& enc.emitted() == Seq::<u8>::empty()
        },
        r matches Err(e) ==> e == CipherError::KeyDerivation,
{
    let key = match hash_password(password, salt) {
        Ok(key) => key,
        Err(e) => return Err(e),
    };
    Ok((write_header(salt, nonce), Encryptor::new(&key, nonce)))
}

/// Starts opening a container in pieces from its header: derives the key
/// from the password and the stored salt, and returns a `Decryptor` for the
/// chunk stream that follows the header.
pub fn begin_open(password: &[u8], header: &[u8]) -> (r: Result<Decryptor, CipherError>)
    ensures
        header@.len() < HEADER_LEN ==> r == Err::<Decryptor, CipherError>(CipherError::Format),
        header@.len() >= HEADER_LEN ==> (r is Ok <==> password@.len() <= MAX_PASSWORD_LEN),
        r matches Ok(dec) ==> {
            &&& dec.wf()
            &&& dec.key() == argon2id_key(password@, header_salt(header@))
            &&& dec.nonce() == header_nonce(header@)
            &&& dec.consumed() == Seq::<u8>::empty()
            &&& dec.emitted() == Seq::<u8>::empty()
        },
        r matches Err(e) ==> e == CipherError::Format || e == CipherError::KeyDerivation,
{
    let (salt, nonce) = match parse_header(header) {
        Ok(parsed) => parsed,
        Err(e) => return Err(e),
    };
    let key = match hash_password(password, &salt) {
        Ok(key) => key,
        Err(e) => return Err(e),
    };
    Ok(Decryptor::new(&key, &nonce))
}

/// Starts sealing a container in pieces with a fresh random salt and nonce.
pub fn begin_seal(password: &[u8]) -> (r: Result<(Vec<u8>, Encryptor), CipherError>)
    ensures
        r is Ok <==> password@.len() <= MAX_PASSWORD_LEN,
        r matches Ok((header, enc)) ==> {
            &&& header@.len() == HEADER_LEN
            &&& enc.wf()
            &&& enc.key() == argon2id_key(password@, header_salt(header@))
            &&& enc.nonce() == header_nonce(header@)
            &&& enc.written() == Seq::<u8>::empty()
            &&& enc.emitted() == Seq::<u8>::empty()
        },
        r matches Err(e) ==> e == CipherError::KeyDerivation,
{
    let mut salt = [0u8; 16];
    fill_random(&mut salt);
    let mut nonce = [0u8; 19];
    fill_random(&mut nonce);
    let r = begin_seal_with(password, &salt, &nonce);
    proof {
        if r is Ok {
            let header = r->Ok_0.0;
            assert(header_salt(header@) =~= salt@);
            assert(header_nonce(header@) =~= nonce@);
        }
    }
    r
}

} // verus!
