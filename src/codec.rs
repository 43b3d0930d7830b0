//! The chunk stream: STREAM-BE32 over XChaCha20-Poly1305.
//!
//! A plaintext is cut into 500-byte windows. Each full window is sealed as a
//! 516-byte chunk under the base nonce extended by a big-endian 32-bit counter
//! and a clear last-chunk flag; the remainder, empty when the length is a whole
//! number of windows, is sealed with the flag set. Chunks carry no length
//! prefix: a read shorter than a full chunk is the last one. The counter bounds
//! a stream to 2^32 - 1 full windows (about 2 TB); beyond that sealing fails
//! rather than wrap. Every chunk is authenticated on its own, so opening stops
//! at the first chunk that does not verify.
use chacha20poly1305::aead::stream::{NewStream, StreamBE32, StreamPrimitive};
use chacha20poly1305::aead::KeyInit;
use chacha20poly1305::XChaCha20Poly1305;
use vstd::prelude::*;
use vstd::slice::slice_subrange;

use crate::error::CipherError;

verus! {

/// Plaintext bytes carried by every chunk but the last.
pub const WINDOW: usize = 500;

/// Length of the authentication tag that follows each chunk's ciphertext.
pub const TAG_LEN: usize = 16;

/// Length of every sealed chunk but the last: a full window and its tag.
pub const CHUNK: usize = 516;

/// Length of the base nonce; the STREAM counter and flag fill the rest of
/// XChaCha20's 24-byte nonce.
pub const NONCE_LEN: usize = 19;

/// The largest counter value, which only the last chunk may use.
pub const MAX_POSITION: u32 = 0xFFFF_FFFF;

#[verifier::external_type_specification]
#[verifier::external_body]
pub struct ExAeadError(chacha20poly1305::aead::Error);

/// The ciphertext and tag that STREAM-BE32 over XChaCha20-Poly1305 produces for
/// one chunk, given the key, the base nonce, the chunk's counter and whether it
/// is the last chunk.
pub uninterp spec fn stream_seal(
    key: Seq<u8>,
    nonce: Seq<u8>,
    position: u32,
    last: bool,
    msg: Seq<u8>,
) -> Seq<u8>;

/// Relies on aead's `StreamPrimitive::encrypt` for `StreamBE32<XChaCha20Poly1305>`:
/// the chunk is encrypted under the base nonce followed by the big-endian counter
/// and the last-chunk flag; the result is the ciphertext, as long as the message,
/// followed by a 16-byte tag. It fails only on messages of 2^32 blocks or more.
#[verifier::external_body]
pub(crate) fn seal_chunk(
    key: &[u8; 32],
    nonce: &[u8; 19],
    position: u32,
    last: bool,
    msg: &[u8],
) -> (r: Result<Vec<u8>, chacha20poly1305::aead::Error>)
    ensures
        msg@.len() <= WINDOW ==> r is Ok,
        r matches Ok(c) ==> c@ == stream_seal(key@, nonce@, position, last, msg@),
        r matches Ok(c) ==> c@.len() == msg@.len() + TAG_LEN,
{
    let aead = XChaCha20Poly1305::new(key.as_ref().into());
    let stream = StreamBE32::from_aead(aead, nonce.as_ref().into());
    stream.encrypt(position, last, msg)
}

/// Relies on aead's `StreamPrimitive::decrypt` for `StreamBE32<XChaCha20Poly1305>`:
/// it succeeds exactly when the tag verifies, that is when the input is the
/// sealing of some message at this counter and flag, and then it returns that
/// message; an input shorter than a tag fails.
#[verifier::external_body]
pub(crate) fn open_chunk(
    key: &[u8; 32],
    nonce: &[u8; 19],
    position: u32,
    last: bool,
    sealed: &[u8],
) -> (r: Result<Vec<u8>, chacha20poly1305::aead::Error>)
    ensures
        r matches Ok(p) ==> stream_seal(key@, nonce@, position, last, p@) == sealed@,
        r matches Ok(p) ==> p@.len() + TAG_LEN == sealed@.len(),
        r matches Ok(p) ==> forall|m: Seq<u8>|
            m.len() <= WINDOW && #[trigger] stream_seal(key@, nonce@, position, last, m)
                == sealed@ ==> p@ == m,
        r is Err ==> forall|m: Seq<u8>|
            m.len() <= WINDOW ==> #[trigger] stream_seal(key@, nonce@, position, last, m)
                != sealed@,
        sealed@.len() < TAG_LEN ==> r is Err,
{
    let aead = XChaCha20Poly1305::new(key.as_ref().into());
    let stream = StreamBE32::from_aead(aead, nonce.as_ref().into());
    stream.decrypt(position, last, sealed)
}

/// `c` is the STREAM sealing of plaintext `p`, starting at counter `position`:
/// full windows become full chunks under rising counters with the flag clear,
/// and the remainder (possibly empty) becomes the last chunk, flag set.
pub open spec fn sealed_as(
    key: Seq<u8>,
    nonce: Seq<u8>,
    position: nat,
    c: Seq<u8>,
    p: Seq<u8>,
) -> bool
    decreases c.len(),
{
    if c.len() < CHUNK {
        &&& position <= MAX_POSITION
        &&& p.len() < WINDOW
        &&& c.len() == p.len() + TAG_LEN
        &&& stream_seal(key, nonce, position as u32, true, p) == c
    } else {
        &&& position < MAX_POSITION
        &&& p.len() >= WINDOW
        &&& stream_seal(key, nonce, position as u32, false, p.take(WINDOW as int)) == c.take(
            CHUNK as int,
        )
        &&& sealed_as(key, nonce, position + 1, c.skip(CHUNK as int), p.skip(WINDOW as int))
    }
}

/// A sealing of `p` has one full chunk per full window of `p`, then a last
/// chunk of the remainder plus its tag, and fits the 32-bit counter.
pub proof fn lemma_sealed_shape(key: Seq<u8>, nonce: Seq<u8>, position: nat, c: Seq<u8>, p: Seq<u8>)
    requires
        sealed_as(key, nonce, position, c, p),
    ensures
        c.len() as int / CHUNK as int == p.len() as int / WINDOW as int,
        c.len() as int % CHUNK as int == p.len() as int % WINDOW as int + TAG_LEN as int,
        position + c.len() as int / CHUNK as int <= MAX_POSITION,
    decreases c.len(),
{
    if c.len() >= CHUNK {
        lemma_sealed_shape(key, nonce, position + 1, c.skip(CHUNK as int), p.skip(WINDOW as int));
        vstd::arithmetic::div_mod::lemma_div_plus_one(c.len() - CHUNK, CHUNK as int);
        vstd::arithmetic::div_mod::lemma_div_plus_one(p.len() - WINDOW, WINDOW as int);
        vstd::arithmetic::div_mod::lemma_mod_add_multiples_vanish(c.len() - CHUNK, CHUNK as int);
        vstd::arithmetic::div_mod::lemma_mod_add_multiples_vanish(p.len() - WINDOW, WINDOW as int);
    } else {
        vstd::arithmetic::div_mod::lemma_small_mod(c.len(), CHUNK as nat);
        vstd::arithmetic::div_mod::lemma_small_mod(p.len(), WINDOW as nat);
        vstd::arithmetic::div_mod::lemma_basic_div(c.len() as int, CHUNK as int);
        vstd::arithmetic::div_mod::lemma_basic_div(p.len() as int, WINDOW as int);
    }
}

/// One full chunk sealed at `position`, followed by a sealing of the rest of
/// the plaintext from the next counter on, is a sealing of the whole.
pub(crate) proof fn lemma_sealed_prepend(
    key: Seq<u8>,
    nonce: Seq<u8>,
    position: nat,
    chunk: Seq<u8>,
    rest: Seq<u8>,
    window: Seq<u8>,
    tail: Seq<u8>,
)
    requires
        position < MAX_POSITION,
        window.len() == WINDOW,
        chunk.len() == CHUNK,
        stream_seal(key, nonce, position as u32, false, window) == chunk,
        sealed_as(key, nonce, position + 1, rest, tail),
    ensures
        sealed_as(key, nonce, position, chunk + rest, window + tail),
{
    assert((chunk + rest).take(CHUNK as int) =~= chunk);
    assert((chunk + rest).skip(CHUNK as int) =~= rest);
    assert((window + tail).take(WINDOW as int) =~= window);
    assert((window + tail).skip(WINDOW as int) =~= tail);
}

/// Whole units of `unit` bytes before `end` number at most `end / unit`.
pub(crate) proof fn lemma_units_within(count: int, unit: int, end: int)
    requires
        0 < unit,
        0 <= count,
        count * unit <= end,
    ensures
        count <= end / unit,
{
    vstd::arithmetic::div_mod::lemma_div_is_ordered(count * unit, end, unit);
    vstd::arithmetic::div_mod::lemma_div_multiples_vanish(count, unit);
    vstd::arithmetic::mul::lemma_mul_is_commutative(count, unit);
}

/// Opening the next full chunk of a sealing extends the plaintext recovered
/// so far by exactly the window that the chunk seals.
pub(crate) proof fn lemma_opened_window(
    key: Seq<u8>,
    nonce: Seq<u8>,
    position: nat,
    c: Seq<u8>,
    done: Seq<u8>,
    window: Seq<u8>,
    p: Seq<u8>,
)
    requires
        c.len() >= CHUNK,
        p.len() >= done.len(),
        p.take(done.len() as int) == done,
        sealed_as(key, nonce, position, c, p.skip(done.len() as int)),
        window == p.skip(done.len() as int).take(WINDOW as int),
    ensures
        p.len() >= done.len() + window.len(),
        p.take((done.len() + window.len()) as int) == done + window,
        sealed_as(
            key,
            nonce,
            position + 1,
            c.skip(CHUNK as int),
            p.skip((done.len() + window.len()) as int),
        ),
{
    let rest = p.skip(done.len() as int);
    assert(rest.len() >= WINDOW);
    assert(p.take((done.len() + window.len()) as int) =~= done + window);
    assert(rest.skip(WINDOW as int) =~= p.skip((done.len() + window.len()) as int));
}

/// Seals `plain` as a STREAM of chunks under `key` and the base `nonce`: each
/// full window of 500 bytes becomes a 516-byte chunk, and the remainder, empty
/// when the length is a multiple of the window, becomes the last chunk.
/// Fails only when the 32-bit counter cannot number the chunks.
pub fn encrypt(plain: &[u8], key: &[u8; 32], nonce: &[u8; 19]) -> (r: Result<Vec<u8>, CipherError>)
    ensures
        r is Ok <==> plain@.len() / (WINDOW as nat) <= MAX_POSITION,
        r matches Ok(c) ==> sealed_as(key@, nonce@, 0, c@, plain@),
        r matches Err(e) ==> e == CipherError::StreamTooLong,
{
    if plain.len() / WINDOW > MAX_POSITION as usize {
        return Err(CipherError::StreamTooLong);
    }
    let mut out: Vec<u8> = Vec::new();
    let mut off: usize = 0;
    let mut position: u32 = 0;
    proof {
        assert(plain@.skip(0) =~= plain@);
        assert forall|rest: Seq<u8>|
            #[trigger] sealed_as(key@, nonce@, 0, rest, plain@.skip(0)) implies sealed_as(
            key@,
            nonce@,
            0,
            out@ + rest,
            plain@,
        ) by {
            assert(out@ + rest =~= rest);
        }
    }
    while plain.len() - off >= WINDOW
        invariant
            off <= plain.len(),
            off as int == position as int * WINDOW as int,
            plain@.len() / (WINDOW as nat) <= MAX_POSITION,
            forall|rest: Seq<u8>|
                #[trigger] sealed_as(key@, nonce@, position as nat, rest, plain@.skip(off as int))
                    ==> sealed_as(key@, nonce@, 0, out@ + rest, plain@),
        decreases plain.len() - off,
    {
        proof {
            lemma_units_within(position + 1, WINDOW as int, plain@.len() as int);
        }
        let window = slice_subrange(plain, off, off + WINDOW);
        let mut sealed = seal_chunk(key, nonce, position, false, window).unwrap();
        let ghost before = out@;
        let ghost chunk = sealed@;
        let ghost old_position = position as nat;
        let ghost old_off = off as int;
        out.append(&mut sealed);
        off = off + WINDOW;
        position = position + 1;
        proof {
            let next = plain@.skip(off as int);
            assert(window@ + next =~= plain@.skip(old_off));
            assert forall|rest: Seq<u8>|
                #[trigger] sealed_as(key@, nonce@, position as nat, rest, next) implies sealed_as(
                key@,
                nonce@,
                0,
                out@ + rest,
                plain@,
            ) by {
                lemma_sealed_prepend(key@, nonce@, old_position, chunk, rest, window@, next);
                assert(before + (chunk + rest) =~= out@ + rest);
            }
        }
    }
    proof {
        lemma_units_within(position as int, WINDOW as int, plain@.len() as int);
    }
    let tail = slice_subrange(plain, off, plain.len());
    let mut last = seal_chunk(key, nonce, position, true, tail).unwrap();
    proof {
        assert(tail@ =~= plain@.skip(off as int));
        assert(sealed_as(key@, nonce@, position as nat, last@, plain@.skip(off as int)));
    }
    out.append(&mut last);
    Ok(out)
}

/// The error that the length of a sealed stream alone settles, if any: more
/// full chunks than the counter can number, or a last chunk too short to
/// hold its tag (which is also what cutting a stream at a chunk boundary
/// leaves).
pub open spec fn stream_length_error(len: nat) -> Option<CipherError> {
    if len / (CHUNK as nat) > MAX_POSITION {
        Some(CipherError::StreamTooLong)
    } else if len % (CHUNK as nat) < TAG_LEN {
        Some(CipherError::Format)
    } else {
        None
    }
}

/// Opens a stream that `encrypt` sealed under `key` and `nonce`. Whatever it
/// returns is exactly the plaintext that the stream seals, so nothing is
/// returned from altered, reordered or truncated data; and a genuine
/// sealing of a plaintext always opens to that plaintext.
#[verifier::rlimit(80)]
pub fn decrypt(cipher: &[u8], key: &[u8; 32], nonce: &[u8; 19]) -> (r: Result<Vec<u8>, CipherError>)
    ensures
        r matches Ok(p) ==> sealed_as(key@, nonce@, 0, cipher@, p@),
        forall|p: Seq<u8>|
            #[trigger] sealed_as(key@, nonce@, 0, cipher@, p) ==> (r matches Ok(q) && q@ == p),
        match stream_length_error(cipher@.len()) {
            Some(e) => r == Err::<Vec<u8>, CipherError>(e),
            None => r is Ok || r == Err::<Vec<u8>, CipherError>(CipherError::Authentication),
        },
{
    if cipher.len() / CHUNK > MAX_POSITION as usize {
        proof {
            assert forall|p: Seq<u8>| !sealed_as(key@, nonce@, 0, cipher@, p) by {
                if sealed_as(key@, nonce@, 0, cipher@, p) {
                    lemma_sealed_shape(key@, nonce@, 0, cipher@, p);
                }
            }
        }
        return Err(CipherError::StreamTooLong);
    }
    if cipher.len() % CHUNK < TAG_LEN {
        proof {
            assert forall|p: Seq<u8>| !sealed_as(key@, nonce@, 0, cipher@, p) by {
                if sealed_as(key@, nonce@, 0, cipher@, p) {
                    lemma_sealed_shape(key@, nonce@, 0, cipher@, p);
                }
            }
        }
        return Err(CipherError::Format);
    }
    let mut out: Vec<u8> = Vec::new();
    let mut off: usize = 0;
    let mut position: u32 = 0;
    proof {
        assert(cipher@.skip(0) =~= cipher@);
        assert forall|q: Seq<u8>|
            #[trigger] sealed_as(key@, nonce@, 0, cipher@.skip(0), q) implies sealed_as(
            key@,
            nonce@,
            0,
            cipher@,
            out@ + q,
        ) by {
            assert(out@ + q =~= q);
        }
        assert forall|p: Seq<u8>| #[trigger] sealed_as(key@, nonce@, 0, cipher@, p) implies {
            &&& p.take(0) =~= out@
            &&& sealed_as(key@, nonce@, 0, cipher@.skip(0), p.skip(0))
        } by {
            assert(p.skip(0) =~= p);
        }
    }
    while cipher.len() - off >= CHUNK
        invariant
            off <= cipher.len(),
            off as int == position as int * CHUNK as int,
            out@.len() == position as int * WINDOW as int,
            cipher@.len() / (CHUNK as nat) <= MAX_POSITION,
            cipher@.len() % (CHUNK as nat) >= TAG_LEN,
            forall|q: Seq<u8>|
                #[trigger] sealed_as(key@, nonce@, position as nat, cipher@.skip(off as int), q)
                    ==> sealed_as(key@, nonce@, 0, cipher@, out@ + q),
            forall|p: Seq<u8>|
                #[trigger] sealed_as(key@, nonce@, 0, cipher@, p) ==> {
                    &&& p.len() >= out@.len()
                    &&& p.take(out@.len() as int) == out@
                    &&& sealed_as(
                        key@,
                        nonce@,
                        position as nat,
                        cipher@.skip(off as int),
                        p.skip(out@.len() as int),
                    )
                },
        decreases cipher.len() - off,
    {
        proof {
            lemma_units_within(position + 1, CHUNK as int, cipher@.len() as int);
        }
        let piece = slice_subrange(cipher, off, off + CHUNK);
        proof {
            assert(cipher@.skip(off as int).take(CHUNK as int) =~= piece@);
        }
        let opened = open_chunk(key, nonce, position, false, piece);
        let mut window = match opened {
            Ok(window) => window,
            Err(_) => {
                proof {
                    assert forall|p: Seq<u8>| !sealed_as(key@, nonce@, 0, cipher@, p) by {
                        if sealed_as(key@, nonce@, 0, cipher@, p) {
                            let rest = p.skip(out@.len() as int);
                            assert(stream_seal(
                                key@,
                                nonce@,
                                position,
                                false,
                                rest.take(WINDOW as int),
                            ) == piece@);
                        }
                    }
                }
                return Err(CipherError::Authentication);
            },
        };
        let ghost before = out@;
        let ghost opened_window = window@;
        let ghost old_position = position as nat;
        let ghost old_off = off as int;
        out.append(&mut window);
        off = off + CHUNK;
        position = position + 1;
        proof {
            let next = cipher@.skip(off as int);
            assert(piece@ + next =~= cipher@.skip(old_off));
            assert forall|q: Seq<u8>|
                #[trigger] sealed_as(key@, nonce@, position as nat, next, q) implies sealed_as(
                key@,
                nonce@,
                0,
                cipher@,
                out@ + q,
            ) by {
                lemma_sealed_prepend(key@, nonce@, old_position, piece@, next, opened_window, q);
                assert(before + (opened_window + q) =~= out@ + q);
            }
            assert forall|p: Seq<u8>| #[trigger] sealed_as(key@, nonce@, 0, cipher@, p) implies {
                &&& p.len() >= out@.len()
                &&& p.take(out@.len() as int) == out@
                &&& sealed_as(key@, nonce@, position as nat, next, p.skip(out@.len() as int))
            } by {
                let rest = p.skip(before.len() as int);
                let c = cipher@.skip(old_off);
                assert(stream_seal(key@, nonce@, old_position as u32, false, rest.take(WINDOW as int))
                    == piece@);
                lemma_opened_window(key@, nonce@, old_position, c, before, opened_window, p);
                assert(c.skip(CHUNK as int) =~= next);
            }
        }
    }
    proof {
        vstd::arithmetic::div_mod::lemma_fundamental_div_mod_converse(
            cipher@.len() as int,
            CHUNK as int,
            position as int,
            cipher@.len() - off,
        );
        lemma_units_within(position as int, CHUNK as int, cipher@.len() as int);
    }
    let piece = slice_subrange(cipher, off, cipher.len());
    proof {
        assert(piece@ =~= cipher@.skip(off as int));
    }
    let opened = open_chunk(key, nonce, position, true, piece);
    match opened {
        Ok(mut tail) => {
            proof {
                assert(sealed_as(key@, nonce@, position as nat, piece@, tail@));
                assert forall|p: Seq<u8>| #[trigger]
                    sealed_as(key@, nonce@, 0, cipher@, p) implies out@ + tail@ == p by {
                    assert(p =~= p.take(out@.len() as int) + p.skip(out@.len() as int));
                }
            }
            out.append(&mut tail);
            Ok(out)
        },
        Err(_) => {
            proof {
                assert forall|p: Seq<u8>| !sealed_as(key@, nonce@, 0, cipher@, p) by {
                    if sealed_as(key@, nonce@, 0, cipher@, p) {
                        let rest = p.skip(out@.len() as int);
                        assert(stream_seal(key@, nonce@, position, true, rest) == piece@);
                    }
                }
            }
            Err(CipherError::Authentication)
        },
    }
}

/// Round trip: a result that meets `decrypt`'s contract on a sealing of
/// `plain` (such as `encrypt` returns) is `plain` itself, and the sealing is
/// longer than `plain` by one tag per chunk.
pub proof fn lemma_round_trip(
    key: Seq<u8>,
    nonce: Seq<u8>,
    plain: Seq<u8>,
    c: Seq<u8>,
    opened: Result<Seq<u8>, CipherError>,
)
    requires
        sealed_as(key, nonce, 0, c, plain),
        opened matches Ok(p) ==> sealed_as(key, nonce, 0, c, p),
        forall|p: Seq<u8>|
            #[trigger] sealed_as(key, nonce, 0, c, p) ==> opened == Ok::<Seq<u8>, CipherError>(p),
    ensures
        opened == Ok::<Seq<u8>, CipherError>(plain),
        c.len() == plain.len() + (plain.len() / (WINDOW as nat) + 1) * TAG_LEN,
{
    lemma_sealed_shape(key, nonce, 0, c, plain);
    let n = plain.len() as int / WINDOW as int;
    vstd::arithmetic::div_mod::lemma_fundamental_div_mod(c.len() as int, CHUNK as int);
    vstd::arithmetic::div_mod::lemma_fundamental_div_mod(plain.len() as int, WINDOW as int);
    assert(c.len() == plain.len() + (n + 1) * TAG_LEN) by (nonlinear_arith)
        requires
            c.len() == CHUNK * (c.len() as int / CHUNK as int) + c.len() as int % CHUNK as int,
            plain.len() == WINDOW * n + plain.len() as int % WINDOW as int,
            c.len() as int / CHUNK as int == n,
            c.len() as int % CHUNK as int == plain.len() as int % WINDOW as int + TAG_LEN,
            CHUNK == WINDOW + TAG_LEN,
    ;
}

/// Truncation: cutting a sealing right after one of its full chunks, which
/// drops the last chunk (and any after the cut), leaves bytes that seal no
/// plaintext, and whose length alone makes `decrypt` reject them as malformed.
pub proof fn lemma_truncation_rejected(
    key: Seq<u8>,
    nonce: Seq<u8>,
    c: Seq<u8>,
    plain: Seq<u8>,
    kept: nat,
)
    requires
        sealed_as(key, nonce, 0, c, plain),
        kept * CHUNK <= c.len(),
    ensures
        forall|q: Seq<u8>| !#[trigger] sealed_as(key, nonce, 0, c.take((kept * CHUNK) as int), q),
        stream_length_error((kept * CHUNK) as nat) == Some(CipherError::Format),
{
    lemma_sealed_shape(key, nonce, 0, c, plain);
    lemma_units_within(kept as int, CHUNK as int, c.len() as int);
    let cut = c.take((kept * CHUNK) as int);
    vstd::arithmetic::div_mod::lemma_fundamental_div_mod_converse(
        (kept * CHUNK) as int,
        CHUNK as int,
        kept as int,
        0,
    );
    assert forall|q: Seq<u8>| !#[trigger] sealed_as(key, nonce, 0, cut, q) by {
        if sealed_as(key, nonce, 0, cut, q) {
            lemma_sealed_shape(key, nonce, 0, cut, q);
        }
    }
}

/// Chunk-size boundary: a plaintext of exactly `n` windows seals to `n` full
/// chunks, the `i`-th sealing the `i`-th window at counter `position + i`,
/// followed by a last chunk that seals the empty remainder.
pub proof fn lemma_whole_windows(
    key: Seq<u8>,
    nonce: Seq<u8>,
    position: nat,
    c: Seq<u8>,
    plain: Seq<u8>,
    n: nat,
)
    requires
        sealed_as(key, nonce, position, c, plain),
        plain.len() == n * WINDOW,
    ensures
        c.len() == n * CHUNK + TAG_LEN,
        c.skip((n * CHUNK) as int) == stream_seal(
            key,
            nonce,
            (position + n) as u32,
            true,
            Seq::<u8>::empty(),
        ),
        forall|i: int|
            0 <= i < n ==> #[trigger] c.subrange(i * CHUNK, (i + 1) * CHUNK) == stream_seal(
                key,
                nonce,
                (position + i) as u32,
                false,
                plain.subrange(i * WINDOW, (i + 1) * WINDOW),
            ),
    decreases n,
{
    if n == 0 {
        assert(plain =~= Seq::<u8>::empty());
        assert(c.skip(0) =~= c);
    } else {
        let sealed_rest = c.skip(CHUNK as int);
        let plain_rest = plain.skip(WINDOW as int);
        lemma_whole_windows(key, nonce, position + 1, sealed_rest, plain_rest, (n - 1) as nat);
        assert(c.skip((n * CHUNK) as int) =~= sealed_rest.skip(((n - 1) * CHUNK) as int));
        assert forall|i: int| 0 <= i < n implies #[trigger] c.subrange(i * CHUNK, (i + 1) * CHUNK)
            == stream_seal(
            key,
            nonce,
            (position + i) as u32,
            false,
            plain.subrange(i * WINDOW, (i + 1) * WINDOW),
        ) by {
            if i == 0 {
                assert(c.subrange(0, CHUNK as int) =~= c.take(CHUNK as int));
                assert(plain.subrange(0, WINDOW as int) =~= plain.take(WINDOW as int));
            } else {
                let j = i - 1;
                assert(sealed_rest.subrange(j * CHUNK, (j + 1) * CHUNK) == stream_seal(
                    key,
                    nonce,
                    (position + 1 + j) as u32,
                    false,
                    plain_rest.subrange(j * WINDOW, (j + 1) * WINDOW),
                ));
                assert(c.subrange(i * CHUNK, (i + 1) * CHUNK) =~= sealed_rest.subrange(
                    j * CHUNK,
                    (j + 1) * CHUNK,
                ));
                assert(plain.subrange(i * WINDOW, (i + 1) * WINDOW) =~= plain_rest.subrange(
                    j * WINDOW,
                    (j + 1) * WINDOW,
                ));
            }
        }
    }
}

/// A plaintext has exactly one sealing from a given counter, so any two ways
/// of sealing it (at once with `encrypt`, or in pieces) give the same bytes.
pub proof fn lemma_sealing_unique(
    key: Seq<u8>,
    nonce: Seq<u8>,
    position: nat,
    c1: Seq<u8>,
    sealed_rest: Seq<u8>,
    p: Seq<u8>,
)
    requires
        sealed_as(key, nonce, position, c1, p),
        sealed_as(key, nonce, position, sealed_rest, p),
    ensures
        c1 == sealed_rest,
    decreases c1.len(),
{
    if c1.len() >= CHUNK {
        lemma_sealing_unique(
            key,
            nonce,
            position + 1,
            c1.skip(CHUNK as int),
            sealed_rest.skip(CHUNK as int),
            p.skip(WINDOW as int),
        );
        assert(c1 =~= c1.take(CHUNK as int) + c1.skip(CHUNK as int));
        assert(sealed_rest =~= sealed_rest.take(CHUNK as int) + sealed_rest.skip(CHUNK as int));
    }
}

} // verus!
