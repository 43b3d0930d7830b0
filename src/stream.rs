//! Sealing and opening a chunk stream in pieces, holding at most one chunk
//! in memory.
use vstd::prelude::*;
use vstd::slice::slice_subrange;

use crate::codec::{
    lemma_sealed_prepend, lemma_units_within, open_chunk, seal_chunk, sealed_as, CHUNK,
    MAX_POSITION, TAG_LEN, WINDOW,
};
use crate::error::CipherError;

verus! {

/// Every sealing of a `tail` from counter `position` on, appended to the
/// ciphertext `sealed`, is a sealing from counter 0 of `plain` followed by `tail`.
pub open spec fn extends_sealing(
    key: Seq<u8>,
    nonce: Seq<u8>,
    position: nat,
    sealed: Seq<u8>,
    plain: Seq<u8>,
) -> bool {
    forall|rest: Seq<u8>, tail: Seq<u8>|
        #[trigger] sealed_as(key, nonce, position, rest, tail) ==> sealed_as(
            key,
            nonce,
            0,
            sealed + rest,
            plain + tail,
        )
}

/// Sealing one more full window at `position` keeps a sealed prefix extendable.
proof fn lemma_extend_by_chunk(
    key: Seq<u8>,
    nonce: Seq<u8>,
    position: nat,
    sealed: Seq<u8>,
    plain: Seq<u8>,
    chunk: Seq<u8>,
    window: Seq<u8>,
)
    requires
        extends_sealing(key, nonce, position, sealed, plain),
        position < MAX_POSITION,
        window.len() == WINDOW,
        chunk.len() == CHUNK,
        stream_seal_of(key, nonce, position, window) == chunk,
    ensures
        extends_sealing(key, nonce, position + 1, sealed + chunk, plain + window),
{
    assert forall|rest: Seq<u8>, tail: Seq<u8>|
        #[trigger] sealed_as(key, nonce, position + 1, rest, tail) implies sealed_as(
        key,
        nonce,
        0,
        (sealed + chunk) + rest,
        (plain + window) + tail,
    ) by {
        lemma_sealed_prepend(key, nonce, position, chunk, rest, window, tail);
        assert(sealed + (chunk + rest) =~= (sealed + chunk) + rest);
        assert(plain + (window + tail) =~= (plain + window) + tail);
    }
}

/// The sealing of a full, not-last window at `position`.
pub open spec fn stream_seal_of(key: Seq<u8>, nonce: Seq<u8>, position: nat, window: Seq<u8>) -> Seq<
    u8,
> {
    crate::codec::stream_seal(key, nonce, position as u32, false, window)
}

/// Seals a plaintext handed over in pieces of any size, holding back at most
/// one window: each `write` returns the chunks it completed, and `finish`
/// returns the last chunk.
pub struct Encryptor {
    key: [u8; 32],
    nonce: [u8; 19],
    position: u32,
    pending: Vec<u8>,
    sealed_plain: Ghost<Seq<u8>>,
    emitted: Ghost<Seq<u8>>,
}

impl Encryptor {
    /// The key chunks are sealed under.
    pub closed spec fn key(&self) -> Seq<u8> {
        self.key@
    }

    /// The base nonce.
    pub closed spec fn nonce(&self) -> Seq<u8> {
        self.nonce@
    }

    /// All plaintext written so far.
    pub closed spec fn written(&self) -> Seq<u8> {
        self.sealed_plain@ + self.pending@
    }

    /// All ciphertext returned so far.
    pub closed spec fn emitted(&self) -> Seq<u8> {
        self.emitted@
    }

    /// Number of full windows sealed and returned so far.
    pub closed spec fn windows_sealed(&self) -> nat {
        self.position as nat
    }

    /// The full windows written so far have been sealed and returned, under
    /// consecutive counters from 0; fewer than a window's bytes are held back.
    pub closed spec fn wf(&self) -> bool {
        &&& self.pending@.len() < WINDOW
        &&& self.sealed_plain@.len() == self.position as int * WINDOW as int
        &&& self.emitted@.len() == self.position as int * CHUNK as int
        &&& extends_sealing(
            self.key@,
            self.nonce@,
            self.position as nat,
            self.emitted@,
            self.sealed_plain@,
        )
    }

    /// Starts a stream under `key` and the base `nonce`.
    pub fn new(key: &[u8; 32], nonce: &[u8; 19]) -> (e: Encryptor)
        ensures
            e.wf(),
            e.key() == key@,
            e.nonce() == nonce@,
            e.written() == Seq::<u8>::empty(),
            e.emitted() == Seq::<u8>::empty(),
    {
        let e = Encryptor {
            key: *key,
            nonce: *nonce,
            position: 0,
            pending: Vec::new(),
            sealed_plain: Ghost(Seq::empty()),
            emitted: Ghost(Seq::empty()),
        };
        proof {
            assert forall|rest: Seq<u8>, tail: Seq<u8>|
                #[trigger] sealed_as(key@, nonce@, 0, rest, tail) implies sealed_as(
                key@,
                nonce@,
                0,
                Seq::<u8>::empty() + rest,
                Seq::<u8>::empty() + tail,
            ) by {
                assert(Seq::<u8>::empty() + rest =~= rest);
                assert(Seq::<u8>::empty() + tail =~= tail);
            }
            assert(e.written() =~= Seq::<u8>::empty());
        }
        e
    }

    /// Takes `data` and returns the chunks it completes. Fails, leaving the
    /// stream as it was, when the 32-bit counter could not number the full
    /// windows written.
    pub fn write(&mut self, data: &[u8]) -> (r: Result<Vec<u8>, CipherError>)
        requires
            old(self).wf(),
        ensures
            final(self).wf(),
            final(self).key() == old(self).key(),
            final(self).nonce() == old(self).nonce(),
            r is Ok <==> (old(self).written().len() + data@.len()) / (WINDOW as nat)
                <= MAX_POSITION,
            r matches Ok(out) ==> final(self).written() == old(self).written() + data@
                && final(self).emitted() == old(self).emitted() + out@,
            final(self).windows_sealed() == final(self).written().len() / (WINDOW as nat),
            final(self).emitted().len() == final(self).windows_sealed() * CHUNK,
            extends_sealing(
                final(self).key(),
                final(self).nonce(),
                final(self).windows_sealed(),
                final(self).emitted(),
                final(self).written().take(final(self).windows_sealed() * WINDOW),
            ),
            r matches Err(e) ==> e == CipherError::StreamTooLong && final(self).written()
                == old(self).written() && final(self).emitted() == old(self).emitted(),
    {
        let full = (self.pending.len() as u128 + data.len() as u128) / (WINDOW as u128);
        proof {
            let total = self.written().len() + data@.len();
            vstd::arithmetic::div_mod::lemma_fundamental_div_mod_converse(
                (self.pending@.len() + data@.len()) as int,
                WINDOW as int,
                full as int,
                (self.pending@.len() + data@.len()) as int % WINDOW as int,
            );
            vstd::arithmetic::div_mod::lemma_fundamental_div_mod(
                (self.pending@.len() + data@.len()) as int,
                WINDOW as int,
            );
            vstd::arithmetic::div_mod::lemma_fundamental_div_mod_converse(
                total as int,
                WINDOW as int,
                self.position + full,
                (self.pending@.len() + data@.len()) as int % WINDOW as int,
            );
        }
        if full > (MAX_POSITION - self.position) as u128 {
            proof {
                self.lemma_public_view();
            }
            return Err(CipherError::StreamTooLong);
        }
        let ghost start = self.written();
        let ghost start_emitted = self.emitted();
        let ghost total = self.written().len() + data@.len();
        let mut out: Vec<u8> = Vec::new();
        let mut i: usize = 0;
        while i < data.len()
            invariant
                self.wf(),
                self.key@ == old(self).key@,
                self.nonce@ == old(self).nonce@,
                i <= data.len(),
                self.written() == start + data@.take(i as int),
                self.emitted() == start_emitted + out@,
                total == start.len() + data@.len(),
                total / (WINDOW as nat) <= MAX_POSITION,
            decreases data.len() - i,
        {
            let ghost before = self.written();
            let byte = data[i];
            self.pending.push(byte);
            i = i + 1;
            proof {
                assert(self.written() =~= before.push(byte));
                assert(data@.take(i as int) =~= data@.take(i - 1).push(byte));
                assert(self.written() =~= start + data@.take(i as int));
            }
            let ghost filled = self.written();
            if self.pending.len() == WINDOW {
                proof {
                    assert(self.written().len() <= total);
                    lemma_units_within(self.position + 1, WINDOW as int, total as int);
                }
                let mut sealed = seal_chunk(
                    &self.key,
                    &self.nonce,
                    self.position,
                    false,
                    self.pending.as_slice(),
                ).unwrap();
                proof {
                    lemma_extend_by_chunk(
                        self.key@,
                        self.nonce@,
                        self.position as nat,
                        self.emitted@,
                        self.sealed_plain@,
                        sealed@,
                        self.pending@,
                    );
                    self.sealed_plain@ = self.sealed_plain@ + self.pending@;
                    self.emitted@ = self.emitted@ + sealed@;
                }
                self.position = self.position + 1;
                self.pending = Vec::new();
                out.append(&mut sealed);
                proof {
                    assert(self.pending@ =~= Seq::<u8>::empty());
                    assert(self.written() =~= filled);
                }
            }
        }
        proof {
            assert(data@.take(data@.len() as int) =~= data@);
            self.lemma_public_view();
        }
        Ok(out)
    }

    /// What `wf` says of the parts that callers see.
    proof fn lemma_public_view(&self)
        requires
            self.wf(),
        ensures
            self.windows_sealed() == self.written().len() / (WINDOW as nat),
            self.emitted().len() == self.windows_sealed() * CHUNK,
            extends_sealing(
                self.key(),
                self.nonce(),
                self.windows_sealed(),
                self.emitted(),
                self.written().take(self.windows_sealed() * WINDOW),
            ),
    {
        vstd::arithmetic::div_mod::lemma_fundamental_div_mod_converse(
            self.written().len() as int,
            WINDOW as int,
            self.position as int,
            self.pending@.len() as int,
        );
        assert(self.written().take(self.windows_sealed() * WINDOW) =~= self.sealed_plain@);
    }

    /// Ends the stream: returns the last chunk, which seals the bytes held
    /// back (possibly none). Everything returned, in order, is the sealing of
    /// everything written.
    pub fn finish(self) -> (r: Vec<u8>)
        requires
            self.wf(),
        ensures
            sealed_as(self.key(), self.nonce(), 0, self.emitted() + r@, self.written()),
    {
        proof {
            lemma_units_within(self.position as int, WINDOW as int, self.sealed_plain@.len() as int);
        }
        let last = seal_chunk(&self.key, &self.nonce, self.position, true, self.pending.as_slice()).unwrap();
        proof {
            assert(sealed_as(self.key@, self.nonce@, self.position as nat, last@, self.pending@));
        }
        last
    }
}

/// Every sealing from counter 0 that begins with the ciphertext `sealed`
/// seals a plaintext that begins with `plain`, and its remainder from counter
/// `position` on seals the rest.
pub open spec fn opens_prefix(
    key: Seq<u8>,
    nonce: Seq<u8>,
    position: nat,
    sealed: Seq<u8>,
    plain: Seq<u8>,
) -> bool {
    forall|rest: Seq<u8>, p: Seq<u8>|
        #[trigger] sealed_as(key, nonce, 0, sealed + rest, p) ==> {
            &&& p.len() >= plain.len()
            &&& p.take(plain.len() as int) == plain
            &&& sealed_as(key, nonce, position, rest, p.skip(plain.len() as int))
        }
}

/// Opening one more full chunk keeps the recovered plaintext a prefix of
/// the plaintext of every sealing that begins with the chunks opened.
proof fn lemma_opens_prefix_step(
    key: Seq<u8>,
    nonce: Seq<u8>,
    position: nat,
    sealed: Seq<u8>,
    plain: Seq<u8>,
    chunk: Seq<u8>,
    window: Seq<u8>,
)
    requires
        opens_prefix(key, nonce, position, sealed, plain),
        chunk.len() == CHUNK,
        forall|m: Seq<u8>|
            m.len() <= WINDOW && #[trigger] stream_seal_of(key, nonce, position, m) == chunk ==> m
                == window,
    ensures
        opens_prefix(key, nonce, position + 1, sealed + chunk, plain + window),
{
    assert forall|rest: Seq<u8>, p: Seq<u8>|
        #[trigger] sealed_as(key, nonce, 0, (sealed + chunk) + rest, p) implies {
        &&& p.len() >= (plain + window).len()
        &&& p.take((plain + window).len() as int) == plain + window
        &&& sealed_as(key, nonce, position + 1, rest, p.skip((plain + window).len() as int))
    } by {
        assert((sealed + chunk) + rest =~= sealed + (chunk + rest));
        let c = chunk + rest;
        let tail = p.skip(plain.len() as int);
        assert(c.take(CHUNK as int) =~= chunk);
        assert(c.skip(CHUNK as int) =~= rest);
        assert(stream_seal_of(key, nonce, position, tail.take(WINDOW as int)) == chunk);
        crate::codec::lemma_opened_window(key, nonce, position, c, plain, window, p);
    }
}

/// Opens a sealed stream handed over in pieces of any size, holding back at
/// most one chunk: each `feed` returns the plaintext of the chunks it
/// completed, once they have verified, and `finish` opens the last chunk.
pub struct Decryptor {
    key: [u8; 32],
    nonce: [u8; 19],
    position: u32,
    pending: Vec<u8>,
    opened: Ghost<Seq<u8>>,
    emitted: Ghost<Seq<u8>>,
}

impl Decryptor {
    /// The key chunks are opened under.
    pub closed spec fn key(&self) -> Seq<u8> {
        self.key@
    }

    /// The base nonce.
    pub closed spec fn nonce(&self) -> Seq<u8> {
        self.nonce@
    }

    /// Number of full chunks opened so far.
    pub closed spec fn chunks_opened(&self) -> nat {
        self.position as nat
    }

    /// The ciphertext of the full chunks opened so far.
    pub closed spec fn opened(&self) -> Seq<u8> {
        self.opened@
    }

    /// All ciphertext fed so far.
    pub closed spec fn consumed(&self) -> Seq<u8> {
        self.opened@ + self.pending@
    }

    /// All plaintext returned so far.
    pub closed spec fn emitted(&self) -> Seq<u8> {
        self.emitted@
    }

    /// The full chunks fed so far have verified and their plaintext has been
    /// returned; fewer than a chunk's bytes are held back.
    pub closed spec fn wf(&self) -> bool {
        &&& self.pending@.len() < CHUNK
        &&& self.opened@.len() == self.position as int * CHUNK as int
        &&& extends_sealing(
            self.key@,
            self.nonce@,
            self.position as nat,
            self.opened@,
            self.emitted@,
        )
        &&& opens_prefix(self.key@, self.nonce@, self.position as nat, self.opened@, self.emitted@)
    }

    /// Starts opening a stream sealed under `key` and the base `nonce`.
    pub fn new(key: &[u8; 32], nonce: &[u8; 19]) -> (d: Decryptor)
        ensures
            d.wf(),
            d.key() == key@,
            d.nonce() == nonce@,
            d.consumed() == Seq::<u8>::empty(),
            d.emitted() == Seq::<u8>::empty(),
    {
        let d = Decryptor {
            key: *key,
            nonce: *nonce,
            position: 0,
            pending: Vec::new(),
            opened: Ghost(Seq::empty()),
            emitted: Ghost(Seq::empty()),
        };
        proof {
            let e = Seq::<u8>::empty();
            assert forall|rest: Seq<u8>, tail: Seq<u8>|
                #[trigger] sealed_as(key@, nonce@, 0, rest, tail) implies sealed_as(
                key@,
                nonce@,
                0,
                e + rest,
                e + tail,
            ) by {
                assert(e + rest =~= rest);
                assert(e + tail =~= tail);
            }
            assert forall|rest: Seq<u8>, p: Seq<u8>|
                #[trigger] sealed_as(key@, nonce@, 0, e + rest, p) implies {
                &&& p.len() >= e.len()
                &&& p.take(e.len() as int) == e
                &&& sealed_as(key@, nonce@, 0, rest, p.skip(e.len() as int))
            } by {
                assert(e + rest =~= rest);
                assert(p.skip(0) =~= p);
                assert(p.take(0) =~= e);
            }
            assert(d.consumed() =~= e);
        }
        d
    }

    /// Takes `data` and returns the plaintext of the chunks it completes,
    /// each verified before it is returned. A prefix of a genuine sealing
    /// never fails; a chunk that does not verify fails with `Authentication`,
    /// and a full chunk beyond the 32-bit counter with `StreamTooLong`.
    pub fn feed(&mut self, data: &[u8]) -> (r: Result<Vec<u8>, CipherError>)
        requires
            old(self).wf(),
        ensures
            r matches Ok(out) ==> {
                &&& final(self).wf()
                &&& final(self).key() == old(self).key()
                &&& final(self).nonce() == old(self).nonce()
                &&& final(self).consumed() == old(self).consumed() + data@
                &&& final(self).emitted() == old(self).emitted() + out@
                &&& extends_sealing(
                    final(self).key(),
                    final(self).nonce(),
                    final(self).chunks_opened(),
                    final(self).opened(),
                    final(self).emitted(),
                )
                &&& opens_prefix(
                    final(self).key(),
                    final(self).nonce(),
                    final(self).chunks_opened(),
                    final(self).opened(),
                    final(self).emitted(),
                )
                &&& final(self).chunks_opened() == final(self).consumed().len() / (CHUNK as nat)
                &&& final(self).opened() == final(self).consumed().take(
                    final(self).chunks_opened() * CHUNK,
                )
            },
            r matches Err(e) ==> e == CipherError::Authentication || e
                == CipherError::StreamTooLong,
            forall|rest: Seq<u8>, p: Seq<u8>|
                #[trigger] sealed_as(
                    old(self).key(),
                    old(self).nonce(),
                    0,
                    (old(self).consumed() + data@) + rest,
                    p,
                ) ==> r is Ok,
    {
        let ghost start = self.consumed();
        let ghost start_emitted = self.emitted();
        let mut out: Vec<u8> = Vec::new();
        let mut i: usize = 0;
        while i < data.len()
            invariant
                self.wf(),
                self.key@ == old(self).key@,
                self.nonce@ == old(self).nonce@,
                start == old(self).consumed(),
                i <= data.len(),
                self.consumed() == start + data@.take(i as int),
                self.emitted() == start_emitted + out@,
                start_emitted == old(self).emitted(),
            decreases data.len() - i,
        {
            let ghost before = self.consumed();
            let byte = data[i];
            self.pending.push(byte);
            i = i + 1;
            proof {
                assert(self.consumed() =~= before.push(byte));
                assert(data@.take(i as int) =~= data@.take(i - 1).push(byte));
            }
            let ghost filled = self.consumed();
            if self.pending.len() == CHUNK {
                if self.position == MAX_POSITION {
                    proof {
                        self.lemma_no_sealing_continues(data@, i as int, start);
                    }
                    return Err(CipherError::StreamTooLong);
                }
                let opened = open_chunk(
                    &self.key,
                    &self.nonce,
                    self.position,
                    false,
                    self.pending.as_slice(),
                );
                let mut window = match opened {
                    Ok(window) => window,
                    Err(_) => {
                        proof {
                            self.lemma_no_sealing_continues(data@, i as int, start);
                        }
                        return Err(CipherError::Authentication);
                    },
                };
                proof {
                    lemma_extend_by_chunk(
                        self.key@,
                        self.nonce@,
                        self.position as nat,
                        self.opened@,
                        self.emitted@,
                        self.pending@,
                        window@,
                    );
                    lemma_opens_prefix_step(
                        self.key@,
                        self.nonce@,
                        self.position as nat,
                        self.opened@,
                        self.emitted@,
                        self.pending@,
                        window@,
                    );
                    self.opened@ = self.opened@ + self.pending@;
                    self.emitted@ = self.emitted@ + window@;
                }
                self.position = self.position + 1;
                self.pending = Vec::new();
                out.append(&mut window);
                proof {
                    assert(self.pending@ =~= Seq::<u8>::empty());
                    assert(self.consumed() =~= filled);
                }
            }
        }
        proof {
            assert(data@.take(data@.len() as int) =~= data@);
            vstd::arithmetic::div_mod::lemma_fundamental_div_mod_converse(
                self.consumed().len() as int,
                CHUNK as int,
                self.position as int,
                self.pending@.len() as int,
            );
            assert(self.consumed().take(self.position as int * CHUNK as int) =~= self.opened@);
        }
        Ok(out)
    }

    /// A full chunk held back that fails to open, or that falls beyond the
    /// counter, means that no sealing begins with what was fed.
    proof fn lemma_no_sealing_continues(&self, data: Seq<u8>, i: int, start: Seq<u8>)
        requires
            opens_prefix(self.key@, self.nonce@, self.position as nat, self.opened@, self.emitted@),
            self.pending@.len() == CHUNK,
            0 <= i <= data.len(),
            self.consumed() == start + data.take(i),
            self.position == MAX_POSITION || forall|m: Seq<u8>|
                m.len() <= WINDOW ==> #[trigger] stream_seal_of(
                    self.key@,
                    self.nonce@,
                    self.position as nat,
                    m,
                ) != self.pending@,
        ensures
            forall|rest: Seq<u8>, p: Seq<u8>|
                !#[trigger] sealed_as(self.key@, self.nonce@, 0, (start + data) + rest, p),
    {
        assert forall|rest: Seq<u8>, p: Seq<u8>|
            !#[trigger] sealed_as(self.key@, self.nonce@, 0, (start + data) + rest, p) by {
            let more = self.pending@ + (data.skip(i) + rest);
            assert(start + data =~= (start + data.take(i)) + data.skip(i));
            assert(start + data.take(i) == self.opened@ + self.pending@);
            assert((start + data) + rest =~= self.opened@ + more);
            if sealed_as(self.key@, self.nonce@, 0, (start + data) + rest, p) {
                let tail = p.skip(self.emitted@.len() as int);
                assert(sealed_as(self.key@, self.nonce@, 0, self.opened@ + more, p));
                assert(more.take(CHUNK as int) =~= self.pending@);
                assert(stream_seal_of(self.key@, self.nonce@, self.position as nat, tail.take(WINDOW as int)) == self.pending@);
            }
        }
    }

    /// Ends the stream: opens the bytes held back as the last chunk and
    /// returns its plaintext. Everything returned, in order, is exactly the
    /// plaintext that everything fed seals, and a genuine sealing always
    /// opens. Fails with `Format` when the bytes held back cannot hold a tag
    /// (as when the stream was cut at a chunk boundary), and otherwise with
    /// `Authentication`.
    pub fn finish(self) -> (r: Result<Vec<u8>, CipherError>)
        requires
            self.wf(),
        ensures
            r matches Ok(rest) ==> sealed_as(
                self.key(),
                self.nonce(),
                0,
                self.consumed(),
                self.emitted() + rest@,
            ),
            forall|p: Seq<u8>|
                #[trigger] sealed_as(self.key(), self.nonce(), 0, self.consumed(), p) ==> (r matches Ok(
                    rest,
                ) && self.emitted() + rest@ == p),
            self.consumed().len() % (CHUNK as nat) < TAG_LEN ==> r == Err::<Vec<u8>, CipherError>(
                CipherError::Format,
            ),
            r matches Err(e) ==> e == CipherError::Format || e == CipherError::Authentication,
    {
        proof {
            vstd::arithmetic::div_mod::lemma_fundamental_div_mod_converse(
                self.consumed().len() as int,
                CHUNK as int,
                self.position as int,
                self.pending@.len() as int,
            );
            assert(self.opened@ + self.pending@ =~= self.opened@ + self.pending@);
            assert forall|p: Seq<u8>|
                #[trigger] sealed_as(self.key@, self.nonce@, 0, self.consumed(), p) implies {
                &&& p.len() >= self.emitted@.len()
                &&& p.take(self.emitted@.len() as int) == self.emitted@
                &&& sealed_as(
                    self.key@,
                    self.nonce@,
                    self.position as nat,
                    self.pending@,
                    p.skip(self.emitted@.len() as int),
                )
            } by {
                assert(sealed_as(self.key@, self.nonce@, 0, self.opened@ + self.pending@, p));
            }
        }
        if self.pending.len() < TAG_LEN {
            return Err(CipherError::Format);
        }
        let opened = open_chunk(&self.key, &self.nonce, self.position, true, self.pending.as_slice());
        match opened {
            Ok(last) => {
                proof {
                    lemma_units_within(self.position as int, CHUNK as int, self.opened@.len() as int);
                    assert(sealed_as(self.key@, self.nonce@, self.position as nat, self.pending@, last@));
                    assert forall|p: Seq<u8>|
                        #[trigger] sealed_as(self.key@, self.nonce@, 0, self.consumed(), p) implies self.emitted@
                        + last@ == p by {
                        assert(p =~= p.take(self.emitted@.len() as int) + p.skip(self.emitted@.len() as int));
                    }
                }
                Ok(last)
            },
            Err(_) => Err(CipherError::Authentication),
        }
    }
}

} // verus!
