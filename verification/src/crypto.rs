//! The symmetric XOR feedback stream cipher applied to frame payloads, and
//! the identity cipher used before the handshake upgrades a connection.
//!
//! Each direction owns an 8-entry byte table and a rotating index; every
//! byte's transform depends on all bytes processed before it in that
//! direction, so bytes must be processed in order and exactly once.

use vstd::prelude::*;

verus! {

/// Errors raised by cipher operations. The built-in ciphers never fail;
/// the variants are reserved for pluggable stronger ciphers.
#[derive(Debug, Clone, Copy, PartialEq, Eq, Structural)]
pub enum CryptoError {
    EncryptError,
    DecryptError,
}

/// Whether a context takes the server or the client role; the two sides
/// swap their encrypt and decrypt tables, which makes the cipher
/// invertible across the two ends.
#[derive(Debug, Clone, Copy, PartialEq, Eq, Structural)]
pub enum XorCryptoMode {
    Server,
    Client,
}

// ---------------------------------------------------------------------------
// The cipher, as specification functions.
// ---------------------------------------------------------------------------

/// The XOR fold of the first `i` key bytes.
pub open spec fn xor_seed(key: Seq<i8>, i: int) -> i8
    decreases i,
{
    if i <= 0 {
        0
    } else {
        (xor_seed(key, i - 1) ^ key[i - 1]) as i8
    }
}

/// The initial table of one direction: entry `i` is `seed ^ (i << 3)`,
/// additionally XOR-ed with `0x57` for the flipped direction.
pub open spec fn xor_table_init(seed: u8, flipped: bool) -> Seq<u8> {
    Seq::new(
        8,
        |i: int|
            if flipped {
                ((seed ^ (((i as u8) << 3) as u8)) ^ 0x57) as u8
            } else {
                (seed ^ (((i as u8) << 3) as u8)) as u8
            },
    )
}

/// Encrypting `input` from table state `(table, idx)`: the ciphertext, the
/// final table, and the final index. Each step XORs the plaintext byte with
/// the current table entry, stores the plaintext byte there, and rotates
/// the index by the low 3 bits of the plaintext byte.
pub open spec fn xor_encrypt_stream(table: Seq<u8>, idx: u8, input: Seq<u8>) -> (
    Seq<u8>,
    Seq<u8>,
    u8,
)
    decreases input.len(),
{
    if input.len() == 0 {
        (Seq::empty(), table, idx)
    } else {
        let p = input[0];
        let c = (p ^ table[idx as int]) as u8;
        let table2 = table.update(idx as int, p);
        let idx2 = (idx ^ (p & 0x7)) as u8;
        let (outs, t3, i3) = xor_encrypt_stream(table2, idx2, input.skip(1));
        (seq![c] + outs, t3, i3)
    }
}

/// Decrypting `input` from table state `(table, idx)`: the plaintext, the
/// final table, and the final index. Each step recovers the plaintext byte
/// by XOR against the current table entry, stores it there, and rotates the
/// index by its low 3 bits.
pub open spec fn xor_decrypt_stream(table: Seq<u8>, idx: u8, input: Seq<u8>) -> (
    Seq<u8>,
    Seq<u8>,
    u8,
)
    decreases input.len(),
{
    if input.len() == 0 {
        (Seq::empty(), table, idx)
    } else {
        let c = input[0];
        let p = (c ^ table[idx as int]) as u8;
        let table2 = table.update(idx as int, p);
        let idx2 = (idx ^ (p & 0x7)) as u8;
        let (outs, t3, i3) = xor_decrypt_stream(table2, idx2, input.skip(1));
        (seq![p] + outs, t3, i3)
    }
}

/// A cipher output is exactly as long as its input.
pub proof fn lemma_xor_encrypt_len(table: Seq<u8>, idx: u8, input: Seq<u8>)
    ensures
        xor_encrypt_stream(table, idx, input).0.len() == input.len(),
    decreases input.len(),
{
    if input.len() > 0 {
        let p = input[0];
        lemma_xor_encrypt_len(
            table.update(idx as int, p),
            (idx ^ (p & 0x7)) as u8,
            input.skip(1),
        );
    }
}

/// A decipher output is exactly as long as its input.
pub proof fn lemma_xor_decrypt_len(table: Seq<u8>, idx: u8, input: Seq<u8>)
    ensures
        xor_decrypt_stream(table, idx, input).0.len() == input.len(),
    decreases input.len(),
{
    if input.len() > 0 {
        let c = input[0];
        let p = (c ^ table[idx as int]) as u8;
        lemma_xor_decrypt_len(
            table.update(idx as int, p),
            (idx ^ (p & 0x7)) as u8,
            input.skip(1),
        );
    }
}

/// Cipher symmetry: decrypting a ciphertext from the same table state that
/// encrypted it reproduces the plaintext exactly, for byte sequences of any
/// length, and leaves both sides in the same final state. A server context
/// encrypts with the table a client context decrypts with (and vice versa),
/// so this is exactly the matched server/client round trip.
pub proof fn lemma_cipher_symmetry(table: Seq<u8>, idx: u8, input: Seq<u8>)
    requires
        table.len() == 8,
        idx < 8,
    ensures
        xor_decrypt_stream(table, idx, xor_encrypt_stream(table, idx, input).0) == (
            input,
            xor_encrypt_stream(table, idx, input).1,
            xor_encrypt_stream(table, idx, input).2,
        ),
    decreases input.len(),
{
    if input.len() == 0 {
        assert(xor_decrypt_stream(table, idx, xor_encrypt_stream(table, idx, input).0) == (
            input,
            table,
            idx,
        )) by {
            assert(xor_encrypt_stream(table, idx, input).0 =~= Seq::<u8>::empty());
            assert(input =~= Seq::<u8>::empty());
        }
    } else {
        let p = input[0];
        let tv = table[idx as int];
        let c = (p ^ tv) as u8;
        assert((c ^ tv) as u8 == p) by {
            assert(((p ^ tv) ^ tv) as u8 == p) by (bit_vector);
        }
        let table2 = table.update(idx as int, p);
        let idx2 = (idx ^ (p & 0x7)) as u8;
        assert(idx2 < 8) by {
            assert(idx < 8 ==> (idx ^ (p & 0x7)) < 8) by (bit_vector);
        }
        lemma_cipher_symmetry(table2, idx2, input.skip(1));
        let (cts, t3, i3) = xor_encrypt_stream(table2, idx2, input.skip(1));
        let ct = xor_encrypt_stream(table, idx, input).0;
        assert(ct == seq![c] + cts);
        assert(ct[0] == c);
        assert(ct.skip(1) =~= cts);
        assert(xor_decrypt_stream(table, idx, ct).0 =~= input) by {
            assert(xor_decrypt_stream(table2, idx2, cts).0 == input.skip(1));
            assert(seq![p] + input.skip(1) =~= input);
        }
    }
}

// ---------------------------------------------------------------------------
// The identity cipher.
// ---------------------------------------------------------------------------

/// The no-op cipher of the pre-handshake phase: it passes bytes through
/// unchanged.
#[derive(Debug, Clone)]
pub struct EmptyCryptoContext;

impl EmptyCryptoContext {
    pub fn new() -> (r: EmptyCryptoContext) {
        EmptyCryptoContext
    }

    pub fn encrypt(&mut self, buffer: &mut Vec<u8>) -> (r: Result<(), CryptoError>)
        ensures
            r is Ok,
            final (buffer)@ == old(buffer)@,
    {
        Ok(())
    }

    pub fn decrypt(&mut self, buffer: &mut Vec<u8>) -> (r: Result<(), CryptoError>)
        ensures
            r is Ok,
            final (buffer)@ == old(buffer)@,
    {
        Ok(())
    }
}

// ---------------------------------------------------------------------------
// The keyed XOR feedback cipher.
// ---------------------------------------------------------------------------

/// A keyed cipher context: one table and rotating index per direction.
#[derive(Debug, Clone)]
pub struct XorCryptoContext {
    decrypt_state: Vec<u8>,
    decrypt_state_index: u8,
    encrypt_state: Vec<u8>,
    encrypt_state_index: u8,
}

impl XorCryptoContext {
    pub closed spec fn enc_table(self) -> Seq<u8> {
        self.encrypt_state@
    }

    pub closed spec fn enc_index(self) -> u8 {
        self.encrypt_state_index
    }

    pub closed spec fn dec_table(self) -> Seq<u8> {
        self.decrypt_state@
    }

    pub closed spec fn dec_index(self) -> u8 {
        self.decrypt_state_index
    }

    pub closed spec fn wf(self) -> bool {
        &&& self.encrypt_state@.len() == 8
        &&& self.decrypt_state@.len() == 8
        &&& self.encrypt_state_index < 8
        &&& self.decrypt_state_index < 8
    }

    /// Relies on rand::random: a fresh 4-byte key drawn from the thread's
    /// generator. Nothing is assumed of the bytes themselves.
    #[verifier::external_body]
    pub fn generate_key() -> (r: Vec<i8>)
        ensures
            r@.len() == 4,
    {
        rand::random::<[i8; 4]>().to_vec()
    }

    /// A context for `mode` keyed by `key`: the key bytes fold by XOR into
    /// one seed byte, and the two directions' tables are the seed-derived
    /// table and its `0x57`-flipped variant — which one is which depends on
    /// the role, so that one side's encrypt table is the other's decrypt
    /// table.
    pub fn new(mode: XorCryptoMode, key: &Vec<i8>) -> (r: XorCryptoContext)
        ensures
            r.wf(),
            r.enc_table() == xor_table_init(
                xor_seed(key@, key@.len() as int) as u8,
                mode is Client,
            ),
            r.dec_table() == xor_table_init(
                xor_seed(key@, key@.len() as int) as u8,
                mode is Server,
            ),
            r.enc_index() == 0,
            r.dec_index() == 0,
    {
        let n = key.len();
        let mut seed_acc: i8 = 0;
        let mut i: usize = 0;
        while i < n
            invariant
                i <= n,
                n == key@.len(),
                seed_acc == xor_seed(key@, i as int),
            decreases n - i,
        {
            seed_acc = seed_acc ^ key[i];
            i = i + 1;
        }
        let seed = #[verifier::truncate] (seed_acc as u8);
        let ghost flipped_enc = mode is Client;
        let mut encrypt_state: Vec<u8> = Vec::new();
        let mut decrypt_state: Vec<u8> = Vec::new();
        let mut index: u8 = 0;
        while index < 8
            invariant
                index <= 8,
                flipped_enc == (mode is Client),
                encrypt_state@.len() == index,
                decrypt_state@.len() == index,
                forall|j: int|
                    0 <= j < index ==> encrypt_state@[j] == xor_table_init(seed, flipped_enc)[j],
                forall|j: int|
                    0 <= j < index ==> decrypt_state@[j] == xor_table_init(seed, !flipped_enc)[j],
            decreases 8 - index,
        {
            let plain = seed ^ (index << 3);
            let flip = seed ^ (index << 3) ^ 0x57;
            if matches!(mode, XorCryptoMode::Server) {
                encrypt_state.push(plain);
                decrypt_state.push(flip);
            } else {
                encrypt_state.push(flip);
                decrypt_state.push(plain);
            }
            proof {
                let j = index as int;
                assert((j as u8) == index);
                assert(xor_table_init(seed, false)[j] == (seed ^ ((index << 3) as u8)) as u8);
                assert(xor_table_init(seed, true)[j] == ((seed ^ ((index << 3) as u8))
                    ^ 0x57) as u8);
                assert(encrypt_state@[j] == xor_table_init(seed, flipped_enc)[j]);
                assert(decrypt_state@[j] == xor_table_init(seed, !flipped_enc)[j]);
            }
            index = index + 1;
        }
        let r = XorCryptoContext {
            decrypt_state,
            decrypt_state_index: 0,
            encrypt_state,
            encrypt_state_index: 0,
        };
        proof {
            assert(r.enc_table() =~= xor_table_init(seed, flipped_enc));
            assert(r.dec_table() =~= xor_table_init(seed, !flipped_enc));
        }
        r
    }

    /// Encrypt the buffer in place, advancing the encrypt-direction state.
    pub fn encrypt(&mut self, buffer: &mut Vec<u8>) -> (r: Result<(), CryptoError>)
        requires
            old(self).wf(),
        ensures
            r is Ok,
            final (self).wf(),
            ({
                let (outs, t2, i2) = xor_encrypt_stream(
                    old(self).enc_table(),
                    old(self).enc_index(),
                    old(buffer)@,
                );
                &&& final (buffer)@ == outs
                &&& final (self).enc_table() == t2
                &&& final (self).enc_index() == i2
                &&& final (self).dec_table() == old(self).dec_table()
                &&& final (self).dec_index() == old(self).dec_index()
            }),
    {
        let ghost input = buffer@;
        let ghost total = xor_encrypt_stream(old(self).enc_table(), old(self).enc_index(), input);
        proof {
            lemma_xor_encrypt_len(old(self).enc_table(), old(self).enc_index(), input);
            assert(input.skip(0) =~= input);
            assert(buffer@.take(0) =~= total.0.take(0));
        }
        let n = buffer.len();
        let mut i: usize = 0;
        while i < n
            invariant
                i <= n,
                self.wf(),
                n == input.len(),
                buffer@.len() == n,
                total == xor_encrypt_stream(old(self).enc_table(), old(self).enc_index(), input),
                total.0.len() == n,
                buffer@.take(i as int) == total.0.take(i as int),
                buffer@.skip(i as int) == input.skip(i as int),
                xor_encrypt_stream(self.enc_table(), self.enc_index(), input.skip(i as int)) == (
                    total.0.skip(i as int),
                    total.1,
                    total.2,
                ),
                self.dec_table() == old(self).dec_table(),
                self.dec_index() == old(self).dec_index(),
            decreases n - i,
        {
            let p = buffer[i];
            proof {
                assert(buffer@.skip(i as int)[0] == p);
                assert(input.skip(i as int)[0] == p);
            }
            let slot = self.encrypt_state_index as usize;
            let c = p ^ self.encrypt_state[slot];
            let ghost pre = *self;
            buffer[i] = c;
            self.encrypt_state[slot] = p;
            self.encrypt_state_index = self.encrypt_state_index ^ (p & 0x7);
            proof {
                assert(self.enc_index() < 8) by {
                    let oi = pre.enc_index();
                    assert(oi < 8 ==> (oi ^ (p & 0x7)) < 8) by (bit_vector);
                }
                assert(self.enc_table() == pre.enc_table().update(pre.enc_index() as int, p));
                assert(input.skip(i as int).skip(1) =~= input.skip(i as int + 1));
                assert(total.0.skip(i as int)[0] == c);
                assert(total.0[i as int] == c);
                assert(total.0.skip(i as int).skip(1) =~= total.0.skip(i as int + 1));
                assert(xor_encrypt_stream(self.enc_table(), self.enc_index(), input.skip(i as int + 1))
                    == (total.0.skip(i as int + 1), total.1, total.2)) by {
                    let step = xor_encrypt_stream(
                        pre.enc_table(),
                        pre.enc_index(),
                        input.skip(i as int),
                    );
                    assert(step.0 == seq![c] + xor_encrypt_stream(
                        self.enc_table(),
                        self.enc_index(),
                        input.skip(i as int).skip(1),
                    ).0);
                    assert((seq![c] + xor_encrypt_stream(
                        self.enc_table(),
                        self.enc_index(),
                        input.skip(i as int).skip(1),
                    ).0).skip(1) =~= xor_encrypt_stream(
                        self.enc_table(),
                        self.enc_index(),
                        input.skip(i as int).skip(1),
                    ).0);
                }
                assert(buffer@.take(i as int + 1) =~= total.0.take(i as int + 1));
                assert(buffer@.skip(i as int + 1) =~= input.skip(i as int + 1));
            }
            i = i + 1;
        }
        proof {
            assert(buffer@ =~= total.0);
            assert(input.skip(n as int) =~= Seq::<u8>::empty());
            assert(total.0.skip(n as int) =~= Seq::<u8>::empty());
        }
        Ok(())
    }

    /// Decrypt the buffer in place, advancing the decrypt-direction state.
    pub fn decrypt(&mut self, buffer: &mut Vec<u8>) -> (r: Result<(), CryptoError>)
        requires
            old(self).wf(),
        ensures
            r is Ok,
            final (self).wf(),
            ({
                let (outs, t2, i2) = xor_decrypt_stream(
                    old(self).dec_table(),
                    old(self).dec_index(),
                    old(buffer)@,
                );
                &&& final (buffer)@ == outs
                &&& final (self).dec_table() == t2
                &&& final (self).dec_index() == i2
                &&& final (self).enc_table() == old(self).enc_table()
                &&& final (self).enc_index() == old(self).enc_index()
            }),
    {
        let ghost input = buffer@;
        let ghost total = xor_decrypt_stream(old(self).dec_table(), old(self).dec_index(), input);
        proof {
            lemma_xor_decrypt_len(old(self).dec_table(), old(self).dec_index(), input);
            assert(input.skip(0) =~= input);
            assert(buffer@.take(0) =~= total.0.take(0));
        }
        let n = buffer.len();
        let mut i: usize = 0;
        while i < n
            invariant
                i <= n,
                self.wf(),
                n == input.len(),
                buffer@.len() == n,
                total == xor_decrypt_stream(old(self).dec_table(), old(self).dec_index(), input),
                total.0.len() == n,
                buffer@.take(i as int) == total.0.take(i as int),
                buffer@.skip(i as int) == input.skip(i as int),
                xor_decrypt_stream(self.dec_table(), self.dec_index(), input.skip(i as int)) == (
                    total.0.skip(i as int),
                    total.1,
                    total.2,
                ),
                self.enc_table() == old(self).enc_table(),
                self.enc_index() == old(self).enc_index(),
            decreases n - i,
        {
            let c = buffer[i];
            proof {
                assert(buffer@.skip(i as int)[0] == c);
                assert(input.skip(i as int)[0] == c);
            }
            let slot = self.decrypt_state_index as usize;
            let p = c ^ self.decrypt_state[slot];
            let ghost pre = *self;
            buffer[i] = p;
            self.decrypt_state[slot] = p;
            self.decrypt_state_index = self.decrypt_state_index ^ (p & 0x7);
            proof {
                assert(self.dec_index() < 8) by {
                    let oi = pre.dec_index();
                    assert(oi < 8 ==> (oi ^ (p & 0x7)) < 8) by (bit_vector);
                }
                assert(self.dec_table() == pre.dec_table().update(pre.dec_index() as int, p));
                assert(input.skip(i as int).skip(1) =~= input.skip(i as int + 1));
                assert(total.0.skip(i as int)[0] == p);
                assert(total.0[i as int] == p);
                assert(total.0.skip(i as int).skip(1) =~= total.0.skip(i as int + 1));
                assert(xor_decrypt_stream(self.dec_table(), self.dec_index(), input.skip(i as int + 1))
                    == (total.0.skip(i as int + 1), total.1, total.2)) by {
                    let step = xor_decrypt_stream(
                        pre.dec_table(),
                        pre.dec_index(),
                        input.skip(i as int),
                    );
                    assert(step.0 == seq![p] + xor_decrypt_stream(
                        self.dec_table(),
                        self.dec_index(),
                        input.skip(i as int).skip(1),
                    ).0);
                    assert((seq![p] + xor_decrypt_stream(
                        self.dec_table(),
                        self.dec_index(),
                        input.skip(i as int).skip(1),
                    ).0).skip(1) =~= xor_decrypt_stream(
                        self.dec_table(),
                        self.dec_index(),
                        input.skip(i as int).skip(1),
                    ).0);
                }
                assert(buffer@.take(i as int + 1) =~= total.0.take(i as int + 1));
                assert(buffer@.skip(i as int + 1) =~= input.skip(i as int + 1));
            }
            i = i + 1;
        }
        proof {
            assert(buffer@ =~= total.0);
            assert(input.skip(n as int) =~= Seq::<u8>::empty());
            assert(total.0.skip(n as int) =~= Seq::<u8>::empty());
        }
        Ok(())
    }
}

// ---------------------------------------------------------------------------
// The cipher a connection holds: identity until the handshake upgrades it.
// ---------------------------------------------------------------------------

/// The cipher context of a connection: the identity cipher before the
/// handshake, the keyed XOR cipher afterwards.
#[derive(Debug, Clone)]
pub enum CryptoContext {
    Empty(EmptyCryptoContext),
    Xor(XorCryptoContext),
}

impl CryptoContext {
    pub open spec fn wf(self) -> bool {
        match self {
            CryptoContext::Empty(_) => true,
            CryptoContext::Xor(x) => x.wf(),
        }
    }

    /// What encrypting `input` with this context yields: the ciphertext and
    /// the advanced context.
    pub open spec fn spec_encrypt(self, input: Seq<u8>) -> (Seq<u8>, CryptoContext) {
        match self {
            CryptoContext::Empty(_) => (input, self),
            CryptoContext::Xor(x) => {
                let (outs, t2, i2) = xor_encrypt_stream(x.enc_table(), x.enc_index(), input);
                (outs, self)
            },
        }
    }

    /// What decrypting `input` with this context yields: the plaintext.
    pub open spec fn spec_decrypt_bytes(self, input: Seq<u8>) -> Seq<u8> {
        match self {
            CryptoContext::Empty(_) => input,
            CryptoContext::Xor(x) => xor_decrypt_stream(x.dec_table(), x.dec_index(), input).0,
        }
    }

    /// What encrypting `input` with this context yields.
    pub open spec fn spec_encrypt_bytes(self, input: Seq<u8>) -> Seq<u8> {
        match self {
            CryptoContext::Empty(_) => input,
            CryptoContext::Xor(x) => xor_encrypt_stream(x.enc_table(), x.enc_index(), input).0,
        }
    }

    /// The encrypt-direction state after encrypting `input`, with the
    /// decrypt direction untouched.
    pub open spec fn advanced_by_encrypt(self, post: CryptoContext, input: Seq<u8>) -> bool {
        match self {
            CryptoContext::Empty(_) => post == self,
            CryptoContext::Xor(x) => match post {
                CryptoContext::Xor(y) => {
                    let (outs, t2, i2) = xor_encrypt_stream(x.enc_table(), x.enc_index(), input);
                    &&& y.enc_table() == t2
                    &&& y.enc_index() == i2
                    &&& y.dec_table() == x.dec_table()
                    &&& y.dec_index() == x.dec_index()
                },
                _ => false,
            },
        }
    }

    /// The decrypt-direction state after decrypting `input`, with the
    /// encrypt direction untouched.
    pub open spec fn advanced_by_decrypt(self, post: CryptoContext, input: Seq<u8>) -> bool {
        match self {
            CryptoContext::Empty(_) => post == self,
            CryptoContext::Xor(x) => match post {
                CryptoContext::Xor(y) => {
                    let (outs, t2, i2) = xor_decrypt_stream(x.dec_table(), x.dec_index(), input);
                    &&& y.dec_table() == t2
                    &&& y.dec_index() == i2
                    &&& y.enc_table() == x.enc_table()
                    &&& y.enc_index() == x.enc_index()
                },
                _ => false,
            },
        }
    }

    /// Encrypt the buffer in place, advancing the encrypt-direction state.
    pub fn encrypt(&mut self, buffer: &mut Vec<u8>) -> (r: Result<(), CryptoError>)
        requires
            old(self).wf(),
        ensures
            r is Ok,
            final (self).wf(),
            final (buffer)@ == old(self).spec_encrypt_bytes(old(buffer)@),
            old(self).advanced_by_encrypt(*final (self), old(buffer)@),
    {
        match self {
            CryptoContext::Empty(ctx) => ctx.encrypt(buffer),
            CryptoContext::Xor(ctx) => ctx.encrypt(buffer),
        }
    }

    /// Decrypt the buffer in place, advancing the decrypt-direction state.
    pub fn decrypt(&mut self, buffer: &mut Vec<u8>) -> (r: Result<(), CryptoError>)
        requires
            old(self).wf(),
        ensures
            r is Ok,
            final (self).wf(),
            final (buffer)@ == old(self).spec_decrypt_bytes(old(buffer)@),
            old(self).advanced_by_decrypt(*final (self), old(buffer)@),
    {
        match self {
            CryptoContext::Empty(ctx) => ctx.decrypt(buffer),
            CryptoContext::Xor(ctx) => ctx.decrypt(buffer),
        }
    }
}

} // verus!
