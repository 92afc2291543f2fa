//! The nonce bookkeeping of the per-client voice cipher state: the encrypt
//! nonce that advances with every datagram, the reconstruction of the full
//! decrypt nonce from the one byte on the wire, and the replay window. The
//! block cipher that seals and opens datagrams under these nonces is not part
//! of this crate: whoever runs it reports here whether the tag matched.

use vstd::prelude::*;
use vstd::arithmetic::div_mod::{lemma_fundamental_div_mod, lemma_fundamental_div_mod_converse, lemma_mod_pos_bound, lemma_small_mod};

verus! {

/// `2^128`: nonces are 128-bit counters that wrap.
pub open spec fn nonce_modulus() -> nat {
    u128::MAX as nat + 1
}

/// `x` with its low byte replaced by `b`.
pub open spec fn with_low(x: nat, b: nat) -> nat {
    (x - x % 256 + b) as nat
}

/// `x` with its higher bytes counted up by one, wrapping.
pub open spec fn bump_up(x: nat) -> nat {
    (x + 256) % nonce_modulus()
}

/// `x` with its higher bytes counted down by one, wrapping.
pub open spec fn bump_down(x: nat) -> nat {
    ((x + nonce_modulus() - 256) as nat) % nonce_modulus()
}

/// `b - cur` taken into `-128..=128`.
pub open spec fn byte_diff(b: nat, cur: nat) -> int {
    let d = b - cur;
    if d > 128 { d - 256 } else if d < -128 { d + 256 } else { d }
}

/// A decrypt nonce reconstructed from the byte on the wire.
#[derive(PartialEq, Eq, Structural, Clone, Copy, Debug)]
pub struct NonceCandidate {
    pub nonce: u128,
    /// The datagram arrived after a later one.
    pub late: bool,
    /// Datagrams skipped between the last one and this one.
    pub lost: u32,
    /// The decrypt nonce stays where it was once this datagram is accepted.
    pub restore: bool,
}

/// The cipher state of one client, less the cipher.
pub struct CryptState {
    pub key: Vec<u8>,
    pub encrypt_iv: u128,
    pub decrypt_iv: u128,
    /// For each low nonce byte, the second byte of the last nonce accepted
    /// with it.
    pub decrypt_history: Vec<u8>,
    pub good: u32,
    pub late: u32,
    pub lost: u32,
    /// Resynchronisations the client asked for.
    pub resync: u32,
}

/// `x + 1`, wrapping.
pub open spec fn inc32(x: u32) -> u32 {
    if x == u32::MAX { 0 } else { (x + 1) as u32 }
}

/// The candidate for wire byte `b`, before the replay check.
pub open spec fn candidate(iv: u128, b: u8) -> Option<NonceCandidate> {
    let cur = iv as nat % 256;
    let b = b as nat;
    let low = with_low(iv as nat, b);
    if (cur + 1) % 256 == b {
        let n = if b > cur { low } else { bump_up(low) };
        Some(NonceCandidate { nonce: n as u128, late: false, lost: 0, restore: false })
    } else {
        let diff = byte_diff(b, cur);
        if b < cur && -30 < diff < 0 {
            Some(NonceCandidate { nonce: low as u128, late: true, lost: 0, restore: true })
        } else if b > cur && -30 < diff < 0 {
            Some(NonceCandidate { nonce: bump_down(low) as u128, late: true, lost: 0, restore: true })
        } else if b > cur && diff > 0 {
            Some(NonceCandidate { nonce: low as u128, late: false, lost: (b - cur - 1) as u32, restore: false })
        } else if b < cur && diff > 0 {
            Some(NonceCandidate { nonce: bump_up(low) as u128, late: false, lost: (256 - cur + b - 1) as u32, restore: false })
        } else {
            None
        }
    }
}

/// The window already holds nonce `n`.
pub open spec fn seen(history: Seq<u8>, n: u128) -> bool {
    history[(n % 256) as int] == ((n / 256) % 256) as u8
}

/// `post` is `pre` after a datagram opened with `c.nonce` was accepted.
pub open spec fn decrypt_settled(pre: CryptState, post: CryptState, c: NonceCandidate) -> bool {
    &&& post.wf()
    &&& post.key == pre.key
    &&& post.encrypt_iv == pre.encrypt_iv
    &&& post.decrypt_history@ == pre.decrypt_history@.update((c.nonce % 256) as int, ((c.nonce / 256) % 256) as u8)
    &&& post.decrypt_iv == if c.restore { pre.decrypt_iv } else { c.nonce }
    &&& post.good == inc32(pre.good)
    &&& post.resync == pre.resync
    &&& post.late == if c.late { inc32(pre.late) } else { pre.late }
    &&& post.lost as nat == if c.late {
        if pre.lost == 0 { 0 } else { (pre.lost - 1) as nat }
    } else {
        (pre.lost as nat + c.lost as nat) % 0x1_0000_0000
    }
}

impl CryptState {
    pub open spec fn wf(&self) -> bool {
        &&& self.key@.len() == 16
        &&& self.decrypt_history@.len() == 256
    }

    /// The nonce that wire byte `b` stands for, or `None` where the datagram
    /// is out of the window or, arriving out of order, replays a nonce the
    /// window holds.
    pub open spec fn nonce_check(&self, b: u8) -> Option<NonceCandidate> {
        match candidate(self.decrypt_iv, b) {
            Some(c) => if (self.decrypt_iv as nat % 256 + 1) % 256 != b as nat && seen(self.decrypt_history@, c.nonce) {
                None
            } else {
                Some(c)
            },
            None => None,
        }
    }

    /// A state with the given key and nonces, an empty window and zero
    /// counters.
    pub fn new(key: Vec<u8>, encrypt_iv: u128, decrypt_iv: u128) -> (r: CryptState)
        requires
            key@.len() == 16,
        ensures
            r.wf(),
            r.key == key,
            r.encrypt_iv == encrypt_iv,
            r.decrypt_iv == decrypt_iv,
            r.decrypt_history@ == Seq::new(256, |i: int| 0u8),
            r.good == 0 && r.late == 0 && r.lost == 0 && r.resync == 0,
    {
        let mut history: Vec<u8> = Vec::new();
        let mut i: usize = 0;
        while i < 256
            invariant
                i <= 256,
                history@ == Seq::new(i as nat, |j: int| 0u8),
            decreases 256 - i,
        {
            history.push(0);
            i = i + 1;
            assert(history@ == Seq::new(i as nat, |j: int| 0u8));
        }
        CryptState { key, encrypt_iv, decrypt_iv, decrypt_history: history, good: 0, late: 0, lost: 0, resync: 0 }
    }

    /// Starts over with a new key and nonces, as on a handshake or when the
    /// client asks for it: the window is emptied and the counters zeroed.
    pub fn reset(&mut self, key: Vec<u8>, encrypt_iv: u128, decrypt_iv: u128)
        requires
            key@.len() == 16,
        ensures
            final(self).wf(),
            final(self).key == key,
            final(self).encrypt_iv == encrypt_iv,
            final(self).decrypt_iv == decrypt_iv,
            final(self).decrypt_history@ == Seq::new(256, |i: int| 0u8),
            final(self).good == 0 && final(self).late == 0 && final(self).lost == 0 && final(self).resync == 0,
    {
        *self = CryptState::new(key, encrypt_iv, decrypt_iv);
    }

    /// What a `CryptSetup` message carries to the peer: the key, the nonce
    /// the server encrypts with (the peer's decrypt nonce) and the nonce it
    /// decrypts with (the peer's encrypt nonce).
    pub fn get_crypt_setup(&self) -> (r: (Vec<u8>, u128, u128))
        ensures
            r.0@ == self.key@,
            r.1 == self.encrypt_iv,
            r.2 == self.decrypt_iv,
    {
        let mut key: Vec<u8> = Vec::new();
        let mut i: usize = 0;
        while i < self.key.len()
            invariant
                i <= self.key@.len(),
                key@ == self.key@.subrange(0, i as int),
            decreases self.key@.len() - i,
        {
            key.push(self.key[i]);
            i = i + 1;
            assert(key@ == self.key@.subrange(0, i as int));
        }
        assert(self.key@.subrange(0, self.key@.len() as int) == self.key@);
        (key, self.encrypt_iv, self.decrypt_iv)
    }

    /// Takes the nonce a client sent when it asked to resynchronise, and
    /// counts the request.
    pub fn set_decrypt_nonce(&mut self, nonce: u128)
        ensures
            final(self).decrypt_iv == nonce,
            final(self).resync == inc32(old(self).resync),
            final(self).key == old(self).key,
            final(self).encrypt_iv == old(self).encrypt_iv,
            final(self).decrypt_history == old(self).decrypt_history,
            final(self).good == old(self).good,
            final(self).late == old(self).late,
            final(self).lost == old(self).lost,
    {
        self.decrypt_iv = nonce;
        self.resync = if self.resync == u32::MAX { 0 } else { self.resync + 1 };
    }

    /// Advances the encrypt nonce for the next datagram and returns the byte
    /// that goes on the wire before the tag.
    pub fn next_encrypt_nonce(&mut self) -> (r: u8)
        ensures
            final(self).encrypt_iv as nat == (old(self).encrypt_iv as nat + 1) % nonce_modulus(),
            r as nat == final(self).encrypt_iv as nat % 256,
            final(self).key == old(self).key,
            final(self).decrypt_iv == old(self).decrypt_iv,
            final(self).decrypt_history == old(self).decrypt_history,
            final(self).good == old(self).good,
            final(self).late == old(self).late,
            final(self).lost == old(self).lost,
            final(self).resync == old(self).resync,
    {
        proof {
            lemma_wrap(self.encrypt_iv + 1, nonce_modulus() as int);
        }
        self.encrypt_iv = if self.encrypt_iv == u128::MAX { 0 } else { self.encrypt_iv + 1 };
        (self.encrypt_iv % 256) as u8
    }

    /// The decrypt nonce for a datagram whose first byte is `b`.
    pub fn decrypt_nonce(&self, b: u8) -> (r: Option<NonceCandidate>)
        requires
            self.wf(),
        ensures
            r == self.nonce_check(b),
    {
        let iv = self.decrypt_iv;
        let cur = (iv % 256) as u8;
        let low: u128 = iv - (iv % 256) + b as u128;
        let in_order = (cur as u16 + 1) % 256 == b as u16;
        let c = if in_order {
            let n = if b > cur { low } else { up(low) };
            NonceCandidate { nonce: n, late: false, lost: 0, restore: false }
        } else {
            let d0: i32 = b as i32 - cur as i32;
            let diff: i32 = if d0 > 128 { d0 - 256 } else if d0 < -128 { d0 + 256 } else { d0 };
            if b < cur && -30 < diff && diff < 0 {
                NonceCandidate { nonce: low, late: true, lost: 0, restore: true }
            } else if b > cur && -30 < diff && diff < 0 {
                NonceCandidate { nonce: down(low), late: true, lost: 0, restore: true }
            } else if b > cur && diff > 0 {
                NonceCandidate { nonce: low, late: false, lost: (b - cur - 1) as u32, restore: false }
            } else if b < cur && diff > 0 {
                NonceCandidate { nonce: up(low), late: false, lost: (256 - cur as u32 + b as u32 - 1), restore: false }
            } else {
                return None;
            }
        };
        if !in_order && self.decrypt_history[(c.nonce % 256) as usize] == ((c.nonce / 256) % 256) as u8 {
            return None;
        }
        Some(c)
    }

    /// Settles a datagram opened with `c.nonce`: where the tag matched, marks
    /// the nonce in the window, moves the decrypt nonce unless `c.restore`,
    /// and counts the datagram; where it did not, changes nothing.
    pub fn finish_decrypt(&mut self, c: NonceCandidate, tag_ok: bool) -> (r: bool)
        requires
            old(self).wf(),
        ensures
            r == tag_ok,
            !tag_ok ==> *final(self) == *old(self),
            tag_ok ==> decrypt_settled(*old(self), *final(self), c),
    {
        if !tag_ok {
            return false;
        }
        self.decrypt_history.set((c.nonce % 256) as usize, ((c.nonce / 256) % 256) as u8);
        if !c.restore {
            self.decrypt_iv = c.nonce;
        }
        self.good = if self.good == u32::MAX { 0 } else { self.good + 1 };
        if c.late {
            self.late = if self.late == u32::MAX { 0 } else { self.late + 1 };
            if self.lost > 0 {
                self.lost = self.lost - 1;
            }
        } else {
            self.lost = ((self.lost as u64 + c.lost as u64) % 0x1_0000_0000) as u32;
        }
        true
    }
}

proof fn lemma_wrap(y: int, m: int)
    requires
        m > 0,
        0 <= y < 2 * m,
    ensures
        y % m == if y < m { y } else { y - m },
{
    if y < m {
        lemma_fundamental_div_mod_converse(y, m, 0, y);
    } else {
        lemma_fundamental_div_mod_converse(y, m, 1, y - m);
    }
}

fn up(x: u128) -> (r: u128)
    ensures
        r as nat == bump_up(x as nat),
{
    proof {
        lemma_wrap(x + 256, nonce_modulus() as int);
    }
    if x >= u128::MAX - 255 {
        x - (u128::MAX - 255)
    } else {
        x + 256
    }
}

fn down(x: u128) -> (r: u128)
    ensures
        r as nat == bump_down(x as nat),
{
    proof {
        lemma_wrap(x + nonce_modulus() - 256, nonce_modulus() as int);
    }
    if x < 256 {
        x + (u128::MAX - 255)
    } else {
        x - 256
    }
}

/// A datagram that arrived late and was accepted leaves its nonce in the
/// window: the same datagram again is refused as a replay.
pub proof fn lemma_late_replay_rejected(s: CryptState, b: u8, c: NonceCandidate, t: CryptState)
    requires
        s.wf(),
        s.nonce_check(b) == Some(c),
        c.late,
        t.decrypt_iv == s.decrypt_iv,
        t.decrypt_history@ == s.decrypt_history@.update((c.nonce % 256) as int, ((c.nonce / 256) % 256) as u8),
    ensures
        t.nonce_check(b) is None,
{
}

/// Two sides set up with the same nonce stay in step: the byte that the
/// sender puts on the wire for its next datagram makes the receiver rebuild
/// exactly the sender's nonce, in order.
pub proof fn lemma_in_order_nonce_agrees(iv: u128)
    ensures
        ({
            let n = (iv as nat + 1) % nonce_modulus();
            candidate(iv, (n % 256) as u8) == Some(NonceCandidate { nonce: n as u128, late: false, lost: 0, restore: false })
        }),
{
    let x = iv as int;
    let n = (x + 1) % (nonce_modulus() as int);
    let cur = x % 256;
    let q = x / 256;
    lemma_fundamental_div_mod(x, 256);
    lemma_mod_pos_bound(x, 256);
    lemma_wrap(x + 1, nonce_modulus() as int);
    if x == u128::MAX as int {
        assert(n == 0);
        lemma_fundamental_div_mod_converse(x, 256, q, 255);
    } else {
        lemma_small_mod((x + 1) as nat, nonce_modulus());
        assert(n == x + 1);
        if cur < 255 {
            lemma_fundamental_div_mod_converse(x + 1, 256, q, cur + 1);
        } else {
            lemma_fundamental_div_mod_converse(x + 1, 256, q + 1, 0);
            lemma_small_mod((x + 1) as nat, nonce_modulus());
        }
    }
}

proof fn lemma_low_byte(x: int, q: int, b: int)
    requires
        0 <= b < 256,
        x == 256 * q + b,
    ensures
        x % 256 == b,
{
    lemma_fundamental_div_mod_converse(x, 256, q, b);
}

/// Every nonce rebuilt from wire byte `b` ends in `b`: the receiver opens
/// the datagram under a nonce the sender could have used.
pub proof fn lemma_candidate_low_byte(iv: u128, b: u8)
    ensures
        candidate(iv, b) matches Some(c) ==> c.nonce as nat % 256 == b as nat,
{
    let x = iv as int;
    let q = x / 256;
    let m = nonce_modulus() as int;
    let big: int = 0x1000000000000000000000000000000;
    assert(m == 256 * big);
    lemma_fundamental_div_mod(x, 256);
    lemma_mod_pos_bound(x, 256);
    let y = with_low(iv as nat, b as nat) as int;
    assert(y == 256 * q + b);
    assert(0 <= q < big) by (nonlinear_arith)
        requires
            x == 256 * q + x % 256,
            0 <= x % 256 < 256,
            0 <= x < 256 * big,
    ;
    lemma_low_byte(y, q, b as int);
    let u = bump_up(y as nat) as int;
    lemma_wrap(y + 256, m);
    if y + 256 < m {
        lemma_low_byte(u, q + 1, b as int);
    } else {
        lemma_low_byte(u, q + 1 - big, b as int);
    }
    let d = bump_down(y as nat) as int;
    assert(d == (y + m - 256) % m);
    lemma_wrap(y + m - 256, m);
    if y + m - 256 < m {
        lemma_low_byte(d, q + big - 1, b as int);
    } else {
        lemma_low_byte(d, q - 1, b as int);
    }
}

} // verus!
