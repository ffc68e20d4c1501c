//! The byte stream of a key.
//!
//! A descent through the trie is steered by a stream of bytes drawn from the
//! key, one byte for each level. The stream opens with the eight bytes of a
//! digest of the key, which scatter keys evenly over the upper levels. Once
//! the digest is spent the stream is stretched by hashing the digest again,
//! with a counter that goes up every eight bytes; and into each byte of the
//! stretch goes one byte of the key itself, the key being closed by a single
//! `1` and then zeros without end. Two different keys may share a digest;
//! they cannot share the whole stream.
use vstd::prelude::*;
use crate::key::Key;

verus! {

/// How many bytes of a stream come from the digest.
pub const DIGEST_BYTES: u128 = 8;

/// A fixed permutation of the byte values.
pub open spec fn permute(x: u8) -> u8 {
    ((x as int * 167 + 89) % 256) as u8
}

/// The permutation undone.
pub open spec fn unpermute(y: u8) -> u8 {
    (((y as int + 167) * 23) % 256) as u8
}

/// The key's bytes, then a single `1`, then zeros.
pub open spec fn padded(seed: Seq<u8>, i: nat) -> u8 {
    if i < seed.len() {
        seed[i as int]
    } else if i == seed.len() {
        1
    } else {
        0
    }
}

/// The state of the absorbing chain once the padded bytes `0..=n` have gone
/// through it: each step permutes the last state mixed with the next byte of
/// the key and the next byte of the stretch.
pub open spec fn absorb(seed: Seq<u8>, n: nat) -> u8
    decreases n,
{
    let last: u8 = if n == 0 {
        0
    } else {
        absorb(seed, (n - 1) as nat)
    };
    permute((last ^ padded(seed, n)) ^ stretch(digest(seed), n))
}

/// The running sum of the digest over a run of bytes.
pub open spec fn fold(seed: Seq<u8>) -> u64
    decreases seed.len(),
{
    if seed.len() == 0 {
        0xcbf2_9ce4_8422_2325
    } else {
        (fold(seed.drop_last()) ^ (seed.last() as u64)).wrapping_mul(0x0000_0100_0000_01b3)
    }
}

/// The last stirring of the digest, which lets every input bit reach every
/// output byte.
pub open spec fn stir(h: u64) -> u64 {
    let a: u64 = (h ^ (h >> 33)).wrapping_mul(0xff51_afd7_ed55_8ccd);
    let b: u64 = (a ^ (a >> 33)).wrapping_mul(0xc4ce_b9fe_1a85_ec53);
    b ^ (b >> 33)
}

/// The 64-bit digest of a key's bytes.
pub open spec fn digest(seed: Seq<u8>) -> u64 {
    stir(fold(seed))
}

/// Byte `i` of a digest, lowest first.
pub open spec fn digest_byte(d: u64, i: nat) -> u8 {
    ((d >> ((8 * i) as u64)) & 0xff) as u8
}

/// A digest hashed again with a counter.
pub open spec fn rehash(d: u64, counter: u64) -> u64 {
    stir(d ^ counter.wrapping_mul(0x9e37_79b9_7f4a_7c15))
}

/// The counter for byte `n` behind the digest: it starts at one and goes up
/// every eight bytes.
pub open spec fn counter_at(n: nat) -> u64 {
    ((n / 8 + 1) % 0x1_0000_0000_0000_0000) as u64
}

/// Byte `n` of what stretches the stream behind the digest `d`.
pub open spec fn stretch(d: u64, n: nat) -> u8 {
    digest_byte(rehash(d, counter_at(n)), n % 8)
}

/// Byte `i` of the stream of the key with the bytes `seed`.
pub open spec fn stream(seed: Seq<u8>, i: nat) -> u8 {
    if i < DIGEST_BYTES {
        digest_byte(digest(seed), i)
    } else {
        absorb(seed, (i - DIGEST_BYTES) as nat)
    }
}

/// The first `n` bytes of a stream.
pub open spec fn stream_prefix(seed: Seq<u8>, n: nat) -> Seq<u8> {
    Seq::new(n, |i: int| stream(seed, i as nat))
}

/// Whether `path` is the run of bytes that the stream of the key `seed` holds
/// from position `depth` on.
pub open spec fn follows(seed: Seq<u8>, depth: nat, path: Seq<u8>) -> bool
    decreases path.len(),
{
    path.len() == 0 || (path[0] == stream(seed, depth) && follows(
        seed,
        depth + 1,
        path.drop_first(),
    ))
}

/// An index before which the streams of two different keys have parted.
pub open spec fn horizon(a: Seq<u8>, b: Seq<u8>) -> nat {
    if a.len() >= b.len() {
        a.len() + DIGEST_BYTES as nat + 1
    } else {
        b.len() + DIGEST_BYTES as nat + 1
    }
}

/// `permute` loses nothing: every byte is recovered from its image.
pub proof fn lemma_permute_inverts(x: u8)
    ensures
        unpermute(permute(x)) == x,
{
    assert((((((x as int * 167 + 89) % 256) as u8) as int + 167) * 23) % 256 == x as int)
        by (bit_vector);
}

/// Two chains that stand in the same state, take the same byte of the
/// stretch and come out in the same state have absorbed the same byte.
proof fn lemma_step_injective(last: u8, x: u8, y: u8, extra: u8)
    requires
        permute((last ^ x) ^ extra) == permute((last ^ y) ^ extra),
    ensures
        x == y,
{
    lemma_permute_inverts((last ^ x) ^ extra);
    lemma_permute_inverts((last ^ y) ^ extra);
    assert((last ^ x) ^ extra == (last ^ y) ^ extra ==> x == y) by (bit_vector);
}

/// Two digests with the same eight bytes are the same digest.
proof fn lemma_digest_bytes(c: u64, d: u64)
    requires
        forall|i: nat| i < 8 ==> digest_byte(c, i) == digest_byte(d, i),
    ensures
        c == d,
{
    assert(digest_byte(c, 0) == digest_byte(d, 0));
    assert(digest_byte(c, 1) == digest_byte(d, 1));
    assert(digest_byte(c, 2) == digest_byte(d, 2));
    assert(digest_byte(c, 3) == digest_byte(d, 3));
    assert(digest_byte(c, 4) == digest_byte(d, 4));
    assert(digest_byte(c, 5) == digest_byte(d, 5));
    assert(digest_byte(c, 6) == digest_byte(d, 6));
    assert(digest_byte(c, 7) == digest_byte(d, 7));
    assert(c == d) by (bit_vector)
        requires
            ((c >> 0u64) & 0xff) as u8 == ((d >> 0u64) & 0xff) as u8,
            ((c >> 8u64) & 0xff) as u8 == ((d >> 8u64) & 0xff) as u8,
            ((c >> 16u64) & 0xff) as u8 == ((d >> 16u64) & 0xff) as u8,
            ((c >> 24u64) & 0xff) as u8 == ((d >> 24u64) & 0xff) as u8,
            ((c >> 32u64) & 0xff) as u8 == ((d >> 32u64) & 0xff) as u8,
            ((c >> 40u64) & 0xff) as u8 == ((d >> 40u64) & 0xff) as u8,
            ((c >> 48u64) & 0xff) as u8 == ((d >> 48u64) & 0xff) as u8,
            ((c >> 56u64) & 0xff) as u8 == ((d >> 56u64) & 0xff) as u8,
    ;
}

/// Chains of two keys with one digest that agree up to step `m` were fed the
/// same padded bytes up to `m`.
proof fn lemma_absorb_injective(a: Seq<u8>, b: Seq<u8>, m: nat)
    requires
        digest(a) == digest(b),
        forall|j: nat| j <= m ==> absorb(a, j) == absorb(b, j),
    ensures
        forall|j: nat| j <= m ==> padded(a, j) == padded(b, j),
{
    assert forall|j: nat| j <= m implies padded(a, j) == padded(b, j) by {
        let last: u8 = if j == 0 {
            0
        } else {
            absorb(a, (j - 1) as nat)
        };
        if j > 0 {
            assert(absorb(a, (j - 1) as nat) == absorb(b, (j - 1) as nat));
        }
        assert(absorb(a, j) == absorb(b, j));
        lemma_step_injective(last, padded(a, j), padded(b, j), stretch(digest(a), j));
    }
}

/// The streams of two different keys part before their horizon: if they agree
/// on the first `n` bytes, then `n` lies below it.
pub proof fn lemma_streams_part(a: Seq<u8>, b: Seq<u8>, n: nat)
    requires
        a != b,
        forall|i: nat| i < n ==> stream(a, i) == stream(b, i),
    ensures
        n < horizon(a, b),
{
    if n >= horizon(a, b) {
        let m: nat = (horizon(a, b) - 9) as nat;
        assert forall|i: nat| i < 8 implies digest_byte(digest(a), i) == digest_byte(
            digest(b),
            i,
        ) by {
            assert(stream(a, i) == stream(b, i));
        }
        lemma_digest_bytes(digest(a), digest(b));
        assert forall|j: nat| j <= m implies absorb(a, j) == absorb(b, j) by {
            assert(stream(a, j + 8) == stream(b, j + 8));
        }
        lemma_absorb_injective(a, b, m);
        assert(padded(a, m) == padded(b, m));
        assert(padded(a, a.len()) == padded(b, a.len()));
        assert(padded(a, b.len()) == padded(b, b.len()));
        assert(a.len() == b.len());
        assert forall|i: int| 0 <= i < a.len() implies a[i] == b[i] by {
            assert(padded(a, i as nat) == padded(b, i as nat));
        }
        assert(a =~= b);
    }
}

/// A run of stream bytes with the stream's next byte behind it is a run of
/// stream bytes.
pub proof fn lemma_follows_on(seed: Seq<u8>, depth: nat, path: Seq<u8>)
    requires
        follows(seed, depth, path),
    ensures
        follows(seed, depth, path.push(stream(seed, depth + path.len()))),
    decreases path.len(),
{
    let longer: Seq<u8> = path.push(stream(seed, depth + path.len()));
    if path.len() == 0 {
        assert(longer.drop_first() =~= Seq::<u8>::empty());
        assert(follows(seed, depth + 1, longer.drop_first()));
    } else {
        lemma_follows_on(seed, depth + 1, path.drop_first());
        assert(longer.drop_first() =~= path.drop_first().push(
            stream(seed, depth + 1 + path.drop_first().len()),
        ));
    }
}

/// The digest of a run of bytes.
fn digest_of(seed: &Vec<u8>) -> (d: u64)
    ensures
        d == digest(seed@),
        seed@.len() <= usize::MAX,
{
    let mut h: u64 = 0xcbf2_9ce4_8422_2325;
    let mut i: usize = 0;
    while i < seed.len()
        invariant
            i <= seed.len(),
            h == fold(seed@.take(i as int)),
        decreases seed.len() - i,
    {
        proof {
            let next: Seq<u8> = seed@.take(i + 1);
            assert(next.drop_last() =~= seed@.take(i as int));
            assert(next.last() == seed@[i as int]);
        }
        h = (h ^ (seed[i] as u64)).wrapping_mul(0x0000_0100_0000_01b3);
        i = i + 1;
    }
    assert(seed@.take(i as int) =~= seed@);
    stir_of(h)
}

/// The last stirring of a digest.
fn stir_of(h: u64) -> (d: u64)
    ensures
        d == stir(h),
{
    let a: u64 = (h ^ (h >> 33)).wrapping_mul(0xff51_afd7_ed55_8ccd);
    let b: u64 = (a ^ (a >> 33)).wrapping_mul(0xc4ce_b9fe_1a85_ec53);
    b ^ (b >> 33)
}

/// One step of the absorbing chain.
fn step(last: u8, input: u8, extra: u8) -> (next: u8)
    ensures
        next == permute((last ^ input) ^ extra),
{
    let x: u8 = (last ^ input) ^ extra;
    let wide: u32 = (x as u32 * 167 + 89) % 256;
    assert(wide as int == (x as int * 167 + 89) % 256);
    wide as u8
}

/// Where a sponge stands in its stream.
struct Tap {
    /// How many bytes have been handed out.
    cursor: u128,
    /// The state of the absorbing chain, once the digest is spent.
    state: u8,
}

/// A cursor into the byte stream of one key.
///
/// A sponge is made for a key, stands at a position in that key's stream, and
/// hands out the byte at its position each time it is squeezed.
pub struct Sponge {
    /// The identifying bytes of the key.
    seed: Vec<u8>,
    /// Their digest.
    digest: u64,
    /// Where the sponge stands.
    tap: Tap,
}

impl Sponge {
    /// The bytes of the key that this sponge was made for.
    pub closed spec fn seed(&self) -> Seq<u8> {
        self.seed@
    }

    /// How many bytes have been squeezed out so far.
    pub closed spec fn position(&self) -> nat {
        self.tap.cursor as nat
    }

    /// What holds of every sponge: its digest is that of its key, and the
    /// state of its chain is that of its position.
    #[verifier::type_invariant]
    pub closed spec fn wf(&self) -> bool {
        &&& self.seed@.len() <= usize::MAX
        &&& self.digest == digest(self.seed@)
        &&& self.tap.state == if self.tap.cursor <= DIGEST_BYTES {
            0u8
        } else {
            absorb(self.seed@, (self.tap.cursor - DIGEST_BYTES - 1) as nat)
        }
    }

    /// The bytes squeezed out so far.
    pub open spec fn emitted(&self) -> Seq<u8> {
        stream_prefix(self.seed(), self.position())
    }

    /// The key of a sponge is no longer than memory can hold.
    pub proof fn lemma_seed_fits(&self)
        requires
            self.wf(),
        ensures
            self.seed().len() <= usize::MAX,
    {
    }

    /// What has been squeezed out grows by one byte with each squeeze.
    pub proof fn lemma_emitted_grows(seed: Seq<u8>, n: nat)
        ensures
            stream_prefix(seed, n + 1) =~= stream_prefix(seed, n).push(stream(seed, n)),
    {
    }

    /// A sponge for `key`, standing at the start of its stream.
    pub fn new<K: Key>(key: &K) -> (sponge: Sponge)
        ensures
            sponge.seed() == key.ident(),
            sponge.position() == 0,
    {
        let seed: Vec<u8> = key.to_bytes();
        let digest: u64 = digest_of(&seed);
        Sponge { seed, digest, tap: Tap { cursor: 0, state: 0 } }
    }

    /// How many bytes have been squeezed out so far.
    pub fn cursor(&self) -> (at: u128)
        ensures
            at == self.position(),
    {
        self.tap.cursor
    }

    /// Hands out the byte at the sponge's position and moves one byte on.
    pub fn squeeze(&mut self) -> (byte: u8)
        requires
            old(self).position() < u128::MAX,
        ensures
            final(self).seed() == old(self).seed(),
            final(self).position() == old(self).position() + 1,
            byte == stream(old(self).seed(), old(self).position()),
    {
        proof {
            use_type_invariant(&*self);
        }
        let at: u128 = self.tap.cursor;
        if at < DIGEST_BYTES {
            let d: u64 = self.digest;
            let shift: u64 = (8 * at) as u64;
            let low: u64 = (d >> shift) & 0xff;
            assert(low <= 0xff) by (bit_vector)
                requires
                    low == (d >> shift) & 0xff,
            ;
            self.tap = Tap { cursor: at + 1, state: 0 };
            low as u8
        } else {
            let n: u128 = at - DIGEST_BYTES;
            let input: u8 = if n < self.seed.len() as u128 {
                self.seed[n as usize]
            } else if n == self.seed.len() as u128 {
                1
            } else {
                0
            };
            let counter: u64 = ((n / 8 + 1) % 0x1_0000_0000_0000_0000) as u64;
            let mixed: u64 = self.digest ^ counter.wrapping_mul(0x9e37_79b9_7f4a_7c15);
            let block: u64 = stir_of(mixed);
            let shift: u64 = (8 * (n % 8)) as u64;
            let extra: u64 = (block >> shift) & 0xff;
            assert(extra <= 0xff) by (bit_vector)
                requires
                    extra == (block >> shift) & 0xff,
            ;
            let state: u8 = step(self.tap.state, input, extra as u8);
            self.tap = Tap { cursor: at + 1, state };
            state
        }
    }

    /// Moves this sponge to the position where `other` stands.
    pub fn matching(&mut self, other: &Sponge)
        ensures
            final(self).seed() == old(self).seed(),
            final(self).position() == other.position(),
    {
        proof {
            use_type_invariant(&*self);
        }
        if self.tap.cursor > other.tap.cursor {
            self.tap = Tap { cursor: 0, state: 0 };
        }
        while self.tap.cursor < other.tap.cursor
            invariant
                self.seed() == old(self).seed(),
                self.tap.cursor <= other.tap.cursor,
            decreases other.tap.cursor - self.tap.cursor,
        {
            let _ = self.squeeze();
        }
    }
}

} // verus!
