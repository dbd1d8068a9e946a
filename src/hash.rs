use vstd::prelude::*;

verus! {

/// The first accumulator constant.
pub const SIPHASH_MAG1: u64 = 0x736f6d6570736575;

/// The second accumulator constant.
pub const SIPHASH_MAG2: u64 = 0x646f72616e646f6d;

/// The third accumulator constant.
pub const SIPHASH_MAG3: u64 = 0x6c7967656e657261;

/// The fourth accumulator constant.
pub const SIPHASH_MAG4: u64 = 0x7465646279746573;

/// The four-word accumulator of the keyed hash.
#[derive(Clone, Copy, PartialEq, Eq, Structural)]
pub struct SipState {
    pub v0: u64,
    pub v1: u64,
    pub v2: u64,
    pub v3: u64,
}

/// Addition modulo 2^64.
pub open spec fn add64(x: u64, y: u64) -> u64 {
    ((x + y) % 0x1_0000_0000_0000_0000) as u64
}

/// Left rotation of a 64-bit word by `n` bits, `0 < n < 64`.
pub open spec fn rotl(x: u64, n: u64) -> u64 {
    (x << n) | (x >> (64 - n) as u64)
}

/// One application of the mixing round to the accumulator.
///
/// The schedule is fixed bit for bit (note that `v2` takes `v1 + v1`): every digest,
/// and so every generated table, depends on it.
pub open spec fn sipround_spec(s: SipState) -> SipState {
    let v0 = add64(s.v0, s.v1);
    let v1 = rotl(s.v1, 13) ^ v0;
    let v0 = rotl(v0, 32);
    let v2 = add64(v1, v1);
    let v1 = rotl(v1, 17) ^ v2;
    let v2 = add64(rotl(v2, 32), s.v3);
    let v3 = rotl(s.v3, 16) ^ v2;
    let v0 = add64(v0, v3);
    let v3 = rotl(v3, 21) ^ v0;
    SipState { v0, v1, v2, v3 }
}

fn rotate(x: u64, n: u64) -> (r: u64)
    requires
        0 < n < 64,
    ensures
        r == rotl(x, n),
{
    (x << n) | (x >> (64 - n))
}

fn sipround(s: &mut SipState)
    ensures
        *final(s) == sipround_spec(*old(s)),
{
    s.v0 = s.v0.wrapping_add(s.v1);
    s.v1 = rotate(s.v1, 13);
    s.v1 = s.v1 ^ s.v0;
    s.v0 = rotate(s.v0, 32);
    s.v2 = s.v1.wrapping_add(s.v1);
    s.v1 = rotate(s.v1, 17);
    s.v1 = s.v1 ^ s.v2;
    s.v2 = rotate(s.v2, 32);
    s.v2 = s.v2.wrapping_add(s.v3);
    s.v3 = rotate(s.v3, 16);
    s.v3 = s.v3 ^ s.v2;
    s.v0 = s.v0.wrapping_add(s.v3);
    s.v3 = rotate(s.v3, 21);
    s.v3 = s.v3 ^ s.v0;
}

/// `n` applications of the mixing round.
pub open spec fn rounds(s: SipState, n: nat) -> SipState
    decreases n,
{
    if n == 0 {
        s
    } else {
        rounds(sipround_spec(s), (n - 1) as nat)
    }
}

/// The state after accepting one input word with `c` mixing rounds.
pub open spec fn accept_spec(s: SipState, w: u64, c: nat) -> SipState {
    let t = rounds(SipState { v3: s.v3 ^ w, ..s }, c);
    SipState { v0: t.v0 ^ w, ..t }
}

/// The accumulator of a fresh instance keyed with `k1` and `k2`.
pub open spec fn init_state(k1: u64, k2: u64) -> SipState {
    SipState { v0: k1 ^ SIPHASH_MAG1, v1: k2 ^ SIPHASH_MAG2, v2: k1 ^ SIPHASH_MAG3, v3: k2 ^ SIPHASH_MAG4 }
}

/// The little-endian value of at most eight bytes; missing high bytes read as zero.
pub open spec fn le_word(b: Seq<u8>) -> u64
    decreases b.len(),
{
    if b.len() == 0 {
        0
    } else {
        (le_word(b.subrange(1, b.len() as int)) << 8) | (b[0] as u64)
    }
}

/// The input words of a byte sequence: its 8-byte little-endian chunks, the last one
/// zero-padded when shorter.
pub open spec fn words_of(b: Seq<u8>) -> Seq<u64>
    decreases b.len(),
{
    if b.len() == 0 {
        seq![]
    } else if b.len() <= 8 {
        seq![le_word(b)]
    } else {
        seq![le_word(b.subrange(0, 8))] + words_of(b.subrange(8, b.len() as int))
    }
}

/// The state after accepting the words `ws` in order, with `c` rounds each.
pub open spec fn absorb(s: SipState, ws: Seq<u64>, c: nat) -> SipState
    decreases ws.len(),
{
    if ws.len() == 0 {
        s
    } else {
        absorb(accept_spec(s, ws[0], c), ws.drop_first(), c)
    }
}

/// The digest of a state with `d` finalization rounds.
pub open spec fn finish_spec(s: SipState, d: nat) -> u64 {
    let t = rounds(SipState { v2: s.v2 ^ 0xff, ..s }, d);
    t.v0 ^ t.v1 ^ t.v2 ^ t.v3
}

/// The digest of the bytes `b` under keys `k1`, `k2`, with `c` rounds per word and
/// `d` finalization rounds.
pub open spec fn digest(k1: u64, k2: u64, b: Seq<u8>, c: nat, d: nat) -> u64 {
    finish_spec(absorb(init_state(k1, k2), words_of(b), c), d)
}

proof fn lemma_absorb_concat(s: SipState, x: Seq<u64>, y: Seq<u64>, c: nat)
    ensures
        absorb(s, x + y, c) == absorb(absorb(s, x, c), y, c),
    decreases x.len(),
{
    if x.len() == 0 {
        assert(x + y =~= y);
    } else {
        assert((x + y).drop_first() =~= x.drop_first() + y);
        lemma_absorb_concat(accept_spec(s, x[0], c), x.drop_first(), y, c);
    }
}

proof fn lemma_words_concat(a: Seq<u8>, b: Seq<u8>)
    requires
        a.len() % 8 == 0,
    ensures
        words_of(a + b) == words_of(a) + words_of(b),
    decreases a.len(),
{
    if a.len() == 0 {
        assert(a + b =~= b);
        assert(words_of(a) + words_of(b) =~= words_of(b));
    } else if b.len() == 0 {
        assert(a + b =~= a);
        assert(words_of(a) + words_of(b) =~= words_of(a));
    } else {
        let ab = a + b;
        assert(ab.subrange(0, 8) =~= a.subrange(0, 8));
        if a.len() == 8 {
            assert(a.subrange(0, 8) =~= a);
            assert(ab.subrange(8, ab.len() as int) =~= b);
        } else {
            let rest = a.subrange(8, a.len() as int);
            assert(ab.subrange(8, ab.len() as int) =~= rest + b);
            lemma_words_concat(rest, b);
        }
        assert(words_of(ab) =~= words_of(a) + words_of(b));
    }
}

/// The whole 8-byte words of `b`, in order; a trailing partial chunk is left out.
pub open spec fn whole_words(b: Seq<u8>) -> Seq<u64>
    decreases b.len(),
{
    if b.len() < 8 {
        seq![]
    } else {
        seq![le_word(b.subrange(0, 8))] + whole_words(b.subrange(8, b.len() as int))
    }
}

/// The bytes of `b` after its whole 8-byte words: fewer than eight.
pub open spec fn tail_bytes(b: Seq<u8>) -> Seq<u8>
    decreases b.len(),
{
    if b.len() < 8 {
        b
    } else {
        tail_bytes(b.subrange(8, b.len() as int))
    }
}

/// What a hasher holds: the accumulator, and the bytes fed since its last whole word.
pub type HasherView = (SipState, Seq<u8>);

/// A fresh hasher keyed with `k1` and `k2`: nothing pending.
pub open spec fn fresh_view(k1: u64, k2: u64) -> HasherView {
    (init_state(k1, k2), Seq::<u8>::empty())
}

/// Feeding `bytes`: the pending bytes followed by `bytes` are absorbed in whole words,
/// and what is left of them stays pending.
pub open spec fn write_spec(v: HasherView, bytes: Seq<u8>, c: nat) -> HasherView {
    let all = v.1 + bytes;
    (absorb(v.0, whole_words(all), c), tail_bytes(all))
}

/// The digest of a hasher: pending bytes, if any, are zero-padded to one last word.
pub open spec fn finish_view(v: HasherView, c: nat, d: nat) -> u64 {
    if v.1.len() == 0 {
        finish_spec(v.0, d)
    } else {
        finish_spec(accept_spec(v.0, le_word(v.1), c), d)
    }
}

/// Byte `k` (from the least significant) of `x`.
pub open spec fn byte_at(x: u128, k: nat) -> u8 {
    #[verifier::truncate] (((x >> ((8 * k) as u128)) & 0xff) as u8)
}

/// The `n` low bytes of `x`, least significant first.
pub open spec fn le_bytes(x: u128, n: nat) -> Seq<u8> {
    Seq::new(n, |k: int| byte_at(x, k as nat))
}

/// The number of bytes of a `usize` on the target.
pub open spec fn usize_bytes() -> nat {
    if usize::MAX == 0xffff {
        2
    } else if usize::MAX == 0xffff_ffff {
        4
    } else {
        8
    }
}

proof fn lemma_absorb_one(s: SipState, w: u64, ws: Seq<u64>, c: nat)
    ensures
        absorb(s, seq![w] + ws, c) == absorb(accept_spec(s, w, c), ws, c),
{
    assert((seq![w] + ws).drop_first() =~= ws);
}

proof fn lemma_whole_concat(x: Seq<u8>, y: Seq<u8>)
    ensures
        whole_words(x + y) == whole_words(x) + whole_words(tail_bytes(x) + y),
        tail_bytes(x + y) == tail_bytes(tail_bytes(x) + y),
    decreases x.len(),
{
    if x.len() < 8 {
        assert(whole_words(x) + whole_words(x + y) =~= whole_words(x + y));
    } else {
        let r = x.subrange(8, x.len() as int);
        assert((x + y).subrange(0, 8) =~= x.subrange(0, 8));
        assert((x + y).subrange(8, (x + y).len() as int) =~= r + y);
        lemma_whole_concat(r, y);
        assert(whole_words(x + y) =~= whole_words(x) + whole_words(tail_bytes(x) + y));
    }
}

proof fn lemma_full_word(t: Seq<u8>, r: Seq<u8>)
    requires
        t.len() == 8,
    ensures
        whole_words(t + r) == seq![le_word(t)] + whole_words(r),
        tail_bytes(t + r) == tail_bytes(r),
{
    assert((t + r).subrange(0, 8) =~= t);
    assert((t + r).subrange(8, (t + r).len() as int) =~= r);
}

proof fn lemma_words_split(b: Seq<u8>)
    ensures
        tail_bytes(b).len() < 8,
        words_of(b) == whole_words(b) + if tail_bytes(b).len() == 0 {
            Seq::<u64>::empty()
        } else {
            seq![le_word(tail_bytes(b))]
        },
    decreases b.len(),
{
    if b.len() == 0 {
        assert(words_of(b) =~= whole_words(b));
    } else if b.len() < 8 {
        assert(words_of(b) =~= whole_words(b) + seq![le_word(b)]);
    } else if b.len() == 8 {
        let r = b.subrange(8, 8);
        assert(b.subrange(0, 8) =~= b);
        assert(r =~= Seq::<u8>::empty());
        assert(tail_bytes(r) == r);
        assert(whole_words(r) == Seq::<u64>::empty());
        assert(tail_bytes(b) == tail_bytes(r));
        assert(whole_words(b) =~= seq![le_word(b)]);
        assert(words_of(b) == seq![le_word(b)]);
        assert(words_of(b) =~= whole_words(b) + Seq::<u64>::empty());
    } else {
        let r = b.subrange(8, b.len() as int);
        lemma_words_split(r);
        assert(tail_bytes(b) == tail_bytes(r));
        assert(whole_words(b) == seq![le_word(b.subrange(0, 8))] + whole_words(r));
        assert(words_of(b) == seq![le_word(b.subrange(0, 8))] + words_of(r));
        assert(words_of(b) =~= whole_words(b) + if tail_bytes(b).len() == 0 {
            Seq::<u64>::empty()
        } else {
            seq![le_word(tail_bytes(b))]
        });
    }
}

/// Feeding `a` and then `b` leaves the hasher as feeding `a + b` at once.
pub proof fn lemma_write_concat(v: HasherView, a: Seq<u8>, b: Seq<u8>, c: nat)
    ensures
        write_spec(write_spec(v, a, c), b, c) == write_spec(v, a + b, c),
{
    let x = v.1 + a;
    assert(v.1 + (a + b) =~= x + b);
    lemma_whole_concat(x, b);
    lemma_absorb_concat(v.0, whole_words(x), whole_words(tail_bytes(x) + b), c);
}

/// A fresh hasher fed `b` finishes with [`digest`] of the keys and `b`.
pub proof fn lemma_fresh_write_digest(k1: u64, k2: u64, b: Seq<u8>, c: nat, d: nat)
    ensures
        finish_view(write_spec(fresh_view(k1, k2), b, c), c, d) == digest(k1, k2, b, c, d),
{
    let v = fresh_view(k1, k2);
    assert(v.1 + b =~= b);
    lemma_words_split(b);
    let s = absorb(init_state(k1, k2), whole_words(b), c);
    if tail_bytes(b).len() == 0 {
        assert(words_of(b) =~= whole_words(b));
    } else {
        let w = le_word(tail_bytes(b));
        lemma_absorb_concat(init_state(k1, k2), whole_words(b), seq![w], c);
        lemma_absorb_one(s, w, Seq::<u64>::empty(), c);
        assert(seq![w] + Seq::<u64>::empty() =~= seq![w]);
    }
}

/// Feeding a byte sequence in two pieces, split anywhere, gives the digest of the
/// whole sequence.
pub proof fn lemma_digest_pieces(k1: u64, k2: u64, a: Seq<u8>, b: Seq<u8>, c: nat, d: nat)
    ensures
        finish_view(write_spec(write_spec(fresh_view(k1, k2), a, c), b, c), c, d) == digest(
            k1,
            k2,
            a + b,
            c,
            d,
        ),
{
    lemma_write_concat(fresh_view(k1, k2), a, b, c);
    lemma_fresh_write_digest(k1, k2, a + b, c, d);
}

/// Two fresh hashers with the same keys, fed the same bytes, give the same digest,
/// and that digest is [`digest`] of the keys and bytes.
pub proof fn lemma_fresh_instances_agree(
    v1: HasherView,
    v2: HasherView,
    k1: u64,
    k2: u64,
    b: Seq<u8>,
    c: nat,
    d: nat,
)
    requires
        v1 == fresh_view(k1, k2),
        v2 == fresh_view(k1, k2),
    ensures
        finish_view(write_spec(v1, b, c), c, d) == finish_view(write_spec(v2, b, c), c, d),
        finish_view(write_spec(v1, b, c), c, d) == digest(k1, k2, b, c, d),
{
    lemma_fresh_write_digest(k1, k2, b, c, d);
}

fn read_word(bytes: &[u8], start: usize, end: usize) -> (w: u64)
    requires
        start <= end <= bytes@.len(),
    ensures
        w == le_word(bytes@.subrange(start as int, end as int)),
{
    let mut w: u64 = 0;
    let mut i: usize = end;
    while i > start
        invariant
            start <= i <= end <= bytes@.len(),
            w == le_word(bytes@.subrange(i as int, end as int)),
        decreases i - start,
    {
        i = i - 1;
        assert(bytes@.subrange(i as int, end as int).subrange(1, (end - i) as int)
            =~= bytes@.subrange(i + 1, end as int));
        w = (w << 8) | (bytes[i] as u64);
    }
    w
}

/// The `n` low bytes of `x`, least significant first.
fn to_le_bytes(x: u128, n: usize) -> (r: Vec<u8>)
    ensures
        r@ == le_bytes(x, n as nat),
{
    let mut r: Vec<u8> = Vec::new();
    let mut k: usize = 0;
    while k < n
        invariant
            k <= n,
            r@ =~= le_bytes(x, k as nat),
        decreases n - k,
    {
        if k < 16 {
            r.push(#[verifier::truncate] (((x >> ((8 * k) as u128)) & 0xff) as u8));
        } else {
            r.push(0);
            assert(byte_at(x, k as nat) == 0) by (bit_vector)
                requires
                    8 * k >= 128,
            ;
        }
        k = k + 1;
        assert(r@ =~= le_bytes(x, k as nat));
    }
    r
}

/// The keyed hash with `C` mixing rounds per input word and `D` finalization rounds.
///
/// Modelled on SipHash-C-D, but its padding carries no input length and its round
/// schedule differs: it is meant for statistical spread, not for adversarial inputs.
pub struct SipHasher<const C: usize, const D: usize> {
    state: SipState,
    tail: Vec<u8>,
}

impl<const C: usize, const D: usize> View for SipHasher<C, D> {
    type V = HasherView;

    closed spec fn view(&self) -> HasherView {
        (self.state, self.tail@)
    }
}

impl<const C: usize, const D: usize> SipHasher<C, D> {
    #[verifier::type_invariant]
    spec fn tail_short(&self) -> bool {
        self.tail@.len() < 8
    }

    /// Constructs a new [`SipHasher`] instance using `k1` and `k2`.
    pub fn new_with_keys(k1: u64, k2: u64) -> (r: Self)
        ensures
            r@ == fresh_view(k1, k2),
    {
        let r = SipHasher {
            state: SipState {
                v0: k1 ^ SIPHASH_MAG1,
                v1: k2 ^ SIPHASH_MAG2,
                v2: k1 ^ SIPHASH_MAG3,
                v3: k2 ^ SIPHASH_MAG4,
            },
            tail: Vec::new(),
        };
        assert(r@ =~= fresh_view(k1, k2));
        r
    }

    /// Accepts one input word: `C` rounds between two XORs of the word.
    fn accept(s: &mut SipState, word: u64)
        ensures
            *final(s) == accept_spec(*old(s), word, C as nat),
    {
        s.v3 = s.v3 ^ word;
        let ghost mixed = *s;
        let mut i: usize = 0;
        while i < C
            invariant
                i <= C,
                rounds(*s, (C - i) as nat) == rounds(mixed, C as nat),
                mixed == (SipState { v3: old(s).v3 ^ word, ..*old(s) }),
            decreases C - i,
        {
            sipround(s);
            i = i + 1;
        }
        s.v0 = s.v0 ^ word;
    }

    /// The digest of what was fed so far, pending bytes zero-padded to a last word;
    /// the instance itself is left as it is.
    pub fn finish(&self) -> (r: u64)
        ensures
            r == finish_view(self@, C as nat, D as nat),
    {
        let mut s = self.state;
        if self.tail.len() > 0 {
            let w = read_word(self.tail.as_slice(), 0, self.tail.len());
            assert(self.tail@.subrange(0, self.tail@.len() as int) =~= self.tail@);
            Self::accept(&mut s, w);
        }
        let ghost before = s;
        s.v2 = s.v2 ^ 0xff;
        let ghost start = s;
        let mut i: usize = 0;
        while i < D
            invariant
                i <= D,
                rounds(s, (D - i) as nat) == rounds(start, D as nat),
                start == (SipState { v2: before.v2 ^ 0xff, ..before }),
            decreases D - i,
        {
            sipround(&mut s);
            i = i + 1;
        }
        s.v0 ^ s.v1 ^ s.v2 ^ s.v3
    }

    /// Feeds `bytes`: after the pending bytes, in 8-byte little-endian words; what is
    /// left over stays pending for the next call or for [`SipHasher::finish`].
    pub fn write(&mut self, bytes: &[u8])
        ensures
            final(self)@ == write_spec(old(self)@, bytes@, C as nat),
    {
        proof {
            use_type_invariant(&*self);
        }
        let ghost v = self@;
        let mut tail: Vec<u8> = Vec::new();
        core::mem::swap(&mut tail, &mut self.tail);
        let mut s = self.state;
        let len = bytes.len();
        let mut i: usize = 0;
        assert(bytes@.subrange(0, len as int) =~= bytes@);
        while i < len
            invariant
                i <= len == bytes@.len(),
                tail@.len() < 8,
                absorb(s, whole_words(tail@ + bytes@.subrange(i as int, len as int)), C as nat)
                    == write_spec(v, bytes@, C as nat).0,
                tail_bytes(tail@ + bytes@.subrange(i as int, len as int)) == write_spec(
                    v,
                    bytes@,
                    C as nat,
                ).1,
            decreases len - i,
        {
            let ghost before = tail@ + bytes@.subrange(i as int, len as int);
            tail.push(bytes[i]);
            i = i + 1;
            assert(tail@ + bytes@.subrange(i as int, len as int) =~= before);
            if tail.len() == 8 {
                let w = read_word(tail.as_slice(), 0, 8);
                proof {
                    assert(tail@.subrange(0, 8) =~= tail@);
                    let r = bytes@.subrange(i as int, len as int);
                    lemma_full_word(tail@, r);
                    lemma_absorb_one(s, w, whole_words(r), C as nat);
                    assert(Seq::<u8>::empty() + r =~= r);
                }
                Self::accept(&mut s, w);
                tail = Vec::new();
            }
        }
        assert(tail@ + bytes@.subrange(len as int, len as int) =~= tail@);
        self.state = s;
        self.tail = tail;
    }

    /// Feeds the eight little-endian bytes of `i`.
    pub fn write_u64(&mut self, i: u64)
        ensures
            final(self)@ == write_spec(old(self)@, le_bytes(i as u128, 8), C as nat),
    {
        let b = to_le_bytes(i as u128, 8);
        self.write(b.as_slice())
    }

    /// Feeds the eight little-endian bytes of `i` (two's complement).
    pub fn write_i64(&mut self, i: i64)
        ensures
            final(self)@ == write_spec(old(self)@, le_bytes(#[verifier::truncate] (i as u128), 8), C as nat),
    {
        let b = to_le_bytes(#[verifier::truncate] (i as u128), 8);
        self.write(b.as_slice())
    }

    /// Feeds the sixteen little-endian bytes of `i`.
    pub fn write_u128(&mut self, i: u128)
        ensures
            final(self)@ == write_spec(old(self)@, le_bytes(i as u128, 16), C as nat),
    {
        let b = to_le_bytes(i as u128, 16);
        self.write(b.as_slice())
    }

    /// Feeds the sixteen little-endian bytes of `i` (two's complement).
    pub fn write_i128(&mut self, i: i128)
        ensures
            final(self)@ == write_spec(old(self)@, le_bytes(#[verifier::truncate] (i as u128), 16), C as nat),
    {
        let b = to_le_bytes(#[verifier::truncate] (i as u128), 16);
        self.write(b.as_slice())
    }

    /// Feeds the byte of `i`.
    pub fn write_u8(&mut self, i: u8)
        ensures
            final(self)@ == write_spec(old(self)@, le_bytes(i as u128, 1), C as nat),
    {
        let b = to_le_bytes(i as u128, 1);
        self.write(b.as_slice())
    }

    /// Feeds the byte of `i` (two's complement).
    pub fn write_i8(&mut self, i: i8)
        ensures
            final(self)@ == write_spec(old(self)@, le_bytes(#[verifier::truncate] (i as u128), 1), C as nat),
    {
        let b = to_le_bytes(#[verifier::truncate] (i as u128), 1);
        self.write(b.as_slice())
    }

    /// Feeds the two little-endian bytes of `i`.
    pub fn write_u16(&mut self, i: u16)
        ensures
            final(self)@ == write_spec(old(self)@, le_bytes(i as u128, 2), C as nat),
    {
        let b = to_le_bytes(i as u128, 2);
        self.write(b.as_slice())
    }

    /// Feeds the two little-endian bytes of `i` (two's complement).
    pub fn write_i16(&mut self, i: i16)
        ensures
            final(self)@ == write_spec(old(self)@, le_bytes(#[verifier::truncate] (i as u128), 2), C as nat),
    {
        let b = to_le_bytes(#[verifier::truncate] (i as u128), 2);
        self.write(b.as_slice())
    }

    /// Feeds the four little-endian bytes of `i`.
    pub fn write_u32(&mut self, i: u32)
        ensures
            final(self)@ == write_spec(old(self)@, le_bytes(i as u128, 4), C as nat),
    {
        let b = to_le_bytes(i as u128, 4);
        self.write(b.as_slice())
    }

    /// Feeds the four little-endian bytes of `i` (two's complement).
    pub fn write_i32(&mut self, i: i32)
        ensures
            final(self)@ == write_spec(old(self)@, le_bytes(#[verifier::truncate] (i as u128), 4), C as nat),
    {
        let b = to_le_bytes(#[verifier::truncate] (i as u128), 4);
        self.write(b.as_slice())
    }

    /// Feeds the little-endian bytes of `i`, as many as a `usize` has.
    pub fn write_usize(&mut self, i: usize)
        ensures
            final(self)@ == write_spec(old(self)@, le_bytes(i as u128, usize_bytes()), C as nat),
    {
        let n: usize = if usize::MAX == 0xffff {
            2
        } else if usize::MAX == 0xffff_ffff {
            4
        } else {
            8
        };
        let b = to_le_bytes(i as u128, n);
        self.write(b.as_slice())
    }

    /// Feeds the little-endian bytes of `i` (two's complement), as many as a `usize` has.
    pub fn write_isize(&mut self, i: isize)
        ensures
            final(self)@ == write_spec(old(self)@, le_bytes(#[verifier::truncate] (i as u128), usize_bytes()), C as nat),
    {
        let n: usize = if usize::MAX == 0xffff {
            2
        } else if usize::MAX == 0xffff_ffff {
            4
        } else {
            8
        };
        let b = to_le_bytes(#[verifier::truncate] (i as u128), n);
        self.write(b.as_slice())
    }

}

/// Lets std's `Hash` feed the hasher; every call goes to the verified methods above.
impl<const C: usize, const D: usize> core::hash::Hasher for SipHasher<C, D> {
    fn finish(&self) -> u64 {
        SipHasher::finish(self)
    }

    fn write(&mut self, bytes: &[u8]) {
        SipHasher::write(self, bytes)
    }

    fn write_u64(&mut self, i: u64) {
        SipHasher::write_u64(self, i)
    }

    fn write_i64(&mut self, i: i64) {
        SipHasher::write_i64(self, i)
    }

    fn write_u128(&mut self, i: u128) {
        SipHasher::write_u128(self, i)
    }

    fn write_i128(&mut self, i: i128) {
        SipHasher::write_i128(self, i)
    }

    fn write_u8(&mut self, i: u8) {
        SipHasher::write_u8(self, i)
    }

    fn write_i8(&mut self, i: i8) {
        SipHasher::write_i8(self, i)
    }

    fn write_u16(&mut self, i: u16) {
        SipHasher::write_u16(self, i)
    }

    fn write_i16(&mut self, i: i16) {
        SipHasher::write_i16(self, i)
    }

    fn write_u32(&mut self, i: u32) {
        SipHasher::write_u32(self, i)
    }

    fn write_i32(&mut self, i: i32) {
        SipHasher::write_i32(self, i)
    }

    fn write_usize(&mut self, i: usize) {
        SipHasher::write_usize(self, i)
    }

    fn write_isize(&mut self, i: isize) {
        SipHasher::write_isize(self, i)
    }
}

} // verus!
