use vstd::arithmetic::div_mod::{lemma_add_mod_noop, lemma_mod_equivalence};
use vstd::prelude::*;

verus! {

/// Multiplier applied to the first counter word.
pub const M0_32: u32 = 0xD2511F53;

/// Multiplier applied to the third counter word.
pub const M1_32: u32 = 0xCD9E8D57;

/// Number of words produced by one step of the generator.
pub const BLOCK_32: usize = 4;

/// Low 32 bits of a product.
pub open spec fn lo32(x: int) -> u32 {
    (x % 0x1_0000_0000) as u32
}

/// One counter word advanced by one, with wraparound.
pub open spec fn inc32(x: u32) -> u32 {
    ((x + 1) % 0x1_0000_0000) as u32
}

/// The counter with which every generator starts.
pub open spec fn initial_counter32() -> Seq<u32> {
    seq![1u32, 0u32, 0u32, 0u32]
}

/// The counter after one step: the first two words advance, the others stay.
pub open spec fn step32(c: Seq<u32>) -> Seq<u32> {
    seq![inc32(c[0]), inc32(c[1]), c[2], c[3]]
}

/// The counter after `n` steps.
pub open spec fn advance32(c: Seq<u32>, n: nat) -> Seq<u32>
    decreases n,
{
    if n == 0 {
        c
    } else {
        step32(advance32(c, (n - 1) as nat))
    }
}

/// The block of four words that one step outputs for counter `c` and key `k`:
/// a single multiply-xor round, no key schedule. The low half of each product
/// appears twice, once mixed with a counter word and a key word and once bare.
pub open spec fn block32(c: Seq<u32>, k: Seq<u32>) -> Seq<u32> {
    seq![
        lo32(c[0] * M0_32) ^ c[1] ^ k[0],
        lo32(c[0] * M0_32),
        lo32(c[2] * M1_32) ^ c[3] ^ k[1],
        lo32(c[2] * M1_32),
    ]
}

/// Word `i` of the stream that starts at counter `c` with key `k`: word `i % 4`
/// of the block produced after `i / 4` steps.
pub open spec fn word32(c: Seq<u32>, k: Seq<u32>, i: nat) -> u32 {
    block32(advance32(c, i / 4), k)[(i % 4) as int]
}

/// Number of steps a fill of `count` words takes: a last block that is only
/// partly used still costs a whole step.
pub open spec fn blocks32(count: nat) -> nat {
    (count + 3) / 4
}

/// A raw word reduced into the inclusive range `[min, max]`.
pub open spec fn bounded32(w: u32, min: i32, max: i32) -> i32 {
    (min + (w as int) % (max - min + 1)) as i32
}

/// A 32-bit generator: four counter words, two key words.
pub struct Philox32x4 {
    c: [u32; 4],
    k: [u32; 2],
}

impl Philox32x4 {
    /// The counter words.
    pub closed spec fn counter(&self) -> Seq<u32> {
        self.c@
    }

    /// The key words; they never change.
    pub closed spec fn key(&self) -> Seq<u32> {
        self.k@
    }

    /// Every reachable state: the second counter word trails the first by
    /// one, and the upper two words are zero.
    pub open spec fn wf(&self) -> bool {
        &&& self.counter().len() == 4
        &&& self.key().len() == 2
        &&& inc32(self.counter()[1]) == self.counter()[0]
        &&& self.counter()[2] == 0
        &&& self.counter()[3] == 0
    }

    /// A generator with the given key, at the initial counter.
    pub fn new(seed: [u32; 2]) -> (r: Self)
        ensures
            r.wf(),
            r.counter() == initial_counter32(),
            r.key() == seed@,
    {
        let r = Self { c: [1, 0, 0, 0], k: seed };
        assert(r.c@ =~= initial_counter32());
        r
    }

    /// Produces the block for the current counter and advances the counter.
    pub fn next(&mut self) -> (r: [u32; 4])
        requires
            old(self).wf(),
        ensures
            r@ == block32(old(self).counter(), old(self).key()),
            final(self).wf(),
            final(self).counter() == step32(old(self).counter()),
            final(self).key() == old(self).key(),
            r@[2] == old(self).key()[1],
            r@[3] == 0,
    {
        let p0 = self.c[0].wrapping_mul(M0_32);
        let p2 = self.c[2].wrapping_mul(M1_32);
        let out = [p0 ^ self.c[1] ^ self.k[0], p0, p2 ^ self.c[3] ^ self.k[1], p2];
        let k1 = self.k[1];
        assert(0u32 ^ 0u32 ^ k1 == k1) by (bit_vector);
        self.c[0] = self.c[0].wrapping_add(1);
        self.c[1] = self.c[1].wrapping_add(1);
        assert(out@ =~= block32(old(self).counter(), old(self).key()));
        assert(self.c@ =~= step32(old(self).counter()));
        out
    }
}

/// Creates a generator keyed by the two seed words.
pub fn philox32x4_new(seed1: u32, seed2: u32) -> (r: Philox32x4)
    ensures
        r.wf(),
        r.counter() == initial_counter32(),
        r.key() == seq![seed1, seed2],
{
    let r = Philox32x4::new([seed1, seed2]);
    assert(r.key() =~= seq![seed1, seed2]);
    r
}

/// Fills `out[..count]` with the generator's stream, one block per step; of a
/// last block that is only partly needed the remaining words are dropped.
pub fn next_u32s(rng: &mut Philox32x4, out: &mut [u32], count: usize)
    requires
        old(rng).wf(),
        count <= old(out)@.len(),
    ensures
        final(rng).wf(),
        final(rng).key() == old(rng).key(),
        final(rng).counter() == advance32(old(rng).counter(), blocks32(count as nat)),
        final(out)@.len() == old(out)@.len(),
        forall|i: int|
            0 <= i < count ==> final(out)@[i] == word32(
                old(rng).counter(),
                old(rng).key(),
                i as nat,
            ),
        forall|i: int| count <= i < old(out)@.len() ==> final(out)@[i] == old(out)@[i],
        count == 0 ==> final(out)@ == old(out)@ && final(rng).counter() == old(rng).counter(),
{
    let ghost c0 = rng.counter();
    let ghost k0 = rng.key();
    let ghost out0 = out@;
    let mut i: usize = 0;
    while i < count
        invariant
            i <= count,
            count <= out@.len(),
            out@.len() == out0.len(),
            i % 4 == 0 || i == count,
            rng.wf(),
            rng.key() == k0,
            rng.counter() == advance32(c0, blocks32(i as nat)),
            forall|j: int| 0 <= j < i ==> out@[j] == word32(c0, k0, j as nat),
            forall|j: int| i <= j < out0.len() ==> out@[j] == out0[j],
        decreases count - i,
    {
        let ghost start = i;
        let block = rng.next();
        assert(rng.counter() == advance32(c0, (start / 4 + 1) as nat));
        let mut j: usize = 0;
        while j < BLOCK_32 && i < count
            invariant
                start % 4 == 0,
                i == start + j,
                j <= 4,
                i <= count,
                count <= out@.len(),
                out@.len() == out0.len(),
                block@ == block32(advance32(c0, (start / 4) as nat), k0),
                forall|t: int| 0 <= t < i ==> out@[t] == word32(c0, k0, t as nat),
                forall|t: int| i <= t < out0.len() ==> out@[t] == out0[t],
            decreases 4 - j,
        {
            out[i] = block[j];
            i += 1;
            j += 1;
        }
        assert(blocks32(i as nat) == start / 4 + 1);
    }
    if count == 0 {
        assert(out@ =~= out0);
    }
}

/// Fills `out[..count]` with integers in `[min, max]`: each stream word is
/// taken modulo `max - min + 1` and offset by `min`.
pub fn rand_i32s(rng: &mut Philox32x4, out: &mut [i32], count: usize, min: i32, max: i32)
    requires
        old(rng).wf(),
        count <= old(out)@.len(),
        min <= max,
    ensures
        final(rng).wf(),
        final(rng).key() == old(rng).key(),
        final(rng).counter() == advance32(old(rng).counter(), blocks32(count as nat)),
        final(out)@.len() == old(out)@.len(),
        forall|i: int|
            0 <= i < count ==> final(out)@[i] == bounded32(
                word32(old(rng).counter(), old(rng).key(), i as nat),
                min,
                max,
            ),
        forall|i: int| 0 <= i < count ==> min <= #[trigger] final(out)@[i] <= max,
        forall|i: int| count <= i < old(out)@.len() ==> final(out)@[i] == old(out)@[i],
        count == 0 ==> final(out)@ == old(out)@ && final(rng).counter() == old(rng).counter(),
{
    let ghost c0 = rng.counter();
    let ghost k0 = rng.key();
    let ghost out0 = out@;
    let range: u64 = (max as i64 - min as i64 + 1) as u64;
    let mut i: usize = 0;
    while i < count
        invariant
            i <= count,
            count <= out@.len(),
            out@.len() == out0.len(),
            i % 4 == 0 || i == count,
            min <= max,
            range == max - min + 1,
            rng.wf(),
            rng.key() == k0,
            rng.counter() == advance32(c0, blocks32(i as nat)),
            forall|j: int|
                0 <= j < i ==> out@[j] == bounded32(word32(c0, k0, j as nat), min, max),
            forall|j: int| 0 <= j < i ==> min <= #[trigger] out@[j] <= max,
            forall|j: int| i <= j < out0.len() ==> out@[j] == out0[j],
        decreases count - i,
    {
        let ghost start = i;
        let block = rng.next();
        assert(rng.counter() == advance32(c0, (start / 4 + 1) as nat));
        let mut j: usize = 0;
        while j < BLOCK_32 && i < count
            invariant
                start % 4 == 0,
                i == start + j,
                j <= 4,
                i <= count,
                count <= out@.len(),
                out@.len() == out0.len(),
                min <= max,
                range == max - min + 1,
                block@ == block32(advance32(c0, (start / 4) as nat), k0),
                forall|t: int|
                    0 <= t < i ==> out@[t] == bounded32(word32(c0, k0, t as nat), min, max),
                forall|t: int| 0 <= t < i ==> min <= #[trigger] out@[t] <= max,
                forall|t: int| i <= t < out0.len() ==> out@[t] == out0[t],
            decreases 4 - j,
        {
            let v: u64 = block[j] as u64 % range;
            let x: i32 = (v as i64 + min as i64) as i32;
            out[i] = x;
            i += 1;
            j += 1;
        }
        assert(blocks32(i as nat) == start / 4 + 1);
    }
    if count == 0 {
        assert(out@ =~= out0);
    }
}

/// After `n` steps the first two counter words have each moved on by `n`,
/// modulo 2^32, and the upper two words are unchanged.
pub proof fn lemma_advance32(c: Seq<u32>, n: nat)
    requires
        c.len() == 4,
    ensures
        advance32(c, n).len() == 4,
        advance32(c, n)[0] == (c[0] + n) % 0x1_0000_0000,
        advance32(c, n)[1] == (c[1] + n) % 0x1_0000_0000,
        advance32(c, n)[2] == c[2],
        advance32(c, n)[3] == c[3],
    decreases n,
{
    if n > 0 {
        lemma_advance32(c, (n - 1) as nat);
        lemma_add_mod_noop(c[0] + n - 1, 1, 0x1_0000_0000);
        lemma_add_mod_noop(c[1] + n - 1, 1, 0x1_0000_0000);
    }
}

/// The pair of live counter words comes back to an earlier value exactly when
/// the number of steps in between is a multiple of 2^32: the counter runs
/// through 2^32 distinct states before it repeats, and no more.
pub proof fn lemma_counter_cycle32(c: Seq<u32>, i: nat, j: nat)
    requires
        c.len() == 4,
    ensures
        (advance32(c, i)[0] == advance32(c, j)[0] && advance32(c, i)[1] == advance32(c, j)[1])
            <==> i % 0x1_0000_0000 == j % 0x1_0000_0000,
{
    lemma_advance32(c, i);
    lemma_advance32(c, j);
    lemma_mod_equivalence(c[0] + i, c[0] + j, 0x1_0000_0000);
    lemma_mod_equivalence(c[1] + i, c[1] + j, 0x1_0000_0000);
    lemma_mod_equivalence(i as int, j as int, 0x1_0000_0000);
    assert((c[0] + i) - (c[0] + j) == i - j);
    assert((c[1] + i) - (c[1] + j) == i - j);
}

/// For a generator in any reachable state, the third and fourth words of every
/// later block are the second key word and zero.
pub proof fn lemma_upper_words32(g: Philox32x4, n: nat)
    requires
        g.wf(),
    ensures
        block32(advance32(g.counter(), n), g.key())[2] == g.key()[1],
        block32(advance32(g.counter(), n), g.key())[3] == 0,
{
    lemma_advance32(g.counter(), n);
    let k1 = g.key()[1];
    assert(0u32 ^ 0u32 ^ k1 == k1) by (bit_vector);
}

/// Two generators with the same key and counter (as any two made from the
/// same seed are) produce the same stream and pass through the same counters.
pub proof fn lemma_deterministic32(a: Philox32x4, b: Philox32x4)
    requires
        a.key() == b.key(),
        a.counter() == b.counter(),
    ensures
        forall|n: nat| #[trigger] advance32(a.counter(), n) == advance32(b.counter(), n),
        forall|i: nat| #[trigger] word32(a.counter(), a.key(), i) == word32(b.counter(), b.key(), i),
{
}

} // verus!
