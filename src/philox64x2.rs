use vstd::arithmetic::div_mod::{lemma_add_mod_noop, lemma_mod_equivalence};
use vstd::prelude::*;

verus! {

/// Multiplier applied to the first counter word.
pub const M0_64: u64 = 0xD2B74407B1CE6E93;

/// Number of words produced by one step of the generator.
pub const BLOCK_64: usize = 2;

/// Low 64 bits of a product.
pub open spec fn lo64(x: int) -> u64 {
    (x % 0x1_0000_0000_0000_0000) as u64
}

/// High 64 bits of a product of two 64-bit words.
pub open spec fn hi64(x: int) -> u64 {
    (x / 0x1_0000_0000_0000_0000) as u64
}

/// One counter word advanced by one, with wraparound.
pub open spec fn inc64(x: u64) -> u64 {
    ((x + 1) % 0x1_0000_0000_0000_0000) as u64
}

/// The counter with which every generator starts.
pub open spec fn initial_counter64() -> Seq<u64> {
    seq![1u64, 0u64]
}

/// The counter after one step: both words advance.
pub open spec fn step64(c: Seq<u64>) -> Seq<u64> {
    seq![inc64(c[0]), inc64(c[1])]
}

/// The counter after `n` steps.
pub open spec fn advance64(c: Seq<u64>, n: nat) -> Seq<u64>
    decreases n,
{
    if n == 0 {
        c
    } else {
        step64(advance64(c, (n - 1) as nat))
    }
}

/// The block of two words that one step outputs for counter `c` and key `k`:
/// the full 128-bit product of the first counter word and the multiplier,
/// its low half mixed with the second counter word and the first key word.
pub open spec fn block64(c: Seq<u64>, k: Seq<u64>) -> Seq<u64> {
    seq![lo64(c[0] * M0_64) ^ c[1] ^ k[0], hi64(c[0] * M0_64)]
}

/// Word `i` of the stream that starts at counter `c` with key `k`: word `i % 2`
/// of the block produced after `i / 2` steps.
pub open spec fn word64(c: Seq<u64>, k: Seq<u64>, i: nat) -> u64 {
    block64(advance64(c, i / 2), k)[(i % 2) as int]
}

/// Number of steps a fill of `count` words takes: a last block that is only
/// partly used still costs a whole step.
pub open spec fn blocks64(count: nat) -> nat {
    (count + 1) / 2
}

/// A raw word reduced into the inclusive range `[min, max]`.
pub open spec fn bounded64(w: u64, min: i64, max: i64) -> i64 {
    (min + (w as int) % (max - min + 1)) as i64
}

/// A 64-bit generator: two counter words, two key words.
pub struct Philox64x2 {
    c: [u64; 2],
    k: [u64; 2],
}

impl Philox64x2 {
    /// The counter words.
    pub closed spec fn counter(&self) -> Seq<u64> {
        self.c@
    }

    /// The key words; they never change.
    pub closed spec fn key(&self) -> Seq<u64> {
        self.k@
    }

    /// Every reachable state: the second counter word trails the first by one.
    pub open spec fn wf(&self) -> bool {
        &&& self.counter().len() == 2
        &&& self.key().len() == 2
        &&& inc64(self.counter()[1]) == self.counter()[0]
    }

    /// A generator with the given key, at the initial counter.
    pub fn new(seed: [u64; 2]) -> (r: Self)
        ensures
            r.wf(),
            r.counter() == initial_counter64(),
            r.key() == seed@,
    {
        let r = Self { c: [1, 0], k: seed };
        assert(r.c@ =~= initial_counter64());
        r
    }

    /// Produces the block for the current counter and advances the counter.
    pub fn next(&mut self) -> (r: [u64; 2])
        requires
            old(self).wf(),
        ensures
            r@ == block64(old(self).counter(), old(self).key()),
            final(self).wf(),
            final(self).counter() == step64(old(self).counter()),
            final(self).key() == old(self).key(),
    {
        let c0 = self.c[0];
        assert(c0 as int * M0_64 as int <= 0xFFFF_FFFF_FFFF_FFFF * M0_64 as int) by (nonlinear_arith)
            requires
                c0 <= 0xFFFF_FFFF_FFFF_FFFFu64,
        ;
        let prod: u128 = (c0 as u128) * (M0_64 as u128);
        let lo: u64 = prod as u64;
        let hi: u64 = (prod >> 64u32) as u64;
        assert(lo == prod % 0x1_0000_0000_0000_0000) by (bit_vector)
            requires
                lo == prod as u64,
        ;
        assert(hi == prod / 0x1_0000_0000_0000_0000) by (bit_vector)
            requires
                hi == (prod >> 64u32) as u64,
        ;
        let out = [lo ^ self.c[1] ^ self.k[0], hi];
        self.c[0] = self.c[0].wrapping_add(1);
        self.c[1] = self.c[1].wrapping_add(1);
        assert(out@ =~= block64(old(self).counter(), old(self).key()));
        assert(self.c@ =~= step64(old(self).counter()));
        out
    }
}

/// Creates a generator keyed by the two seed words.
pub fn philox64x2_new(seed1: u64, seed2: u64) -> (r: Philox64x2)
    ensures
        r.wf(),
        r.counter() == initial_counter64(),
        r.key() == seq![seed1, seed2],
{
    let r = Philox64x2::new([seed1, seed2]);
    assert(r.key() =~= seq![seed1, seed2]);
    r
}

/// Fills `out[..count]` with the generator's stream, one block per step; of a
/// last block that is only partly needed the remaining words are dropped.
pub fn next_u64s(rng: &mut Philox64x2, out: &mut [u64], count: usize)
    requires
        old(rng).wf(),
        count <= old(out)@.len(),
    ensures
        final(rng).wf(),
        final(rng).key() == old(rng).key(),
        final(rng).counter() == advance64(old(rng).counter(), blocks64(count as nat)),
        final(out)@.len() == old(out)@.len(),
        forall|i: int|
            0 <= i < count ==> final(out)@[i] == word64(
                old(rng).counter(),
                old(rng).key(),
                i as nat,
            ),
        forall|i: int| count <= i < old(out)@.len() ==> final(out)@[i] == old(out)@[i],
        count == 0 ==> final(out)@ == old(out)@ && final(rng).counter() == old(rng).counter(),
{
    let ghost c0 = rng.counter();
    let ghost k0 = rng.key();
    let ghost out0 = out@;
    let mut i: usize = 0;
    while i < count
        invariant
            i <= count,
            count <= out@.len(),
            out@.len() == out0.len(),
            i % 2 == 0 || i == count,
            rng.wf(),
            rng.key() == k0,
            rng.counter() == advance64(c0, blocks64(i as nat)),
            forall|j: int| 0 <= j < i ==> out@[j] == word64(c0, k0, j as nat),
            forall|j: int| i <= j < out0.len() ==> out@[j] == out0[j],
        decreases count - i,
    {
        let ghost start = i;
        let block = rng.next();
        assert(rng.counter() == advance64(c0, (start / 2 + 1) as nat));
        let mut j: usize = 0;
        while j < BLOCK_64 && i < count
            invariant
                start % 2 == 0,
                i == start + j,
                j <= 2,
                i <= count,
                count <= out@.len(),
                out@.len() == out0.len(),
                block@ == block64(advance64(c0, (start / 2) as nat), k0),
                forall|t: int| 0 <= t < i ==> out@[t] == word64(c0, k0, t as nat),
                forall|t: int| i <= t < out0.len() ==> out@[t] == out0[t],
            decreases 2 - j,
        {
            out[i] = block[j];
            i += 1;
            j += 1;
        }
        assert(blocks64(i as nat) == start / 2 + 1);
    }
    if count == 0 {
        assert(out@ =~= out0);
    }
}

/// Fills `out[..count]` with integers in `[min, max]`: each stream word is
/// taken modulo `max - min + 1` and offset by `min`.
pub fn rand_i64s(rng: &mut Philox64x2, out: &mut [i64], count: usize, min: i64, max: i64)
    requires
        old(rng).wf(),
        count <= old(out)@.len(),
        min <= max,
    ensures
        final(rng).wf(),
        final(rng).key() == old(rng).key(),
        final(rng).counter() == advance64(old(rng).counter(), blocks64(count as nat)),
        final(out)@.len() == old(out)@.len(),
        forall|i: int|
            0 <= i < count ==> final(out)@[i] == bounded64(
                word64(old(rng).counter(), old(rng).key(), i as nat),
                min,
                max,
            ),
        forall|i: int| 0 <= i < count ==> min <= #[trigger] final(out)@[i] <= max,
        forall|i: int| count <= i < old(out)@.len() ==> final(out)@[i] == old(out)@[i],
        count == 0 ==> final(out)@ == old(out)@ && final(rng).counter() == old(rng).counter(),
{
    let ghost c0 = rng.counter();
    let ghost k0 = rng.key();
    let ghost out0 = out@;
    let range: u128 = (max as i128 - min as i128 + 1) as u128;
    let mut i: usize = 0;
    while i < count
        invariant
            i <= count,
            count <= out@.len(),
            out@.len() == out0.len(),
            i % 2 == 0 || i == count,
            min <= max,
            range == max - min + 1,
            rng.wf(),
            rng.key() == k0,
            rng.counter() == advance64(c0, blocks64(i as nat)),
            forall|j: int|
                0 <= j < i ==> out@[j] == bounded64(word64(c0, k0, j as nat), min, max),
            forall|j: int| 0 <= j < i ==> min <= #[trigger] out@[j] <= max,
            forall|j: int| i <= j < out0.len() ==> out@[j] == out0[j],
        decreases count - i,
    {
        let ghost start = i;
        let block = rng.next();
        assert(rng.counter() == advance64(c0, (start / 2 + 1) as nat));
        let mut j: usize = 0;
        while j < BLOCK_64 && i < count
            invariant
                start % 2 == 0,
                i == start + j,
                j <= 2,
                i <= count,
                count <= out@.len(),
                out@.len() == out0.len(),
                min <= max,
                range == max - min + 1,
                block@ == block64(advance64(c0, (start / 2) as nat), k0),
                forall|t: int|
                    0 <= t < i ==> out@[t] == bounded64(word64(c0, k0, t as nat), min, max),
                forall|t: int| 0 <= t < i ==> min <= #[trigger] out@[t] <= max,
                forall|t: int| i <= t < out0.len() ==> out@[t] == out0[t],
            decreases 2 - j,
        {
            let v: u128 = block[j] as u128 % range;
            let x: i64 = (v as i128 + min as i128) as i64;
            out[i] = x;
            i += 1;
            j += 1;
        }
        assert(blocks64(i as nat) == start / 2 + 1);
    }
    if count == 0 {
        assert(out@ =~= out0);
    }
}

/// After `n` steps both counter words have moved on by `n`, modulo 2^64.
pub proof fn lemma_advance64(c: Seq<u64>, n: nat)
    requires
        c.len() == 2,
    ensures
        advance64(c, n).len() == 2,
        advance64(c, n)[0] == (c[0] + n) % 0x1_0000_0000_0000_0000,
        advance64(c, n)[1] == (c[1] + n) % 0x1_0000_0000_0000_0000,
    decreases n,
{
    if n > 0 {
        lemma_advance64(c, (n - 1) as nat);
        lemma_add_mod_noop(c[0] + n - 1, 1, 0x1_0000_0000_0000_0000);
        lemma_add_mod_noop(c[1] + n - 1, 1, 0x1_0000_0000_0000_0000);
    }
}

/// The counter comes back to an earlier value exactly when the number of
/// steps in between is a multiple of 2^64: the counter runs through 2^64
/// distinct states before it repeats, and no more.
pub proof fn lemma_counter_cycle64(c: Seq<u64>, i: nat, j: nat)
    requires
        c.len() == 2,
    ensures
        (advance64(c, i)[0] == advance64(c, j)[0] && advance64(c, i)[1] == advance64(c, j)[1])
            <==> i % 0x1_0000_0000_0000_0000 == j % 0x1_0000_0000_0000_0000,
{
    lemma_advance64(c, i);
    lemma_advance64(c, j);
    lemma_mod_equivalence(c[0] + i, c[0] + j, 0x1_0000_0000_0000_0000);
    lemma_mod_equivalence(c[1] + i, c[1] + j, 0x1_0000_0000_0000_0000);
    lemma_mod_equivalence(i as int, j as int, 0x1_0000_0000_0000_0000);
    assert((c[0] + i) - (c[0] + j) == i - j);
    assert((c[1] + i) - (c[1] + j) == i - j);
}

/// Two generators with the same key and counter (as any two made from the
/// same seed are) produce the same stream and pass through the same counters.
pub proof fn lemma_deterministic64(a: Philox64x2, b: Philox64x2)
    requires
        a.key() == b.key(),
        a.counter() == b.counter(),
    ensures
        forall|n: nat| #[trigger] advance64(a.counter(), n) == advance64(b.counter(), n),
        forall|i: nat| #[trigger] word64(a.counter(), a.key(), i) == word64(b.counter(), b.key(), i),
{
}

} // verus!
