//! The weak rolling checksum over a window of bytes.
use vstd::arithmetic::div_mod::{lemma_fundamental_div_mod, lemma_mod_multiples_vanish};
use vstd::prelude::*;

verus! {

/// Modulus applied after every update of the checksum, and the factor that
/// combines its two sums into a digest.
pub const LARGE_PRIME_MOD: u32 = 21191;

/// Sum of the bytes of `s`.
pub open spec fn byte_sum(s: Seq<u8>) -> int
    decreases s.len(),
{
    if s.len() == 0 {
        0
    } else {
        s[0] as int + byte_sum(s.drop_first())
    }
}

/// Sum of the bytes of `s`, each weighted by the number of bytes from it to
/// the end of `s`, itself included: the first byte weighs `s.len()`.
pub open spec fn weighted_sum(s: Seq<u8>) -> int
    decreases s.len(),
{
    if s.len() == 0 {
        0
    } else {
        s[0] as int * s.len() + weighted_sum(s.drop_first())
    }
}

/// State of the rolling checksum: the simple sum, the weighted sum and the
/// window length, each reduced modulo `LARGE_PRIME_MOD` as the operations say.
pub struct RollingWindow {
    pub block_sum: u32,
    pub all_blocks_sum: u32,
    pub window_size: u32,
}

/// The state of an empty window.
pub open spec fn empty_window() -> RollingWindow {
    RollingWindow { block_sum: 0, all_blocks_sum: 0, window_size: 0 }
}

/// The state after appending `buf` to `w`: both sums of `buf` and its length
/// are added in 32-bit wrapping arithmetic, then reduced.
pub open spec fn appended(w: RollingWindow, buf: Seq<u8>) -> RollingWindow {
    RollingWindow {
        block_sum: (((w.block_sum + byte_sum(buf)) % 0x1_0000_0000) % (LARGE_PRIME_MOD as int)) as u32,
        all_blocks_sum: (((w.all_blocks_sum + weighted_sum(buf)) % 0x1_0000_0000) % (
        LARGE_PRIME_MOD as int)) as u32,
        window_size: (((w.window_size + buf.len()) % 0x1_0000_0000) % (
        LARGE_PRIME_MOD as int)) as u32,
    }
}

/// The state after dropping `prev` at the front of the window of `w` and, where
/// `next` is given, taking it in at the back; the weighted sum is updated with
/// the new simple sum, and without `next` the window shrinks by one (in
/// 32-bit wrapping arithmetic).
pub open spec fn rolled(w: RollingWindow, prev: u8, next: Option<u8>) -> RollingWindow {
    let nx: int = match next {
        Some(b) => b as int,
        None => 0,
    };
    let a = (w.block_sum - prev + nx) % (LARGE_PRIME_MOD as int);
    RollingWindow {
        block_sum: a as u32,
        all_blocks_sum: ((w.all_blocks_sum - w.window_size * prev + a) % (
        LARGE_PRIME_MOD as int)) as u32,
        window_size: if next is None {
            if w.window_size == 0 {
                0xffff_ffff
            } else {
                (w.window_size - 1) as u32
            }
        } else {
            w.window_size
        },
    }
}

/// The digest of a state, in 32-bit wrapping arithmetic.
pub open spec fn digest_of(w: RollingWindow) -> u32 {
    ((w.block_sum + w.all_blocks_sum * LARGE_PRIME_MOD) % 0x1_0000_0000) as u32
}

/// The weak checksum of a window computed from scratch.
pub open spec fn weak_hash(buf: Seq<u8>) -> u32 {
    digest_of(appended(empty_window(), buf))
}

proof fn lemma_byte_sum_push(s: Seq<u8>, x: u8)
    ensures
        byte_sum(s.push(x)) == byte_sum(s) + x,
    decreases s.len(),
{
    if s.len() > 0 {
        assert(s.push(x).drop_first() =~= s.drop_first().push(x));
        lemma_byte_sum_push(s.drop_first(), x);
    } else {
        assert(s.push(x).drop_first() =~= s);
    }
}

proof fn lemma_weighted_sum_push(s: Seq<u8>, x: u8)
    ensures
        weighted_sum(s.push(x)) == weighted_sum(s) + byte_sum(s.push(x)),
    decreases s.len(),
{
    if s.len() > 0 {
        assert(s.push(x).drop_first() =~= s.drop_first().push(x));
        lemma_weighted_sum_push(s.drop_first(), x);
        assert(s.push(x)[0] == s[0]);
        assert(s[0] as int * (s.len() + 1) == s[0] as int * s.len() + s[0]) by (nonlinear_arith);
    } else {
        assert(s.push(x).drop_first() =~= s);
        assert(s.push(x)[0] == x);
        assert(byte_sum(s) == 0 && weighted_sum(s) == 0);
    }
}

/// Reducing one summand first does not change a remainder.
proof fn lemma_mod_absorb(x: int, y: int, m: int)
    requires
        m > 0,
    ensures
        (x % m + y) % m == (x + y) % m,
{
    lemma_fundamental_div_mod(x, m);
    lemma_mod_multiples_vanish(-(x / m), x + y, m);
    assert(m * (-(x / m)) + (x + y) == x % m + y) by (nonlinear_arith)
        requires
            x == m * (x / m) + (x % m),
    ;
}

/// Rolling a window whose state was computed from scratch, by its first byte
/// and a new last byte, gives the state computed from scratch of the shifted
/// window. It holds while the window is shorter than the modulus and neither
/// sum of either window wraps in 32 bits; beyond that, appending to a
/// non-empty window or shrinking it does not keep the two states equal.
pub proof fn lemma_roll_matches_fresh(w: Seq<u8>, next: u8)
    requires
        1 <= w.len() < LARGE_PRIME_MOD,
        weighted_sum(w) < 0x1_0000_0000,
        weighted_sum(w.drop_first().push(next)) < 0x1_0000_0000,
    ensures
        rolled(appended(empty_window(), w), w[0], Some(next)) == appended(
            empty_window(),
            w.drop_first().push(next),
        ),
        digest_of(rolled(appended(empty_window(), w), w[0], Some(next))) == weak_hash(
            w.drop_first().push(next),
        ),
{
    let m = LARGE_PRIME_MOD as int;
    let v = w.drop_first().push(next);
    lemma_sums_bounded(w);
    lemma_sums_bounded(v);
    lemma_byte_sum_push(w.drop_first(), next);
    lemma_weighted_sum_push(w.drop_first(), next);
    let s0 = appended(empty_window(), w);
    assert(s0.block_sum == byte_sum(w) % m);
    assert(s0.all_blocks_sum == weighted_sum(w) % m);
    assert(s0.window_size == w.len());
    lemma_mod_absorb(byte_sum(w), -(w[0] as int) + next, m);
    assert(byte_sum(v) == byte_sum(w) - w[0] + next);
    assert(w[0] as int * w.len() == w.len() * w[0] as int) by (nonlinear_arith);
    assert(weighted_sum(v) == weighted_sum(w) - w.len() * w[0] + byte_sum(v));
    lemma_mod_absorb(weighted_sum(w), -(w.len() * w[0]) + byte_sum(v) % m, m);
    lemma_mod_absorb(byte_sum(v), weighted_sum(w) - w.len() * w[0], m);
}

proof fn lemma_wrapping_add(x: u32, y: u32)
    ensures
        x.wrapping_add(y) == (x + y) % 0x1_0000_0000,
{
    if x + y > 0xffff_ffff {
        lemma_mod_multiples_vanish(-1, x + y, 0x1_0000_0000);
        assert((x + y - 0x1_0000_0000) % 0x1_0000_0000 == x + y - 0x1_0000_0000);
    } else {
        assert((x + y) % 0x1_0000_0000 == x + y);
    }
}

/// One step of the loop that sums a buffer: both sums stay the sums of the
/// prefix read so far, in 32-bit wrapping arithmetic.
proof fn lemma_checksum_step(s: Seq<u8>, i: int, a: u32, b: u32)
    requires
        0 <= i < s.len(),
        a == byte_sum(s.take(i)) % 0x1_0000_0000,
        b == weighted_sum(s.take(i)) % 0x1_0000_0000,
    ensures
        a.wrapping_add(s[i] as u32) == byte_sum(s.take(i + 1)) % 0x1_0000_0000,
        b.wrapping_add(a.wrapping_add(s[i] as u32)) == weighted_sum(s.take(i + 1))
            % 0x1_0000_0000,
{
    let w: int = 0x1_0000_0000;
    let p = s.take(i);
    assert(s.take(i + 1) =~= p.push(s[i]));
    lemma_byte_sum_push(p, s[i]);
    lemma_weighted_sum_push(p, s[i]);
    let a2 = a.wrapping_add(s[i] as u32);
    lemma_wrapping_add(a, s[i] as u32);
    lemma_wrapping_add(b, a2);
    lemma_mod_absorb(byte_sum(p), s[i] as int, w);
    lemma_mod_absorb(weighted_sum(p), a2 as int, w);
    lemma_mod_absorb(byte_sum(s.take(i + 1)), weighted_sum(p), w);
}

/// The state after rolling `w` along `s` for `steps` bytes, from the window of
/// `k` bytes at `start`: each step drops the window's first byte and takes in
/// the byte after its end.
pub open spec fn roll_along(w: RollingWindow, s: Seq<u8>, k: int, start: int, steps: nat) -> RollingWindow
    decreases steps,
{
    if steps == 0 {
        w
    } else {
        roll_along(rolled(w, s[start], Some(s[start + k])), s, k, start + 1, (steps - 1) as nat)
    }
}

/// Any number of rolls along a buffer, starting from a window computed from
/// scratch, gives the state computed from scratch of the window reached,
/// while windows are shorter than the modulus and no weighted sum of a window
/// passed wraps in 32 bits.
pub proof fn lemma_roll_along_matches_fresh(s: Seq<u8>, k: int, start: int, steps: nat)
    requires
        1 <= k < LARGE_PRIME_MOD,
        0 <= start,
        start + steps + k <= s.len(),
        forall|j: int|
            start <= j <= start + steps ==> #[trigger] weighted_sum(s.subrange(j, j + k))
                < 0x1_0000_0000,
    ensures
        roll_along(appended(empty_window(), s.subrange(start, start + k)), s, k, start, steps)
            == appended(empty_window(), s.subrange(start + steps, start + steps + k)),
        digest_of(
            roll_along(appended(empty_window(), s.subrange(start, start + k)), s, k, start, steps),
        ) == weak_hash(s.subrange(start + steps, start + steps + k)),
    decreases steps,
{
    if steps > 0 {
        let w = s.subrange(start, start + k);
        let v = s.subrange(start + 1, start + 1 + k);
        assert(w.drop_first().push(s[start + k]) =~= v);
        assert(weighted_sum(s.subrange(start, start + k)) < 0x1_0000_0000);
        assert(weighted_sum(s.subrange(start + 1, start + 1 + k)) < 0x1_0000_0000);
        lemma_roll_matches_fresh(w, s[start + k]);
        lemma_roll_along_matches_fresh(s, k, start + 1, (steps - 1) as nat);
    }
}

/// The simple sum of a window never exceeds its weighted sum.
proof fn lemma_sums_bounded(s: Seq<u8>)
    ensures
        0 <= byte_sum(s) <= weighted_sum(s),
    decreases s.len(),
{
    if s.len() > 0 {
        lemma_sums_bounded(s.drop_first());
        assert(s[0] as int * s.len() >= s[0] as int) by (nonlinear_arith)
            requires
                s.len() >= 1,
        ;
    }
}

impl RollingWindow {
    /// A checksum over an empty window.
    pub fn generate() -> (r: Self)
        ensures
            r == empty_window(),
    {
        Self { block_sum: 0, all_blocks_sum: 0, window_size: 0 }
    }

    /// The digest of the current window: the simple sum plus the weighted sum
    /// times the modulus, in 32-bit wrapping arithmetic.
    pub fn sha256_digest(&self) -> (r: u32)
        ensures
            r == digest_of(*self),
    {
        self.block_sum.wrapping_add(self.all_blocks_sum.wrapping_mul(LARGE_PRIME_MOD))
    }

    /// Extends the window on the right by the bytes of `byte_buf`.
    pub fn add_bytes_at_end(&mut self, byte_buf: &[u8])
        ensures
            *final(self) == appended(*old(self), byte_buf@),
    {
        let ghost s = byte_buf@;
        let mut block_size: u32 = 0;
        let mut all_blocks_size: u32 = 0;
        let mut i: usize = 0;
        while i < byte_buf.len()
            invariant
                s == byte_buf@,
                0 <= i <= s.len(),
                block_size == byte_sum(s.take(i as int)) % 0x1_0000_0000,
                all_blocks_size == weighted_sum(s.take(i as int)) % 0x1_0000_0000,
            decreases s.len() - i,
        {
            proof {
                lemma_checksum_step(s, i as int, block_size, all_blocks_size);
            }
            block_size = block_size.wrapping_add(byte_buf[i] as u32);
            all_blocks_size = all_blocks_size.wrapping_add(block_size);
            i = i + 1;
        }
        let byte_length: u32 = (byte_buf.len() as u64 % 0x1_0000_0000) as u32;
        proof {
            assert(s.take(s.len() as int) =~= s);
            lemma_wrapping_add(block_size, self.block_sum);
            lemma_wrapping_add(all_blocks_size, self.all_blocks_sum);
            lemma_wrapping_add(byte_length, self.window_size);
            lemma_mod_absorb(byte_sum(s), self.block_sum as int, 0x1_0000_0000);
            lemma_mod_absorb(weighted_sum(s), self.all_blocks_sum as int, 0x1_0000_0000);
            lemma_mod_absorb(s.len() as int, self.window_size as int, 0x1_0000_0000);
        }
        self.block_sum = block_size.wrapping_add(self.block_sum) % LARGE_PRIME_MOD;
        self.all_blocks_sum = all_blocks_size.wrapping_add(self.all_blocks_sum) % LARGE_PRIME_MOD;
        self.window_size = byte_length.wrapping_add(self.window_size) % LARGE_PRIME_MOD;
    }

    /// Drops `prev` at the front of the window and, where `next` is given,
    /// takes it in at the back; without `next` the window shrinks by one.
    pub fn roll_window(&mut self, prev: u8, next: Option<u8>)
        ensures
            *final(self) == rolled(*old(self), prev, next),
    {
        let m: u64 = LARGE_PRIME_MOD as u64;
        let nx: u64 = match next {
            Some(b) => b as u64,
            None => 0,
        };
        let a: u64 = (self.block_sum as u64 + nx + m - prev as u64) % m;
        assert(self.window_size as u64 * prev as u64 <= 0xffff_ffff * 0xff) by (nonlinear_arith)
            requires
                self.window_size <= 0xffff_ffff,
                prev <= 0xff,
        ;
        let q: u64 = (self.window_size as u64 * prev as u64) % m;
        let b: u64 = (self.all_blocks_sum as u64 + a + m - q) % m;
        proof {
            let ghost sa = self.block_sum as int - prev + nx;
            lemma_mod_multiples_vanish(1, sa, m as int);
            let ghost np = self.window_size as int * prev as int;
            lemma_fundamental_div_mod(np, m as int);
            let ghost mi = m as int;
            let ghost sb = self.all_blocks_sum as int - np + a;
            assert(self.all_blocks_sum as int + a + mi - q == mi * (1 + np / mi) + sb) by (
            nonlinear_arith)
                requires
                    np == mi * (np / mi) + q,
                    sb == self.all_blocks_sum as int - np + a,
            ;
            lemma_mod_multiples_vanish(1 + np / mi, sb, mi);
        }
        self.block_sum = a as u32;
        self.all_blocks_sum = b as u32;
        if next.is_none() {
            self.window_size = self.window_size.wrapping_sub(1);
        }
    }
}

impl Default for RollingWindow {
    fn default() -> (r: Self)
        ensures
            r == empty_window(),
    {
        Self::generate()
    }
}

/// The weak checksum of `chunk` computed from scratch.
pub fn rolling_window_checksum(chunk: &[u8]) -> (r: u32)
    ensures
        r == weak_hash(chunk@),
{
    let mut checksum = RollingWindow::generate();
    checksum.add_bytes_at_end(chunk);
    checksum.sha256_digest()
}

} // verus!
