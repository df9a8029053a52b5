//! Fixed-width integer byte layouts, big and little endian, as
//! mathematical sequences and as executable readers and writers.
use vstd::prelude::*;

verus! {

/// `256` raised to `n`: the number of distinct values that `n` bytes hold.
pub open spec fn pow256(n: nat) -> nat
    decreases n,
{
    if n == 0 {
        1
    } else {
        256 * pow256((n - 1) as nat)
    }
}

/// The low `n` bytes of `x`, most significant first.
pub open spec fn be_bytes(x: nat, n: nat) -> Seq<u8>
    decreases n,
{
    if n == 0 {
        seq![]
    } else {
        be_bytes(x / 256, (n - 1) as nat).push((x % 256) as u8)
    }
}

/// The number that `s` spells, most significant byte first.
pub open spec fn be_value(s: Seq<u8>) -> nat
    decreases s.len(),
{
    if s.len() == 0 {
        0
    } else {
        (be_value(s.drop_last()) * 256 + s.last()) as nat
    }
}

/// The low `n` bytes of `x`, least significant first.
pub open spec fn le_bytes(x: nat, n: nat) -> Seq<u8>
    decreases n,
{
    if n == 0 {
        seq![]
    } else {
        seq![(x % 256) as u8] + le_bytes(x / 256, (n - 1) as nat)
    }
}

/// The number that `s` spells, least significant byte first.
pub open spec fn le_value(s: Seq<u8>) -> nat
    decreases s.len(),
{
    if s.len() == 0 {
        0
    } else {
        (s[0] + 256 * le_value(s.drop_first())) as nat
    }
}

pub proof fn lemma_pow256_values()
    ensures
        pow256(1) == 256,
        pow256(2) == 65536,
        pow256(3) == 16777216,
        pow256(4) == 4294967296,
        pow256(7) == 72057594037927936,
        pow256(8) == 18446744073709551616,
{
    reveal_with_fuel(pow256, 9);
}

pub proof fn lemma_pow256_monotone(a: nat, b: nat)
    requires
        a <= b,
    ensures
        0 < pow256(a) <= pow256(b),
    decreases b,
{
    if b > 0 {
        if a == b {
            lemma_pow256_monotone(0, (b - 1) as nat);
        } else {
            lemma_pow256_monotone(a, (b - 1) as nat);
        }
    }
}

pub proof fn lemma_be_bytes_len(x: nat, n: nat)
    ensures
        be_bytes(x, n).len() == n,
    decreases n,
{
    if n > 0 {
        lemma_be_bytes_len(x / 256, (n - 1) as nat);
    }
}

pub proof fn lemma_le_bytes_len(x: nat, n: nat)
    ensures
        le_bytes(x, n).len() == n,
    decreases n,
{
    if n > 0 {
        lemma_le_bytes_len(x / 256, (n - 1) as nat);
    }
}

/// A value spelled in `len` bytes is below `256^len`.
pub proof fn lemma_be_value_bound(s: Seq<u8>)
    ensures
        be_value(s) < pow256(s.len()),
    decreases s.len(),
{
    if s.len() > 0 {
        lemma_be_value_bound(s.drop_last());
        let p = pow256((s.len() - 1) as nat);
        let v = be_value(s.drop_last());
        assert(v * 256 + s.last() < 256 * p) by (nonlinear_arith)
            requires
                v < p,
                s.last() < 256,
        ;
    }
}

/// A value spelled in `len` bytes is below `256^len`.
pub proof fn lemma_le_value_bound(s: Seq<u8>)
    ensures
        le_value(s) < pow256(s.len()),
    decreases s.len(),
{
    if s.len() > 0 {
        lemma_le_value_bound(s.drop_first());
        let p = pow256((s.len() - 1) as nat);
        let v = le_value(s.drop_first());
        assert(s[0] + 256 * v < 256 * p) by (nonlinear_arith)
            requires
                v < p,
                s[0] < 256,
        ;
    }
}

proof fn lemma_mod_step(x: nat, p: nat)
    requires
        p > 0,
    ensures
        (x / 256) % p * 256 + x % 256 == x % (256 * p),
{
    vstd::arithmetic::div_mod::lemma_breakdown(x as int, 256, p as int);
}

/// Reading back `n` big-endian bytes gives `x` modulo `256^n`.
pub proof fn lemma_be_round_trip(x: nat, n: nat)
    ensures
        be_value(be_bytes(x, n)) == x % pow256(n),
    decreases n,
{
    if n > 0 {
        let s = be_bytes(x, n);
        lemma_be_round_trip(x / 256, (n - 1) as nat);
        assert(s.drop_last() == be_bytes(x / 256, (n - 1) as nat));
        lemma_pow256_monotone(0, (n - 1) as nat);
        lemma_mod_step(x, pow256((n - 1) as nat));
    }
}

/// Reading back `n` little-endian bytes gives `x` modulo `256^n`.
pub proof fn lemma_le_round_trip(x: nat, n: nat)
    ensures
        le_value(le_bytes(x, n)) == x % pow256(n),
    decreases n,
{
    if n > 0 {
        let s = le_bytes(x, n);
        lemma_le_round_trip(x / 256, (n - 1) as nat);
        assert(s.drop_first() == le_bytes(x / 256, (n - 1) as nat));
        lemma_pow256_monotone(0, (n - 1) as nat);
        lemma_mod_step(x, pow256((n - 1) as nat));
    }
}

/// The leading big-endian byte of a value that fits is its top digit.
pub proof fn lemma_be_first(x: nat, n: nat)
    requires
        n > 0,
        x < pow256(n),
    ensures
        be_bytes(x, n)[0] == x / pow256((n - 1) as nat),
    decreases n,
{
    lemma_be_bytes_len(x, n);
    if n == 1 {
        lemma_pow256_values();
        assert(pow256(0) == 1);
        assert(be_bytes(x, 1) == seq![(x % 256) as u8]);
    } else {
        let m = (n - 1) as nat;
        let p = pow256((m - 1) as nat);
        lemma_pow256_monotone(0, (m - 1) as nat);
        assert(x / 256 < pow256(m)) by {
            vstd::arithmetic::div_mod::lemma_div_by_multiple_is_strongly_ordered(
                x as int, (256 * pow256(m)) as int, pow256(m) as int, 256);
        }
        lemma_be_first(x / 256, m);
        lemma_be_bytes_len(x / 256, m);
        assert(be_bytes(x, n)[0] == be_bytes(x / 256, m)[0]);
        assert(pow256(m) == 256 * p);
        vstd::arithmetic::div_mod::lemma_div_denominator(x as int, 256, p as int);
    }
}

/// Lexicographic order of byte strings, as a byte-by-byte comparison sees it.
pub open spec fn lex_lt(a: Seq<u8>, b: Seq<u8>) -> bool {
    ||| exists|i: int|
        0 <= i < a.len() && i < b.len() && a.take(i) == b.take(i) && a[i] < b[i]
    ||| (a.len() < b.len() && a == b.take(a.len() as int))
}

/// Big-endian bytes of equal width keep the numeric order.
pub proof fn lemma_be_order(x: nat, y: nat, n: nat)
    requires
        x < y < pow256(n),
    ensures
        lex_lt(be_bytes(x, n), be_bytes(y, n)),
    decreases n,
{
    lemma_be_bytes_len(x, n);
    lemma_be_bytes_len(y, n);
    if n == 0 {
    } else {
        let m = (n - 1) as nat;
        let a = be_bytes(x, n);
        let b = be_bytes(y, n);
        let a0 = be_bytes(x / 256, m);
        let b0 = be_bytes(y / 256, m);
        lemma_be_bytes_len(x / 256, m);
        lemma_be_bytes_len(y / 256, m);
        assert(y / 256 < pow256(m)) by {
            lemma_pow256_monotone(0, m);
            vstd::arithmetic::div_mod::lemma_div_by_multiple_is_strongly_ordered(
                y as int, (256 * pow256(m)) as int, pow256(m) as int, 256);
        }
        if x / 256 < y / 256 {
            lemma_be_order(x / 256, y / 256, m);
            let i = choose|i: int|
                0 <= i < a0.len() && i < b0.len() && a0.take(i) == b0.take(i) && a0[i] < b0[i];
            assert(a.take(i) == a0.take(i));
            assert(b.take(i) == b0.take(i));
            assert(a[i] == a0[i] && b[i] == b0[i]);
        } else {
            assert(x / 256 == y / 256) by {
                vstd::arithmetic::div_mod::lemma_div_is_ordered(x as int, y as int, 256);
            }
            assert(x % 256 < y % 256) by {
                vstd::arithmetic::div_mod::lemma_fundamental_div_mod(x as int, 256);
                vstd::arithmetic::div_mod::lemma_fundamental_div_mod(y as int, 256);
            }
            let i = m as int;
            assert(a.take(i) == a0);
            assert(b.take(i) == b0);
        }
    }
}

/// Appends the low `n` bytes of `x`, most significant first.
pub fn write_be(buf: &mut Vec<u8>, x: u64, n: usize)
    ensures
        final(buf)@ == old(buf)@ + be_bytes(x as nat, n as nat),
    decreases n,
{
    if n > 0 {
        write_be(buf, x / 256, n - 1);
        buf.push((x % 256) as u8);
        proof {
            assert(final(buf)@ == old(buf)@ + be_bytes(x as nat, n as nat));
        }
    } else {
        proof {
            assert(old(buf)@ + be_bytes(x as nat, 0) == old(buf)@);
        }
    }
}

/// Appends the low `n` bytes of `x`, least significant first.
pub fn write_le(buf: &mut Vec<u8>, x: u64, n: usize)
    ensures
        final(buf)@ == old(buf)@ + le_bytes(x as nat, n as nat),
    decreases n,
{
    if n > 0 {
        buf.push((x % 256) as u8);
        write_le(buf, x / 256, n - 1);
    } else {
        proof {
            assert(old(buf)@ + le_bytes(x as nat, 0) == old(buf)@);
        }
    }
}

/// The number spelled by the `n` bytes of `s` from `start`, most
/// significant first.
pub fn read_be(s: &[u8], start: usize, n: usize) -> (r: u64)
    requires
        n <= 8,
        start + n <= s.len(),
    ensures
        r == be_value(s@.subrange(start as int, start + n)),
{
    let mut r: u64 = 0;
    let mut k: usize = 0;
    while k < n
        invariant
            k <= n <= 8,
            start + n <= s.len(),
            r == be_value(s@.subrange(start as int, start + k)),
        decreases n - k,
    {
        let ghost prev = s@.subrange(start as int, start + k);
        let ghost next = s@.subrange(start as int, start + k + 1);
        proof {
            lemma_be_value_bound(prev);
            lemma_pow256_monotone(k as nat, 7);
            lemma_pow256_values();
            assert(next.drop_last() == prev);
            assert(r * 256 + 255 < 0x1_0000_0000_0000_0000) by (nonlinear_arith)
                requires
                    r < 0x100_0000_0000_0000,
            ;
        }
        r = r * 256 + s[start + k] as u64;
        k = k + 1;
    }
    r
}

/// The number spelled by the `n` bytes of `s` from `start`, least
/// significant first.
pub fn read_le(s: &[u8], start: usize, n: usize) -> (r: u64)
    requires
        n <= 8,
        start + n <= s.len(),
    ensures
        r == le_value(s@.subrange(start as int, start + n)),
    decreases n,
{
    if n == 0 {
        0
    } else {
        let ghost whole = s@.subrange(start as int, start + n);
        let ghost rest = s@.subrange(start + 1, start + n);
        proof {
            assert(whole.drop_first() == rest);
            lemma_le_value_bound(rest);
            lemma_pow256_monotone((n - 1) as nat, 7);
            lemma_pow256_values();
        }
        let high = read_le(s, start + 1, n - 1);
        s[start] as u64 + 256 * high
    }
}

} // verus!
