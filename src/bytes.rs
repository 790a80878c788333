//! Little-endian words: how an unsigned integer is laid out in a run of bytes.
use vstd::prelude::*;

verus! {

/// `256` raised to `n`: the number of values that `n` bytes can hold.
pub open spec fn pow256(n: nat) -> nat
    decreases n,
{
    if n == 0 {
        1
    } else {
        256 * pow256((n - 1) as nat)
    }
}

/// The unsigned value of the little-endian bytes `s`.
pub open spec fn le_val(s: Seq<u8>) -> nat
    decreases s.len(),
{
    if s.len() == 0 {
        0
    } else {
        s[0] as nat + 256 * le_val(s.subrange(1, s.len() as int))
    }
}

/// The `n` little-endian bytes of `x` (its low `n` bytes when it does not fit).
pub open spec fn le_bytes(x: nat, n: nat) -> Seq<u8>
    decreases n,
{
    if n == 0 {
        Seq::empty()
    } else {
        seq![(x % 256) as u8] + le_bytes(x / 256, (n - 1) as nat)
    }
}

/// The value of the `n` bytes of `b` that start at `i`.
pub open spec fn le_at(b: Seq<u8>, i: int, n: nat) -> nat {
    le_val(b.subrange(i, i + n))
}

pub proof fn lemma_pow256_values()
    ensures
        pow256(0) == 1,
        pow256(1) == 256,
        pow256(2) == 0x1_0000,
        pow256(3) == 0x100_0000,
        pow256(4) == 0x1_0000_0000,
        pow256(8) == 0x1_0000_0000_0000_0000,
{
    reveal_with_fuel(pow256, 9);
}

pub proof fn lemma_pow256_pos(n: nat)
    ensures
        pow256(n) >= 1,
    decreases n,
{
    if n > 0 {
        lemma_pow256_pos((n - 1) as nat);
    }
}

pub proof fn lemma_le_bytes_len(x: nat, n: nat)
    ensures
        le_bytes(x, n).len() == n,
    decreases n,
{
    if n > 0 {
        lemma_le_bytes_len(x / 256, (n - 1) as nat);
    }
}

/// A value of `s.len()` bytes is below `256` to that power.
pub proof fn lemma_le_val_bound(s: Seq<u8>)
    ensures
        le_val(s) < pow256(s.len()),
    decreases s.len(),
{
    if s.len() > 0 {
        let t = s.subrange(1, s.len() as int);
        lemma_le_val_bound(t);
        assert(pow256(s.len()) == 256 * pow256(t.len()));
        assert(s[0] as nat + 256 * le_val(t) < 256 * pow256(t.len())) by (nonlinear_arith)
            requires
                le_val(t) < pow256(t.len()),
                s[0] < 256,
        ;
    }
}

/// Reading back the bytes of a value that fits gives the value.
pub proof fn lemma_le_val_of_bytes(x: nat, n: nat)
    requires
        x < pow256(n),
    ensures
        le_val(le_bytes(x, n)) == x,
    decreases n,
{
    if n > 0 {
        let s = le_bytes(x, n);
        let t = le_bytes(x / 256, (n - 1) as nat);
        lemma_le_bytes_len(x / 256, (n - 1) as nat);
        assert(s.subrange(1, s.len() as int) =~= t);
        assert(x / 256 < pow256((n - 1) as nat)) by (nonlinear_arith)
            requires
                x < 256 * pow256((n - 1) as nat),
        ;
        lemma_le_val_of_bytes(x / 256, (n - 1) as nat);
    }
}

/// Reads the `n`-byte little-endian word of `b` that starts at `i`.
pub fn read_le(b: &[u8], i: usize, n: usize) -> (r: u64)
    requires
        n <= 8,
        i + n <= b@.len(),
    ensures
        r as nat == le_at(b@, i as int, n as nat),
{
    let len = b.len();
    let mut acc: u64 = 0;
    let mut k: usize = n;
    proof {
        lemma_pow256_values();
        assert(b@.subrange(i + n, i + n) =~= Seq::<u8>::empty());
    }
    while k > 0
        invariant
            n <= 8,
            i + n <= b@.len(),
            len == b@.len(),
            k <= n,
            acc as nat == le_val(b@.subrange(i + k, i + n)),
            pow256(8) == 0x1_0000_0000_0000_0000,
        decreases k,
    {
        let byte = b[i + (k - 1)];
        let ghost s = b@.subrange(i + k - 1, i + n);
        proof {
            assert(s.subrange(1, s.len() as int) =~= b@.subrange(i + k, i + n));
            lemma_le_val_bound(s);
            lemma_pow256_mono(s.len(), 8);
            assert(le_val(s) == b@[i + k - 1] as nat + 256 * acc as nat);
            assert((byte as nat) + 256 * (acc as nat) < 0x1_0000_0000_0000_0000);
        }
        acc = acc * 256 + byte as u64;
        k = k - 1;
    }
    acc
}

pub proof fn lemma_pow256_mono(a: nat, b: nat)
    requires
        a <= b,
    ensures
        pow256(a) <= pow256(b),
    decreases b,
{
    if a < b {
        lemma_pow256_mono(a, (b - 1) as nat);
        lemma_pow256_pos((b - 1) as nat);
    }
}

/// Appends the `n` little-endian bytes of `x`.
pub fn push_le(v: &mut Vec<u8>, x: u64, n: usize)
    requires
        n <= 8,
    ensures
        final(v)@ == old(v)@ + le_bytes(x as nat, n as nat),
{
    let mut y: u64 = x;
    let mut k: usize = 0;
    proof {
        assert(le_bytes(x as nat, 0) =~= Seq::<u8>::empty());
        assert(old(v)@ + le_bytes(x as nat, 0) =~= old(v)@);
    }
    while k < n
        invariant
            k <= n,
            old(v)@ + le_bytes(x as nat, n as nat) == v@ + le_bytes(y as nat, (n - k) as nat),
        decreases n - k,
    {
        let ghost before = v@;
        v.push((y % 256) as u8);
        proof {
            let rest = le_bytes(y as nat / 256, (n - k - 1) as nat);
            assert(le_bytes(y as nat, (n - k) as nat) == seq![(y as nat % 256) as u8] + rest);
            assert(before + (seq![(y as nat % 256) as u8] + rest) =~= v@ + rest);
        }
        y = y / 256;
        k = k + 1;
    }
    proof {
        assert(v@ + le_bytes(y as nat, 0) =~= v@);
    }
}

} // verus!
