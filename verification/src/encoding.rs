//! Little-endian integer encoding used by the block header, the share
//! pre-filter and the transaction byte format.

use vstd::prelude::*;

verus! {

/// The `n` low bytes of `v`, least significant first.
pub open spec fn le_bytes(v: nat, n: nat) -> Seq<u8>
    decreases n,
{
    if n == 0 {
        Seq::empty()
    } else {
        seq![(v % 256) as u8] + le_bytes(v / 256, (n - 1) as nat)
    }
}

/// The number that little-endian bytes stand for.
pub open spec fn le_value(s: Seq<u8>) -> nat
    decreases s.len(),
{
    if s.len() == 0 {
        0
    } else {
        s[0] as nat + 256 * le_value(s.drop_first())
    }
}

pub proof fn lemma_le_bytes_len(v: nat, n: nat)
    ensures
        le_bytes(v, n).len() == n,
    decreases n,
{
    if n > 0 {
        lemma_le_bytes_len(v / 256, (n - 1) as nat);
    }
}

/// Appends the `n` low bytes of `v` to `out`, least significant first.
pub fn push_le(out: &mut Vec<u8>, v: u64, n: usize)
    requires
        n <= 8,
    ensures
        final(out)@ == old(out)@ + le_bytes(v as nat, n as nat),
{
    let mut x: u64 = v;
    let mut i: usize = 0;
    assert(old(out)@ + le_bytes(v as nat, n as nat) =~= out@ + le_bytes(x as nat, (n - i) as nat));
    while i < n
        invariant
            i <= n,
            out@ + le_bytes(x as nat, (n - i) as nat) == old(out)@ + le_bytes(v as nat, n as nat),
        decreases n - i,
    {
        let ghost before = out@;
        let ghost rest = le_bytes((x / 256) as nat, (n - i - 1) as nat);
        out.push((x % 256) as u8);
        assert(le_bytes(x as nat, (n - i) as nat) == seq![(x % 256) as u8] + rest);
        assert(before + (seq![(x % 256) as u8] + rest) =~= out@ + rest);
        x = x / 256;
        i = i + 1;
    }
    assert(le_bytes(x as nat, 0) =~= Seq::<u8>::empty());
    assert(out@ + Seq::<u8>::empty() =~= out@);
}

/// Appends every byte of `bytes` to `out`.
pub fn push_all(out: &mut Vec<u8>, bytes: &[u8])
    ensures
        final(out)@ == old(out)@ + bytes@,
{
    let mut i: usize = 0;
    while i < bytes.len()
        invariant
            i <= bytes@.len(),
            out@ == old(out)@ + bytes@.take(i as int),
        decreases bytes@.len() - i,
    {
        out.push(bytes[i]);
        assert(bytes@.take(i as int + 1) =~= bytes@.take(i as int).push(bytes@[i as int]));
        i = i + 1;
    }
    assert(bytes@.take(bytes@.len() as int) =~= bytes@);
}

/// Reads eight little-endian bytes as a number.
pub fn read_u64_le(bytes: &[u8; 32]) -> (r: u64)
    ensures
        r == le_value(bytes@.take(8)),
{
    let mut acc: u64 = 0;
    let mut i: usize = 8;
    proof {
        assert(bytes@.take(8).skip(8) =~= Seq::<u8>::empty());
    }
    while i > 0
        invariant
            i <= 8,
            acc == le_value(bytes@.take(8).skip(i as int)),
            acc < pow256((8 - i) as nat),
        decreases i,
    {
        let ghost tail = bytes@.take(8).skip(i as int);
        let ghost longer = bytes@.take(8).skip(i - 1);
        assert(longer.drop_first() =~= tail);
        assert(longer[0] == bytes@[i - 1]);
        assert(acc * 256 + 255 < pow256((8 - i + 1) as nat)) by {
            assert(pow256((8 - i + 1) as nat) == 256 * pow256((8 - i) as nat));
        }
        assert(pow256((8 - i + 1) as nat) <= pow256(8)) by {
            lemma_pow256_mono((8 - i + 1) as nat, 8);
        }
        assert(pow256(8) == 0x1_0000_0000_0000_0000) by {
            reveal_with_fuel(pow256, 9);
        }
        acc = acc * 256 + bytes[i - 1] as u64;
        i = i - 1;
    }
    assert(bytes@.take(8).skip(0) =~= bytes@.take(8));
    acc
}

pub open spec fn pow256(n: nat) -> nat
    decreases n,
{
    if n == 0 {
        1
    } else {
        256 * pow256((n - 1) as nat)
    }
}

pub proof fn lemma_pow256_mono(a: nat, b: nat)
    requires
        a <= b,
    ensures
        pow256(a) <= pow256(b),
    decreases b,
{
    if a < b {
        lemma_pow256_mono(a, (b - 1) as nat);
    }
}

/// Appending a byte adds it at the next power of 256.
pub proof fn lemma_le_value_push(s: Seq<u8>, b: u8)
    ensures
        le_value(s.push(b)) == le_value(s) + b * pow256(s.len()),
    decreases s.len(),
{
    if s.len() == 0 {
        assert(s.push(b).drop_first() =~= Seq::<u8>::empty());
        assert(le_value(Seq::<u8>::empty()) == 0);
        assert(s.push(b)[0] == b);
        assert(le_value(s.push(b)) == b + 256 * le_value(s.push(b).drop_first()));
        assert(le_value(s.push(b)) == b);
        assert(pow256(0) == 1);
        assert(b * pow256(0) == b);
    } else {
        let t = s.drop_first();
        assert(s.push(b).drop_first() =~= t.push(b));
        assert(s.push(b)[0] == s[0]);
        lemma_le_value_push(t, b);
        let n = t.len();
        let lt = le_value(t);
        assert(pow256(n + 1) == 256 * pow256(n));
        assert(256 * (lt + b * pow256(n)) == 256 * lt + b * pow256(n + 1)) by (nonlinear_arith)
            requires
                pow256(n + 1) == 256 * pow256(n),
        ;
        assert(le_value(s.push(b)) == s[0] + 256 * le_value(t.push(b)));
        assert(le_value(s) == s[0] + 256 * lt);
    }
}

/// A number in `n` bytes is below `256^n`.
pub proof fn lemma_le_value_bound(s: Seq<u8>)
    ensures
        le_value(s) < pow256(s.len()),
    decreases s.len(),
{
    if s.len() > 0 {
        lemma_le_value_bound(s.drop_first());
        let r = le_value(s.drop_first());
        let n = (s.len() - 1) as nat;
        assert(s[0] + 256 * r < 256 * pow256(n)) by (nonlinear_arith)
            requires
                s[0] < 256,
                r < pow256(n),
        ;
    }
}

/// The bytes of a number read back give the number.
pub proof fn lemma_le_bytes_of_value(s: Seq<u8>)
    ensures
        le_bytes(le_value(s), s.len()) == s,
    decreases s.len(),
{
    if s.len() > 0 {
        let r = le_value(s.drop_first());
        let v = le_value(s);
        assert(v % 256 == s[0] && v / 256 == r) by {
            vstd::arithmetic::div_mod::lemma_fundamental_div_mod_converse(v as int, 256, r as int, s[0] as int);
        }
        lemma_le_bytes_of_value(s.drop_first());
        assert(le_bytes(v, s.len()) =~= s);
    }
}

/// Reading the `n` bytes of a number below `256^n` gives the number.
pub proof fn lemma_le_value_of_bytes(v: nat, n: nat)
    requires
        v < pow256(n),
    ensures
        le_value(le_bytes(v, n)) == v,
    decreases n,
{
    lemma_le_bytes_len(v, n);
    if n > 0 {
        let s = le_bytes(v, n);
        assert(s.drop_first() =~= le_bytes(v / 256, (n - 1) as nat));
        assert(v / 256 < pow256((n - 1) as nat)) by (nonlinear_arith)
            requires
                v < 256 * pow256((n - 1) as nat),
        ;
        lemma_le_value_of_bytes(v / 256, (n - 1) as nat);
        assert(v == v % 256 + 256 * (v / 256)) by (nonlinear_arith);
    } else {
        assert(pow256(0) == 1);
    }
}

/// The `n` bytes of the largest `n`-byte number are all 0xFF.
pub proof fn lemma_le_bytes_max(n: nat)
    ensures
        pow256(n) >= 1,
        le_bytes((pow256(n) - 1) as nat, n) == Seq::new(n, |i: int| 255u8),
    decreases n,
{
    if n > 0 {
        lemma_le_bytes_max((n - 1) as nat);
        let p = pow256((n - 1) as nat);
        let v = (pow256(n) - 1) as nat;
        assert(v % 256 == 255 && v / 256 == p - 1) by {
            vstd::arithmetic::div_mod::lemma_fundamental_div_mod_converse(v as int, 256, p - 1, 255);
        }
        assert(le_bytes(v, n) =~= Seq::new(n, |i: int| 255u8));
    }
}

} // verus!
