//! Shared type aliases, the byte order used to compare hashes with targets,
//! and the difficulty target.

use vstd::prelude::*;

verus! {

pub type Hash32 = [u8; 32];

pub type MinerId = [u8; 20];

pub type Amount = u64;

pub type Height = u64;

pub type EpochIndex = u32;

/// `a` is at most `b` when both are read as big-endian unsigned numbers
/// (lexicographic order on bytes; a prefix comes first).
pub open spec fn bytes_le(a: Seq<u8>, b: Seq<u8>) -> bool
    decreases a.len(),
{
    if a.len() == 0 {
        true
    } else if b.len() == 0 {
        false
    } else if a[0] < b[0] {
        true
    } else if a[0] > b[0] {
        false
    } else {
        bytes_le(a.drop_first(), b.drop_first())
    }
}

/// `a` is below `b` when both are read as big-endian unsigned numbers.
pub open spec fn bytes_lt(a: Seq<u8>, b: Seq<u8>) -> bool {
    bytes_le(a, b) && a != b
}

/// A common prefix does not change how two byte strings compare.
pub proof fn lemma_bytes_le_skip_equal_prefix(a: Seq<u8>, b: Seq<u8>, i: int)
    requires
        0 <= i <= a.len(),
        i <= b.len(),
        forall|j: int| 0 <= j < i ==> a[j] == b[j],
    ensures
        bytes_le(a, b) == bytes_le(a.skip(i), b.skip(i)),
    decreases i,
{
    if i > 0 {
        lemma_bytes_le_skip_equal_prefix(a.drop_first(), b.drop_first(), i - 1);
        assert(a.drop_first().skip(i - 1) =~= a.skip(i));
        assert(b.drop_first().skip(i - 1) =~= b.skip(i));
    } else {
        assert(a.skip(0) =~= a);
        assert(b.skip(0) =~= b);
    }
}

/// When the first difference is at `i`, that byte decides the order.
pub proof fn lemma_bytes_le_first_difference(a: Seq<u8>, b: Seq<u8>, i: int)
    requires
        0 <= i < a.len(),
        i < b.len(),
        forall|j: int| 0 <= j < i ==> a[j] == b[j],
        a[i] != b[i],
    ensures
        bytes_le(a, b) == (a[i] < b[i]),
{
    lemma_bytes_le_skip_equal_prefix(a, b, i);
    assert(a.skip(i)[0] == a[i]);
    assert(b.skip(i)[0] == b[i]);
}

/// Two byte strings of the same length that agree everywhere are in order both ways.
pub proof fn lemma_bytes_le_equal(a: Seq<u8>, b: Seq<u8>)
    requires
        a =~= b,
    ensures
        bytes_le(a, b),
    decreases a.len(),
{
    if a.len() > 0 {
        lemma_bytes_le_equal(a.drop_first(), b.drop_first());
    }
}

pub proof fn lemma_bytes_le_antisymmetric(a: Seq<u8>, b: Seq<u8>)
    requires
        bytes_le(a, b),
        bytes_le(b, a),
    ensures
        a =~= b,
    decreases a.len(),
{
    if a.len() > 0 && b.len() > 0 {
        lemma_bytes_le_antisymmetric(a.drop_first(), b.drop_first());
        assert(a =~= seq![a[0]] + a.drop_first());
        assert(b =~= seq![b[0]] + b.drop_first());
    }
}

pub proof fn lemma_bytes_le_transitive(a: Seq<u8>, b: Seq<u8>, c: Seq<u8>)
    requires
        bytes_le(a, b),
        bytes_le(b, c),
    ensures
        bytes_le(a, c),
    decreases a.len(),
{
    if a.len() > 0 && b.len() > 0 && c.len() > 0 {
        if a[0] == b[0] && b[0] == c[0] {
            lemma_bytes_le_transitive(a.drop_first(), b.drop_first(), c.drop_first());
        }
    }
}

pub proof fn lemma_bytes_le_total(a: Seq<u8>, b: Seq<u8>)
    ensures
        bytes_le(a, b) || bytes_le(b, a),
    decreases a.len(),
{
    if a.len() > 0 && b.len() > 0 && a[0] == b[0] {
        lemma_bytes_le_total(a.drop_first(), b.drop_first());
    }
}

/// The order of hashes by their big-endian value.
pub open spec fn hash_le(a: Hash32, b: Hash32) -> bool {
    bytes_le(a@, b@)
}

/// The order of hashes as a relation.
pub open spec fn hash_order() -> spec_fn(Hash32, Hash32) -> bool {
    |a: Hash32, b: Hash32| hash_le(a, b)
}

/// `hash_le` is a total order on 32-byte hashes.
pub proof fn lemma_hash_le_total_ordering()
    ensures
        vstd::relations::total_ordering(hash_order()),
{
    assert forall|a: Hash32| #[trigger] hash_le(a, a) by {
        lemma_bytes_le_equal(a@, a@);
    }
    assert forall|a: Hash32, b: Hash32| #[trigger]
        hash_le(a, b) && #[trigger] hash_le(b, a) implies a == b by {
        lemma_bytes_le_antisymmetric(a@, b@);
        assert(a =~= b);
    }
    assert forall|a: Hash32, b: Hash32, c: Hash32| #[trigger]
        hash_le(a, b) && #[trigger] hash_le(b, c) implies hash_le(a, c) by {
        lemma_bytes_le_transitive(a@, b@, c@);
    }
    assert forall|a: Hash32, b: Hash32| #[trigger] hash_le(a, b) || #[trigger] hash_le(b, a) by {
        lemma_bytes_le_total(a@, b@);
    }
}

/// Compares two 32-byte strings in big-endian order: true when `a` is at most `b`.
pub fn bytes32_le(a: &[u8; 32], b: &[u8; 32]) -> (r: bool)
    ensures
        r == bytes_le(a@, b@),
{
    let mut i: usize = 0;
    while i < 32
        invariant
            0 <= i <= 32,
            forall|j: int| 0 <= j < i ==> a@[j] == b@[j],
        decreases 32 - i,
    {
        if a[i] < b[i] {
            proof {
                lemma_bytes_le_first_difference(a@, b@, i as int);
            }
            return true;
        }
        if a[i] > b[i] {
            proof {
                lemma_bytes_le_first_difference(a@, b@, i as int);
            }
            return false;
        }
        i = i + 1;
    }
    proof {
        assert(a@ =~= b@);
        lemma_bytes_le_equal(a@, b@);
    }
    true
}

/// Compares two 32-byte strings in big-endian order: true when `a` is below `b`.
pub fn bytes32_lt(a: &[u8; 32], b: &[u8; 32]) -> (r: bool)
    ensures
        r == bytes_lt(a@, b@),
{
    bytes32_le(a, b) && !bytes32_eq(a, b)
}

/// True when the two 32-byte strings are equal.
pub fn bytes32_eq(a: &[u8; 32], b: &[u8; 32]) -> (r: bool)
    ensures
        r == (a@ == b@),
        r == (*a == *b),
{
    let mut i: usize = 0;
    while i < 32
        invariant
            0 <= i <= 32,
            forall|j: int| 0 <= j < i ==> a@[j] == b@[j],
        decreases 32 - i,
    {
        if a[i] != b[i] {
            return false;
        }
        i = i + 1;
    }
    assert(a@ =~= b@);
    assert(*a =~= *b);
    true
}

/// Index of the first non-zero byte at or after `i`, or the length when there is none.
pub open spec fn first_nonzero_from(s: Seq<u8>, i: int) -> int
    decreases s.len() - i,
{
    if i >= s.len() {
        s.len() as int
    } else if s[i] != 0 {
        i
    } else {
        first_nonzero_from(s, i + 1)
    }
}

/// Index of the first non-zero byte, or the length when all bytes are zero.
pub open spec fn first_nonzero(s: Seq<u8>) -> int {
    first_nonzero_from(s, 0)
}

pub proof fn lemma_first_nonzero_from(s: Seq<u8>, i: int)
    requires
        0 <= i <= s.len(),
    ensures
        i <= first_nonzero_from(s, i) <= s.len(),
        forall|j: int| i <= j < first_nonzero_from(s, i) ==> s[j] == 0,
        first_nonzero_from(s, i) < s.len() ==> s[first_nonzero_from(s, i)] != 0,
    decreases s.len() - i,
{
    if i < s.len() && s[i] == 0 {
        lemma_first_nonzero_from(s, i + 1);
    }
}

/// The compact (exponent, mantissa) form of a target: the exponent counts the
/// bytes from the first non-zero byte to the end, the mantissa holds the three
/// bytes starting there.
pub open spec fn spec_compact(t: Seq<u8>) -> u32 {
    let k = first_nonzero(t);
    if k >= 32 {
        0
    } else {
        ((32 - k) * 0x1000000 + t[k] * 0x10000 + t[k + 1] * 0x100 + t[k + 2]) as u32
    }
}

/// Byte `i` of the target that a compact value stands for: the three mantissa
/// bytes are placed starting at index `32 - exponent`, those that would fall past
/// the last byte are dropped, and an exponent of zero stands for zero.
pub open spec fn compact_byte(c: u32, i: int) -> u8 {
    let e = c / 0x1000000;
    let m = c % 0x1000000;
    let pos = 32 - e;
    if e == 0 {
        0
    } else if i == pos {
        (m / 0x10000) as u8
    } else if i == pos + 1 {
        ((m / 0x100) % 0x100) as u8
    } else if i == pos + 2 {
        (m % 0x100) as u8
    } else {
        0
    }
}

/// The target that a compact value stands for.
pub open spec fn spec_from_compact(c: u32) -> Seq<u8> {
    Seq::new(32, |i: int| compact_byte(c, i))
}

/// A compact value whose exponent names a position inside 32 bytes.
pub open spec fn compact_in_range(c: u32) -> bool {
    c / 0x1000000 <= 32
}

/// A target whose compact form exists: all zero, or its first non-zero byte
/// leaves room for three mantissa bytes.
pub open spec fn has_compact_form(t: Seq<u8>) -> bool {
    first_nonzero(t) <= 29 || first_nonzero(t) >= 32
}

/// Computes the compact form of a 32-byte target.
pub fn compact_of(bytes: &[u8; 32]) -> (r: u32)
    requires
        has_compact_form(bytes@),
    ensures
        r == spec_compact(bytes@),
        r != 0 ==> compact_in_range(r),
{
    let mut i: usize = 0;
    proof {
        lemma_first_nonzero_from(bytes@, 0);
    }
    while i < 32 && bytes[i] == 0
        invariant
            0 <= i <= 32,
            forall|j: int| 0 <= j < i ==> bytes@[j] == 0,
        decreases 32 - i,
    {
        i = i + 1;
    }
    let size = i;
    proof {
        // the loop stopped at the first non-zero byte, or ran off the end
        lemma_first_nonzero_from(bytes@, 0);
        let k = first_nonzero(bytes@);
        if k < size {
            assert(bytes@[k] == 0);
        }
        if size < k {
            assert(bytes@[size as int] == 0);
        }
        assert(first_nonzero(bytes@) == size);
    }
    if size == 32 {
        return 0;
    }
    let exponent: u32 = (32 - size) as u32;
    let r: u32 = exponent * 0x1000000 + (bytes[size] as u32) * 0x10000 + (bytes[size + 1] as u32)
        * 0x100 + (bytes[size + 2] as u32);
    r
}

/// Builds the 32-byte target that a compact value stands for.
pub fn from_compact_bytes(compact: u32) -> (r: [u8; 32])
    requires
        compact_in_range(compact),
    ensures
        r@ == spec_from_compact(compact),
{
    let exponent: u32 = compact / 0x1000000;
    let mantissa: u32 = compact % 0x1000000;
    let mut bytes: [u8; 32] = [0u8; 32];
    let hi: u8 = (mantissa / 0x10000) as u8;
    let mid: u8 = ((mantissa / 0x100) % 0x100) as u8;
    let lo: u8 = (mantissa % 0x100) as u8;
    if exponent != 0 {
        let pos: usize = (32 - exponent) as usize;
        bytes[pos] = hi;
        if pos + 1 < 32 {
            bytes[pos + 1] = mid;
        }
        if pos + 2 < 32 {
            bytes[pos + 2] = lo;
        }
    }
    assert(bytes@ =~= spec_from_compact(compact));
    bytes
}

/// Reading a compact value back gives the target's bytes up to and including
/// the three mantissa bytes, and zeros after them.
pub proof fn lemma_compact_roundtrip(t: Seq<u8>)
    requires
        t.len() == 32,
        first_nonzero(t) <= 29,
    ensures
        compact_in_range(spec_compact(t)),
        forall|i: int|
            0 <= i < 32 ==> #[trigger] spec_from_compact(spec_compact(t))[i] == (if i
                < first_nonzero(t) + 3 {
                t[i]
            } else {
                0
            }),
{
    lemma_first_nonzero_from(t, 0);
    let k = first_nonzero(t);
    let c = spec_compact(t);
    let m = t[k] * 0x10000 + t[k + 1] * 0x100 + t[k + 2];
    assert(c == (32 - k) * 0x1000000 + m);
    assert(c / 0x1000000 == 32 - k);
    assert(c % 0x1000000 == m);
    assert(m / 0x10000 == t[k]);
    assert((m / 0x100) % 0x100 == t[k + 1]);
    assert(m % 0x100 == t[k + 2]);
}

/// Difficulty target: a hash meets it when, read as a big-endian number, it is
/// below the target.
#[derive(Debug, Clone, Copy, PartialEq, Eq)]
pub struct Target(pub Hash32);

impl Target {
    /// Check if hash meets target: it is below the target.
    pub fn is_met_by(&self, hash: &Hash32) -> (r: bool)
        ensures
            r == bytes_lt(hash@, self.0@),
    {
        bytes32_lt(hash, &self.0)
    }

    /// Convert to compact representation (for block header)
    pub fn compact(&self) -> (r: u32)
        requires
            has_compact_form(self.0@),
        ensures
            r == spec_compact(self.0@),
    {
        compact_of(&self.0)
    }

    /// Create target from compact representation
    pub fn from_compact(compact: u32) -> (r: Self)
        requires
            compact_in_range(compact),
        ensures
            r.0@ == spec_from_compact(compact),
    {
        Target(from_compact_bytes(compact))
    }
}

} // verus!
