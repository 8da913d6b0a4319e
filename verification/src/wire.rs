//! Numbers as little-endian bytes, and the binary form of numbers and partition lists.
use vstd::prelude::*;

verus! {

/// The lowest `k` bytes of a number, lowest first.
pub open spec fn le(n: nat, k: nat) -> Seq<u8>
    decreases k,
{
    if k == 0 {
        Seq::empty()
    } else {
        seq![(n % 256) as u8] + le(n / 256, (k - 1) as nat)
    }
}

/// The number whose bytes these are, lowest first.
pub open spec fn le_value(s: Seq<u8>) -> nat
    decreases s.len(),
{
    if s.len() == 0 {
        0
    } else {
        s[0] as nat + 256 * le_value(s.skip(1))
    }
}

/// The numbers that `k` bytes can hold lie below this bound.
pub open spec fn byte_bound(k: nat) -> nat
    decreases k,
{
    if k == 0 { 1 } else { 256 * byte_bound((k - 1) as nat) }
}

/// Two's complement in 32 bits.
pub open spec fn twos32(x: i32) -> nat {
    if x < 0 { (x + 0x1_0000_0000) as nat } else { x as nat }
}

/// Two's complement in 64 bits.
pub open spec fn twos64(x: i64) -> nat {
    if x < 0 { (x + 0x1_0000_0000_0000_0000) as nat } else { x as nat }
}

/// The number whose two's complement in 32 bits this is.
pub open spec fn signed32(n: nat) -> i32 {
    if n < 0x8000_0000 { n as i32 } else { (n - 0x1_0000_0000) as i32 }
}

/// The number whose two's complement in 64 bits this is.
pub open spec fn signed64(n: nat) -> i64 {
    if n < 0x8000_0000_0000_0000 { n as i64 } else { (n - 0x1_0000_0000_0000_0000) as i64 }
}

pub proof fn lemma_bounds()
    ensures
        byte_bound(1) == 0x100,
        byte_bound(2) == 0x1_0000,
        byte_bound(4) == 0x1_0000_0000,
        byte_bound(8) == 0x1_0000_0000_0000_0000,
{
    reveal_with_fuel(byte_bound, 9);
}

/// Bytes of a number give the number back, where it fits.
pub proof fn le_reads_back(n: nat, k: nat)
    requires
        n < byte_bound(k),
    ensures
        le(n, k).len() == k,
        le_value(le(n, k)) == n,
    decreases k,
{
    if k > 0 {
        le_reads_back(n / 256, (k - 1) as nat);
        assert(le(n, k).skip(1) =~= le(n / 256, (k - 1) as nat));
    }
}

pub proof fn lemma_le_len(n: nat, k: nat)
    ensures
        le(n, k).len() == k,
    decreases k,
{
    if k > 0 {
        lemma_le_len(n / 256, (k - 1) as nat);
    }
}

pub proof fn lemma_value_bound(s: Seq<u8>)
    ensures
        le_value(s) < byte_bound(s.len()),
    decreases s.len(),
{
    if s.len() > 0 {
        lemma_value_bound(s.skip(1));
    }
}

/// The bytes of the number that a row of bytes stands for are that row.
pub proof fn le_of_value(s: Seq<u8>)
    ensures
        le(le_value(s), s.len()) == s,
    decreases s.len(),
{
    if s.len() > 0 {
        le_of_value(s.skip(1));
        let v = le_value(s);
        assert(v % 256 == s[0] as nat && v / 256 == le_value(s.skip(1)));
        assert(le(v, s.len()) =~= s);
    }
}

/// Appends the lowest `k` bytes of a number.
pub fn put_le(out: &mut Vec<u8>, n: u64, k: usize)
    ensures
        final(out)@ == old(out)@ + le(n as nat, k as nat),
{
    let mut left: usize = k;
    let mut rest: u64 = n;
    assert(out@ + le(rest as nat, left as nat) =~= old(out)@ + le(n as nat, k as nat));
    while left > 0
        invariant
            out@ + le(rest as nat, left as nat) == old(out)@ + le(n as nat, k as nat),
        decreases left,
    {
        let ghost before = out@;
        out.push((rest % 256) as u8);
        assert(out@ + le((rest / 256) as nat, (left - 1) as nat) =~= before + le(rest as nat, left as nat));
        rest = rest / 256;
        left -= 1;
    }
    assert(out@ =~= old(out)@ + le(n as nat, k as nat));
}

/// The number in the `k` bytes from `off` on.
pub fn get_le(src: &[u8], off: usize, k: usize) -> (v: u64)
    requires
        off + k <= src@.len(),
        k <= 8,
    ensures
        v as nat == le_value(src@.subrange(off as int, off + k)),
        v < byte_bound(k as nat),
{
    let mut i: usize = k;
    let mut v: u64 = 0;
    proof {
        assert(src@.subrange(off + i, off + k) =~= Seq::<u8>::empty());
    }
    while i > 0
        invariant
            i <= k <= 8,
            off + k <= src@.len(),
            v as nat == le_value(src@.subrange(off + i, off + k)),
            v < byte_bound((k - i) as nat),
        decreases i,
    {
        i -= 1;
        let ghost tail = src@.subrange(off + i + 1, off + k);
        let ghost s = src@.subrange(off + i, off + k);
        proof {
            assert(s.skip(1) =~= tail);
            assert(s[0] == src@[off + i]);
            lemma_value_bound(s);
            reveal_with_fuel(byte_bound, 9);
        }
        assert(off + i < src.len());
        v = v * 256 + src[off + i] as u64;
    }
    v
}

/// Two's complement in 64 bits.
pub fn bits_of_i64(x: i64) -> (r: u64)
    ensures
        r as nat == twos64(x),
{
    if x >= 0 {
        x as u64
    } else {
        (x as i128 + 0x1_0000_0000_0000_0000i128) as u64
    }
}

/// The number with this two's complement.
pub fn i64_of_bits(r: u64) -> (x: i64)
    ensures
        twos64(x) == r as nat,
{
    if r <= 0x7fff_ffff_ffff_ffff {
        r as i64
    } else {
        (r as i128 - 0x1_0000_0000_0000_0000i128) as i64
    }
}

/// Two's complement in 32 bits.
pub fn bits_of_i32(x: i32) -> (r: u32)
    ensures
        r as nat == twos32(x),
{
    if x >= 0 {
        x as u32
    } else {
        (x as i64 + 0x1_0000_0000i64) as u32
    }
}

/// The number with this two's complement.
pub fn i32_of_bits(r: u32) -> (x: i32)
    ensures
        twos32(x) == r as nat,
{
    if r <= 0x7fff_ffff {
        r as i32
    } else {
        (r as i64 - 0x1_0000_0000i64) as i32
    }
}

/// The number in the first eight bytes, if so many are there.
pub open spec fn i64_in_front(bytes: Seq<u8>) -> Option<i64> {
    if bytes.len() >= 8 { Some(signed64(le_value(bytes.take(8)))) } else { None }
}

/// The number in the first four bytes, if so many are there.
pub open spec fn i32_in_front(bytes: Seq<u8>) -> Option<i32> {
    if bytes.len() >= 4 { Some(signed32(le_value(bytes.take(4)))) } else { None }
}

/// `bincode::serialize` on an `i64` cannot fail; it writes the two's complement in eight
/// bytes, lowest first.
#[verifier::external_body]
pub(crate) fn encode_i64(n: i64) -> (r: Vec<u8>)
    ensures
        r@ == le(twos64(n), 8),
{
    bincode::serialize(&n).unwrap_or_default()
}

/// `bincode::deserialize` reads an `i64` from the first eight bytes and ignores what
/// follows them; it fails exactly where there are fewer.
#[verifier::external_body]
pub(crate) fn decode_i64(bytes: &[u8]) -> (r: Option<i64>)
    ensures
        r == i64_in_front(bytes@),
{
    bincode::deserialize(bytes).ok()
}

/// `bincode::serialize` on an `i32` cannot fail; it writes the two's complement in four
/// bytes, lowest first.
#[verifier::external_body]
pub(crate) fn encode_i32(n: i32) -> (r: Vec<u8>)
    ensures
        r@ == le(twos32(n), 4),
{
    bincode::serialize(&n).unwrap_or_default()
}

/// `bincode::deserialize` reads an `i32` from the first four bytes and ignores what
/// follows them; it fails exactly where there are fewer.
#[verifier::external_body]
pub(crate) fn decode_i32(bytes: &[u8]) -> (r: Option<i32>)
    ensures
        r == i32_in_front(bytes@),
{
    bincode::deserialize(bytes).ok()
}

/// What was written as a number is read as that number, whatever follows it.
pub proof fn numbers_read_back(n: i64, c: i32, rest: Seq<u8>)
    ensures
        i64_in_front(le(twos64(n), 8) + rest) == Some(n),
        i32_in_front(le(twos32(c), 4) + rest) == Some(c),
{
    lemma_bounds();
    le_reads_back(twos64(n), 8);
    le_reads_back(twos32(c), 4);
    assert((le(twos64(n), 8) + rest).take(8) =~= le(twos64(n), 8));
    assert((le(twos32(c), 4) + rest).take(4) =~= le(twos32(c), 4));
}

/// A row of numbers, four bytes each.
pub open spec fn i32_row(s: Seq<i32>) -> Seq<u8>
    decreases s.len(),
{
    if s.len() == 0 {
        Seq::empty()
    } else {
        i32_row(s.drop_last()) + le(twos32(s.last()), 4)
    }
}

/// The binary form of a list of numbers: its length in eight bytes, then the numbers.
pub open spec fn i32_list(s: Seq<i32>) -> Seq<u8> {
    le(s.len(), 8) + i32_row(s)
}

/// `bincode::serialize` on a list of numbers cannot fail; it writes the length
/// as eight bytes and every number as four, all lowest byte first.
#[verifier::external_body]
pub(crate) fn encode_i32_list(v: &Vec<i32>) -> (r: Vec<u8>)
    ensures
        r@ == i32_list(v@),
{
    bincode::serialize(v).unwrap_or_default()
}

/// `bincode::deserialize` reads a list of numbers from the front of the bytes
/// and ignores what follows it; it fails exactly where no list stands there.
#[verifier::external_body]
pub(crate) fn decode_i32_list(bytes: &[u8]) -> (r: Option<Vec<i32>>)
    ensures
        r matches Some(v) ==> i32_list(v@).is_prefix_of(bytes@),
        r is None ==> forall|s: Seq<i32>| !(#[trigger] i32_list(s)).is_prefix_of(bytes@),
{
    bincode::deserialize(bytes).ok()
}

proof fn lemma_row_len(s: Seq<i32>)
    ensures
        i32_row(s).len() == 4 * s.len(),
    decreases s.len(),
{
    if s.len() > 0 {
        lemma_row_len(s.drop_last());
        lemma_le_len(twos32(s.last()), 4);
    }
}

proof fn lemma_row_injective(a: Seq<i32>, b: Seq<i32>)
    requires
        a.len() == b.len(),
        i32_row(a) == i32_row(b),
    ensures
        a == b,
    decreases a.len(),
{
    if a.len() > 0 {
        lemma_row_len(a.drop_last());
        lemma_row_len(b.drop_last());
        lemma_bounds();
        le_reads_back(twos32(a.last()), 4);
        le_reads_back(twos32(b.last()), 4);
        let n = i32_row(a.drop_last()).len();
        assert(i32_row(a).take(n as int) =~= i32_row(a.drop_last()));
        assert(i32_row(b).take(n as int) =~= i32_row(b.drop_last()));
        assert(i32_row(a).skip(n as int) =~= le(twos32(a.last()), 4));
        assert(i32_row(b).skip(n as int) =~= le(twos32(b.last()), 4));
        lemma_row_injective(a.drop_last(), b.drop_last());
        assert(a =~= a.drop_last().push(a.last()));
        assert(b =~= b.drop_last().push(b.last()));
    } else {
        assert(a =~= b);
    }
}

/// A list is longer than the numbers in it are many.
pub proof fn lemma_list_len(s: Seq<i32>)
    ensures
        i32_list(s).len() == 8 + 4 * s.len(),
{
    lemma_row_len(s);
    lemma_le_len(s.len(), 8);
}

/// At most one list of numbers stands at the front of a row of bytes.
pub proof fn one_list_in_front(a: Seq<i32>, b: Seq<i32>, bytes: Seq<u8>)
    requires
        i32_list(a).is_prefix_of(bytes),
        i32_list(b).is_prefix_of(bytes),
        a.len() <= u64::MAX,
        b.len() <= u64::MAX,
    ensures
        a == b,
{
    lemma_bounds();
    le_reads_back(a.len(), 8);
    le_reads_back(b.len(), 8);
    lemma_row_len(a);
    lemma_row_len(b);
    assert(bytes.take(8) =~= le(a.len(), 8));
    assert(bytes.take(8) =~= le(b.len(), 8));
    let end = 8 + 4 * a.len();
    assert(i32_list(a).skip(8) =~= i32_row(a));
    assert(i32_list(b).skip(8) =~= i32_row(b));
    assert(bytes.subrange(8, end as int) =~= i32_list(a).skip(8));
    assert(bytes.subrange(8, end as int) =~= i32_list(b).skip(8));
    lemma_row_injective(a, b);
}

} // verus!
