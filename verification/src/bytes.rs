//! Byte strings: big-endian numbers, slices and comparison.
use vstd::arithmetic::div_mod::lemma_div_denominator;
use vstd::arithmetic::power::{lemma_pow0, lemma_pow1, lemma_pow_adds, lemma_pow_positive, pow};
use vstd::prelude::*;

verus! {

/// The `width` big-endian bytes of `value`, taken modulo `256^width`.
pub open spec fn be_bytes(value: nat, width: nat) -> Seq<u8>
    decreases width,
{
    if width == 0 {
        Seq::empty()
    } else {
        be_bytes(value / 256, (width - 1) as nat).push((value % 256) as u8)
    }
}

/// The number that the bytes `s` write in big-endian order.
pub open spec fn be_value(s: Seq<u8>) -> nat
    decreases s.len(),
{
    if s.len() == 0 {
        0
    } else {
        be_value(s.drop_last()) * 256 + s.last() as nat
    }
}

/// `256^width`.
pub open spec fn byte_range(width: nat) -> nat
    decreases width,
{
    if width == 0 {
        1
    } else {
        256 * byte_range((width - 1) as nat)
    }
}

/// Two, four and eight bytes hold the ranges of `u16`, `u32` and `u64`.
pub proof fn lemma_byte_ranges()
    ensures
        byte_range(2) == 0x1_0000,
        byte_range(4) == 0x1_0000_0000,
        byte_range(8) == 0x1_0000_0000_0000_0000,
{
    reveal_with_fuel(byte_range, 9);
}

/// A big-endian number takes exactly the width it is given.
pub proof fn lemma_be_bytes_len(value: nat, width: nat)
    ensures
        be_bytes(value, width).len() == width,
    decreases width,
{
    if width > 0 {
        lemma_be_bytes_len(value / 256, (width - 1) as nat);
    }
}

/// Reading a number back gives the number that was written.
pub proof fn lemma_be_round_trip(value: nat, width: nat)
    requires
        value < byte_range(width),
    ensures
        be_value(be_bytes(value, width)) == value,
        be_bytes(value, width).len() == width,
    decreases width,
{
    if width > 0 {
        let rest = (width - 1) as nat;
        assert(value / 256 < byte_range(rest));
        lemma_be_round_trip(value / 256, rest);
        assert(be_bytes(value, width).drop_last() =~= be_bytes(value / 256, rest));
    }
}

/// A number read from `s` fits the width of `s`.
pub proof fn lemma_be_value_bound(s: Seq<u8>)
    ensures
        be_value(s) < byte_range(s.len()),
    decreases s.len(),
{
    if s.len() > 0 {
        lemma_be_value_bound(s.drop_last());
    }
}

/// Narrower big-endian numbers have smaller ranges.
proof fn lemma_byte_range_grows(narrow: nat, wide: nat)
    requires
        narrow <= wide,
    ensures
        byte_range(narrow) <= byte_range(wide),
    decreases wide,
{
    if narrow < wide {
        lemma_byte_range_grows(narrow, (wide - 1) as nat);
    }
}

/// Appends the `width` big-endian bytes of `value` to `out`.
pub fn push_be(out: &mut Vec<u8>, value: u64, width: usize)
    ensures
        final(out)@ == old(out)@ + be_bytes(value as nat, width as nat),
    decreases width,
{
    if width == 0 {
        assert(out@ =~= old(out)@ + be_bytes(value as nat, 0));
        return;
    }
    push_be(out, value / 256, width - 1);
    out.push((value % 256) as u8);
    assert(out@ =~= old(out)@ + be_bytes(value as nat, width as nat));
}

/// Reads the big-endian number in the `width` bytes of `s` from `at` on.
pub fn read_be(s: &[u8], at: usize, width: usize) -> (value: u64)
    requires
        at + width <= s@.len(),
        width <= 8,
    ensures
        value as nat == be_value(s@.subrange(at as int, at + width)),
{
    let total: usize = s.len();
    let mut value: u64 = 0;
    let mut k: usize = 0;
    while k < width
        invariant
            k <= width <= 8,
            at + width <= total == s@.len(),
            value as nat == be_value(s@.subrange(at as int, at + k)),
        decreases width - k,
    {
        let ghost next = s@.subrange(at as int, at + k + 1);
        proof {
            assert(next.drop_last() =~= s@.subrange(at as int, at + k));
            lemma_be_value_bound(next);
            lemma_byte_range_grows((k + 1) as nat, 8);
            lemma_byte_ranges();
        }
        value = value * 256 + s[at + k] as u64;
        k = k + 1;
    }
    value
}

/// Copies the bytes of `s` from `from` up to `to`.
pub fn copy_range(s: &[u8], from: usize, to: usize) -> (out: Vec<u8>)
    requires
        from <= to <= s@.len(),
    ensures
        out@ == s@.subrange(from as int, to as int),
{
    vstd::slice::slice_to_vec(vstd::slice::slice_subrange(s, from, to))
}

/// Appends the bytes `more` to `out`.
pub fn append(out: &mut Vec<u8>, more: &[u8])
    ensures
        final(out)@ == old(out)@ + more@,
{
    out.extend_from_slice(more);
    assert(out@ =~= old(out)@ + more@);
}

/// Whether two byte strings are the same.
pub fn same(a: &[u8], b: &[u8]) -> (equal: bool)
    ensures
        equal == (a@ == b@),
{
    if a.len() != b.len() {
        return false;
    }
    let mut k: usize = 0;
    while k < a.len()
        invariant
            k <= a@.len(),
            a@.len() == b@.len(),
            forall|j: int| 0 <= j < k ==> a@[j] == b@[j],
        decreases a.len() - k,
    {
        if a[k] != b[k] {
            return false;
        }
        k = k + 1;
    }
    assert(a@ =~= b@);
    true
}

/// The bytes of a number come highest first: each is a digit of it in base 256.
pub proof fn law_highest_byte_first(value: nat, width: nat, i: int)
    requires
        0 <= i < width,
    ensures
        be_bytes(value, width).len() == width,
        be_bytes(value, width)[i] as int == (value as int / pow(256, (width - 1 - i) as nat)) % 256,
    decreases width,
{
    lemma_be_bytes_len(value, width);
    lemma_be_bytes_len(value / 256, (width - 1) as nat);
    lemma_pow0(256);
    if i < width - 1 {
        law_highest_byte_first(value / 256, (width - 1) as nat, i);
        let k = (width - 2 - i) as nat;
        lemma_pow_adds(256, 1, k);
        lemma_pow1(256);
        lemma_pow_positive(256, k);
        lemma_div_denominator(value as int, 256, pow(256, k));
        assert(be_bytes(value, width)[i] == be_bytes(value / 256, (width - 1) as nat)[i]);
    }
}

/// A number that fits its field is read back from the bytes that write it.
pub proof fn law_number_reads_back(value: nat, width: nat)
    requires
        value < pow(256, width),
    ensures
        be_value(be_bytes(value, width)) == value,
    decreases width,
{
    lemma_range_is_power(width);
    lemma_be_round_trip(value, width);
}

/// A field of `width` bytes holds the numbers below `256^width`.
proof fn lemma_range_is_power(width: nat)
    ensures
        byte_range(width) == pow(256, width),
    decreases width,
{
    lemma_pow0(256);
    if width > 0 {
        lemma_range_is_power((width - 1) as nat);
        lemma_pow_adds(256, 1, (width - 1) as nat);
        lemma_pow1(256);
    }
}

/// One more byte behind a number makes it 256 times as large, and adds the byte.
pub proof fn law_one_more_byte(s: Seq<u8>, b: u8)
    ensures
        be_value(Seq::empty()) == 0,
        be_value(s.push(b)) == 256 * be_value(s) + b,
{
    assert(s.push(b).drop_last() =~= s);
}

/// Writing a number that was read gives back its bytes.
pub proof fn lemma_bytes_of_value(s: Seq<u8>)
    ensures
        be_bytes(be_value(s), s.len()) == s,
    decreases s.len(),
{
    if s.len() > 0 {
        lemma_bytes_of_value(s.drop_last());
        let v = be_value(s.drop_last());
        assert((v * 256 + s.last() as nat) / 256 == v);
        assert(be_bytes(be_value(s), s.len()) =~= s);
    }
}

} // verus!
