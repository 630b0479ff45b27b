//! Numbers and text as bytes: big-endian integers, and text with its length in front.
use vstd::prelude::*;
use vstd::slice::*;
use vstd::string::*;
use vstd::utf8::*;

verus! {

/// `x` in `n` bytes, most significant first.
pub open spec fn be(x: int, n: nat) -> Seq<u8>
    decreases n,
{
    if n == 0 {
        Seq::empty()
    } else {
        be(x / 256, (n - 1) as nat).push((x % 256) as u8)
    }
}

/// The number that the bytes stand for, most significant first.
pub open spec fn number(s: Seq<u8>) -> int
    decreases s.len(),
{
    if s.len() == 0 {
        0
    } else {
        number(s.drop_last()) * 256 + s.last()
    }
}

/// The number of values that `n` bytes can take.
pub open spec fn range(n: nat) -> int
    decreases n,
{
    if n == 0 {
        1
    } else {
        range((n - 1) as nat) * 256
    }
}

/// Text as it stands in a message: the length of its UTF-8 encoding in two bytes, then that.
pub open spec fn pascal(s: Seq<char>) -> Seq<u8> {
    be(encode_utf8(s).len() as int, 2) + encode_utf8(s)
}

pub proof fn lemma_ranges()
    ensures
        range(1) == 0x100,
        range(2) == 0x1_0000,
        range(4) == 0x1_0000_0000,
        range(8) == 0x1_0000_0000_0000_0000,
{
    reveal_with_fuel(range, 9);
}

pub proof fn lemma_be_len(x: int, n: nat)
    ensures
        be(x, n).len() == n,
    decreases n,
{
    if n > 0 {
        lemma_be_len(x / 256, (n - 1) as nat);
    }
}

/// Reading back what was written gives the number.
pub proof fn lemma_number_be(x: int, n: nat)
    requires
        0 <= x < range(n),
    ensures
        number(be(x, n)) == x,
        be(x, n).len() == n,
    decreases n,
{
    if n > 0 {
        lemma_number_be(x / 256, (n - 1) as nat);
        assert(be(x, n).drop_last() =~= be(x / 256, (n - 1) as nat));
    }
}

pub proof fn lemma_number_range(s: Seq<u8>)
    ensures
        0 <= number(s) < range(s.len()),
    decreases s.len(),
{
    if s.len() > 0 {
        lemma_number_range(s.drop_last());
    }
}

/// Writing what was read gives the bytes.
pub proof fn lemma_be_number(s: Seq<u8>)
    ensures
        be(number(s), s.len()) == s,
    decreases s.len(),
{
    if s.len() > 0 {
        lemma_be_number(s.drop_last());
        assert(number(s) / 256 == number(s.drop_last()));
        assert(s =~= s.drop_last().push(s.last()));
    } else {
        assert(be(number(s), 0) =~= s);
    }
}

/// Appends `x` in `n` bytes.
pub fn put_be(out: &mut Vec<u8>, x: u64, n: usize)
    ensures
        final(out)@ == old(out)@ + be(x as int, n as nat),
    decreases n,
{
    if n > 0 {
        put_be(out, x / 256, n - 1);
        out.push((x % 256) as u8);
    }
    assert(out@ =~= old(out)@ + be(x as int, n as nat));
}

pub fn put_u8(out: &mut Vec<u8>, x: u8)
    ensures
        final(out)@ == old(out)@.push(x),
{
    out.push(x);
}

pub fn put_u16(out: &mut Vec<u8>, x: u16)
    ensures
        final(out)@ == old(out)@ + be(x as int, 2),
{
    put_be(out, x as u64, 2);
}

pub fn put_u32(out: &mut Vec<u8>, x: u32)
    ensures
        final(out)@ == old(out)@ + be(x as int, 4),
{
    put_be(out, x as u64, 4);
}

pub fn put_u64(out: &mut Vec<u8>, x: u64)
    ensures
        final(out)@ == old(out)@ + be(x as int, 8),
{
    put_be(out, x, 8);
}

/// Appends the bytes `s`.
pub fn put_bytes(out: &mut Vec<u8>, s: &[u8])
    ensures
        final(out)@ == old(out)@ + s@,
{
    out.extend_from_slice(s);
    assert(out@ =~= old(out)@ + s@);
}

/// Appends text with its length in front.
pub fn put_pascal(out: &mut Vec<u8>, s: &str)
    requires
        encode_utf8(s@).len() < 0x1_0000,
    ensures
        final(out)@ == old(out)@ + pascal(s@),
{
    let bytes: &[u8] = s.as_bytes();
    put_be(out, bytes.len() as u64, 2);
    put_bytes(out, bytes);
    assert(out@ =~= old(out)@ + pascal(s@));
}

/// The number in the `n` bytes at `at`.
pub fn get_be(s: &[u8], at: usize, n: usize) -> (r: u64)
    requires
        at + n <= s@.len(),
        n <= 8,
    ensures
        r == number(s@.subrange(at as int, at + n)),
        r < range(n as nat),
{
    let mut v: u64 = 0;
    let mut i: usize = 0;
    while i < n
        invariant
            at + n <= s.len(),
            n <= 8,
            i <= n,
            v == number(s@.subrange(at as int, at + i)),
        decreases n - i,
    {
        proof {
            lemma_number_range(s@.subrange(at as int, at + i));
            lemma_ranges();
            lemma_range_mono(i as nat, 7);
            reveal_with_fuel(range, 9);
            assert(s@.subrange(at as int, at + i + 1).drop_last() =~= s@.subrange(at as int, at + i));
        }
        v = v * 256 + s[at + i] as u64;
        i = i + 1;
    }
    proof {
        lemma_number_range(s@.subrange(at as int, at + n));
    }
    v
}

proof fn lemma_range_mono(a: nat, b: nat)
    requires
        a <= b,
    ensures
        0 < range(a) <= range(b),
    decreases b,
{
    if a < b {
        lemma_range_mono(a, (b - 1) as nat);
    } else if a > 0 {
        lemma_range_mono((a - 1) as nat, (a - 1) as nat);
    }
}

/// The bytes of `s` from `from` up to but not including `to`.
pub fn part(s: &[u8], from: usize, to: usize) -> (r: Vec<u8>)
    requires
        from <= to <= s@.len(),
    ensures
        r@ == s@.subrange(from as int, to as int),
{
    slice_to_vec(slice_subrange(s, from, to))
}

} // verus!
