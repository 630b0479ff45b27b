//! Keys made of several parts, written as one name.
use crate::text::{decimal, lemma_decimal_digits, lemma_decimal_injective, push_decimal};
use vstd::prelude::*;
use vstd::string::*;

verus! {

/// Two texts as one name: the length of the first, a colon, and both.
pub open spec fn pair_key(a: Seq<char>, b: Seq<char>) -> Seq<char> {
    decimal(a.len()).push(':') + a + b
}

/// Two texts and a number as one name.
pub open spec fn triple_key(a: Seq<char>, b: Seq<char>, n: nat) -> Seq<char> {
    decimal(n).push(':') + pair_key(a, b)
}

proof fn lemma_split(u: nat, v: nat, x: Seq<char>, y: Seq<char>)
    requires
        decimal(u).push(':') + x == decimal(v).push(':') + y,
    ensures
        u == v,
        x == y,
{
    let a = decimal(u);
    let b = decimal(v);
    let s = a.push(':') + x;
    let t = b.push(':') + y;
    lemma_decimal_digits(u);
    lemma_decimal_digits(v);
    assert(s[a.len() as int] == ':');
    assert(t[b.len() as int] == ':');
    if a.len() < b.len() {
        assert(t[a.len() as int] == b[a.len() as int]);
    } else if b.len() < a.len() {
        assert(s[b.len() as int] == a[b.len() as int]);
    }
    assert(a =~= b) by {
        assert forall|i: int| 0 <= i < a.len() implies a[i] == b[i] by {
            assert(s[i] == a[i] && t[i] == b[i]);
        }
    }
    lemma_decimal_injective(u, v);
    assert(x =~= s.skip(a.len() as int + 1));
    assert(y =~= t.skip(b.len() as int + 1));
}

/// Different pairs have different names.
pub proof fn pair_key_is_injective(a: Seq<char>, b: Seq<char>, c: Seq<char>, d: Seq<char>)
    requires
        pair_key(a, b) == pair_key(c, d),
    ensures
        a == c,
        b == d,
{
    assert(pair_key(a, b) =~= decimal(a.len()).push(':') + (a + b));
    assert(pair_key(c, d) =~= decimal(c.len()).push(':') + (c + d));
    lemma_split(a.len(), c.len(), a + b, c + d);
    assert(a =~= (a + b).take(a.len() as int));
    assert(c =~= (c + d).take(c.len() as int));
    assert(b =~= (a + b).skip(a.len() as int));
    assert(d =~= (c + d).skip(c.len() as int));
}

/// Different triples have different names.
pub proof fn triple_key_is_injective(
    a: Seq<char>,
    b: Seq<char>,
    n: nat,
    c: Seq<char>,
    d: Seq<char>,
    m: nat,
)
    requires
        triple_key(a, b, n) == triple_key(c, d, m),
    ensures
        a == c,
        b == d,
        n == m,
{
    lemma_split(n, m, pair_key(a, b), pair_key(c, d));
    pair_key_is_injective(a, b, c, d);
}

/// A number and a text as one name.
pub open spec fn numbered_key(n: nat, a: Seq<char>) -> Seq<char> {
    decimal(n).push(':') + a
}

/// Different numbered texts have different names.
pub proof fn numbered_key_is_injective(n: nat, a: Seq<char>, m: nat, b: Seq<char>)
    requires
        numbered_key(n, a) == numbered_key(m, b),
    ensures
        n == m,
        a == b,
{
    lemma_split(n, m, a, b);
}

/// The name of a numbered text.
pub fn name_numbered(n: u64, a: &str) -> (r: String)
    ensures
        r@ == numbered_key(n as nat, a@),
{
    let mut out = String::new();
    push_decimal(&mut out, n);
    out.push(':');
    out.append(a);
    assert(out@ =~= numbered_key(n as nat, a@));
    out
}

fn push_pair_key(out: &mut String, a: &str, b: &str)
    ensures
        final(out)@ == old(out)@ + pair_key(a@, b@),
{
    let n: usize = a.unicode_len();
    push_decimal(out, n as u64);
    out.push(':');
    out.append(a);
    out.append(b);
    assert(out@ =~= old(out)@ + pair_key(a@, b@));
}

/// The name of a pair.
pub fn name_pair(a: &str, b: &str) -> (r: String)
    ensures
        r@ == pair_key(a@, b@),
{
    let mut out = String::new();
    push_pair_key(&mut out, a, b);
    assert(out@ =~= pair_key(a@, b@));
    out
}

/// The name of a triple.
pub fn name_triple(a: &str, b: &str, n: u32) -> (r: String)
    ensures
        r@ == triple_key(a@, b@, n as nat),
{
    let mut out = String::new();
    push_decimal(&mut out, n as u64);
    out.push(':');
    push_pair_key(&mut out, a, b);
    assert(out@ =~= triple_key(a@, b@, n as nat));
    out
}

} // verus!
