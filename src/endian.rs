//! Big-endian byte strings of fixed width, as the key and metadata layouts
//! spell their integers.
use vstd::prelude::*;

verus! {

/// `256` raised to the power `k`.
pub open spec fn pow256(k: nat) -> nat
    decreases k,
{
    if k == 0 {
        1
    } else {
        256 * pow256((k - 1) as nat)
    }
}

/// The `k` bytes that spell `n mod 256^k`, most significant byte first.
pub open spec fn be_bytes(n: nat, k: nat) -> Seq<u8>
    decreases k,
{
    if k == 0 {
        Seq::empty()
    } else {
        be_bytes(n / 256, (k - 1) as nat).push((n % 256) as u8)
    }
}

/// The number that `s` spells, most significant byte first.
pub open spec fn be_value(s: Seq<u8>) -> nat
    decreases s.len(),
{
    if s.len() == 0 {
        0
    } else {
        be_value(s.drop_last()) * 256 + s.last() as nat
    }
}

pub proof fn lemma_pow256_positive(k: nat)
    ensures
        pow256(k) > 0,
    decreases k,
{
    if k > 0 {
        lemma_pow256_positive((k - 1) as nat);
    }
}

pub proof fn lemma_pow256_values()
    ensures
        pow256(8) == 0x1_0000_0000_0000_0000,
        pow256(16) == 0x1_0000_0000_0000_0000_0000_0000_0000_0000,
{
    reveal_with_fuel(pow256, 17);
}

pub proof fn lemma_be_value_bound(s: Seq<u8>)
    ensures
        be_value(s) < pow256(s.len()),
    decreases s.len(),
{
    if s.len() > 0 {
        lemma_be_value_bound(s.drop_last());
        let a = be_value(s.drop_last());
        let p = pow256((s.len() - 1) as nat);
        assert(a * 256 + (s.last() as nat) < 256 * p) by (nonlinear_arith)
            requires
                a < p,
                s.last() < 256,
        ;
    }
}

pub proof fn lemma_be_bytes_len(n: nat, k: nat)
    ensures
        be_bytes(n, k).len() == k,
    decreases k,
{
    if k > 0 {
        lemma_be_bytes_len(n / 256, (k - 1) as nat);
    }
}

/// Reading back `k` written bytes gives the number modulo `256^k`.
pub proof fn lemma_be_value_of_bytes(n: nat, k: nat)
    ensures
        be_value(be_bytes(n, k)) == n % pow256(k),
    decreases k,
{
    if k == 0 {
        assert(n % 1 == 0) by (nonlinear_arith);
    } else {
        let k1 = (k - 1) as nat;
        lemma_be_value_of_bytes(n / 256, k1);
        let s = be_bytes(n, k);
        assert(s.drop_last() =~= be_bytes(n / 256, k1));
        let p = pow256(k1);
        lemma_pow256_positive(k1);
        assert((n / 256) % p * 256 + n % 256 == n % (256 * p)) by (nonlinear_arith)
            requires
                p > 0,
        {
            let q = n / 256;
            let r = n % 256;
            assert(n == q * 256 + r);
            let qq = q / p;
            let qr = q % p;
            assert(q == qq * p + qr);
            assert(n == qq * (256 * p) + (qr * 256 + r));
            assert(0 <= qr * 256 + r < 256 * p);
            vstd::arithmetic::div_mod::lemma_fundamental_div_mod_converse(
                n as int,
                (256 * p) as int,
                qq as int,
                (qr * 256 + r) as int,
            );
        }
    }
}

/// Writing back the number that `s` spells, in `s.len()` bytes, gives `s`.
pub proof fn lemma_be_bytes_of_value(s: Seq<u8>)
    ensures
        be_bytes(be_value(s), s.len()) == s,
    decreases s.len(),
{
    if s.len() > 0 {
        let init = s.drop_last();
        lemma_be_bytes_of_value(init);
        let v = be_value(s);
        let a = be_value(init);
        let b = s.last() as nat;
        assert(v / 256 == a && v % 256 == b) by {
            vstd::arithmetic::div_mod::lemma_fundamental_div_mod_converse(
                v as int,
                256,
                a as int,
                b as int,
            );
        }
        assert(be_bytes(v, s.len()) =~= s);
    }
}

/// Two byte strings of one width that spell the same number are equal.
pub proof fn lemma_be_value_injective(s: Seq<u8>, t: Seq<u8>)
    requires
        s.len() == t.len(),
        be_value(s) == be_value(t),
    ensures
        s == t,
{
    lemma_be_bytes_of_value(s);
    lemma_be_bytes_of_value(t);
}

/// `s` sorts before `t` byte by byte: at the first difference `s` has the
/// smaller byte, or `s` is a proper prefix of `t`.
pub open spec fn lex_lt(s: Seq<u8>, t: Seq<u8>) -> bool {
    exists|i: int|
        0 <= i <= s.len() && i <= t.len() && #[trigger] s.subrange(0, i) == t.subrange(0, i) && (
        (i < s.len() && i < t.len() && s[i] < t[i]) || (i == s.len() && i < t.len()))
}

/// Of two byte strings of one width, the one that spells the smaller number
/// sorts first.
pub proof fn lemma_be_order(s: Seq<u8>, t: Seq<u8>)
    requires
        s.len() == t.len(),
        be_value(s) < be_value(t),
    ensures
        lex_lt(s, t),
    decreases s.len(),
{
    let n = s.len();
    let s1 = s.drop_last();
    let t1 = t.drop_last();
    let a = be_value(s1);
    let b = be_value(t1);
    if a < b {
        lemma_be_order(s1, t1);
        let i = choose|i: int|
            0 <= i <= s1.len() && i <= t1.len() && #[trigger] s1.subrange(0, i) == t1.subrange(0, i) && (
            (i < s1.len() && i < t1.len() && s1[i] < t1[i]) || (i == s1.len() && i < t1.len()));
        assert(s.subrange(0, i) =~= s1.subrange(0, i));
        assert(t.subrange(0, i) =~= t1.subrange(0, i));
        assert(s[i] == s1[i] && t[i] == t1[i]);
    } else if a == b {
        lemma_be_value_injective(s1, t1);
        assert(s.subrange(0, n - 1) =~= s1);
        assert(t.subrange(0, n - 1) =~= t1);
        assert(s.subrange(0, n - 1) == t.subrange(0, n - 1));
    } else {
        assert(a * 256 + (s.last() as nat) >= b * 256 + (t.last() as nat)) by (nonlinear_arith)
            requires
                a > b,
                t.last() < 256,
        ;
    }
}

/// Byte order is a strict order: never both ways.
pub proof fn lemma_lex_lt_asymmetric(s: Seq<u8>, t: Seq<u8>)
    ensures
        !(lex_lt(s, t) && lex_lt(t, s)),
{
    if lex_lt(s, t) && lex_lt(t, s) {
        let i = choose|i: int|
            0 <= i <= s.len() && i <= t.len() && #[trigger] s.subrange(0, i) == t.subrange(0, i) && (
            (i < s.len() && i < t.len() && s[i] < t[i]) || (i == s.len() && i < t.len()));
        let j = choose|j: int|
            0 <= j <= t.len() && j <= s.len() && #[trigger] t.subrange(0, j) == s.subrange(0, j) && (
            (j < t.len() && j < s.len() && t[j] < s[j]) || (j == t.len() && j < s.len()));
        if i < j {
            assert(s.subrange(0, j)[i] == t.subrange(0, j)[i]);
        } else if j < i {
            assert(s.subrange(0, i)[j] == t.subrange(0, i)[j]);
        }
    }
}

/// Appends the `k` big-endian bytes of `n` to `out`.
pub fn push_be(out: &mut Vec<u8>, n: u128, k: usize)
    ensures
        final(out)@ == old(out)@ + be_bytes(n as nat, k as nat),
    decreases k,
{
    if k > 0 {
        push_be(out, n / 256, k - 1);
        out.push((n % 256) as u8);
        assert(out@ =~= old(out)@ + be_bytes(n as nat, k as nat));
    }
}

/// The number that `s[lo..hi]` spells, most significant byte first.
pub fn read_be(s: &[u8], lo: usize, hi: usize) -> (r: u128)
    requires
        lo <= hi <= s@.len(),
        hi - lo <= 16,
    ensures
        r as nat == be_value(s@.subrange(lo as int, hi as int)),
{
    let mut acc: u128 = 0;
    let mut i: usize = lo;
    while i < hi
        invariant
            lo <= i <= hi <= s@.len(),
            hi - lo <= 16,
            acc as nat == be_value(s@.subrange(lo as int, i as int)),
        decreases hi - i,
    {
        proof {
            let part = s@.subrange(lo as int, i as int);
            lemma_be_value_bound(part);
            lemma_pow256_values();
            lemma_pow_mono((i - lo) as nat, 15);
            assert(acc * 256 + 255 <= 0xffff_ffff_ffff_ffff_ffff_ffff_ffff_ffff) by (nonlinear_arith)
                requires
                    acc < pow256((i - lo) as nat),
                    pow256((i - lo) as nat) <= pow256(15),
                    256 * pow256(15) == pow256(16),
                    pow256(16) == 0x1_0000_0000_0000_0000_0000_0000_0000_0000,
            ;
            assert(s@.subrange(lo as int, i + 1).drop_last() =~= part);
        }
        acc = acc * 256 + s[i] as u128;
        i += 1;
    }
    acc
}

pub proof fn lemma_pow_mono(a: nat, b: nat)
    requires
        a <= b,
    ensures
        pow256(a) <= pow256(b),
    decreases b,
{
    if a < b {
        lemma_pow_mono(a, (b - 1) as nat);
        lemma_pow256_positive((b - 1) as nat);
    }
}

} // verus!
