//! Keys of the log namespace: the 8-byte big-endian form of a log index,
//! so that byte-wise key order is index order.
use vstd::prelude::*;

verus! {

pub open spec fn pow256(k: nat) -> nat
    decreases k,
{
    if k == 0 {
        1
    } else {
        256 * pow256((k - 1) as nat)
    }
}

/// The last `k` base-256 digits of `n`, most significant first.
pub open spec fn be_digits(n: nat, k: nat) -> Seq<u8>
    decreases k,
{
    if k == 0 {
        Seq::empty()
    } else {
        be_digits(n / 256, (k - 1) as nat).push((n % 256) as u8)
    }
}

/// The key under which the entry with index `n` is stored.
pub open spec fn be_bytes(n: u64) -> Seq<u8> {
    be_digits(n as nat, 8)
}

/// The number whose big-endian digits are `s`.
pub open spec fn be_value(s: Seq<u8>) -> nat
    decreases s.len(),
{
    if s.len() == 0 {
        0
    } else {
        be_value(s.drop_last()) * 256 + s.last() as nat
    }
}

/// Byte-wise lexicographic order on sequences of one length.
pub open spec fn lex_lt(a: Seq<u8>, b: Seq<u8>) -> bool
    decreases a.len(),
{
    if a.len() == 0 || b.len() == 0 {
        false
    } else {
        lex_lt(a.drop_last(), b.drop_last()) || (a.drop_last() == b.drop_last() && a.last()
            < b.last())
    }
}

proof fn lemma_pow256_pos(k: nat)
    ensures
        pow256(k) >= 1,
    decreases k,
{
    if k > 0 {
        lemma_pow256_pos((k - 1) as nat);
    }
}

proof fn lemma_digits_len(n: nat, k: nat)
    ensures
        be_digits(n, k).len() == k,
    decreases k,
{
    if k > 0 {
        lemma_digits_len(n / 256, (k - 1) as nat);
    }
}

proof fn lemma_digits_value(n: nat, k: nat)
    ensures
        be_value(be_digits(n, k)) == n % pow256(k),
    decreases k,
{
    if k == 0 {
        assert(n % 1 == 0);
    } else {
        let k1 = (k - 1) as nat;
        lemma_digits_value(n / 256, k1);
        lemma_pow256_pos(k1);
        let d = be_digits(n, k);
        assert(d.drop_last() == be_digits(n / 256, k1));
        let p = pow256(k1);
        assert((n / 256) % p * 256 + n % 256 == n % (256 * p)) by (nonlinear_arith)
            requires
                p >= 1,
        {
            vstd::arithmetic::div_mod::lemma_breakdown(n as int, 256, p as int);
            vstd::arithmetic::div_mod::lemma_mod_breakdown(n as int, 256, p as int);
        }
    }
}

proof fn lemma_value_bound(s: Seq<u8>)
    ensures
        be_value(s) < pow256(s.len()),
    decreases s.len(),
{
    if s.len() > 0 {
        lemma_value_bound(s.drop_last());
        let v = be_value(s.drop_last());
        let p = pow256((s.len() - 1) as nat);
        let b = s.last() as nat;
        assert(v * 256 + b < 256 * p) by (nonlinear_arith)
            requires
                v < p,
                b < 256,
        ;
    }
}

proof fn lemma_pow256_8()
    ensures
        pow256(8) == 0x1_0000_0000_0000_0000,
{
    reveal_with_fuel(pow256, 9);
}

/// Decoding a key gives back the index it was made from.
pub proof fn law_key_round_trip(n: u64)
    ensures
        be_value(be_bytes(n)) == n,
        be_bytes(n).len() == 8,
{
    lemma_digits_value(n as nat, 8);
    lemma_digits_len(n as nat, 8);
    lemma_pow256_8();
}

proof fn lemma_digits_order(n: nat, m: nat, k: nat)
    requires
        n < pow256(k),
        m < pow256(k),
    ensures
        n < m <==> lex_lt(be_digits(n, k), be_digits(m, k)),
        n == m <==> be_digits(n, k) == be_digits(m, k),
    decreases k,
{
    if k == 0 {
    } else {
        let k1 = (k - 1) as nat;
        let p = pow256(k1);
        vstd::arithmetic::div_mod::lemma_fundamental_div_mod(n as int, 256);
        vstd::arithmetic::div_mod::lemma_fundamental_div_mod(m as int, 256);
        assert(n / 256 < p && m / 256 < p) by (nonlinear_arith)
            requires
                n < 256 * p,
                m < 256 * p,
                n == 256 * (n / 256) + n % 256,
                m == 256 * (m / 256) + m % 256,
                n % 256 >= 0,
                m % 256 >= 0,
        ;
        lemma_digits_order(n / 256, m / 256, k1);
        let dn = be_digits(n, k);
        let dm = be_digits(m, k);
        assert(dn.drop_last() == be_digits(n / 256, k1));
        assert(dm.drop_last() == be_digits(m / 256, k1));
        lemma_digits_len(n / 256, k1);
        lemma_digits_len(m / 256, k1);
        assert(n == (n / 256) * 256 + n % 256) by {
            vstd::arithmetic::div_mod::lemma_fundamental_div_mod(n as int, 256);
        }
        assert(m == (m / 256) * 256 + m % 256) by {
            vstd::arithmetic::div_mod::lemma_fundamental_div_mod(m as int, 256);
        }
        if dn == dm {
            assert(dn.last() == dm.last());
        }
        if n / 256 < m / 256 {
            assert(n < m) by (nonlinear_arith)
                requires
                    n / 256 < m / 256,
                    n == (n / 256) * 256 + n % 256,
                    m == (m / 256) * 256 + m % 256,
                    n % 256 < 256,
            ;
        }
        if m / 256 < n / 256 {
            assert(m < n) by (nonlinear_arith)
                requires
                    m / 256 < n / 256,
                    n == (n / 256) * 256 + n % 256,
                    m == (m / 256) * 256 + m % 256,
                    m % 256 < 256,
            ;
            lemma_lex_asym(dn.drop_last(), dm.drop_last());
        }
        if dn.drop_last() == dm.drop_last() && dn.last() == dm.last() {
            assert(dn =~= dm);
        }
    }
}

proof fn lemma_lex_asym(a: Seq<u8>, b: Seq<u8>)
    requires
        a.len() == b.len(),
    ensures
        lex_lt(a, b) ==> !lex_lt(b, a),
        lex_lt(a, b) ==> a != b,
    decreases a.len(),
{
    if a.len() > 0 {
        lemma_lex_asym(a.drop_last(), b.drop_last());
    }
}

/// Byte-wise order of keys is the numeric order of the indices they encode,
/// so a forward scan of the log namespace visits entries by ascending index.
pub proof fn law_key_order(a: u64, b: u64)
    ensures
        a < b <==> lex_lt(be_bytes(a), be_bytes(b)),
        a == b <==> be_bytes(a) == be_bytes(b),
{
    lemma_pow256_8();
    lemma_digits_order(a as nat, b as nat, 8);
}

fn digits(n: u64, k: usize) -> (r: Vec<u8>)
    ensures
        r@ == be_digits(n as nat, k as nat),
    decreases k,
{
    if k == 0 {
        Vec::new()
    } else {
        let mut v = digits(n / 256, k - 1);
        v.push((n % 256) as u8);
        v
    }
}

/// The key of the entry with index `id`: its 8-byte big-endian form.
pub fn id_to_bin(id: u64) -> (r: Vec<u8>)
    ensures
        r@ == be_bytes(id),
        r@.len() == 8,
{
    proof {
        lemma_digits_len(id as nat, 8);
    }
    digits(id, 8)
}

/// The index encoded in the first eight bytes of `buf`.
pub fn bin_to_id(buf: &[u8]) -> (r: u64)
    requires
        buf@.len() >= 8,
    ensures
        r == be_value(buf@.take(8)),
{
    let mut acc: u64 = 0;
    let mut i: usize = 0;
    proof {
        lemma_pow256_8();
    }
    while i < 8
        invariant
            i <= 8,
            buf@.len() >= 8,
            acc == be_value(buf@.take(i as int)),
            pow256(8) == 0x1_0000_0000_0000_0000,
        decreases 8 - i,
    {
        proof {
            lemma_value_bound(buf@.take(i as int));
            assert(pow256(i as nat) * pow256((8 - i) as nat) == pow256(8)) by {
                lemma_pow256_mul(i as nat, (8 - i) as nat);
            }
            lemma_pow256_pos((8 - i - 1) as nat);
            let p = pow256(i as nat);
            let q = pow256((8 - i - 1) as nat);
            assert(pow256((8 - i) as nat) == 256 * q);
            assert(acc as nat * 256 + 255 < 0x1_0000_0000_0000_0000) by (nonlinear_arith)
                requires
                    acc < p,
                    p * (256 * q) == 0x1_0000_0000_0000_0000,
                    q >= 1,
            ;
        }
        let b = buf[i];
        acc = acc * 256 + b as u64;
        proof {
            assert(buf@.take(i + 1).drop_last() =~= buf@.take(i as int));
        }
        i = i + 1;
    }
    acc
}

proof fn lemma_pow256_mul(a: nat, b: nat)
    ensures
        pow256(a) * pow256(b) == pow256(a + b),
    decreases a,
{
    if a == 0 {
        assert(pow256(0) == 1);
        assert(1 * pow256(b) == pow256(b));
    } else {
        lemma_pow256_mul((a - 1) as nat, b);
        let x = pow256((a - 1) as nat);
        let y = pow256(b);
        assert((a + b - 1) as nat == (a - 1) as nat + b);
        assert(pow256(a + b) == 256 * pow256((a - 1) as nat + b));
        assert(pow256(a) == 256 * x);
        assert((256 * x) * y == 256 * (x * y)) by (nonlinear_arith);
    }
}

} // verus!
