//! Big-endian encoding of unsigned integers, the base of every wired value.
use vstd::prelude::*;

verus! {

/// `256` to the power `n`: the number of distinct values held by `n` bytes.
pub open spec fn pow256(n: nat) -> nat
    decreases n,
{
    if n == 0 {
        1
    } else {
        256 * pow256((n - 1) as nat)
    }
}

/// The low `n` bytes of `v`, most significant first.
pub open spec fn be_encode(v: nat, n: nat) -> Seq<u8>
    decreases n,
{
    if n == 0 {
        Seq::empty()
    } else {
        be_encode(v / 256, (n - 1) as nat).push((v % 256) as u8)
    }
}

/// The number whose big-endian bytes are `s`.
pub open spec fn be_decode(s: Seq<u8>) -> nat
    decreases s.len(),
{
    if s.len() == 0 {
        0
    } else {
        be_decode(s.drop_last()) * 256 + (s.last() as nat)
    }
}

pub proof fn lemma_pow256_pos(n: nat)
    ensures
        pow256(n) >= 1,
    decreases n,
{
    if n > 0 {
        lemma_pow256_pos((n - 1) as nat);
    }
}

pub proof fn lemma_pow256_values()
    ensures
        pow256(1) == 0x100,
        pow256(2) == 0x1_0000,
        pow256(3) == 0x100_0000,
        pow256(4) == 0x1_0000_0000,
        pow256(8) == 0x1_0000_0000_0000_0000,
        pow256(16) == 0x1_0000_0000_0000_0000_0000_0000_0000_0000,
{
    reveal_with_fuel(pow256, 17);
}

pub proof fn lemma_be_encode_len(v: nat, n: nat)
    ensures
        be_encode(v, n).len() == n,
    decreases n,
{
    if n > 0 {
        lemma_be_encode_len(v / 256, (n - 1) as nat);
    }
}

/// Decoding is bounded by the width.
pub proof fn lemma_be_decode_bound(s: Seq<u8>)
    ensures
        be_decode(s) < pow256(s.len()),
    decreases s.len(),
{
    if s.len() > 0 {
        let p = s.drop_last();
        lemma_be_decode_bound(p);
        let d = be_decode(p);
        let q = pow256(p.len());
        let b = s.last() as nat;
        assert(d * 256 + b < 256 * q) by (nonlinear_arith)
            requires
                d < q,
                b < 256,
        ;
    }
}

/// Encoding a value that fits, then decoding, gives the value back.
pub proof fn lemma_be_decode_encode(v: nat, n: nat)
    requires
        v < pow256(n),
    ensures
        be_decode(be_encode(v, n)) == v,
    decreases n,
{
    if n > 0 {
        let q = pow256((n - 1) as nat);
        assert(v / 256 < q) by (nonlinear_arith)
            requires
                v < 256 * q,
        ;
        lemma_be_decode_encode(v / 256, (n - 1) as nat);
        let e = be_encode(v, n);
        assert(e.drop_last() =~= be_encode(v / 256, (n - 1) as nat));
        assert((v / 256) * 256 + v % 256 == v) by (nonlinear_arith);
    }
}

/// Append the `n` big-endian bytes of `v` to `out`.
pub fn push_be(out: &mut Vec<u8>, v: u128, n: usize)
    requires
        n <= 16,
    ensures
        final(out)@ == old(out)@ + be_encode(v as nat, n as nat),
{
    let mut tmp: Vec<u8> = Vec::new();
    let mut k: usize = 0;
    while k < n
        invariant
            k <= n,
            tmp@.len() == k,
            forall|j: int| 0 <= j < k ==> tmp@[j] == 0,
        decreases n - k,
    {
        tmp.push(0u8);
        k = k + 1;
    }
    let mut x: u128 = v;
    let mut i: usize = n;
    while i > 0
        invariant
            i <= n,
            tmp@.len() == n,
            be_encode(v as nat, n as nat) =~= be_encode(x as nat, i as nat) + tmp@.subrange(
                i as int,
                n as int,
            ),
        decreases i,
    {
        let ghost old_x = x;
        let ghost old_tail = tmp@.subrange(i as int, n as int);
        let b: u8 = (x % 256) as u8;
        tmp.set(i - 1, b);
        x = x / 256;
        i = i - 1;
        assert(tmp@.subrange(i as int, n as int) =~= seq![b] + old_tail);
        assert(be_encode(old_x as nat, (i + 1) as nat) =~= be_encode(x as nat, i as nat).push(b));
    }
    let mut j: usize = 0;
    let ghost start = out@;
    while j < n
        invariant
            j <= n,
            tmp@.len() == n,
            out@ =~= start + tmp@.subrange(0, j as int),
        decreases n - j,
    {
        out.push(tmp[j]);
        j = j + 1;
    }
    assert(tmp@.subrange(0, n as int) =~= tmp@);
}

/// The number whose big-endian bytes are `bytes[start..start + n]`.
pub fn read_be(bytes: &[u8], start: usize, n: usize) -> (r: u128)
    requires
        n <= 16,
        start + n <= bytes@.len(),
    ensures
        r as nat == be_decode(bytes@.subrange(start as int, start + n)),
{
    let mut acc: u128 = 0;
    let mut i: usize = 0;
    proof {
        lemma_pow256_values();
    }
    while i < n
        invariant
            i <= n,
            n <= 16,
            start + n <= bytes.len(),
            acc as nat == be_decode(bytes@.subrange(start as int, start + i)),
            pow256(16) == 0x1_0000_0000_0000_0000_0000_0000_0000_0000,
        decreases n - i,
    {
        let ghost sub = bytes@.subrange(start as int, start + i + 1);
        assert(sub.drop_last() =~= bytes@.subrange(start as int, start + i));
        proof {
            lemma_be_decode_bound(sub);
            lemma_pow256_mono(sub.len(), 16);
        }
        acc = acc * 256 + bytes[start + i] as u128;
        i = i + 1;
    }
    acc
}

pub proof fn lemma_pow256_mono(a: nat, b: nat)
    requires
        a <= b,
    ensures
        pow256(a) <= pow256(b),
    decreases b,
{
    if a < b {
        lemma_pow256_mono(a, (b - 1) as nat);
        lemma_pow256_pos((b - 1) as nat);
    }
}

} // verus!
