use vstd::prelude::*;

verus! {

pub open spec fn pow256(n: nat) -> nat
    decreases n,
{
    if n == 0 {
        1
    } else {
        256 * pow256((n - 1) as nat)
    }
}

/// The 8-byte big-endian rendering of a 64-bit number.
pub open spec fn spec_u64_be(n: u64) -> Seq<u8> {
    Seq::new(8, |i: int| ((n as nat / pow256((7 - i) as nat)) % 256) as u8)
}

/// The number denoted by a big-endian byte sequence.
pub open spec fn bytes_val(s: Seq<u8>) -> nat
    decreases s.len(),
{
    if s.len() == 0 {
        0
    } else {
        (256 * bytes_val(s.drop_last()) + s.last()) as nat
    }
}

pub proof fn lemma_pow256_pos(n: nat)
    ensures
        pow256(n) >= 1,
    decreases n,
{
    if n > 0 {
        lemma_pow256_pos((n - 1) as nat);
    }
}

/// The denoted value is bounded by 256 to the number of bytes.
pub proof fn lemma_bytes_val_upper(s: Seq<u8>)
    ensures
        bytes_val(s) < pow256(s.len()),
    decreases s.len(),
{
    if s.len() > 0 {
        lemma_bytes_val_upper(s.drop_last());
        assert(s.last() < 256);
    }
}

/// A run of zero bytes.
pub open spec fn zero_bytes(n: nat) -> Seq<u8> {
    Seq::new(n, |i: int| 0u8)
}

/// The 16-byte big-endian rendering of a 128-bit number.
pub open spec fn spec_u128_be(n: u128) -> Seq<u8> {
    Seq::new(16, |i: int| ((n as nat / pow256((15 - i) as nat)) % 256) as u8)
}

/// A single byte denotes itself.
pub proof fn lemma_bytes_val_single(b: u8)
    ensures
        bytes_val(seq![b]) == b,
{
    assert(seq![b].drop_last() =~= Seq::<u8>::empty());
    assert(bytes_val(Seq::<u8>::empty()) == 0);
    assert(seq![b].last() == b);
}

/// Concatenation splits the denoted value positionally.
pub proof fn lemma_bytes_val_concat(a: Seq<u8>, b: Seq<u8>)
    ensures
        bytes_val(a + b) == bytes_val(a) * pow256(b.len()) + bytes_val(b),
    decreases b.len(),
{
    if b.len() == 0 {
        assert(a + b =~= a);
        assert(pow256(0) == 1);
    } else {
        lemma_bytes_val_concat(a, b.drop_last());
        let s = a + b;
        assert(s.last() == b.last());
        assert(s.drop_last() =~= a + b.drop_last());
        let p = pow256((b.len() - 1) as nat);
        let va = bytes_val(a);
        assert(pow256(b.len()) == 256 * p);
        assert(256 * (va * p) == va * (256 * p)) by (nonlinear_arith);
    }
}

/// A sequence denotes zero exactly when every byte is zero.
pub proof fn lemma_bytes_val_zero(s: Seq<u8>)
    ensures
        bytes_val(s) == 0 <==> (forall|q: int| 0 <= q < s.len() ==> s[q] == 0),
    decreases s.len(),
{
    if s.len() > 0 {
        lemma_bytes_val_zero(s.drop_last());
        if bytes_val(s) == 0 {
            assert(bytes_val(s.drop_last()) == 0 && s.last() == 0);
            assert forall|q: int| 0 <= q < s.len() implies s[q] == 0 by {
                if q < s.len() - 1 {
                    assert(s[q] == s.drop_last()[q]);
                }
            }
        } else {
            if forall|q: int| 0 <= q < s.len() ==> s[q] == 0 {
                assert(forall|q: int|
                    0 <= q < s.drop_last().len() ==> s.drop_last()[q] == s[q]);
                assert(bytes_val(s.drop_last()) == 0);
                assert(s.last() == 0);
            }
        }
    }
}

/// A value below 256 to the tail length pins the leading bytes to zero,
/// and conversely.
pub proof fn lemma_bytes_val_split(s: Seq<u8>, k: int)
    requires
        0 <= k <= s.len(),
    ensures
        bytes_val(s) == bytes_val(s.take(k)) * pow256((s.len() - k) as nat) + bytes_val(
            s.skip(k),
        ),
        bytes_val(s) < pow256((s.len() - k) as nat) <==> bytes_val(s.take(k)) == 0,
        bytes_val(s.take(k)) == 0 ==> bytes_val(s) == bytes_val(s.skip(k)),
{
    assert(s =~= s.take(k) + s.skip(k));
    lemma_bytes_val_concat(s.take(k), s.skip(k));
    lemma_bytes_val_upper(s.skip(k));
    lemma_pow256_pos((s.len() - k) as nat);
    let p = pow256((s.len() - k) as nat);
    let hi = bytes_val(s.take(k));
    let lo = bytes_val(s.skip(k));
    if hi == 0 {
        assert(hi * p == 0) by (nonlinear_arith)
            requires
                hi == 0,
        ;
        assert(bytes_val(s) == lo);
    } else {
        assert(hi * p >= 1 * p) by (nonlinear_arith)
            requires
                hi >= 1,
                p >= 1,
        ;
    }
}

/// Appends a copy of `src` to `dst`.
pub fn push_bytes(dst: &mut Vec<u8>, src: &Vec<u8>)
    ensures
        final(dst)@ == old(dst)@ + src@,
{
    let ghost base = dst@;
    let mut i: usize = 0;
    while i < src.len()
        invariant
            i <= src@.len(),
            dst@ =~= base + src@.take(i as int),
        decreases src@.len() - i,
    {
        let x = src[i];
        dst.push(x);
        i = i + 1;
        proof {
            assert(dst@ =~= base + src@.take(i as int));
        }
    }
    proof {
        assert(dst@ =~= base + src@);
    }
}

/// Appends the 8-byte big-endian rendering of `n` to `dst`.
pub fn push_u64_be(dst: &mut Vec<u8>, n: u64)
    ensures
        final(dst)@ == old(dst)@ + spec_u64_be(n),
{
    let ghost base = dst@;
    let mut p: u64 = 72057594037927936;
    proof {
        assert(pow256(0) == 1);
        assert(pow256(1) == 256);
        assert(pow256(2) == 65536);
        assert(pow256(3) == 16777216);
        assert(pow256(4) == 4294967296);
        assert(pow256(5) == 1099511627776);
        assert(pow256(6) == 281474976710656);
        assert(pow256(7) == 72057594037927936);
    }
    let mut i: usize = 0;
    while i < 8
        invariant
            i <= 8,
            i < 8 ==> p == pow256((7 - i) as nat),
            dst@ =~= base + spec_u64_be(n).take(i as int),
        decreases 8 - i,
    {
        proof {
            lemma_pow256_pos((7 - i) as nat);
        }
        let b = ((n / p) % 256) as u8;
        dst.push(b);
        proof {
            assert(b == spec_u64_be(n)[i as int]);
        }
        i = i + 1;
        proof {
            assert(dst@ =~= base + spec_u64_be(n).take(i as int));
            if i < 8 {
                assert(pow256((8 - i) as nat) == 256 * pow256((7 - i) as nat));
            }
        }
        if i < 8 {
            p = p / 256;
        }
    }
    proof {
        assert(spec_u64_be(n).take(8) =~= spec_u64_be(n));
    }
}

/// Appends the 16-byte big-endian rendering of `n` to `dst`.
pub fn push_u128_be(dst: &mut Vec<u8>, n: u128)
    ensures
        final(dst)@ == old(dst)@ + spec_u128_be(n),
{
    let ghost base = dst@;
    let mut p: u128 = 1329227995784915872903807060280344576;
    proof {
        assert(pow256(0) == 1);
        assert(pow256(1) == 256);
        assert(pow256(2) == 65536);
        assert(pow256(3) == 16777216);
        assert(pow256(4) == 4294967296);
        assert(pow256(5) == 1099511627776);
        assert(pow256(6) == 281474976710656);
        assert(pow256(7) == 72057594037927936);
        assert(pow256(8) == 18446744073709551616);
        assert(pow256(9) == 4722366482869645213696);
        assert(pow256(10) == 1208925819614629174706176);
        assert(pow256(11) == 309485009821345068724781056);
        assert(pow256(12) == 79228162514264337593543950336);
        assert(pow256(13) == 20282409603651670423947251286016);
        assert(pow256(14) == 5192296858534827628530496329220096);
        assert(pow256(15) == 1329227995784915872903807060280344576);
    }
    let mut i: usize = 0;
    while i < 16
        invariant
            i <= 16,
            i < 16 ==> p == pow256((15 - i) as nat),
            dst@ =~= base + spec_u128_be(n).take(i as int),
        decreases 16 - i,
    {
        proof {
            lemma_pow256_pos((15 - i) as nat);
        }
        let b = ((n / p) % 256) as u8;
        dst.push(b);
        proof {
            assert(b == spec_u128_be(n)[i as int]);
        }
        i = i + 1;
        proof {
            assert(dst@ =~= base + spec_u128_be(n).take(i as int));
            if i < 16 {
                assert(pow256((16 - i) as nat) == 256 * pow256((15 - i) as nat));
            }
        }
        if i < 16 {
            p = p / 256;
        }
    }
    proof {
        assert(spec_u128_be(n).take(16) =~= spec_u128_be(n));
    }
}

} // verus!
