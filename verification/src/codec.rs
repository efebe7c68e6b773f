//! Big-endian integer codecs used by the row and page formats.
//!
//! Each width has a spec-level encoding and decoding function and a
//! proved round trip; the executable readers and writers meet those
//! specs exactly.

use vstd::prelude::*;

verus! {

pub open spec fn spec_u64_be(x: u64) -> Seq<u8> {
    seq![
        (x >> 56) as u8,
        (x >> 48) as u8,
        (x >> 40) as u8,
        (x >> 32) as u8,
        (x >> 24) as u8,
        (x >> 16) as u8,
        (x >> 8) as u8,
        x as u8,
    ]
}

pub open spec fn spec_u64_from_be(s: Seq<u8>) -> u64
    recommends
        s.len() == 8,
{
    (((s[0] as u64) << 56) | ((s[1] as u64) << 48) | ((s[2] as u64) << 40) | ((s[3] as u64)
        << 32) | ((s[4] as u64) << 24) | ((s[5] as u64) << 16) | ((s[6] as u64) << 8) | (
    s[7] as u64)) as u64
}

pub open spec fn spec_u32_be(x: u32) -> Seq<u8> {
    seq![(x >> 24) as u8, (x >> 16) as u8, (x >> 8) as u8, x as u8]
}

pub open spec fn spec_u32_from_be(s: Seq<u8>) -> u32
    recommends
        s.len() == 4,
{
    (((s[0] as u32) << 24) | ((s[1] as u32) << 16) | ((s[2] as u32) << 8) | (s[3] as u32)) as u32
}

/// Keys and ids are signed; their byte form is the two's-complement
/// big-endian image.
pub open spec fn spec_i32_be(x: i32) -> Seq<u8> {
    spec_u32_be(x as u32)
}

pub open spec fn spec_i32_from_be(s: Seq<u8>) -> i32
    recommends
        s.len() == 4,
{
    spec_u32_from_be(s) as i32
}

pub proof fn lemma_u64_be_round_trip(x: u64)
    ensures
        spec_u64_from_be(spec_u64_be(x)) == x,
{
    assert((((x >> 56) as u8 as u64) << 56 | ((x >> 48) as u8 as u64) << 48 | ((x >> 40) as u8
        as u64) << 40 | ((x >> 32) as u8 as u64) << 32 | ((x >> 24) as u8 as u64) << 24 | ((x
        >> 16) as u8 as u64) << 16 | ((x >> 8) as u8 as u64) << 8 | ((x as u8) as u64)) == x)
        by (bit_vector);
}

pub proof fn lemma_u32_be_round_trip(x: u32)
    ensures
        spec_u32_from_be(spec_u32_be(x)) == x,
{
    assert((((x >> 24) as u8 as u32) << 24 | ((x >> 16) as u8 as u32) << 16 | ((x >> 8) as u8
        as u32) << 8 | ((x as u8) as u32)) == x) by (bit_vector);
}

pub proof fn lemma_i32_be_round_trip(x: i32)
    ensures
        spec_i32_from_be(spec_i32_be(x)) == x,
{
    lemma_u32_be_round_trip(x as u32);
    assert(x as u32 as i32 == x) by (bit_vector);
}

/// Re-encoding the value read from four bytes gives back those
/// bytes.
pub proof fn lemma_i32_be_parse_round_trip(s: Seq<u8>)
    requires
        s.len() == 4,
    ensures
        spec_i32_be(spec_i32_from_be(s)) == s,
{
    let b0 = s[0];
    let b1 = s[1];
    let b2 = s[2];
    let b3 = s[3];
    assert(((((b0 as u32) << 24 | (b1 as u32) << 16 | (b2 as u32) << 8 | (b3 as u32)) as i32)
        as u32) == ((b0 as u32) << 24 | (b1 as u32) << 16 | (b2 as u32) << 8 | (b3 as u32)))
        by (bit_vector);
    assert(((((b0 as u32) << 24 | (b1 as u32) << 16 | (b2 as u32) << 8 | (b3 as u32)) >> 24)
        as u8) == b0) by (bit_vector);
    assert(((((b0 as u32) << 24 | (b1 as u32) << 16 | (b2 as u32) << 8 | (b3 as u32)) >> 16)
        as u8) == b1) by (bit_vector);
    assert(((((b0 as u32) << 24 | (b1 as u32) << 16 | (b2 as u32) << 8 | (b3 as u32)) >> 8)
        as u8) == b2) by (bit_vector);
    assert((((b0 as u32) << 24 | (b1 as u32) << 16 | (b2 as u32) << 8 | (b3 as u32)) as u8)
        == b3) by (bit_vector);
    assert(spec_i32_be(spec_i32_from_be(s)) =~= s);
}

pub fn u64_to_be(x: u64) -> (r: Vec<u8>)
    ensures
        r@ == spec_u64_be(x),
{
    let mut r: Vec<u8> = Vec::new();
    r.push((x >> 56) as u8);
    r.push((x >> 48) as u8);
    r.push((x >> 40) as u8);
    r.push((x >> 32) as u8);
    r.push((x >> 24) as u8);
    r.push((x >> 16) as u8);
    r.push((x >> 8) as u8);
    r.push(x as u8);
    proof {
        assert(r@ =~= spec_u64_be(x));
    }
    r
}

pub fn i32_to_be(x: i32) -> (r: Vec<u8>)
    ensures
        r@ == spec_i32_be(x),
{
    let u: u32 = x as u32;
    let mut r: Vec<u8> = Vec::new();
    r.push((u >> 24) as u8);
    r.push((u >> 16) as u8);
    r.push((u >> 8) as u8);
    r.push(u as u8);
    proof {
        assert(r@ =~= spec_i32_be(x));
    }
    r
}

/// Reads the big-endian `u64` stored at `off`.
pub fn read_u64_be(v: &Vec<u8>, off: usize) -> (x: u64)
    requires
        off + 8 <= v@.len(),
    ensures
        x == spec_u64_from_be(v@.subrange(off as int, off as int + 8)),
{
    let n: usize = v.len();
    let x: u64 = ((v[off] as u64) << 56) | ((v[off + 1] as u64) << 48) | ((v[off + 2] as u64)
        << 40) | ((v[off + 3] as u64) << 32) | ((v[off + 4] as u64) << 24) | ((v[off + 5] as u64)
        << 16) | ((v[off + 6] as u64) << 8) | (v[off + 7] as u64);
    proof {
        let s = v@.subrange(off as int, off as int + 8);
        assert(s[0] == v@[off as int]);
        assert(s[1] == v@[off as int + 1]);
        assert(s[2] == v@[off as int + 2]);
        assert(s[3] == v@[off as int + 3]);
        assert(s[4] == v@[off as int + 4]);
        assert(s[5] == v@[off as int + 5]);
        assert(s[6] == v@[off as int + 6]);
        assert(s[7] == v@[off as int + 7]);
    }
    x
}

/// Reads the big-endian `i32` stored at `off`.
pub fn read_i32_be(v: &Vec<u8>, off: usize) -> (x: i32)
    requires
        off + 4 <= v@.len(),
    ensures
        x == spec_i32_from_be(v@.subrange(off as int, off as int + 4)),
{
    let n: usize = v.len();
    let u: u32 = ((v[off] as u32) << 24) | ((v[off + 1] as u32) << 16) | ((v[off + 2] as u32)
        << 8) | (v[off + 3] as u32);
    proof {
        let s = v@.subrange(off as int, off as int + 4);
        assert(s[0] == v@[off as int]);
        assert(s[1] == v@[off as int + 1]);
        assert(s[2] == v@[off as int + 2]);
        assert(s[3] == v@[off as int + 3]);
    }
    #[verifier::truncate] (u as i32)
}

/// The decimal digits of `n`, most significant first.
pub open spec fn spec_udec(n: nat) -> Seq<u8>
    decreases n,
{
    if n < 10 {
        seq![(48 + n) as u8]
    } else {
        spec_udec(n / 10).push((48 + n % 10) as u8)
    }
}

/// The canonical decimal text of an `i32`: a minus sign for a
/// negative value, then the digits without leading zeros.
pub open spec fn spec_i32_dec(x: int) -> Seq<u8> {
    if x < 0 {
        seq![45u8] + spec_udec((-x) as nat)
    } else {
        spec_udec(x as nat)
    }
}

/// Renders an `i32` as its canonical decimal text.
pub fn i32_to_decimal(x: i32) -> (r: Vec<u8>)
    ensures
        r@ == spec_i32_dec(x as int),
{
    let neg = x < 0;
    let mag: u32 = if x == i32::MIN {
        0x8000_0000u32
    } else if neg {
        (0i32 - x) as u32
    } else {
        x as u32
    };
    proof {
        if x == i32::MIN {
            assert((-(i32::MIN as int)) as nat == 0x8000_0000nat);
        }
    }
    let ghost m0 = mag as nat;
    let mut tmp: Vec<u8> = Vec::new();
    let mut m: u32 = mag;
    loop
        invariant_except_break
            spec_udec(m0) == if tmp@.len() == 0 {
                spec_udec(m as nat)
            } else {
                spec_udec(m as nat) + tmp@.reverse()
            },
            tmp@.len() > 0 ==> m > 0,
        ensures
            spec_udec(m0) == tmp@.reverse(),
        decreases m,
    {
        let d: u8 = (m % 10) as u8 + 48;
        let ghost old_tmp = tmp@;
        let ghost old_m = m as nat;
        tmp.push(d);
        m = m / 10;
        proof {
            assert(tmp@.reverse() =~= seq![d] + old_tmp.reverse());
            if old_m >= 10 {
                assert(spec_udec(old_m) == spec_udec(old_m / 10).push(d));
                assert(spec_udec(old_m / 10) + (seq![d] + old_tmp.reverse()) =~= (spec_udec(
                    old_m / 10,
                ).push(d)) + old_tmp.reverse());
                if old_tmp.len() == 0 {
                    assert(spec_udec(old_m / 10) + seq![d] =~= spec_udec(old_m / 10).push(d));
                }
            } else {
                assert(spec_udec(old_m) =~= seq![d]);
                if old_tmp.len() == 0 {
                    assert(spec_udec(m0) =~= tmp@.reverse());
                } else {
                    assert(seq![d] + old_tmp.reverse() =~= tmp@.reverse());
                }
            }
        }
        if m == 0 {
            break;
        }
    }
    proof {
        assert(spec_udec(m0) == tmp@.reverse());
    }
    let mut r: Vec<u8> = Vec::new();
    if neg {
        r.push(45u8);
    }
    let ghost head = r@;
    let mut i: usize = tmp.len();
    while i > 0
        invariant
            i <= tmp@.len(),
            r@ == head + tmp@.reverse().take(tmp@.len() - i),
        decreases i,
    {
        i = i - 1;
        let ghost before = r@;
        r.push(tmp[i]);
        proof {
            assert(tmp@.reverse()[tmp@.len() - 1 - i] == tmp@[i as int]);
            assert(head + tmp@.reverse().take(tmp@.len() - i) =~= before.push(tmp@[i as int]));
        }
    }
    proof {
        assert(tmp@.reverse().take(tmp@.len() as int) =~= tmp@.reverse());
        if neg {
            assert(r@ =~= seq![45u8] + spec_udec(m0));
            assert((-(x as int)) as nat == m0);
        } else {
            assert(r@ =~= spec_udec(m0));
        }
    }
    r
}

/// Appends all of `src` to `dst`.
pub fn push_bytes(dst: &mut Vec<u8>, src: &Vec<u8>)
    ensures
        final(dst)@ == old(dst)@ + src@,
{
    let n: usize = src.len();
    let mut i: usize = 0;
    while i < n
        invariant
            i <= n,
            n == src@.len(),
            dst@ == old(dst)@ + src@.take(i as int),
        decreases n - i,
    {
        dst.push(src[i]);
        proof {
            assert(old(dst)@ + src@.take(i + 1) =~= (old(dst)@ + src@.take(i as int)).push(
                src@[i as int],
            ));
        }
        i = i + 1;
    }
    proof {
        assert(src@.take(n as int) =~= src@);
    }
}

/// Appends `count` zero bytes to `dst`.
pub fn push_zeros(dst: &mut Vec<u8>, count: usize)
    ensures
        final(dst)@ == old(dst)@ + Seq::new(count as nat, |i: int| 0u8),
{
    let mut i: usize = 0;
    while i < count
        invariant
            i <= count,
            dst@ == old(dst)@ + Seq::new(i as nat, |j: int| 0u8),
        decreases count - i,
    {
        dst.push(0u8);
        proof {
            assert(old(dst)@ + Seq::new((i + 1) as nat, |j: int| 0u8) =~= (old(dst)@ + Seq::new(
                i as nat,
                |j: int| 0u8,
            )).push(0u8));
        }
        i = i + 1;
    }
}

/// Copies the bytes of `src` in `[start, end)` into a fresh vector.
pub fn copy_range(src: &Vec<u8>, start: usize, end: usize) -> (r: Vec<u8>)
    requires
        start <= end,
        end <= src@.len(),
    ensures
        r@ == src@.subrange(start as int, end as int),
{
    let mut r: Vec<u8> = Vec::new();
    let mut i: usize = start;
    while i < end
        invariant
            start <= i <= end,
            end <= src@.len(),
            r@ == src@.subrange(start as int, i as int),
        decreases end - i,
    {
        r.push(src[i]);
        proof {
            assert(src@.subrange(start as int, i + 1) =~= src@.subrange(start as int, i as int).push(
                src@[i as int],
            ));
        }
        i = i + 1;
    }
    r
}

/// Compares two byte vectors for equality of contents.
pub fn bytes_eq(a: &Vec<u8>, b: &Vec<u8>) -> (r: bool)
    ensures
        r == (a@ == b@),
{
    if a.len() != b.len() {
        proof {
            assert(a@.len() != b@.len());
        }
        return false;
    }
    let n: usize = a.len();
    let mut i: usize = 0;
    while i < n
        invariant
            i <= n,
            n == a@.len(),
            n == b@.len(),
            forall|j: int| 0 <= j < i ==> a@[j] == b@[j],
        decreases n - i,
    {
        if a[i] != b[i] {
            return false;
        }
        i = i + 1;
    }
    proof {
        assert(a@ =~= b@);
    }
    true
}

} // verus!
