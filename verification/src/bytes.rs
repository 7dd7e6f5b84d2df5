//! Little-endian integers in byte sequences.
use vstd::prelude::*;
use vstd::string::StringSliceAdditionalSpecFns;

verus! {

/// The number that the bytes `s` encode, least significant byte first.
pub open spec fn le_value(s: Seq<u8>) -> nat
    decreases s.len(),
{
    if s.len() == 0 {
        0
    } else {
        s[0] as nat + 256 * le_value(s.drop_first())
    }
}

/// `256` to the power `n`.
pub open spec fn pow256(n: nat) -> nat
    decreases n,
{
    if n == 0 {
        1
    } else {
        256 * pow256((n - 1) as nat)
    }
}

/// The little-endian value of the `width` bytes of `s` at `off`.
pub open spec fn le_at(s: Seq<u8>, off: int, width: int) -> nat {
    le_value(s.subrange(off, off + width))
}

/// The `k`-th byte (least significant first) of `v`.
pub open spec fn byte_of(v: u64, k: int) -> u8 {
    ((v >> ((8 * k) as u64)) & 0xff) as u8
}

/// `s` with the 8 bytes of `v`, least significant first, written at `at`.
pub open spec fn put_u64(s: Seq<u8>, at: int, v: u64) -> Seq<u8> {
    Seq::new(s.len(), |x: int| if at <= x < at + 8 { byte_of(v, x - at) } else { s[x] })
}

/// The 8 bytes of `v`, least significant first.
pub open spec fn u64_le(v: u64) -> Seq<u8> {
    Seq::new(8, |k: int| byte_of(v, k))
}

/// The 8 bytes of `v` read back as a little-endian number give `v`.
pub proof fn lemma_u64_le_value(v: u64)
    ensures
        le_value(u64_le(v)) == v,
{
    let s = u64_le(v);
    assert(le_value(s) == s[0] as nat + 256 * (s[1] as nat + 256 * (s[2] as nat + 256 * (s[3] as nat + 256
        * (s[4] as nat + 256 * (s[5] as nat + 256 * (s[6] as nat + 256 * (s[7] as nat)))))))) by {
        reveal_with_fuel(le_value, 9);
        assert(s.drop_first().drop_first().drop_first().drop_first().drop_first().drop_first().drop_first().drop_first()
            =~= Seq::<u8>::empty());
    }
    let b0 = byte_of(v, 0);
    let b1 = byte_of(v, 1);
    let b2 = byte_of(v, 2);
    let b3 = byte_of(v, 3);
    let b4 = byte_of(v, 4);
    let b5 = byte_of(v, 5);
    let b6 = byte_of(v, 6);
    let b7 = byte_of(v, 7);
    assert(v == b0 as nat + 256 * (b1 as nat + 256 * (b2 as nat + 256 * (b3 as nat + 256 * (b4 as nat + 256 * (
    b5 as nat + 256 * (b6 as nat + 256 * (b7 as nat)))))))) by (bit_vector)
        requires
            b0 == ((v >> 0u64) & 0xff) as u8,
            b1 == ((v >> 8u64) & 0xff) as u8,
            b2 == ((v >> 16u64) & 0xff) as u8,
            b3 == ((v >> 24u64) & 0xff) as u8,
            b4 == ((v >> 32u64) & 0xff) as u8,
            b5 == ((v >> 40u64) & 0xff) as u8,
            b6 == ((v >> 48u64) & 0xff) as u8,
            b7 == ((v >> 56u64) & 0xff) as u8,
    ;
}

/// A little-endian value is less than `256` to the power of its length.
pub proof fn lemma_le_value_bound(s: Seq<u8>)
    ensures
        le_value(s) < pow256(s.len()),
    decreases s.len(),
{
    if s.len() > 0 {
        lemma_le_value_bound(s.drop_first());
        assert(le_value(s) < pow256(s.len())) by (nonlinear_arith)
            requires
                le_value(s) == s[0] as nat + 256 * le_value(s.drop_first()),
                le_value(s.drop_first()) < pow256(s.drop_first().len()),
                pow256(s.len()) == 256 * pow256(s.drop_first().len()),
                s[0] < 256,
        ;
    }
}

/// `256^8` is `2^64`, so 8 bytes fit a `u64`.
pub proof fn lemma_pow256_values()
    ensures
        pow256(0) == 1,
        pow256(1) == 0x100,
        pow256(2) == 0x1_0000,
        pow256(3) == 0x100_0000,
        pow256(4) == 0x1_0000_0000,
        pow256(5) == 0x100_0000_0000,
        pow256(6) == 0x1_0000_0000_0000,
        pow256(7) == 0x100_0000_0000_0000,
        pow256(8) == 0x1_0000_0000_0000_0000,
{
    reveal_with_fuel(pow256, 9);
}

/// `pow256` grows with its exponent.
pub proof fn lemma_pow256_mono(a: nat, b: nat)
    requires
        a <= b,
    ensures
        pow256(a) <= pow256(b),
    decreases b,
{
    if a < b {
        lemma_pow256_mono(a, (b - 1) as nat);
    }
}

/// Reads the `width`-byte little-endian number at `off` in `data`.
pub fn read_le(data: &[u8], off: usize, width: usize) -> (r: u64)
    requires
        width <= 8,
        off + width <= data@.len(),
    ensures
        r as nat == le_at(data@, off as int, width as int),
{
    let ghost n = data.len();
    let mut acc: u64 = 0;
    let mut k: usize = width;
    proof {
        lemma_pow256_values();
        assert(data@.subrange(off + width, off + width).len() == 0);
    }
    while k > 0
        invariant
            width <= 8,
            off + width <= data@.len(),
            data@.len() == n,
            n <= usize::MAX,
            k <= width,
            acc as nat == le_value(data@.subrange(off + k, off + width)),
            acc < pow256((width - k) as nat),
        decreases k,
    {
        let ghost tail = data@.subrange(off + k, off + width);
        let ghost whole = data@.subrange(off + k - 1, off + width);
        assert(whole.drop_first() =~= tail);
        assert(whole[0] == data@[off + k - 1]);
        proof {
            lemma_pow256_values();
            lemma_pow256_mono((width - k + 1) as nat, 8);
            assert(pow256((width - k + 1) as nat) == 256 * pow256((width - k) as nat));
        }
        let b = data[off + k - 1];
        assert(acc * 256 + b < pow256((width - k + 1) as nat)) by (nonlinear_arith)
            requires
                acc < pow256((width - k) as nat),
                pow256((width - k + 1) as nat) == 256 * pow256((width - k) as nat),
                b < 256,
        ;
        acc = acc * 256 + b as u64;
        k = k - 1;
    }
    acc
}

/// Writes the 8 bytes of `v`, least significant first, at `at` in `buf`.
pub fn write_le_u64(buf: &mut Vec<u8>, at: usize, v: u64)
    requires
        at + 8 <= old(buf)@.len(),
    ensures
        final(buf)@ == put_u64(old(buf)@, at as int, v),
{
    let ghost n = buf.len();
    let mut k: usize = 0;
    while k < 8
        invariant
            at + 8 <= buf@.len(),
            buf@.len() == n,
            n <= usize::MAX,
            buf@.len() == old(buf)@.len(),
            k <= 8,
            forall|x: int|
                0 <= x < buf@.len() ==> #[trigger] buf@[x] == if at <= x < at + k {
                    byte_of(v, x - at)
                } else {
                    old(buf)@[x]
                },
        decreases 8 - k,
    {
        let byte = ((v >> ((8 * k) as u64)) & 0xff) as u8;
        buf.set(at + k, byte);
        k = k + 1;
    }
    assert(buf@ =~= put_u64(old(buf)@, at as int, v));
}

/// The text that the bytes `v` encode, when they are valid UTF-8.
///
/// Trusted: calls `core::str::from_utf8`, which by its documentation returns
/// the bytes as a `str` when they are valid UTF-8 and an error otherwise. The
/// contract claims exactly that, with vstd's definition of valid UTF-8.
#[verifier::external_body]
pub(crate) fn str_from_utf8(v: &[u8]) -> (r: Option<&str>)
    ensures
        r is Some <==> vstd::utf8::valid_utf8(v@),
        r matches Some(s) ==> s.spec_bytes() == v@,
{
    core::str::from_utf8(v).ok()
}

} // verus!
