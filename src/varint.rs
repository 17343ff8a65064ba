//! LEB128 variable-length integers, as the record framing uses them.
use vstd::prelude::*;

verus! {

/// The LEB128 bytes of `v`: seven bits per byte, least significant group
/// first, the high bit set on every byte but the last.
pub open spec fn varint(v: nat) -> Seq<u8>
    decreases v,
{
    if v < 128 {
        seq![v as u8]
    } else {
        seq![((v % 128) + 128) as u8] + varint(v / 128)
    }
}

/// The number that LEB128 groups stand for.
pub open spec fn leb_value(s: Seq<u8>) -> nat
    decreases s.len(),
{
    if s.len() == 0 {
        0
    } else {
        (s[0] % 128) as nat + 128 * leb_value(s.drop_first())
    }
}

/// The first `n` bytes of `s` are one complete varint whose value fits in 64 bits.
pub open spec fn varint_ends_at(s: Seq<u8>, n: int) -> bool {
    &&& 1 <= n <= 10
    &&& n <= s.len()
    &&& s[n - 1] < 128
    &&& forall|i: int| 0 <= i < n - 1 ==> s[i] >= 128
    &&& (n == 10 ==> s[9] < 2)
}

/// The varint at the start of `s`, if there is one: its value and its length.
pub open spec fn parse_varint(s: Seq<u8>) -> Option<(nat, int)> {
    if exists|n: int| varint_ends_at(s, n) {
        let n = choose|n: int| varint_ends_at(s, n);
        Some((leb_value(s.subrange(0, n)), n))
    } else {
        None
    }
}

pub open spec fn pow128(n: nat) -> nat
    decreases n,
{
    if n == 0 {
        1
    } else {
        128 * pow128((n - 1) as nat)
    }
}

/// Relies on prost::encoding::encode_varint: it writes the LEB128 bytes of `v`.
#[verifier::external_body]
pub(crate) fn encode_varint(v: u64) -> (r: Vec<u8>)
    ensures
        r@ == varint(v as nat),
{
    let mut buf: Vec<u8> = Vec::new();
    prost::encoding::encode_varint(v, &mut buf);
    buf
}

/// Relies on prost::encoding::encoded_len_varint: the number of bytes that
/// encode_varint writes for `v`.
#[verifier::external_body]
pub(crate) fn varint_len(v: u64) -> (r: usize)
    ensures
        r == varint(v as nat).len(),
{
    prost::encoding::encoded_len_varint(v)
}

/// Relies on prost::encoding::decode_varint on a byte slice: it succeeds when a
/// byte below 0x80 ends the varint within ten bytes (the tenth one below 2),
/// returns the value of the groups read and leaves the slice after them.
/// The result holds the value and the number of bytes left.
#[verifier::external_body]
pub(crate) fn decode_varint(bytes: &[u8]) -> (r: Option<(u64, usize)>)
    ensures
        r.is_some() <==> exists|n: int| varint_ends_at(bytes@, n),
        r matches Some((v, rest)) ==> {
            &&& rest <= bytes@.len()
            &&& varint_ends_at(bytes@, bytes@.len() - rest)
            &&& v as nat == leb_value(bytes@.subrange(0, bytes@.len() - rest))
        },
{
    let mut buf: &[u8] = bytes;
    match prost::encoding::decode_varint(&mut buf) {
        Ok(v) => Some((v, buf.len())),
        Err(_) => None,
    }
}

/// What `decode_varint` returns, in terms of `parse_varint`.
pub proof fn lemma_decode_varint_result(s: Seq<u8>, r: Option<(u64, usize)>)
    requires
        r.is_some() <==> exists|n: int| varint_ends_at(s, n),
        r matches Some((v, rest)) ==> {
            &&& rest <= s.len()
            &&& varint_ends_at(s, s.len() - rest)
            &&& v as nat == leb_value(s.subrange(0, s.len() - rest))
        },
    ensures
        match r {
            None => parse_varint(s).is_none(),
            Some((v, rest)) => parse_varint(s) == Some((v as nat, s.len() - rest)),
        },
{
    if let Some((v, rest)) = r {
        let n = choose|n: int| varint_ends_at(s, n);
        lemma_varint_end_unique(s, n, s.len() - rest);
    }
}

/// A varint of a 64-bit value, followed by anything, parses back to that
/// value and its length.
pub proof fn lemma_parse_varint(v: u64, rest: Seq<u8>)
    ensures
        parse_varint(varint(v as nat) + rest) == Some((v as nat, varint(v as nat).len() as int)),
        varint(v as nat).len() <= 10,
{
    let s = varint(v as nat) + rest;
    lemma_varint_decodes(v, rest);
    let n = choose|n: int| varint_ends_at(s, n);
    lemma_varint_end_unique(s, n, varint(v as nat).len() as int);
}

/// A 32-bit value takes at most five bytes.
pub proof fn lemma_varint_len_u32(v: nat)
    requires
        v <= u32::MAX,
    ensures
        varint(v).len() <= 5,
{
    reveal_with_fuel(pow128, 5);
    assert(pow128(4) == 0x1000_0000);
    lemma_varint_bound(v, 5, 128);
}

proof fn lemma_varint_bound(v: nat, k: nat, c: nat)
    requires
        1 <= c <= 128,
        k >= 1,
        v < c * pow128((k - 1) as nat),
    ensures
        varint(v).len() <= k,
        varint(v).len() == k ==> varint(v).last() < c,
    decreases k,
{
    assert(pow128(0) == 1);
    if k == 1 {
        assert(c * pow128(0) == c);
    }
    if v < 128 {
        assert(varint(v) == seq![v as u8]);
        assert(varint(v).len() == 1);
    } else {
        if k >= 2 {
            let s = varint(v);
            assert(s.len() == 1 + varint(v / 128).len());
            assert(s.last() == varint(v / 128).last());
            let p = pow128((k - 2) as nat);
            assert(pow128((k - 1) as nat) == 128 * p);
            assert(v < 128 * (c * p)) by (nonlinear_arith)
                requires v < c * (128 * p);
            assert(v / 128 < c * p) by (nonlinear_arith)
                requires v < 128 * (c * p);
            lemma_varint_bound(v / 128, (k - 1) as nat, c);
        }
    }
}

/// The shape of an encoded varint: a terminator ends it, every byte before
/// carries the continuation bit, and its groups give back the value.
pub proof fn lemma_varint_shape(v: nat)
    ensures
        varint(v).len() >= 1,
        varint(v).last() < 128,
        forall|i: int| 0 <= i < varint(v).len() - 1 ==> varint(v)[i] >= 128,
        leb_value(varint(v)) == v,
    decreases v,
{
    if v < 128 {
        let s = varint(v);
        assert(s == seq![v as u8]);
        assert(s.drop_first() =~= Seq::<u8>::empty());
        assert(leb_value(s.drop_first()) == 0);
    } else {
        lemma_varint_shape(v / 128);
        let s = varint(v);
        assert(s.drop_first() =~= varint(v / 128));
        let b = ((v % 128) + 128) as u8;
        assert(s[0] == b);
        assert(b % 128 == v % 128);
        assert(v == v % 128 + 128 * (v / 128));
    }
}

/// A varint of a 64-bit value, followed by anything, decodes to that value
/// and is at most ten bytes long.
pub proof fn lemma_varint_decodes(v: u64, rest: Seq<u8>)
    ensures
        varint(v as nat).len() <= 10,
        varint_ends_at(varint(v as nat) + rest, varint(v as nat).len() as int),
        (varint(v as nat) + rest).subrange(0, varint(v as nat).len() as int) == varint(v as nat),
        leb_value(varint(v as nat)) == v as nat,
{
    let s = varint(v as nat);
    lemma_varint_shape(v as nat);
    reveal_with_fuel(pow128, 10);
    assert(pow128(9) == 0x8000_0000_0000_0000);
    lemma_varint_bound(v as nat, 10, 2);
    assert((s + rest).subrange(0, s.len() as int) =~= s);
}

/// Where a varint ends in `s`, no other end is possible.
pub proof fn lemma_varint_end_unique(s: Seq<u8>, n: int, m: int)
    requires
        varint_ends_at(s, n),
        varint_ends_at(s, m),
    ensures
        n == m,
{
    if n < m {
        assert(s[n - 1] >= 128);
    } else if m < n {
        assert(s[m - 1] >= 128);
    }
}

} // verus!
