//! Big-endian integers: their mathematical meaning, and the byteorder calls
//! that read and write them.
use byteorder::{BigEndian, ByteOrder};
use vstd::prelude::*;

verus! {

/// 256 to the power `n`.
pub open spec fn pow256(n: nat) -> nat
    decreases n,
{
    if n == 0 {
        1
    } else {
        256 * pow256((n - 1) as nat)
    }
}

/// The unsigned value of `s` read as a big-endian integer.
pub open spec fn be_value(s: Seq<u8>) -> nat
    decreases s.len(),
{
    if s.len() == 0 {
        0
    } else {
        (be_value(s.drop_last()) * 256 + s.last()) as nat
    }
}

/// The `len` low-order bytes of `n`, most significant first.
pub open spec fn be_bytes(n: nat, len: nat) -> Seq<u8>
    decreases len,
{
    if len == 0 {
        Seq::empty()
    } else {
        be_bytes(n / 256, (len - 1) as nat).push((n % 256) as u8)
    }
}

/// A big-endian value of `n` bytes is below `256^n`.
pub proof fn lemma_be_value_bound(s: Seq<u8>)
    ensures
        be_value(s) < pow256(s.len()),
    decreases s.len(),
{
    if s.len() > 0 {
        lemma_be_value_bound(s.drop_last());
        let a = be_value(s.drop_last());
        let p = pow256((s.len() - 1) as nat);
        let b = s.last();
        assert(a * 256 + b < 256 * p) by (nonlinear_arith)
            requires
                a < p,
                0 <= b < 256,
        ;
    }
}

/// Writing `n` in `len` bytes and reading them back gives `n`.
pub proof fn lemma_be_value_of_bytes(n: nat, len: nat)
    requires
        n < pow256(len),
    ensures
        be_bytes(n, len).len() == len,
        be_value(be_bytes(n, len)) == n,
    decreases len,
{
    if len > 0 {
        let p = pow256((len - 1) as nat);
        assert(n / 256 < p) by (nonlinear_arith)
            requires
                n < 256 * p,
        ;
        lemma_be_value_of_bytes(n / 256, (len - 1) as nat);
        let s = be_bytes(n, len);
        assert(s.drop_last() =~= be_bytes(n / 256, (len - 1) as nat));
        assert(n == (n / 256) * 256 + n % 256);
    }
}

/// Reading `s` as a number and writing it back in as many bytes gives `s`.
pub proof fn lemma_be_bytes_of_value(s: Seq<u8>)
    ensures
        be_bytes(be_value(s), s.len()) =~= s,
    decreases s.len(),
{
    if s.len() > 0 {
        let init = s.drop_last();
        lemma_be_bytes_of_value(init);
        let v = be_value(s);
        let b = s.last();
        assert(v / 256 == be_value(init) && v % 256 == b) by (nonlinear_arith)
            requires
                v == be_value(init) * 256 + b,
                0 <= b < 256,
                be_value(init) >= 0,
        ;
        assert(s =~= init.push(b));
    }
}

/// Byte-wise lexicographic order on sequences of equal length.
pub open spec fn lex_lt(a: Seq<u8>, b: Seq<u8>) -> bool
    decreases a.len(),
{
    if a.len() == 0 || b.len() == 0 {
        false
    } else if a[0] != b[0] {
        a[0] < b[0]
    } else {
        lex_lt(a.drop_first(), b.drop_first())
    }
}

/// The leading byte weighs `256^(len - 1)`.
pub proof fn lemma_be_value_first(a: Seq<u8>)
    requires
        a.len() > 0,
    ensures
        be_value(a) == a[0] * pow256((a.len() - 1) as nat) + be_value(a.drop_first()),
    decreases a.len(),
{
    if a.len() == 1 {
        assert(be_value(a.drop_last()) == 0);
        assert(be_value(a.drop_first()) == 0);
        assert(pow256(0) == 1);
        assert(a.last() == a[0]);
        assert(a[0] * pow256(0) == a[0]);
        assert(be_value(a) == a[0] * pow256((a.len() - 1) as nat) + be_value(a.drop_first()));
    } else {
        let init = a.drop_last();
        lemma_be_value_first(init);
        assert(init.drop_first() =~= a.drop_first().drop_last());
        assert(a.drop_first().last() == a.last());
        assert(init[0] == a[0]);
        let p = pow256((a.len() - 2) as nat);
        assert(pow256((a.len() - 1) as nat) == 256 * p);
        let x = a[0] as int;
        let r = be_value(init.drop_first()) as int;
        assert(be_value(a) == be_value(init) * 256 + a.last());
        assert(be_value(a.drop_first()) == r * 256 + a.last());
        let q = pow256((a.len() - 1) as nat) as int;
        let va = be_value(a) as int;
        let vd = be_value(a.drop_first()) as int;
        let l = a.last() as int;
        assert(be_value(init) == x * p + r);
        assert(va == x * q + vd) by (nonlinear_arith)
            requires
                va == (x * p + r) * 256 + l,
                vd == r * 256 + l,
                q == 256 * p,
        ;
        assert(be_value(a) == a[0] * pow256((a.len() - 1) as nat) + be_value(a.drop_first()));
    }
}

/// Comparing two equally long byte strings as big-endian numbers is comparing
/// them byte by byte.
pub proof fn lemma_be_value_lex(a: Seq<u8>, b: Seq<u8>)
    requires
        a.len() == b.len(),
    ensures
        be_value(a) < be_value(b) <==> lex_lt(a, b),
    decreases a.len(),
{
    if a.len() > 0 {
        lemma_be_value_first(a);
        lemma_be_value_first(b);
        lemma_be_value_bound(a.drop_first());
        lemma_be_value_bound(b.drop_first());
        lemma_be_value_lex(a.drop_first(), b.drop_first());
        let p = pow256((a.len() - 1) as nat);
        let ra = be_value(a.drop_first());
        let rb = be_value(b.drop_first());
        let x = a[0] as int;
        let y = b[0] as int;
        if x < y {
            assert(x * p + ra < y * p + rb) by (nonlinear_arith)
                requires
                    x + 1 <= y,
                    0 <= ra < p,
                    0 <= rb,
            ;
        } else if x > y {
            assert(y * p + rb < x * p + ra) by (nonlinear_arith)
                requires
                    y + 1 <= x,
                    0 <= rb < p,
                    0 <= ra,
            ;
        }
    }
}

/// Relies on byteorder's `BigEndian::read_u32`: the first four bytes of `buf`
/// as a big-endian integer (it panics on fewer than four).
#[verifier::external_body]
pub(crate) fn read_be_u32(buf: &[u8]) -> (r: u32)
    requires
        buf@.len() == 4,
    ensures
        r as nat == be_value(buf@),
{
    BigEndian::read_u32(buf)
}

/// Relies on byteorder's `BigEndian::read_u48`: the first six bytes of `buf`
/// as a big-endian integer (it panics on fewer than six).
#[verifier::external_body]
pub(crate) fn read_be_u48(buf: &[u8]) -> (r: u64)
    requires
        buf@.len() == 6,
    ensures
        r as nat == be_value(buf@),
{
    BigEndian::read_u48(buf)
}

/// Relies on byteorder's `BigEndian::read_u64`: the first eight bytes of `buf`
/// as a big-endian integer (it panics on fewer than eight).
#[verifier::external_body]
pub(crate) fn read_be_u64(buf: &[u8]) -> (r: u64)
    requires
        buf@.len() == 8,
    ensures
        r as nat == be_value(buf@),
{
    BigEndian::read_u64(buf)
}

/// Relies on byteorder's `BigEndian::write_u32`: `n` as four big-endian bytes.
#[verifier::external_body]
pub(crate) fn be_u32_bytes(n: u32) -> (r: [u8; 4])
    ensures
        r@ == be_bytes(n as nat, 4),
{
    let mut buf = [0u8; 4];
    BigEndian::write_u32(&mut buf, n);
    buf
}

/// Relies on byteorder's `BigEndian::write_u48`: `n` as six big-endian bytes
/// (it panics where `n` does not fit in 48 bits).
#[verifier::external_body]
pub(crate) fn be_u48_bytes(n: u64) -> (r: [u8; 6])
    requires
        n < 0x1_0000_0000_0000,
    ensures
        r@ == be_bytes(n as nat, 6),
{
    let mut buf = [0u8; 6];
    BigEndian::write_u48(&mut buf, n);
    buf
}

} // verus!
