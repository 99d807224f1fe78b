use integer_encoding::VarInt;
use vstd::prelude::*;

verus! {

/// Little-endian base-128 encoding of `n`: seven bits per byte, least
/// significant group first, the high bit set on every byte but the last.
pub open spec fn varint_enc(n: nat) -> Seq<u8>
    decreases n,
{
    if n < 128 {
        seq![n as u8]
    } else {
        seq![((n % 128) + 128) as u8] + varint_enc(n / 128)
    }
}

/// How many bytes a varint reader takes from the start of `s`, having already
/// taken `k`: it stops at the first byte without the high bit, and gives up
/// at the tenth byte unless that byte is 0 or 1.
pub open spec fn varint_len_from(s: Seq<u8>, k: nat) -> Option<nat>
    decreases s.len(),
{
    if s.len() == 0 || k >= 10 {
        None
    } else if k == 9 {
        if s[0] < 2 {
            Some(10)
        } else {
            None
        }
    } else if s[0] < 128 {
        Some(k + 1)
    } else {
        varint_len_from(s.drop_first(), k + 1)
    }
}

/// The value of the first `n` bytes of `s` read as base-128 digits.
pub open spec fn varint_val(s: Seq<u8>, n: nat) -> nat
    decreases n,
{
    if n == 0 || s.len() == 0 {
        0
    } else {
        (s[0] % 128) as nat + 128 * varint_val(s.drop_first(), (n - 1) as nat)
    }
}

/// The 32-bit value at the start of `s` and the number of bytes it takes, if
/// the bytes hold a terminated varint whose value fits in 32 bits.
pub open spec fn varint_dec(s: Seq<u8>) -> Option<(u32, nat)> {
    match varint_len_from(s, 0) {
        Some(n) => if varint_val(s, n) <= u32::MAX {
            Some((varint_val(s, n) as u32, n))
        } else {
            None
        },
        None => None,
    }
}

/// Relies on `integer_encoding::VarInt::encode_var_vec` for `u32`: the
/// base-128 bytes of the value.
#[verifier::external_body]
pub fn encode_u32(n: u32) -> (r: Vec<u8>)
    ensures
        r@ == varint_enc(n as nat),
{
    n.encode_var_vec()
}

/// Relies on `integer_encoding::VarInt::decode_var` for `u32`, which decodes
/// through `u64` and refuses a value over `u32::MAX`.
#[verifier::external_body]
pub fn decode_u32(src: &[u8]) -> (r: Option<(u32, usize)>)
    ensures
        match r {
            Some((v, n)) => varint_dec(src@) == Some((v, n as nat)),
            None => varint_dec(src@) is None,
        },
{
    u32::decode_var(src)
}

/// A varint reader takes at least one byte more than it had, and no more
/// than there are.
pub proof fn lemma_varint_len_bounds(s: Seq<u8>, k: nat)
    requires
        varint_len_from(s, k) is Some,
    ensures
        k < varint_len_from(s, k).unwrap() <= k + s.len(),
    decreases s.len(),
{
    if s.len() > 0 && k < 9 && s[0] >= 128 {
        lemma_varint_len_bounds(s.drop_first(), k + 1);
    }
}

/// What a varint reader takes from `s` it takes the same from `s + t`.
pub proof fn lemma_varint_len_extend(s: Seq<u8>, t: Seq<u8>, k: nat)
    requires
        varint_len_from(s, k) is Some,
    ensures
        varint_len_from(s + t, k) == varint_len_from(s, k),
    decreases s.len(),
{
    if s.len() > 0 && k < 9 && s[0] >= 128 {
        assert((s + t).drop_first() =~= s.drop_first() + t);
        lemma_varint_len_extend(s.drop_first(), t, k + 1);
    }
}

/// The value of the first `n` bytes does not depend on what follows them.
pub proof fn lemma_varint_val_extend(s: Seq<u8>, t: Seq<u8>, n: nat)
    requires
        n <= s.len(),
    ensures
        varint_val(s + t, n) == varint_val(s, n),
    decreases n,
{
    if n > 0 {
        assert((s + t).drop_first() =~= s.drop_first() + t);
        lemma_varint_val_extend(s.drop_first(), t, (n - 1) as nat);
    }
}

/// A varint reader stops at the same place on bytes that agree with `s`
/// up to where it stops.
pub proof fn lemma_varint_len_agree(s: Seq<u8>, s2: Seq<u8>, k: nat)
    requires
        varint_len_from(s, k) is Some,
        s2.len() >= varint_len_from(s, k).unwrap() - k,
        s2.take(varint_len_from(s, k).unwrap() - k) == s.take(varint_len_from(s, k).unwrap() - k),
    ensures
        varint_len_from(s2, k) == varint_len_from(s, k),
    decreases s.len(),
{
    let m = varint_len_from(s, k).unwrap();
    lemma_varint_len_bounds(s, k);
    assert(s2[0] == s2.take(m - k)[0]);
    assert(s[0] == s.take(m - k)[0]);
    if k < 9 && s[0] >= 128 {
        let a = s.drop_first();
        let b = s2.drop_first();
        assert(b.take(m - k - 1) =~= s2.take(m - k).drop_first());
        assert(a.take(m - k - 1) =~= s.take(m - k).drop_first());
        lemma_varint_len_agree(a, b, k + 1);
    }
}

/// The value of the first `n` bytes depends on those bytes alone.
pub proof fn lemma_varint_val_agree(s: Seq<u8>, s2: Seq<u8>, n: nat)
    requires
        n <= s.len(),
        n <= s2.len(),
        s.take(n as int) == s2.take(n as int),
    ensures
        varint_val(s2, n) == varint_val(s, n),
    decreases n,
{
    if n > 0 {
        assert(s2[0] == s2.take(n as int)[0]);
        assert(s[0] == s.take(n as int)[0]);
        assert(s2.drop_first().take(n - 1) =~= s2.take(n as int).drop_first());
        assert(s.drop_first().take(n - 1) =~= s.take(n as int).drop_first());
        lemma_varint_val_agree(s.drop_first(), s2.drop_first(), (n - 1) as nat);
    }
}

/// A 32-bit value takes one to five bytes.
pub proof fn lemma_varint_enc_len(n: nat)
    requires
        n <= u32::MAX,
    ensures
        1 <= varint_enc(n).len() <= 5,
{
    reveal_with_fuel(varint_enc, 6);
    assert(n / 128 / 128 / 128 / 128 < 128);
}

proof fn lemma_varint_len_of_enc(n: nat, rest: Seq<u8>, k: nat)
    requires
        k + varint_enc(n).len() <= 9,
    ensures
        varint_len_from(varint_enc(n) + rest, k) == Some(k + varint_enc(n).len()),
    decreases n,
{
    let s = varint_enc(n) + rest;
    if n >= 128 {
        assert(s.drop_first() =~= varint_enc(n / 128) + rest);
        lemma_varint_len_of_enc(n / 128, rest, k + 1);
    }
}

proof fn lemma_varint_val_of_enc(n: nat, rest: Seq<u8>)
    ensures
        varint_val(varint_enc(n) + rest, varint_enc(n).len()) == n,
    decreases n,
{
    let s = varint_enc(n) + rest;
    if n >= 128 {
        assert(s.drop_first() =~= varint_enc(n / 128) + rest);
        lemma_varint_val_of_enc(n / 128, rest);
        assert(s[0] % 128 == n % 128);
        assert(n == n % 128 + 128 * (n / 128)) by (nonlinear_arith);
        assert(varint_val(s, varint_enc(n).len()) == (s[0] % 128) as nat + 128 * varint_val(
            s.drop_first(),
            varint_enc(n / 128).len(),
        ));
    } else {
        assert(s[0] == n);
        assert(varint_val(s.drop_first(), 0) == 0);
        assert(varint_val(s, 1) == (s[0] % 128) as nat + 128 * varint_val(s.drop_first(), 0));
    }
}

/// Decoding the encoding of a 32-bit value, whatever follows it, gives the
/// value back and the length of its encoding.
pub proof fn lemma_varint_round_trip(n: u32, rest: Seq<u8>)
    ensures
        varint_dec(varint_enc(n as nat) + rest) == Some((n, varint_enc(n as nat).len())),
{
    lemma_varint_enc_len(n as nat);
    lemma_varint_len_of_enc(n as nat, rest, 0);
    lemma_varint_val_of_enc(n as nat, rest);
}

} // verus!
