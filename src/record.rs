use vstd::prelude::*;
use vstd::slice::{slice_subrange, slice_to_vec};
use crate::checksum::{calculate_checksum, crc32_of};
use crate::varint::{
    decode_u32, encode_u32, lemma_varint_len_bounds, lemma_varint_len_extend,
    lemma_varint_len_agree, lemma_varint_round_trip, lemma_varint_val_agree, lemma_varint_val_extend,
    varint_dec, varint_enc, varint_len_from,
};

verus! {

/// Why a byte string does not decode to a record.
#[derive(Clone, Copy, Debug, PartialEq, Eq, Structural)]
pub enum CodecError {
    /// A header field is not a well-formed 32-bit varint, or the bytes end
    /// inside it.
    Encoding,
    /// The bytes end before the key and value that the header declares.
    Truncated,
    /// The stored checksum differs from the one computed over the fields.
    ChecksumMismatch,
}

/// One key-value pair as written to a segment.
#[derive(Debug)]
pub struct Record {
    pub timestamp: u32,
    pub key: Vec<u8>,
    pub value: Vec<u8>,
}

/// The bytes that the checksum covers: timestamp, key length and value
/// length as varints, then the key and the value.
pub open spec fn body_bytes(ts: u32, key: Seq<u8>, value: Seq<u8>) -> Seq<u8> {
    varint_enc(ts as nat) + varint_enc(key.len()) + varint_enc(value.len()) + key + value
}

/// A whole record: the varint checksum of the body, then the body.
pub open spec fn record_bytes(ts: u32, key: Seq<u8>, value: Seq<u8>) -> Seq<u8> {
    varint_enc(crc32_of(body_bytes(ts, key, value)) as nat) + body_bytes(ts, key, value)
}

/// Whether the bytes hold only high-bit bytes, too few to end a varint: the
/// input ran out in the middle of one.
pub open spec fn varint_cut_short(s: Seq<u8>) -> bool {
    s.len() < 10 && forall|i: int| 0 <= i < s.len() ==> s[i] >= 128
}

/// Reads one 32-bit varint field from the start of `s`; a field that does
/// not decode, however the bytes end, is an encoding error.
pub open spec fn take_varint(s: Seq<u8>) -> Result<(u32, nat), CodecError> {
    match varint_dec(s) {
        Some(p) => Ok(p),
        None => Err(CodecError::Encoding),
    }
}

/// Whether the header that starts `s`, of which `fields` varints are still
/// to be read, is cut off by the end of the bytes: a field fails to decode
/// only because the bytes run out inside it.
pub open spec fn header_cut_from(s: Seq<u8>, fields: nat) -> bool
    decreases fields,
{
    if fields == 0 {
        false
    } else {
        match varint_dec(s) {
            None => varint_cut_short(s),
            Some((_v, n)) => header_cut_from(s.skip(n as int), (fields - 1) as nat),
        }
    }
}

/// Whether `s` holds the start of a record header cut off by the end of the
/// bytes, as a write interrupted during the header leaves it.
pub open spec fn header_cut(s: Seq<u8>) -> bool {
    header_cut_from(s, 4)
}

/// What decoding gives once checksum, timestamp and both lengths are read
/// and `hdr` header bytes are consumed: `s` is what follows the header.
pub open spec fn parse_payload(crc: u32, ts: u32, klen: u32, vlen: u32, hdr: nat, s: Seq<u8>) -> Result<(u32, Seq<u8>, Seq<u8>, nat), CodecError> {
    if s.len() < klen + vlen {
        Err(CodecError::Truncated)
    } else {
        let key = s.take(klen as int);
        let value = s.subrange(klen as int, klen + vlen);
        if crc != crc32_of(body_bytes(ts, key, value)) {
            Err(CodecError::ChecksumMismatch)
        } else {
            Ok((ts, key, value, (hdr + klen + vlen) as nat))
        }
    }
}

/// Reads the four header fields at the start of `s`: checksum, timestamp,
/// key length, value length, and the number of header bytes.
#[verifier::opaque]
pub open spec fn parse_header(s: Seq<u8>) -> Result<(u32, u32, u32, u32, nat), CodecError> {
    match take_varint(s) {
        Err(e) => Err(e),
        Ok((crc, n1)) => {
            let s1 = s.skip(n1 as int);
            match take_varint(s1) {
                Err(e) => Err(e),
                Ok((ts, n2)) => {
                    let s2 = s1.skip(n2 as int);
                    match take_varint(s2) {
                        Err(e) => Err(e),
                        Ok((klen, n3)) => {
                            let s3 = s2.skip(n3 as int);
                            match take_varint(s3) {
                                Err(e) => Err(e),
                                Ok((vlen, n4)) => Ok((crc, ts, klen, vlen, n1 + n2 + n3 + n4)),
                            }
                        },
                    }
                },
            }
        },
    }
}

/// Decodes the record at the start of `s`: its timestamp, key, value, and
/// the number of bytes it takes.
pub open spec fn parse_record(s: Seq<u8>) -> Result<(u32, Seq<u8>, Seq<u8>, nat), CodecError> {
    match parse_header(s) {
        Err(e) => Err(e),
        Ok((crc, ts, klen, vlen, hdr)) => parse_payload(crc, ts, klen, vlen, hdr, s.skip(hdr as int)),
    }
}

proof fn lemma_take_enc(n: u32, rest: Seq<u8>)
    ensures
        take_varint(varint_enc(n as nat) + rest) == Ok::<_, CodecError>((n, varint_enc(n as nat).len())),
        (varint_enc(n as nat) + rest).skip(varint_enc(n as nat).len() as int) == rest,
{
    lemma_varint_round_trip(n, rest);
    assert((varint_enc(n as nat) + rest).skip(varint_enc(n as nat).len() as int) =~= rest);
}

proof fn lemma_header_of_fields(crc: u32, ts: u32, klen: u32, vlen: u32, tail: Seq<u8>)
    ensures
        ({
            let hdr = varint_enc(crc as nat).len() + varint_enc(ts as nat).len() + varint_enc(
                klen as nat,
            ).len() + varint_enc(vlen as nat).len();
            let s = varint_enc(crc as nat) + (varint_enc(ts as nat) + (varint_enc(klen as nat) + (
            varint_enc(vlen as nat) + tail)));
            &&& parse_header(s) == Ok::<_, CodecError>((crc, ts, klen, vlen, hdr as nat))
            &&& s.skip(hdr as int) == tail
        }),
{
    let e0 = varint_enc(crc as nat);
    let e1 = varint_enc(ts as nat);
    let e2 = varint_enc(klen as nat);
    let e3 = varint_enc(vlen as nat);
    let b3 = e3 + tail;
    let b2 = e2 + b3;
    let b1 = e1 + b2;
    let s = e0 + b1;
    reveal(parse_header);
    lemma_take_enc(crc, b1);
    lemma_take_enc(ts, b2);
    lemma_take_enc(klen, b3);
    lemma_take_enc(vlen, tail);
    assert(s.skip((e0.len() + e1.len() + e2.len() + e3.len()) as int) =~= tail);
}

/// Serializing a record and decoding the bytes, whatever follows them, gives
/// back its timestamp, key and value, and consumes exactly its bytes.
pub proof fn lemma_record_round_trip(ts: u32, key: Seq<u8>, value: Seq<u8>, rest: Seq<u8>)
    requires
        key.len() <= u32::MAX,
        value.len() <= u32::MAX,
    ensures
        parse_record(record_bytes(ts, key, value) + rest) == Ok::<_, CodecError>(
            (ts, key, value, record_bytes(ts, key, value).len()),
        ),
{
    let tail = key + value + rest;
    let crc = crc32_of(body_bytes(ts, key, value));
    assert(record_bytes(ts, key, value) + rest =~= varint_enc(crc as nat) + (varint_enc(ts as nat) + (
    varint_enc(key.len()) + (varint_enc(value.len()) + tail))));
    lemma_header_of_fields(crc, ts, key.len() as u32, value.len() as u32, tail);
    assert(tail.take(key.len() as int) =~= key);
    assert(tail.subrange(key.len() as int, (key.len() + value.len()) as int) =~= value);
}

/// Changing key or value bytes of a serialized record, lengths kept, makes
/// decoding fail with a checksum mismatch whenever the checksum of the
/// changed fields differs from the stored one.
pub proof fn lemma_altered_payload_detected(
    ts: u32,
    key: Seq<u8>,
    value: Seq<u8>,
    key2: Seq<u8>,
    value2: Seq<u8>,
)
    requires
        key.len() <= u32::MAX,
        value.len() <= u32::MAX,
        key2.len() == key.len(),
        value2.len() == value.len(),
        crc32_of(body_bytes(ts, key2, value2)) != crc32_of(body_bytes(ts, key, value)),
    ensures
        parse_record(
            varint_enc(crc32_of(body_bytes(ts, key, value)) as nat) + body_bytes(ts, key2, value2),
        ) == Err::<(u32, Seq<u8>, Seq<u8>, nat), CodecError>(CodecError::ChecksumMismatch),
{
    let crc = crc32_of(body_bytes(ts, key, value));
    let tail = key2 + value2;
    assert(varint_enc(crc as nat) + body_bytes(ts, key2, value2) =~= varint_enc(crc as nat) + (
    varint_enc(ts as nat) + (varint_enc(key.len()) + (varint_enc(value.len()) + tail))));
    lemma_header_of_fields(crc, ts, key.len() as u32, value.len() as u32, tail);
    assert(tail.take(key.len() as int) =~= key2);
    assert(tail.subrange(key.len() as int, (key.len() + value.len()) as int) =~= value2);
}

proof fn lemma_take_varint_extend(s: Seq<u8>, t: Seq<u8>)
    requires
        take_varint(s) is Ok,
    ensures
        take_varint(s + t) == take_varint(s),
        take_varint(s)->Ok_0.1 <= s.len(),
        (s + t).skip(take_varint(s)->Ok_0.1 as int) == s.skip(take_varint(s)->Ok_0.1 as int) + t,
{
    lemma_varint_len_bounds(s, 0);
    lemma_varint_len_extend(s, t, 0);
    let n = varint_len_from(s, 0).unwrap();
    lemma_varint_val_extend(s, t, n);
    assert((s + t).skip(n as int) =~= s.skip(n as int) + t);
}

/// A record decodes the same whatever bytes follow it, and lies within the
/// bytes it was decoded from.
pub proof fn lemma_parse_extend(s: Seq<u8>, t: Seq<u8>)
    requires
        parse_record(s) is Ok,
    ensures
        parse_record(s + t) == parse_record(s),
        parse_record(s)->Ok_0.3 <= s.len(),
        parse_record(s)->Ok_0.3 > 0,
{
    reveal(parse_header);
    let s1 = s.skip(take_varint(s)->Ok_0.1 as int);
    lemma_take_varint_extend(s, t);
    let s2 = s1.skip(take_varint(s1)->Ok_0.1 as int);
    lemma_take_varint_extend(s1, t);
    let s3 = s2.skip(take_varint(s2)->Ok_0.1 as int);
    lemma_take_varint_extend(s2, t);
    let s4 = s3.skip(take_varint(s3)->Ok_0.1 as int);
    lemma_take_varint_extend(s3, t);
    lemma_varint_len_bounds(s, 0);
    let (crc, ts, klen, vlen, hdr) = parse_header(s)->Ok_0;
    assert(s.skip(hdr as int) == s4);
    assert((s + t).skip(hdr as int) == s4 + t);
    assert((s4 + t).take(klen as int) =~= s4.take(klen as int));
    assert((s4 + t).subrange(klen as int, klen + vlen) =~= s4.subrange(klen as int, klen + vlen));
}

/// A decoded key and value have lengths that fit in 32 bits.
pub proof fn lemma_parse_lens(s: Seq<u8>)
    requires
        parse_record(s) is Ok,
    ensures
        parse_record(s)->Ok_0.1.len() <= u32::MAX,
        parse_record(s)->Ok_0.2.len() <= u32::MAX,
{
}

/// Nothing decodes from no bytes.
pub proof fn lemma_parse_empty()
    ensures
        parse_record(Seq::<u8>::empty()) is Err,
{
    reveal(parse_header);
}

proof fn lemma_take_varint_agree(s: Seq<u8>, s2: Seq<u8>, m: nat)
    requires
        take_varint(s) is Ok,
        take_varint(s)->Ok_0.1 <= m,
        m <= s.len(),
        m <= s2.len(),
        s2.take(m as int) == s.take(m as int),
    ensures
        take_varint(s2) == take_varint(s),
        s2.skip(take_varint(s)->Ok_0.1 as int).take(m - take_varint(s)->Ok_0.1) == s.skip(
            take_varint(s)->Ok_0.1 as int,
        ).take(m - take_varint(s)->Ok_0.1),
{
    let n = varint_len_from(s, 0).unwrap();
    lemma_varint_len_bounds(s, 0);
    assert(s2.take(n as int) =~= s2.take(m as int).take(n as int));
    assert(s.take(n as int) =~= s.take(m as int).take(n as int));
    lemma_varint_len_agree(s, s2, 0);
    lemma_varint_val_agree(s, s2, n);
    assert(s2.skip(n as int).take(m - n) =~= s2.take(m as int).skip(n as int));
    assert(s.skip(n as int).take(m - n) =~= s.take(m as int).skip(n as int));
}

proof fn lemma_header_agree(s: Seq<u8>, s2: Seq<u8>, m: nat)
    requires
        parse_header(s) is Ok,
        parse_header(s)->Ok_0.4 <= m,
        m <= s.len(),
        m <= s2.len(),
        s2.take(m as int) == s.take(m as int),
    ensures
        parse_header(s2) == parse_header(s),
        s2.skip(parse_header(s)->Ok_0.4 as int).take(m - parse_header(s)->Ok_0.4) == s.skip(
            parse_header(s)->Ok_0.4 as int,
        ).take(m - parse_header(s)->Ok_0.4),
{
    reveal(parse_header);
    let n1 = take_varint(s)->Ok_0.1;
    let s1 = s.skip(n1 as int);
    let t1 = s2.skip(n1 as int);
    let n2 = take_varint(s1)->Ok_0.1;
    let s2_ = s1.skip(n2 as int);
    let t2 = t1.skip(n2 as int);
    let n3 = take_varint(s2_)->Ok_0.1;
    let s3 = s2_.skip(n3 as int);
    let t3 = t2.skip(n3 as int);
    let n4 = take_varint(s3)->Ok_0.1;
    lemma_take_varint_agree(s, s2, m);
    lemma_take_varint_agree(s1, t1, (m - n1) as nat);
    lemma_take_varint_agree(s2_, t2, (m - n1 - n2) as nat);
    lemma_take_varint_agree(s3, t3, (m - n1 - n2 - n3) as nat);
    assert(s2.skip((n1 + n2 + n3 + n4) as int) =~= t3.skip(n4 as int));
    assert(s.skip((n1 + n2 + n3 + n4) as int) =~= s3.skip(n4 as int));
}

/// A record decodes the same from any bytes that agree with its own.
pub proof fn lemma_parse_agree(s: Seq<u8>, s2: Seq<u8>)
    requires
        parse_record(s) is Ok,
        s2.len() >= parse_record(s)->Ok_0.3,
        s2.take(parse_record(s)->Ok_0.3 as int) == s.take(parse_record(s)->Ok_0.3 as int),
    ensures
        parse_record(s2) == parse_record(s),
{
    lemma_parse_extend(s, Seq::<u8>::empty());
    assert(s + Seq::<u8>::empty() =~= s);
    let m = parse_record(s)->Ok_0.3;
    let (crc, ts, klen, vlen, hdr) = parse_header(s)->Ok_0;
    lemma_header_agree(s, s2, m);
    let s4 = s.skip(hdr as int);
    let t4 = s2.skip(hdr as int);
    assert(t4.take(klen as int) =~= s4.take(klen as int)) by {
        assert(t4.take(klen as int) =~= t4.take(m - hdr).take(klen as int));
        assert(s4.take(klen as int) =~= s4.take(m - hdr).take(klen as int));
    }
    assert(t4.subrange(klen as int, klen + vlen) =~= s4.subrange(klen as int, klen + vlen)) by {
        assert(t4.subrange(klen as int, klen + vlen) =~= t4.take(m - hdr).subrange(klen as int, klen + vlen));
        assert(s4.subrange(klen as int, klen + vlen) =~= s4.take(m - hdr).subrange(klen as int, klen + vlen));
    }
}

/// Reads one varint field at `pos`.
fn read_varint(bytes: &[u8], pos: usize) -> (r: Result<(u32, usize), CodecError>)
    requires
        pos <= bytes@.len(),
    ensures
        match r {
            Ok((v, n)) => take_varint(bytes@.skip(pos as int)) == Ok::<_, CodecError>((v, n as nat))
                && 1 <= n && pos + n <= bytes@.len(),
            Err(e) => take_varint(bytes@.skip(pos as int)) == Err::<(u32, nat), CodecError>(e),
        },
{
    let rest = slice_subrange(bytes, pos, bytes.len());
    assert(rest@ =~= bytes@.skip(pos as int));
    match decode_u32(rest) {
        Some((v, n)) => {
            proof {
                lemma_varint_len_bounds(rest@, 0);
            }
            Ok((v, n))
        },
        None => Err(CodecError::Encoding),
    }
}

/// Whether the bytes from `pos` are only high-bit bytes, fewer than ten.
fn cut_short_at(bytes: &[u8], pos: usize) -> (r: bool)
    requires
        pos <= bytes@.len(),
    ensures
        r == varint_cut_short(bytes@.skip(pos as int)),
{
    let ghost rest = bytes@.skip(pos as int);
    if bytes.len() - pos >= 10 {
        return false;
    }
    let mut i: usize = pos;
    while i < bytes.len()
        invariant
            pos <= i <= bytes@.len(),
            rest == bytes@.skip(pos as int),
            forall|j: int| 0 <= j < i - pos ==> rest[j] >= 128,
        decreases bytes@.len() - i,
    {
        if bytes[i] < 128 {
            assert(rest[i - pos] < 128);
            return false;
        }
        i = i + 1;
    }
    true
}

/// Whether the bytes from `pos` hold a record header cut off by their end.
pub fn header_cut_at(bytes: &[u8], pos: usize) -> (r: bool)
    requires
        pos <= bytes@.len(),
    ensures
        r == header_cut(bytes@.skip(pos as int)),
{
    let mut p: usize = pos;
    let mut fields: usize = 4;
    while fields > 0
        invariant
            pos <= p <= bytes@.len(),
            fields <= 4,
            header_cut(bytes@.skip(pos as int)) == header_cut_from(bytes@.skip(p as int), fields as nat),
        decreases fields,
    {
        let rest = slice_subrange(bytes, p, bytes.len());
        assert(rest@ =~= bytes@.skip(p as int));
        match decode_u32(rest) {
            None => {
                return cut_short_at(bytes, p);
            },
            Some((_v, n)) => {
                proof {
                    lemma_varint_len_bounds(rest@, 0);
                }
                assert(bytes@.skip(p as int).skip(n as int) =~= bytes@.skip(p + n));
                p = p + n;
                fields = fields - 1;
            },
        }
    }
    false
}

/// Appends the bytes of `src` to `dst`.
fn push_all(dst: &mut Vec<u8>, src: &[u8])
    ensures
        final(dst)@ == old(dst)@ + src@,
{
    let mut i: usize = 0;
    while i < src.len()
        invariant
            i <= src@.len(),
            dst@ == old(dst)@ + src@.take(i as int),
        decreases src@.len() - i,
    {
        dst.push(src[i]);
        i = i + 1;
        assert(src@.take(i as int) =~= src@.take(i - 1) + seq![src@[i - 1]]);
    }
    assert(src@.take(src@.len() as int) =~= src@);
}

/// Builds the bytes that the checksum covers.
fn encode_body(ts: u32, key: &[u8], value: &[u8]) -> (r: Vec<u8>)
    requires
        key@.len() <= u32::MAX,
        value@.len() <= u32::MAX,
    ensures
        r@ == body_bytes(ts, key@, value@),
{
    let mut buf = encode_u32(ts);
    let k = encode_u32(key.len() as u32);
    push_all(&mut buf, k.as_slice());
    let v = encode_u32(value.len() as u32);
    push_all(&mut buf, v.as_slice());
    push_all(&mut buf, key);
    push_all(&mut buf, value);
    buf
}

/// Reads the header fields of the record at `pos`.
fn read_header(bytes: &[u8], pos: usize) -> (r: Result<(u32, u32, u32, u32, usize), CodecError>)
    requires
        pos <= bytes@.len(),
    ensures
        match r {
            Ok((crc, ts, klen, vlen, hdr)) => parse_header(bytes@.skip(pos as int)) == Ok::<
                _,
                CodecError,
            >((crc, ts, klen, vlen, hdr as nat)) && pos + hdr <= bytes@.len(),
            Err(e) => parse_header(bytes@.skip(pos as int)) == Err::<
                (u32, u32, u32, u32, nat),
                CodecError,
            >(e),
        },
{
    proof {
        reveal(parse_header);
    }
    let ghost s = bytes@.skip(pos as int);
    let len = bytes.len();
    let r1 = read_varint(bytes, pos);
    let (crc, n1) = match r1 {
        Ok(p) => p,
        Err(e) => return Err(e),
    };
    assert(pos + n1 <= len);
    assert(bytes@.skip(pos + n1) =~= s.skip(n1 as int));
    let at_ts = pos + n1;
    let (ts, n2) = match read_varint(bytes, at_ts) {
        Ok(p) => p,
        Err(e) => return Err(e),
    };
    assert(bytes@.skip(at_ts + n2) =~= s.skip(n1 as int).skip(n2 as int));
    let at_klen = at_ts + n2;
    let (klen, n3) = match read_varint(bytes, at_klen) {
        Ok(p) => p,
        Err(e) => return Err(e),
    };
    assert(bytes@.skip(at_klen + n3) =~= s.skip(n1 as int).skip(n2 as int).skip(n3 as int));
    let at_vlen = at_klen + n3;
    let (vlen, n4) = match read_varint(bytes, at_vlen) {
        Ok(p) => p,
        Err(e) => return Err(e),
    };
    let at_key = at_vlen + n4;
    let ghost s4 = s.skip(n1 as int).skip(n2 as int).skip(n3 as int).skip(n4 as int);
    assert(bytes@.skip(at_key as int) =~= s4);
    Ok((crc, ts, klen, vlen, n1 + n2 + n3 + n4))
}

impl Record {
    /// Whether `crc` is the checksum of the given fields.
    pub fn validate(crc: u32, ts: u32, key: &[u8], value: &[u8]) -> (r: bool)
        requires
            key@.len() <= u32::MAX,
            value@.len() <= u32::MAX,
        ensures
            r == (crc == crc32_of(body_bytes(ts, key@, value@))),
    {
        let body = encode_body(ts, key, value);
        calculate_checksum(&body) == crc
    }

    /// The record's bytes: checksum, timestamp, key length, value length,
    /// key, value.
    pub fn serialize(&self) -> (r: Vec<u8>)
        requires
            self.key@.len() <= u32::MAX,
            self.value@.len() <= u32::MAX,
        ensures
            r@ == record_bytes(self.timestamp, self.key@, self.value@),
    {
        let mut body = encode_body(self.timestamp, self.key.as_slice(), self.value.as_slice());
        let crc = calculate_checksum(&body);
        let mut ser = encode_u32(crc);
        ser.append(&mut body);
        ser
    }

    /// Decodes the record that starts at `pos` and tells how many bytes it
    /// takes; a wrong checksum or a cut-off record is an error.
    pub fn from_reader(bytes: &[u8], pos: usize) -> (r: Result<(Record, usize), CodecError>)
        requires
            pos <= bytes@.len(),
        ensures
            match r {
                Ok((rec, n)) => parse_record(bytes@.skip(pos as int)) == Ok::<_, CodecError>(
                    (rec.timestamp, rec.key@, rec.value@, n as nat),
                ),
                Err(e) => parse_record(bytes@.skip(pos as int)) == Err::<
                    (u32, Seq<u8>, Seq<u8>, nat),
                    CodecError,
                >(e),
            },
            r is Ok ==> pos + r->Ok_0.1 <= bytes@.len(),
    {
        let (crc, ts, klen, vlen, hdr) = match read_header(bytes, pos) {
            Ok(h) => h,
            Err(e) => return Err(e),
        };
        let blen = bytes.len();
        let at_key = pos + hdr;
        let ghost s4 = bytes@.skip(pos as int).skip(hdr as int);
        assert(bytes@.skip(at_key as int) =~= s4);
        let rem = blen - at_key;
        if rem < klen as usize || rem - (klen as usize) < vlen as usize {
            return Err(CodecError::Truncated);
        }
        let kend = at_key + klen as usize;
        let vend = kend + vlen as usize;
        let key = slice_to_vec(slice_subrange(bytes, at_key, kend));
        let value = slice_to_vec(slice_subrange(bytes, kend, vend));
        assert(key@ =~= s4.take(klen as int));
        assert(value@ =~= s4.subrange(klen as int, klen + vlen));
        if !Record::validate(crc, ts, key.as_slice(), value.as_slice()) {
            return Err(CodecError::ChecksumMismatch);
        }
        Ok((Record { timestamp: ts, key, value }, vend - pos))
    }

    /// Decodes the record at the start of `bytes`.
    pub fn from_bytes(bytes: &[u8]) -> (r: Result<(Record, usize), CodecError>)
        ensures
            match r {
                Ok((rec, n)) => parse_record(bytes@) == Ok::<_, CodecError>(
                    (rec.timestamp, rec.key@, rec.value@, n as nat),
                ),
                Err(e) => parse_record(bytes@) == Err::<(u32, Seq<u8>, Seq<u8>, nat), CodecError>(e),
            },
    {
        assert(bytes@.skip(0) =~= bytes@);
        Record::from_reader(bytes, 0)
    }
}

} // verus!
