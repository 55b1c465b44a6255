use vstd::prelude::*;

use crate::errors::{Errors, Result};

verus! {

/// Longest encoding of a length field, in bytes.
pub const VARINT_MAX_BYTES: usize = 9;

/// Shortest header: the type byte and two one-byte length fields. Fewer
/// bytes than this left in a file are the end of its log.
pub const MIN_HEADER_SIZE: usize = 3;

/// Size of the checksum trailer.
pub const CRC_SIZE: usize = 4;

/// Whether a record stores a value or marks its key deleted.
#[derive(Debug, Clone, Copy, PartialEq, Eq, Structural)]
pub enum LogRecordType {
    /// A value written by `put`.
    NORMAL,
    /// A tombstone written by `delete`.
    DELETED,
}

impl LogRecordType {
    /// The byte that stands for the type on disk.
    pub open spec fn tag_spec(self) -> u8 {
        match self {
            LogRecordType::NORMAL => 1u8,
            LogRecordType::DELETED => 2u8,
        }
    }

    pub fn tag(&self) -> (r: u8)
        ensures
            r == self.tag_spec(),
    {
        match self {
            LogRecordType::NORMAL => 1u8,
            LogRecordType::DELETED => 2u8,
        }
    }

    /// The type a byte stands for, if any.
    pub open spec fn from_tag_spec(b: u8) -> Option<LogRecordType> {
        if b == 1 {
            Some(LogRecordType::NORMAL)
        } else if b == 2 {
            Some(LogRecordType::DELETED)
        } else {
            None
        }
    }

    pub fn from_tag(b: u8) -> (r: Option<LogRecordType>)
        ensures
            r == Self::from_tag_spec(b),
    {
        if b == 1 {
            Some(LogRecordType::NORMAL)
        } else if b == 2 {
            Some(LogRecordType::DELETED)
        } else {
            None
        }
    }
}

/// One change to the store, as appended to a data file.
pub struct LogRecord {
    pub key: Vec<u8>,
    pub value: Vec<u8>,
    pub rec_type: LogRecordType,
}

/// The mathematical content of a record.
pub struct RecordModel {
    pub key: Seq<u8>,
    pub value: Seq<u8>,
    pub rec_type: LogRecordType,
}

impl View for LogRecord {
    type V = RecordModel;

    open spec fn view(&self) -> RecordModel {
        RecordModel { key: self.key@, value: self.value@, rec_type: self.rec_type }
    }
}

/// Where a record starts: the data file and the byte offset in it.
#[derive(Debug, Clone, Copy, PartialEq, Eq, Structural)]
pub struct LogRecordPos {
    pub file_id: u32,
    pub offset: u64,
}

/// A record read back from a data file, with the number of bytes it occupies.
pub struct ReadLogRecord {
    pub record: LogRecord,
    pub size: u64,
}

/// A record's key and value lengths fit the length fields.
pub open spec fn valid_record(r: RecordModel) -> bool {
    r.key.len() < pow128(VARINT_MAX_BYTES as nat) && r.value.len() < pow128(VARINT_MAX_BYTES as nat)
}

pub open spec fn pow128(n: nat) -> nat
    decreases n,
{
    if n == 0 {
        1
    } else {
        128 * pow128((n - 1) as nat)
    }
}

/// Unsigned LEB128: seven bits per byte, least significant first, the high bit
/// set on every byte but the last.
pub open spec fn varint_spec(n: nat) -> Seq<u8>
    decreases n,
{
    if n < 128 {
        seq![n as u8]
    } else {
        seq![(n % 128 + 128) as u8] + varint_spec(n / 128)
    }
}

/// Reads a LEB128 number of at most `fuel` bytes from the front of `s`: its
/// value and length. Running out of bytes, or a number longer than `fuel`
/// bytes, is malformed.
pub open spec fn parse_varint(s: Seq<u8>, fuel: nat) -> Result<(nat, nat)>
    decreases fuel,
{
    if s.len() == 0 {
        Err(Errors::MalformedLogRecord)
    } else if fuel == 0 {
        Err(Errors::MalformedLogRecord)
    } else if s[0] < 128 {
        Ok((s[0] as nat, 1nat))
    } else {
        match parse_varint(s.drop_first(), (fuel - 1) as nat) {
            Ok((v, l)) => Ok(((s[0] - 128) as nat + 128 * v, l + 1)),
            Err(e) => Err(e),
        }
    }
}

/// The four little-endian bytes of a checksum.
pub open spec fn u32_le(c: u32) -> Seq<u8> {
    seq![
        (c % 256) as u8,
        ((c / 256) % 256) as u8,
        ((c / 65536) % 256) as u8,
        ((c / 16777216) % 256) as u8,
    ]
}

/// CRC-32 (IEEE) of a byte sequence.
pub uninterp spec fn crc32_of(data: Seq<u8>) -> u32;

/// Relies on crc32fast::hash: the CRC-32 (IEEE) checksum of the bytes, which
/// depends on them alone.
#[verifier::external_body]
fn crc32(data: &[u8]) -> (r: u32)
    ensures
        r == crc32_of(data@),
{
    crc32fast::hash(data)
}

/// Type byte and the two length fields.
pub open spec fn header_spec(r: RecordModel) -> Seq<u8> {
    seq![r.rec_type.tag_spec()] + varint_spec(r.key.len()) + varint_spec(r.value.len())
}

/// Header and payload: what the checksum covers.
pub open spec fn body_spec(r: RecordModel) -> Seq<u8> {
    header_spec(r) + r.key + r.value
}

/// The on-disk form of a record.
pub open spec fn encode_spec(r: RecordModel) -> Seq<u8> {
    body_spec(r) + u32_le(crc32_of(body_spec(r)))
}

/// The header at the front of `s`: type, key length, value length, header size.
pub open spec fn parse_header(s: Seq<u8>) -> Result<(LogRecordType, nat, nat, nat)> {
    if s.len() < MIN_HEADER_SIZE {
        Err(Errors::ReadDataFileEOF)
    } else {
        match LogRecordType::from_tag_spec(s[0]) {
            None => Err(Errors::MalformedLogRecord),
            Some(t) => match parse_varint(s.subrange(1, s.len() as int), VARINT_MAX_BYTES as nat) {
                Err(e) => Err(e),
                Ok((k, kn)) => match parse_varint(
                    s.subrange((1 + kn) as int, s.len() as int),
                    VARINT_MAX_BYTES as nat,
                ) {
                    Err(e) => Err(e),
                    Ok((v, vn)) => Ok((t, k, v, 1 + kn + vn)),
                },
            },
        }
    }
}

/// Total size of the record whose header is given.
pub open spec fn record_size(k: nat, v: nat, h: nat) -> nat {
    h + k + v + CRC_SIZE as nat
}

/// The record at the front of `s`, and its size. Fewer bytes than the
/// shortest header are the end of the log; a header that does not parse, a
/// record longer than the bytes left, and a wrong checksum are corruption.
pub open spec fn decode_spec(s: Seq<u8>) -> Result<(RecordModel, nat)> {
    match parse_header(s) {
        Err(e) => Err(e),
        Ok((t, k, v, h)) => {
            let total = record_size(k, v, h);
            if s.len() < total {
                Err(Errors::IncompleteLogRecord)
            } else if s.subrange(total - 4, total as int) != u32_le(
                crc32_of(s.subrange(0, total - 4)),
            ) {
                Err(Errors::InvalidLogRecordCrc)
            } else {
                Ok(
                    (
                        RecordModel {
                            key: s.subrange(h as int, (h + k) as int),
                            value: s.subrange((h + k) as int, (h + k + v) as int),
                            rec_type: t,
                        },
                        total,
                    ),
                )
            }
        },
    }
}

/// Why a decode can fail: the end of the log, or one of the kinds of
/// corruption.
pub open spec fn decode_error(e: Errors) -> bool {
    e == Errors::ReadDataFileEOF || e == Errors::MalformedLogRecord || e
        == Errors::IncompleteLogRecord || e == Errors::InvalidLogRecordCrc
}

/// An executable result agrees with a decoded one.
pub open spec fn decoded_as(r: Result<(RecordModel, nat)>, s: Result<(RecordModel, nat)>) -> bool {
    match (r, s) {
        (Ok((a, n)), Ok((b, m))) => a == b && n == m,
        (Err(e), Err(f)) => e == f,
        _ => false,
    }
}

pub open spec fn varint_as(r: Result<(u64, usize)>, s: Result<(nat, nat)>) -> bool {
    match (r, s) {
        (Ok((a, n)), Ok((b, m))) => a == b && n == m,
        (Err(e), Err(f)) => e == f,
        _ => false,
    }
}

pub open spec fn header_as(
    r: Result<(LogRecordType, u64, u64, usize)>,
    s: Result<(LogRecordType, nat, nat, nat)>,
) -> bool {
    match (r, s) {
        (Ok((a, b, c, d)), Ok((w, x, y, z))) => a == w && b == x && c == y && d == z,
        (Err(e), Err(f)) => e == f,
        _ => false,
    }
}

/// A number parsed after `count` bytes that added up to `acc`, the next byte
/// weighing `mult`.
pub open spec fn lift_varint(r: Result<(nat, nat)>, acc: nat, mult: nat, count: nat) -> Result<(nat, nat)> {
    match r {
        Ok((v, l)) => Ok((acc + mult * v, count + l)),
        Err(e) => Err(e),
    }
}

proof fn lemma_pow128_mono(a: nat, b: nat)
    requires
        a <= b,
    ensures
        pow128(a) <= pow128(b),
    decreases b,
{
    if a < b {
        lemma_pow128_mono(a, (b - 1) as nat);
    }
}

pub proof fn lemma_pow128_values()
    ensures
        pow128(8) == 0x100000000000000,
        pow128(9) == 0x8000000000000000,
{
    reveal_with_fuel(pow128, 10);
}

/// Appends the LEB128 encoding of `n`.
fn encode_varint(out: &mut Vec<u8>, n: u64)
    ensures
        final(out)@ == old(out)@ + varint_spec(n as nat),
{
    let mut v: u64 = n;
    while v >= 128
        invariant
            out@ + varint_spec(v as nat) == old(out)@ + varint_spec(n as nat),
        decreases v,
    {
        let ghost before = out@;
        let b: u8 = (v % 128 + 128) as u8;
        out.push(b);
        assert(varint_spec(v as nat) == seq![b] + varint_spec((v / 128) as nat));
        assert(before + varint_spec(v as nat) =~= out@ + varint_spec((v / 128) as nat));
        v = v / 128;
    }
    let ghost before = out@;
    out.push(v as u8);
    assert(before + varint_spec(v as nat) =~= out@);
}

/// Reads the LEB128 number that starts at `pos`.
fn decode_varint(buf: &[u8], pos: usize) -> (r: Result<(u64, usize)>)
    requires
        pos <= buf@.len(),
    ensures
        varint_as(r, parse_varint(buf@.subrange(pos as int, buf@.len() as int), VARINT_MAX_BYTES as nat)),
{
    let ghost whole = buf@.subrange(pos as int, buf@.len() as int);
    let mut i: usize = pos;
    let mut acc: u64 = 0;
    let mut mult: u64 = 1;
    let mut count: usize = 0;
    proof {
        lemma_pow128_values();
        assert(buf@.subrange(i as int, buf@.len() as int) =~= whole);
    }
    loop
        invariant
            pos <= i <= buf@.len(),
            whole == buf@.subrange(pos as int, buf@.len() as int),
            count == i - pos,
            count <= VARINT_MAX_BYTES,
            mult == pow128(count as nat),
            acc < mult,
            pow128(8) == 0x100000000000000,
            pow128(9) == 0x8000000000000000,
            parse_varint(whole, VARINT_MAX_BYTES as nat) == lift_varint(
                parse_varint(buf@.subrange(i as int, buf@.len() as int), (9 - count) as nat),
                acc as nat,
                mult as nat,
                count as nat,
            ),
        decreases buf@.len() - i,
    {
        let ghost s = buf@.subrange(i as int, buf@.len() as int);
        if i == buf.len() {
            assert(s.len() == 0);
            assert(parse_varint(s, (9 - count) as nat) == Err::<(nat, nat), Errors>(
                Errors::MalformedLogRecord,
            ));
            assert(parse_varint(whole, VARINT_MAX_BYTES as nat) == Err::<(nat, nat), Errors>(
                Errors::MalformedLogRecord,
            ));
            return Err(Errors::MalformedLogRecord);
        }
        if count == VARINT_MAX_BYTES {
            assert(s.len() > 0);
            assert(parse_varint(s, 0) == Err::<(nat, nat), Errors>(Errors::MalformedLogRecord));
            return Err(Errors::MalformedLogRecord);
        }
        proof {
            lemma_pow128_mono(count as nat, 8);
        }
        let b: u8 = buf[i];
        if b < 128 {
            assert(s[0] == b);
            proof {
                assert(acc + mult * b < mult * 128) by (nonlinear_arith)
                    requires
                        acc < mult,
                        b < 128,
                ;
            }
            assert(parse_varint(s, (9 - count) as nat) == Ok::<(nat, nat), Errors>((b as nat, 1nat)));
            let v: u64 = acc + mult * (b as u64);
            return Ok((v, count + 1));
        }
        let ghost rest = buf@.subrange(i + 1, buf@.len() as int);
        assert(s.drop_first() =~= rest);
        proof {
            assert(acc + mult * (b - 128) < mult * 128) by (nonlinear_arith)
                requires
                    acc < mult,
                    b < 256,
                    b >= 128,
            ;
            match parse_varint(rest, (9 - count - 1) as nat) {
                Ok((v, l)) => {
                    assert(acc + mult * ((b - 128) as nat + 128 * v) == (acc + mult * (b - 128))
                        + (mult * 128) * v) by (nonlinear_arith)
                        requires
                            b >= 128,
                    ;
                },
                Err(_) => {},
            }
        }
        acc = acc + mult * ((b - 128) as u64);
        mult = mult * 128;
        i = i + 1;
        count = count + 1;
    }
}


/// What a decoder's executable result stands for.
pub open spec fn decode_view(r: Result<(LogRecord, usize)>) -> Result<(RecordModel, nat)> {
    match r {
        Ok((rec, n)) => Ok((rec@, n as nat)),
        Err(e) => Err(e),
    }
}

/// Bytes read to decode a header: one more than the longest header, so that
/// an overlong length field is seen as malformed rather than cut short.
pub const HEADER_READ_LEN: usize = 20;

pub proof fn lemma_parse_varint_bounds(s: Seq<u8>, f: nat)
    ensures
        match parse_varint(s, f) {
            Ok((v, l)) => 1 <= l <= s.len() && l <= f && v < pow128(l),
            Err(e) => e == Errors::MalformedLogRecord,
        },
    decreases f,
{
    reveal_with_fuel(pow128, 2);
    if s.len() > 0 && f > 0 && s[0] >= 128 {
        lemma_parse_varint_bounds(s.drop_first(), (f - 1) as nat);
        match parse_varint(s.drop_first(), (f - 1) as nat) {
            Ok((v, l)) => {
                let b = s[0] - 128;
                assert(b + 128 * v < pow128(l + 1)) by (nonlinear_arith)
                    requires
                        0 <= b < 128,
                        v < pow128(l),
                        pow128(l + 1) == 128 * pow128(l),
                ;
            },
            Err(_) => {},
        }
    }
}

proof fn lemma_varint_round_trip(n: nat, t: Seq<u8>, f: nat)
    requires
        varint_spec(n).len() <= f,
    ensures
        parse_varint(varint_spec(n) + t, f) == Ok::<(nat, nat), Errors>((n, varint_spec(n).len())),
    decreases n,
{
    let s = varint_spec(n) + t;
    if n >= 128 {
        assert(s.drop_first() =~= varint_spec(n / 128) + t);
        lemma_varint_round_trip(n / 128, t, (f - 1) as nat);
    }
}

proof fn lemma_varint_len(n: nat, k: nat)
    requires
        k >= 1,
        n < pow128(k),
    ensures
        varint_spec(n).len() <= k,
    decreases n,
{
    if n >= 128 {
        assert(pow128(1) == 128) by {
            reveal_with_fuel(pow128, 2);
        }
        if k == 1 {
            assert(false);
        }
        let p = pow128((k - 1) as nat);
        assert(n / 128 < p) by (nonlinear_arith)
            requires
                n < 128 * p,
        ;
        lemma_varint_len(n / 128, (k - 1) as nat);
    }
}

/// Parsing a number needs only the bytes the number occupies.
proof fn lemma_parse_varint_prefix(s: Seq<u8>, f: nat, m: nat)
    requires
        m <= s.len(),
        (match parse_varint(s, f) {
            Ok((_, l)) => l <= m,
            Err(_) => false,
        }) || m > f,
    ensures
        parse_varint(s.subrange(0, m as int), f) == parse_varint(s, f),
    decreases f,
{
    lemma_parse_varint_bounds(s, f);
    let p = s.subrange(0, m as int);
    if s.len() > 0 && m > 0 && f > 0 && s[0] >= 128 {
        assert(p.drop_first() =~= s.drop_first().subrange(0, m - 1));
        lemma_parse_varint_prefix(s.drop_first(), (f - 1) as nat, (m - 1) as nat);
    }
}

/// Parsing a header needs only its own bytes, or `HEADER_READ_LEN` of them.
pub proof fn lemma_parse_header_prefix(s: Seq<u8>, m: nat)
    requires
        m <= s.len(),
        (match parse_header(s) {
            Ok((_, _, _, h)) => h <= m,
            Err(_) => false,
        }) || m >= HEADER_READ_LEN,
    ensures
        parse_header(s.subrange(0, m as int)) == parse_header(s),
{
    let p = s.subrange(0, m as int);
    if s.len() > 0 && m > 0 {
        let s1 = s.subrange(1, s.len() as int);
        assert(p.subrange(1, p.len() as int) =~= s1.subrange(0, m - 1));
        lemma_parse_varint_bounds(s1, 9);
        lemma_parse_varint_prefix(s1, 9, (m - 1) as nat);
        match parse_varint(s1, 9) {
            Ok((k, kn)) => {
                let s2 = s.subrange((1 + kn) as int, s.len() as int);
                assert(p.subrange((1 + kn) as int, p.len() as int) =~= s2.subrange(0, m - 1 - kn));
                lemma_parse_varint_bounds(s2, 9);
                lemma_parse_varint_prefix(s2, 9, (m - 1 - kn) as nat);
            },
            Err(_) => {},
        }
    }
}

/// Decoding fails only with a decode error.
pub proof fn lemma_decode_errors(s: Seq<u8>)
    ensures
        decode_spec(s) is Err ==> decode_error(decode_spec(s)->Err_0),
{
    if s.len() >= MIN_HEADER_SIZE {
        let s1 = s.subrange(1, s.len() as int);
        lemma_parse_varint_bounds(s1, 9);
        match parse_varint(s1, 9) {
            Ok((k, kn)) => {
                lemma_parse_varint_bounds(s.subrange((1 + kn) as int, s.len() as int), 9);
            },
            Err(_) => {},
        }
    }
}

/// Decoding a record needs only the bytes the record occupies.
pub proof fn lemma_decode_prefix(s: Seq<u8>, m: nat)
    requires
        m <= s.len(),
        match parse_header(s) {
            Ok((_, k, v, h)) => record_size(k, v, h) <= m,
            Err(_) => false,
        },
    ensures
        decode_spec(s.subrange(0, m as int)) == decode_spec(s),
{
    lemma_parse_header_prefix(s, m);
    let p = s.subrange(0, m as int);
    match parse_header(s) {
        Ok((t, k, v, h)) => {
            let total = record_size(k, v, h);
            assert(p.subrange(total - 4, total as int) =~= s.subrange(total - 4, total as int));
            assert(p.subrange(0, total - 4) =~= s.subrange(0, total - 4));
            assert(p.subrange(h as int, (h + k) as int) =~= s.subrange(h as int, (h + k) as int));
            assert(p.subrange((h + k) as int, (h + k + v) as int) =~= s.subrange(
                (h + k) as int,
                (h + k + v) as int,
            ));
        },
        Err(_) => {},
    }
}

proof fn lemma_parse_varint_extend(s: Seq<u8>, f: nat, m: nat)
    requires
        m <= s.len(),
        parse_varint(s.subrange(0, m as int), f) is Ok,
    ensures
        parse_varint(s, f) == parse_varint(s.subrange(0, m as int), f),
    decreases f,
{
    let p = s.subrange(0, m as int);
    lemma_parse_varint_bounds(p, f);
    if p.len() > 0 && f > 0 && p[0] >= 128 {
        assert(p.drop_first() =~= s.drop_first().subrange(0, m - 1));
        lemma_parse_varint_extend(s.drop_first(), (f - 1) as nat, (m - 1) as nat);
    }
}

/// Bytes appended after a whole record do not change what it decodes to.
pub proof fn lemma_decode_extend(s: Seq<u8>, m: nat)
    requires
        m <= s.len(),
        decode_spec(s.subrange(0, m as int)) is Ok,
    ensures
        decode_spec(s) == decode_spec(s.subrange(0, m as int)),
{
    let p = s.subrange(0, m as int);
    let s1 = s.subrange(1, s.len() as int);
    assert(p.subrange(1, p.len() as int) =~= s1.subrange(0, m - 1));
    lemma_parse_varint_extend(s1, 9, (m - 1) as nat);
    match parse_varint(s1, 9) {
        Ok((k, kn)) => {
            lemma_parse_varint_bounds(s1, 9);
            let s2 = s.subrange((1 + kn) as int, s.len() as int);
            assert(p.subrange((1 + kn) as int, p.len() as int) =~= s2.subrange(0, m - 1 - kn));
            lemma_parse_varint_extend(s2, 9, (m - 1 - kn) as nat);
        },
        Err(_) => {},
    }
    assert(parse_header(s) == parse_header(p));
    lemma_decode_prefix(s, m);
}

/// Encoding then decoding gives back the record and the number of bytes it
/// occupies, whatever follows it.
#[verifier::rlimit(40)]
pub proof fn lemma_round_trip(r: RecordModel, tail: Seq<u8>)
    requires
        valid_record(r),
    ensures
        decode_spec(encode_spec(r) + tail) == Ok::<(RecordModel, nat), Errors>(
            (r, encode_spec(r).len()),
        ),
{
    let e = encode_spec(r);
    let s = e + tail;
    let kb = varint_spec(r.key.len());
    let vb = varint_spec(r.value.len());
    let crc = u32_le(crc32_of(body_spec(r)));
    lemma_varint_len(r.key.len(), 9);
    lemma_varint_len(r.value.len(), 9);
    assert(s.len() >= MIN_HEADER_SIZE);
    assert(s[0] == r.rec_type.tag_spec());
    assert(LogRecordType::from_tag_spec(s[0]) == Some(r.rec_type)) by {
        match r.rec_type {
            LogRecordType::NORMAL => {},
            LogRecordType::DELETED => {},
        }
    }
    let rest1 = vb + r.key + r.value + crc + tail;
    assert(s.subrange(1, s.len() as int) =~= kb + rest1);
    lemma_varint_round_trip(r.key.len(), rest1, 9);
    let rest2 = r.key + r.value + crc + tail;
    assert(s.subrange((1 + kb.len()) as int, s.len() as int) =~= vb + rest2);
    lemma_varint_round_trip(r.value.len(), rest2, 9);
    let h = 1 + kb.len() + vb.len();
    let total = record_size(r.key.len(), r.value.len(), h);
    assert(total == e.len());
    assert(s.subrange(total - 4, total as int) =~= crc);
    assert(s.subrange(0, total - 4) =~= body_spec(r));
    assert(s.subrange(h as int, (h + r.key.len()) as int) =~= r.key);
    assert(s.subrange((h + r.key.len()) as int, (h + r.key.len() + r.value.len()) as int)
        =~= r.value);
}

/// Round trip of a record with nothing after it.
pub proof fn lemma_encode_decode(r: RecordModel)
    requires
        valid_record(r),
    ensures
        decode_spec(encode_spec(r)) == Ok::<(RecordModel, nat), Errors>((r, encode_spec(r).len())),
{
    lemma_round_trip(r, Seq::empty());
    assert(encode_spec(r) + Seq::<u8>::empty() =~= encode_spec(r));
}

/// Appends the bytes of `src`.
fn append_bytes(out: &mut Vec<u8>, src: &[u8])
    ensures
        final(out)@ == old(out)@ + src@,
{
    let mut i: usize = 0;
    while i < src.len()
        invariant
            i <= src@.len(),
            out@ == old(out)@ + src@.subrange(0, i as int),
        decreases src@.len() - i,
    {
        out.push(src[i]);
        i = i + 1;
        assert(out@ =~= old(out)@ + src@.subrange(0, i as int));
    }
    assert(src@.subrange(0, i as int) =~= src@);
}

/// Copies `buf[from..to]` into a new vector.
fn copy_range(buf: &[u8], from: usize, to: usize) -> (r: Vec<u8>)
    requires
        from <= to <= buf@.len(),
    ensures
        r@ == buf@.subrange(from as int, to as int),
{
    let mut out: Vec<u8> = Vec::new();
    append_bytes(&mut out, vstd::slice::slice_subrange(buf, from, to));
    assert(out@ =~= buf@.subrange(from as int, to as int));
    out
}

impl LogRecord {
    /// The record's on-disk bytes: type byte, key length, value length, key,
    /// value, and the CRC-32 of all of these, little-endian.
    pub fn encode(&self) -> (r: Vec<u8>)
        ensures
            r@ == encode_spec(self@),
    {
        let mut buf: Vec<u8> = Vec::new();
        buf.push(self.rec_type.tag());
        encode_varint(&mut buf, self.key.len() as u64);
        encode_varint(&mut buf, self.value.len() as u64);
        append_bytes(&mut buf, self.key.as_slice());
        append_bytes(&mut buf, self.value.as_slice());
        assert(buf@ =~= body_spec(self@));
        let crc = crc32(buf.as_slice());
        buf.push((crc % 256) as u8);
        buf.push(((crc / 256) % 256) as u8);
        buf.push(((crc / 65536) % 256) as u8);
        buf.push(((crc / 16777216) % 256) as u8);
        assert(buf@ =~= encode_spec(self@));
        buf
    }
}

/// Reads the header at the front of `buf`.
pub fn decode_header(buf: &[u8]) -> (r: Result<(LogRecordType, u64, u64, usize)>)
    ensures
        header_as(r, parse_header(buf@)),
        r is Ok ==> r->Ok_0.3 <= buf@.len(),
{
    if buf.len() < MIN_HEADER_SIZE {
        return Err(Errors::ReadDataFileEOF);
    }
    let t = match LogRecordType::from_tag(buf[0]) {
        Some(t) => t,
        None => return Err(Errors::MalformedLogRecord),
    };
    let ghost s1 = buf@.subrange(1, buf@.len() as int);
    proof {
        lemma_parse_varint_bounds(s1, 9);
    }
    let (k, kn) = match decode_varint(buf, 1) {
        Ok(x) => x,
        Err(e) => return Err(e),
    };
    let ghost s2 = buf@.subrange((1 + kn) as int, buf@.len() as int);
    proof {
        lemma_parse_varint_bounds(s2, 9);
    }
    let (v, vn) = match decode_varint(buf, 1 + kn) {
        Ok(x) => x,
        Err(e) => return Err(e),
    };
    Ok((t, k, v, 1 + kn + vn))
}

/// Decodes the record at the front of `buf`, with the number of bytes it
/// occupies.
pub fn decode_log_record(buf: &[u8]) -> (r: Result<(LogRecord, usize)>)
    ensures
        decode_view(r) == decode_spec(buf@),
{
    let (t, k, v, h) = match decode_header(buf) {
        Ok(x) => x,
        Err(e) => return Err(e),
    };
    let avail = buf.len() - h;
    if k > avail as u64 {
        return Err(Errors::IncompleteLogRecord);
    }
    let ku = k as usize;
    if v > (avail - ku) as u64 {
        return Err(Errors::IncompleteLogRecord);
    }
    let vu = v as usize;
    if avail - ku - vu < CRC_SIZE {
        return Err(Errors::IncompleteLogRecord);
    }
    let total = h + ku + vu + CRC_SIZE;
    let ghost s = buf@;
    let crc = crc32(vstd::slice::slice_subrange(buf, 0, total - 4));
    let stored = vstd::slice::slice_subrange(buf, total - 4, total);
    assert(stored@ =~= s.subrange(total - 4, total as int));
    if stored[0] != (crc % 256) as u8 || stored[1] != ((crc / 256) % 256) as u8 || stored[2] != ((
    crc / 65536) % 256) as u8 || stored[3] != ((crc / 16777216) % 256) as u8 {
        proof {
            let c = u32_le(crc);
            if stored@ == c {
                assert(stored@[0] == c[0] && stored@[1] == c[1] && stored@[2] == c[2]
                    && stored@[3] == c[3]);
            }
        }
        return Err(Errors::InvalidLogRecordCrc);
    }
    assert(stored@ =~= u32_le(crc));
    let key = copy_range(buf, h, h + ku);
    let value = copy_range(buf, h + ku, h + ku + vu);
    let rec = LogRecord { key, value, rec_type: t };
    Ok((rec, total))
}

} // verus!
