use vstd::prelude::*;
use crate::errors::Errors;

verus! {

/// The kind of a log record: a live key/value pair, or a tombstone that marks
/// the key as deleted from that point of the log on.
#[derive(Clone, Copy, Debug, PartialEq, Eq, Structural)]
pub enum LogRecordType {
    NORMAL,
    DELETED,
}

/// One record as it is appended to a data file.
#[derive(Debug)]
pub struct LogRecord {
    pub key: Vec<u8>,
    pub value: Vec<u8>,
    pub rec_type: LogRecordType,
}

/// Where a record lives on disk: the id of its segment and the byte offset of
/// the first byte of its encoded form.
#[derive(Clone, Copy, Debug, PartialEq, Eq, Structural)]
pub struct LogRecordPos {
    pub file_id: u32,
    pub offset: u64,
}

/// The mathematical content of a `LogRecord`.
pub struct LogRecordView {
    pub key: Seq<u8>,
    pub value: Seq<u8>,
    pub rec_type: LogRecordType,
}

impl View for LogRecord {
    type V = LogRecordView;

    open spec fn view(&self) -> LogRecordView {
        LogRecordView { key: self.key@, value: self.value@, rec_type: self.rec_type }
    }
}

/// The byte that opens an encoded record of the given type.
pub open spec fn spec_type_byte(t: LogRecordType) -> u8 {
    match t {
        LogRecordType::NORMAL => 1u8,
        LogRecordType::DELETED => 2u8,
    }
}

/// LEB128 encoding of an unsigned 32-bit value: seven payload bits per byte,
/// least-significant group first, high bit set on every byte but the last.
pub open spec fn spec_varint(n: u32) -> Seq<u8>
    decreases n,
{
    if n < 128 {
        seq![n as u8]
    } else {
        seq![((n % 128) + 128) as u8] + spec_varint(n / 128)
    }
}

/// One step of the reflected CRC-32 (IEEE) bit loop.
pub open spec fn crc_bit(c: u32) -> u32 {
    if c & 1 == 1 {
        (c >> 1) ^ 0xEDB88320u32
    } else {
        c >> 1
    }
}

/// `k` iterations of the CRC bit step.
pub open spec fn crc_bits(c: u32, k: nat) -> u32
    decreases k,
{
    if k == 0 {
        c
    } else {
        crc_bits(crc_bit(c), (k - 1) as nat)
    }
}

/// The CRC accumulator after folding in the first `i` bytes of `s`, starting
/// from the all-ones seed.
pub open spec fn crc_upto(s: Seq<u8>, i: int) -> u32
    decreases i,
{
    if i <= 0 {
        0xFFFFFFFFu32
    } else {
        crc_bits(crc_upto(s, i - 1) ^ (s[i - 1] as u32), 8)
    }
}

/// IEEE CRC-32 of a byte sequence.
pub open spec fn spec_crc32(s: Seq<u8>) -> u32 {
    crc_upto(s, s.len() as int) ^ 0xFFFFFFFFu32
}

/// The four little-endian bytes of a 32-bit value.
pub open spec fn spec_le32(x: u32) -> Seq<u8> {
    seq![
        (x % 256) as u8,
        ((x / 256) % 256) as u8,
        ((x / 256 / 256) % 256) as u8,
        ((x / 256 / 256 / 256) % 256) as u8,
    ]
}

/// The value held by four little-endian bytes.
pub open spec fn spec_le32_read(s: Seq<u8>) -> int {
    s[0] + 256 * (s[1] as int) + 65536 * (s[2] as int) + 16777216 * (s[3] as int)
}

/// The body of an encoded record: everything the trailing CRC covers.
pub open spec fn spec_record_body(key: Seq<u8>, value: Seq<u8>, t: LogRecordType) -> Seq<u8> {
    seq![spec_type_byte(t)] + spec_varint(key.len() as u32) + spec_varint(value.len() as u32)
        + key + value
}

/// The full on-disk form of a record: body followed by its CRC-32.
pub open spec fn spec_encode(key: Seq<u8>, value: Seq<u8>, t: LogRecordType) -> Seq<u8> {
    spec_record_body(key, value, t) + spec_le32(spec_crc32(spec_record_body(key, value, t)))
}

/// A record small enough that its encoded form fits in a 32-bit length.
pub open spec fn rec_encodable(key: Seq<u8>, value: Seq<u8>) -> bool {
    key.len() + value.len() + 15 <= u32::MAX
}

proof fn lemma_crc_bits_snoc(c: u32, k: nat)
    ensures
        crc_bits(c, k + 1) == crc_bit(crc_bits(c, k)),
    decreases k,
{
    if k == 0 {
        assert(crc_bits(c, 1) == crc_bits(crc_bit(c), 0));
    } else {
        lemma_crc_bits_snoc(crc_bit(c), (k - 1) as nat);
        assert(crc_bits(c, k + 1) == crc_bits(crc_bit(c), k));
        assert(crc_bits(c, k) == crc_bits(crc_bit(c), (k - 1) as nat));
    }
}

/// IEEE CRC-32 of `data`.
pub fn crc32(data: &Vec<u8>) -> (r: u32)
    ensures
        r == spec_crc32(data@),
{
    let mut crc: u32 = 0xFFFFFFFFu32;
    let mut i: usize = 0;
    while i < data.len()
        invariant
            i <= data@.len(),
            crc == crc_upto(data@, i as int),
        decreases data@.len() - i,
    {
        let ghost start = crc ^ (data@[i as int] as u32);
        let mut c: u32 = crc ^ (data[i] as u32);
        let mut j: usize = 0;
        while j < 8
            invariant
                j <= 8,
                c == crc_bits(start, j as nat),
            decreases 8 - j,
        {
            proof {
                lemma_crc_bits_snoc(start, j as nat);
            }
            if c & 1 == 1 {
                c = (c >> 1) ^ 0xEDB88320u32;
            } else {
                c = c >> 1;
            }
            j = j + 1;
        }
        crc = c;
        i = i + 1;
    }
    crc ^ 0xFFFFFFFFu32
}

/// Appends the LEB128 encoding of `n` to `out`.
pub fn varint_encode(n: u32, out: &mut Vec<u8>)
    ensures
        final(out)@ == old(out)@ + spec_varint(n),
    decreases n,
{
    if n < 128 {
        out.push(n as u8);
        assert(out@ =~= old(out)@ + spec_varint(n));
    } else {
        out.push(((n % 128) + 128) as u8);
        varint_encode(n / 128, out);
        assert(out@ =~= old(out)@ + spec_varint(n));
    }
}

impl LogRecord {
    /// Encodes the record as type byte, key length, value length, key, value,
    /// and a little-endian CRC-32 over all preceding bytes.
    pub fn encode(&self) -> (r: Vec<u8>)
        requires
            rec_encodable(self.key@, self.value@),
        ensures
            r@ == spec_encode(self.key@, self.value@, self.rec_type),
    {
        let mut out: Vec<u8> = Vec::new();
        let tb: u8 = match self.rec_type {
            LogRecordType::NORMAL => 1u8,
            LogRecordType::DELETED => 2u8,
        };
        out.push(tb);
        varint_encode(self.key.len() as u32, &mut out);
        varint_encode(self.value.len() as u32, &mut out);
        out.extend_from_slice(self.key.as_slice());
        out.extend_from_slice(self.value.as_slice());
        assert(out@ =~= spec_record_body(self.key@, self.value@, self.rec_type));
        let crc = crc32(&out);
        out.push((crc % 256) as u8);
        out.push(((crc / 256) % 256) as u8);
        out.push(((crc / 256 / 256) % 256) as u8);
        out.push(((crc / 256 / 256 / 256) % 256) as u8);
        assert(out@ =~= spec_encode(self.key@, self.value@, self.rec_type));
        out
    }
}

/// Parses an LEB128 varint from the front of `s`: the value and the number of
/// bytes consumed.
pub open spec fn spec_varint_parse(s: Seq<u8>) -> Option<(u32, int)>
    decreases s.len(),
{
    if s.len() == 0 {
        None
    } else if s[0] < 128 {
        Some((s[0] as u32, 1int))
    } else {
        match spec_varint_parse(s.skip(1)) {
            None => None,
            Some((m, k)) => {
                let v = 128 * (m as int) + (s[0] - 128);
                if v <= u32::MAX {
                    Some((v as u32, k + 1))
                } else {
                    None
                }
            },
        }
    }
}

/// Parses the header of an encoded record: type byte, key length, value
/// length, and the header's byte count.
pub open spec fn spec_header(s: Seq<u8>) -> Option<(LogRecordType, u32, u32, int)> {
    if s.len() < 1 {
        None
    } else if s[0] != 1 && s[0] != 2 {
        None
    } else {
        let t = if s[0] == 1 {
            LogRecordType::NORMAL
        } else {
            LogRecordType::DELETED
        };
        match spec_varint_parse(s.skip(1)) {
            None => None,
            Some((klen, n1)) => match spec_varint_parse(s.skip(1 + n1)) {
                None => None,
                Some((vlen, n2)) => Some((t, klen, vlen, 1 + n1 + n2)),
            },
        }
    }
}

/// Parses one full record from the front of `s`, verifying its CRC: the record
/// and the number of bytes consumed.
pub open spec fn spec_decode(s: Seq<u8>) -> Option<(LogRecordView, int)> {
    match spec_header(s) {
        None => None,
        Some((t, klen, vlen, hl)) => {
            let bl = hl + klen + vlen;
            if s.len() < bl + 4 {
                None
            } else if spec_le32_read(s.subrange(bl, bl + 4)) != spec_crc32(s.take(bl)) as int {
                None
            } else {
                Some((
                    LogRecordView {
                        key: s.subrange(hl, hl + klen),
                        value: s.subrange(hl + klen, bl),
                        rec_type: t,
                    },
                    bl + 4,
                ))
            }
        },
    }
}

/// Reading back the little-endian bytes of a 32-bit value gives the value.
pub proof fn lemma_le32_roundtrip(x: u32)
    ensures
        spec_le32_read(spec_le32(x)) == x,
{
    assert(x == x % 256 + 256 * (x / 256));
    assert(x / 256 == (x / 256) % 256 + 256 * (x / 256 / 256));
    assert(x / 256 / 256 == (x / 256 / 256) % 256 + 256 * (x / 256 / 256 / 256));
    assert(x / 256 / 256 / 256 < 256);
}

/// A successful varint parse consumes between one byte and the whole input.
pub proof fn lemma_varint_parse_bounds(s: Seq<u8>, m: u32, k: int)
    requires
        spec_varint_parse(s) == Some((m, k)),
    ensures
        1 <= k <= s.len(),
    decreases s.len(),
{
    if s.len() > 0 && s[0] >= 128 {
        match spec_varint_parse(s.skip(1)) {
            None => {},
            Some((m2, k2)) => {
                lemma_varint_parse_bounds(s.skip(1), m2, k2);
            },
        }
    }
}

/// Parsing the varint encoding of `n`, with anything after it, yields `n` and
/// consumes exactly the encoding.
pub proof fn lemma_varint_parse_encode(n: u32, rest: Seq<u8>)
    ensures
        spec_varint_parse(spec_varint(n) + rest) == Some((n, spec_varint(n).len() as int)),
    decreases n,
{
    let s = spec_varint(n) + rest;
    if n < 128 {
        assert(s[0] == n as u8);
    } else {
        assert(s[0] == ((n % 128) + 128) as u8);
        assert(s[0] >= 128);
        lemma_varint_parse_encode(n / 128, rest);
        assert(s.skip(1) =~= spec_varint(n / 128) + rest);
        let m = n / 128;
        let k = spec_varint(n / 128).len() as int;
        assert(spec_varint_parse(s.skip(1)) == Some((m, k)));
        assert(128 * (m as int) + (s[0] - 128) == n);
    }
}

/// A varint parse depends only on the bytes it consumes.
pub proof fn lemma_varint_parse_prefix(s: Seq<u8>, w: Seq<u8>, m: u32, k: int)
    requires
        spec_varint_parse(s) == Some((m, k)),
        w.len() >= k,
        w.take(k) == s.take(k),
    ensures
        spec_varint_parse(w) == Some((m, k)),
    decreases s.len(),
{
    lemma_varint_parse_bounds(s, m, k);
    assert forall|i: int| 0 <= i < k implies w[i] == s[i] by {
        assert(w.take(k)[i] == w[i]);
        assert(s.take(k)[i] == s[i]);
        assert(w.take(k)[i] == s.take(k)[i]);
    }
    assert(w[0] == s[0]);
    if s[0] < 128 {
    } else {
        let inner = spec_varint_parse(s.skip(1));
        match inner {
            None => {},
            Some((m2, k2)) => {
                lemma_varint_parse_bounds(s.skip(1), m2, k2);
                assert(w.skip(1).take(k2) =~= s.skip(1).take(k2));
                lemma_varint_parse_prefix(s.skip(1), w.skip(1), m2, k2);
            },
        }
    }
}

/// A successful record parse consumes at least seven bytes and at most the
/// whole input, and names lengths consistent with what it consumed.
pub proof fn lemma_decode_bounds(s: Seq<u8>, rv: LogRecordView, n: int)
    requires
        spec_decode(s) == Some((rv, n)),
    ensures
        7 <= n <= s.len(),
        rv.key.len() + rv.value.len() + 6 <= n,
{
    let (t, klen, vlen, hl) = spec_header(s)->Some_0;
    let (m1, n1) = spec_varint_parse(s.skip(1))->Some_0;
    lemma_varint_parse_bounds(s.skip(1), m1, n1);
    let (m2, n2) = spec_varint_parse(s.skip(1 + n1))->Some_0;
    lemma_varint_parse_bounds(s.skip(1 + n1), m2, n2);
}

/// A record parse depends only on the bytes it consumes.
pub proof fn lemma_decode_prefix(s: Seq<u8>, w: Seq<u8>, rv: LogRecordView, n: int)
    requires
        spec_decode(s) == Some((rv, n)),
        w.len() >= n,
        w.take(n) == s.take(n),
    ensures
        spec_decode(w) == Some((rv, n)),
{
    lemma_decode_bounds(s, rv, n);
    assert forall|i: int| 0 <= i < n implies w[i] == s[i] by {
        assert(w.take(n)[i] == w[i]);
        assert(s.take(n)[i] == s[i]);
        assert(w.take(n)[i] == s.take(n)[i]);
    }
    assert(w[0] == s[0]);
    let (t, klen, vlen, hl) = spec_header(s)->Some_0;
    let (m1, n1) = spec_varint_parse(s.skip(1))->Some_0;
    lemma_varint_parse_bounds(s.skip(1), m1, n1);
    let (m2, n2) = spec_varint_parse(s.skip(1 + n1))->Some_0;
    lemma_varint_parse_bounds(s.skip(1 + n1), m2, n2);
    let bl = hl + klen + vlen;
    assert(n == bl + 4);
    assert(w.skip(1).take(n1) =~= s.skip(1).take(n1));
    lemma_varint_parse_prefix(s.skip(1), w.skip(1), m1, n1);
    assert(w.skip(1 + n1).take(n2) =~= s.skip(1 + n1).take(n2));
    lemma_varint_parse_prefix(s.skip(1 + n1), w.skip(1 + n1), m2, n2);
    assert(spec_header(w) == Some((t, klen, vlen, hl)));
    assert(w.subrange(bl, bl + 4) =~= s.subrange(bl, bl + 4));
    assert(w.take(bl) =~= s.take(bl));
    assert(w.subrange(hl, hl + klen) =~= s.subrange(hl, hl + klen));
    assert(w.subrange(hl + klen, bl) =~= s.subrange(hl + klen, bl));
}

/// Decoding an encoded record, with anything after it, gives back the record
/// and consumes exactly its encoding.
#[verifier::rlimit(100)]
pub proof fn lemma_decode_encode(key: Seq<u8>, value: Seq<u8>, t: LogRecordType, rest: Seq<u8>)
    requires
        rec_encodable(key, value),
    ensures
        spec_decode(spec_encode(key, value, t) + rest) == Some((
            LogRecordView { key, value, rec_type: t },
            spec_encode(key, value, t).len() as int,
        )),
{
    let body = spec_record_body(key, value, t);
    let enc = spec_encode(key, value, t);
    let s = enc + rest;
    let tb = spec_type_byte(t);
    assert(s[0] == tb);
    assert(tb == 1 || tb == 2);
    let kl = key.len() as u32;
    let vl = value.len() as u32;
    let tail1 = spec_varint(vl) + key + value + spec_le32(spec_crc32(body)) + rest;
    assert(s.skip(1) =~= spec_varint(kl) + tail1);
    lemma_varint_parse_encode(kl, tail1);
    let n1 = spec_varint(kl).len() as int;
    assert(spec_varint_parse(s.skip(1)) == Some((kl, n1)));
    let tail2 = key + value + spec_le32(spec_crc32(body)) + rest;
    assert(s.skip(1 + n1) =~= spec_varint(vl) + tail2);
    lemma_varint_parse_encode(vl, tail2);
    let n2 = spec_varint(vl).len() as int;
    assert(spec_varint_parse(s.skip(1 + n1)) == Some((vl, n2)));
    let hl = 1 + n1 + n2;
    assert(spec_header(s) == Some((t, kl, vl, hl)));
    let bl = hl + kl + vl;
    assert(body.len() == bl);
    assert(enc.len() == bl + 4);
    assert(s.len() >= bl + 4);
    assert(s.take(bl) =~= body);
    assert(s.subrange(bl, bl + 4) =~= spec_le32(spec_crc32(body)));
    lemma_le32_roundtrip(spec_crc32(body));
    assert(spec_le32_read(s.subrange(bl, bl + 4)) == spec_crc32(s.take(bl)) as int);
    assert(s.subrange(hl, hl + kl) =~= key);
    assert(s.subrange(hl + kl, bl) =~= value);
}

/// Copies `buf[start .. start + len]` into a fresh vector.
pub fn copy_range(buf: &Vec<u8>, start: usize, len: usize) -> (r: Vec<u8>)
    requires
        start + len <= buf.len(),
    ensures
        r@ == buf@.subrange(start as int, start + len),
{
    let mut out: Vec<u8> = Vec::new();
    let mut i: usize = 0;
    while i < len
        invariant
            i <= len,
            start + len <= buf@.len(),
            buf@.len() <= usize::MAX,
            out@ == buf@.subrange(start as int, start + i),
        decreases len - i,
    {
        out.push(buf[start + i]);
        assert(out@ =~= buf@.subrange(start as int, start + i + 1));
        i = i + 1;
    }
    out
}

/// IEEE CRC-32 of `buf[start .. end]`.
pub fn crc32_range(buf: &Vec<u8>, start: usize, end: usize) -> (r: u32)
    requires
        start <= end <= buf.len(),
    ensures
        r == spec_crc32(buf@.subrange(start as int, end as int)),
{
    let ghost range = buf@.subrange(start as int, end as int);
    let mut crc: u32 = 0xFFFFFFFFu32;
    let mut i: usize = start;
    while i < end
        invariant
            start <= i <= end <= buf@.len(),
            range == buf@.subrange(start as int, end as int),
            crc == crc_upto(range, i - start),
        decreases end - i,
    {
        let ghost st = crc ^ (range[i - start] as u32);
        let mut c: u32 = crc ^ (buf[i] as u32);
        let mut j: usize = 0;
        while j < 8
            invariant
                j <= 8,
                c == crc_bits(st, j as nat),
            decreases 8 - j,
        {
            proof {
                lemma_crc_bits_snoc(st, j as nat);
            }
            if c & 1 == 1 {
                c = (c >> 1) ^ 0xEDB88320u32;
            } else {
                c = c >> 1;
            }
            j = j + 1;
        }
        crc = c;
        i = i + 1;
    }
    crc ^ 0xFFFFFFFFu32
}

/// Parses an LEB128 varint at `offset` in `buf`.
pub fn varint_decode(buf: &Vec<u8>, offset: usize) -> (r: Option<(u32, usize)>)
    requires
        offset <= buf.len(),
    ensures
        r is None ==> spec_varint_parse(buf@.skip(offset as int)) is None,
        r matches Some((m, k)) ==> spec_varint_parse(buf@.skip(offset as int)) == Some((
            m,
            k as int,
        )) && 1 <= k && offset + k <= buf.len(),
    decreases buf@.len() - offset,
{
    let ghost s = buf@.skip(offset as int);
    if offset == buf.len() {
        return None;
    }
    let b = buf[offset];
    assert(s[0] == b);
    if b < 128 {
        Some((b as u32, 1))
    } else {
        assert(s.skip(1) =~= buf@.skip(offset + 1));
        match varint_decode(buf, offset + 1) {
            None => None,
            Some((m, k)) => {
                let low: u32 = (b - 128) as u32;
                let v: u64 = 128u64 * (m as u64) + (low as u64);
                if v <= 0xFFFFFFFFu64 {
                    Some((v as u32, k + 1))
                } else {
                    None
                }
            },
        }
    }
}

/// Parses the header of the record at `offset` in `buf`: its type, key
/// length, value length, and header length.
pub fn decode_header(buf: &Vec<u8>, offset: usize) -> (r: Result<
    (LogRecordType, u32, u32, usize),
    Errors,
>)
    requires
        offset <= buf.len(),
    ensures
        r matches Ok((t, klen, vlen, hl)) ==> spec_header(buf@.skip(offset as int)) == Some((
            t,
            klen,
            vlen,
            hl as int,
        )) && 3 <= hl && offset + hl <= buf.len(),
        r is Err ==> r == Err::<(LogRecordType, u32, u32, usize), Errors>(Errors::Corrupted)
            && spec_header(buf@.skip(offset as int)) is None,
{
    let ghost s = buf@.skip(offset as int);
    if offset == buf.len() {
        return Err(Errors::Corrupted);
    }
    let tb = buf[offset];
    assert(s[0] == tb);
    if tb != 1 && tb != 2 {
        return Err(Errors::Corrupted);
    }
    let t = if tb == 1 {
        LogRecordType::NORMAL
    } else {
        LogRecordType::DELETED
    };
    assert(s.skip(1) =~= buf@.skip(offset + 1));
    let (klen, n1) = match varint_decode(buf, offset + 1) {
        None => {
            return Err(Errors::Corrupted);
        },
        Some(x) => x,
    };
    assert(s.skip(1 + n1 as int) =~= buf@.skip(offset + 1 + n1 as int));
    let (vlen, n2) = match varint_decode(buf, offset + 1 + n1) {
        None => {
            return Err(Errors::Corrupted);
        },
        Some(x) => x,
    };
    Ok((t, klen, vlen, 1 + n1 + n2))
}

/// Parses and checks the record at `offset` in `buf`: the record and its
/// encoded length.
pub fn decode_at(buf: &Vec<u8>, offset: usize) -> (r: Result<(LogRecord, usize), Errors>)
    requires
        offset <= buf.len(),
    ensures
        r matches Ok((rec, n)) ==> spec_decode(buf@.skip(offset as int)) == Some((
            rec@,
            n as int,
        )) && 7 <= n && offset + n <= buf.len(),
        r is Err ==> r == Err::<(LogRecord, usize), Errors>(Errors::Corrupted) && spec_decode(
            buf@.skip(offset as int),
        ) is None,
{
    let ghost s = buf@.skip(offset as int);
    let (t, klen, vlen, hl) = match decode_header(buf, offset) {
        Err(e) => {
            return Err(Errors::Corrupted);
        },
        Ok(x) => x,
    };
    let avail = buf.len() - offset;
    let kl = klen as usize;
    let vl = vlen as usize;
    if avail - hl < kl {
        assert(s.len() < hl + klen + vlen + 4);
        return Err(Errors::Corrupted);
    }
    if avail - hl - kl < vl {
        assert(s.len() < hl + klen + vlen + 4);
        return Err(Errors::Corrupted);
    }
    if avail - hl - kl - vl < 4 {
        assert(s.len() < hl + klen + vlen + 4);
        return Err(Errors::Corrupted);
    }
    let bl = hl + kl + vl;
    let key = copy_range(buf, offset + hl, kl);
    let value = copy_range(buf, offset + hl + kl, vl);
    let crc_calc = crc32_range(buf, offset, offset + bl);
    assert(buf@.subrange(offset as int, offset + bl) =~= s.take(bl as int));
    let c0 = buf[offset + bl] as u32;
    let c1 = buf[offset + bl + 1] as u32;
    let c2 = buf[offset + bl + 2] as u32;
    let c3 = buf[offset + bl + 3] as u32;
    let stored: u32 = c0 + 256 * c1 + 65536 * c2 + 16777216 * c3;
    assert(stored as int == spec_le32_read(s.subrange(bl as int, bl + 4)));
    if stored != crc_calc {
        return Err(Errors::Corrupted);
    }
    let rec = LogRecord { key, value, rec_type: t };
    assert(rec@.key =~= s.subrange(hl as int, hl + klen));
    assert(rec@.value =~= s.subrange(hl + klen, hl + klen + vlen));
    Ok((rec, bl + 4))
}

/// Whether a varint at the front of `s` is cut off by the end of the input:
/// every byte present continues the value and the closing byte is missing.
pub open spec fn varint_torn(s: Seq<u8>) -> bool
    decreases s.len(),
{
    if s.len() == 0 {
        true
    } else if s[0] < 128 {
        false
    } else {
        varint_torn(s.skip(1))
    }
}

/// Whether the bytes at the front of `s` look like a record cut off by the
/// end of the input: a valid type byte whose header or declared body extends
/// past the last byte. A record that is complete but does not check, or a
/// byte that opens no record, is not torn — it is corruption.
pub open spec fn spec_torn(s: Seq<u8>) -> bool {
    if s.len() == 0 {
        true
    } else if s[0] != 1 && s[0] != 2 {
        false
    } else if varint_torn(s.skip(1)) {
        true
    } else {
        match spec_varint_parse(s.skip(1)) {
            None => false,
            Some((klen, n1)) => if varint_torn(s.skip(1 + n1)) {
                true
            } else {
                match spec_varint_parse(s.skip(1 + n1)) {
                    None => false,
                    Some((vlen, n2)) => s.len() < 1 + n1 + n2 + klen + vlen + 4,
                }
            },
        }
    }
}

/// Whether the varint at `offset` in `buf` is cut off by the end of `buf`.
pub fn varint_torn_at(buf: &Vec<u8>, offset: usize) -> (r: bool)
    requires
        offset <= buf.len(),
    ensures
        r == varint_torn(buf@.skip(offset as int)),
    decreases buf@.len() - offset,
{
    let ghost s = buf@.skip(offset as int);
    if offset == buf.len() {
        true
    } else if buf[offset] < 128 {
        false
    } else {
        assert(s.skip(1) =~= buf@.skip(offset + 1));
        varint_torn_at(buf, offset + 1)
    }
}

/// Whether the bytes at `offset` in `buf` look like a record cut off by the
/// end of `buf` — a torn tail — rather than corrupt data.
pub fn torn_at(buf: &Vec<u8>, offset: usize) -> (r: bool)
    requires
        offset <= buf.len(),
    ensures
        r == spec_torn(buf@.skip(offset as int)),
{
    let ghost s = buf@.skip(offset as int);
    if offset == buf.len() {
        return true;
    }
    let tb = buf[offset];
    assert(s[0] == tb);
    if tb != 1 && tb != 2 {
        return false;
    }
    assert(s.skip(1) =~= buf@.skip(offset + 1));
    if varint_torn_at(buf, offset + 1) {
        return true;
    }
    let (klen, n1) = match varint_decode(buf, offset + 1) {
        None => {
            return false;
        },
        Some(x) => x,
    };
    assert(s.skip(1 + n1 as int) =~= buf@.skip(offset + 1 + n1 as int));
    if varint_torn_at(buf, offset + 1 + n1) {
        return true;
    }
    let (vlen, n2) = match varint_decode(buf, offset + 1 + n1) {
        None => {
            return false;
        },
        Some(x) => x,
    };
    let kl = klen as usize;
    let vl = vlen as usize;
    let hl = 1 + n1 + n2;
    let avail = buf.len() - offset;
    if avail - hl < kl {
        return true;
    }
    if avail - hl - kl < vl {
        return true;
    }
    if avail - hl - kl - vl < 4 {
        return true;
    }
    false
}

/// Parses and checks the record at the front of `buf`.
pub fn decode(buf: &Vec<u8>) -> (r: Result<(LogRecord, usize), Errors>)
    ensures
        r matches Ok((rec, n)) ==> spec_decode(buf@) == Some((rec@, n as int)) && 7 <= n
            && n <= buf.len(),
        r is Err ==> r == Err::<(LogRecord, usize), Errors>(Errors::Corrupted) && spec_decode(
            buf@,
        ) is None,
{
    let r = decode_at(buf, 0);
    assert(buf@.skip(0) =~= buf@);
    r
}

} // verus!
