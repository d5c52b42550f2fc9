//! Record streams: one record of twelve bytes after another, each the key of
//! a cell in eight bytes and a single-precision value in four, both little
//! endian. A value is carried as its bit pattern.
use vstd::prelude::*;
use vstd::slice::slice_subrange;
use byteorder::ByteOrder;
use byteorder::LittleEndian;
use crate::error::GpwError;

verus! {

/// The number of bytes in a record.
pub const RECORD_LEN: usize = 12;

/// A cell's key and the bit pattern of the value that belongs to it.
#[derive(Clone, Copy, Debug, PartialEq, Eq, Structural)]
pub struct Record {
    pub address: u64,
    pub value: u32,
}

/// The number whose little-endian form the first eight bytes of `s` are.
pub open spec fn le_u64(s: Seq<u8>) -> u64 {
    (s[0] as u64) | (s[1] as u64) << 8 | (s[2] as u64) << 16 | (s[3] as u64) << 24 | (s[4] as u64)
        << 32 | (s[5] as u64) << 40 | (s[6] as u64) << 48 | (s[7] as u64) << 56
}

/// The number whose little-endian form the first four bytes of `s` are.
pub open spec fn le_u32(s: Seq<u8>) -> u32 {
    (s[0] as u32) | (s[1] as u32) << 8 | (s[2] as u32) << 16 | (s[3] as u32) << 24
}

/// The eight bytes of `n`, the lowest first.
pub open spec fn le_bytes_u64(n: u64) -> Seq<u8> {
    seq![
        (n & 0xff) as u8,
        ((n >> 8) & 0xff) as u8,
        ((n >> 16) & 0xff) as u8,
        ((n >> 24) & 0xff) as u8,
        ((n >> 32) & 0xff) as u8,
        ((n >> 40) & 0xff) as u8,
        ((n >> 48) & 0xff) as u8,
        ((n >> 56) & 0xff) as u8,
    ]
}

/// The four bytes of `n`, the lowest first.
pub open spec fn le_bytes_u32(n: u32) -> Seq<u8> {
    seq![
        (n & 0xff) as u8,
        ((n >> 8) & 0xff) as u8,
        ((n >> 16) & 0xff) as u8,
        ((n >> 24) & 0xff) as u8,
    ]
}

/// The twelve bytes that stand for a record.
pub open spec fn encoding(rec: Record) -> Seq<u8> {
    le_bytes_u64(rec.address) + le_bytes_u32(rec.value)
}

/// The record that the first twelve bytes of `s` stand for.
pub open spec fn decoding(s: Seq<u8>) -> Record {
    Record { address: le_u64(s.subrange(0, 8)), value: le_u32(s.subrange(8, 12)) }
}

/// The eight bytes of `n` spell `n`.
pub proof fn lemma_le_u64_of_bytes(n: u64)
    ensures
        le_u64(le_bytes_u64(n)) == n,
{
    assert(((n & 0xff) as u8 as u64) | (((n >> 8) & 0xff) as u8 as u64) << 8 | (((n >> 16)
        & 0xff) as u8 as u64) << 16 | (((n >> 24) & 0xff) as u8 as u64) << 24 | (((n >> 32)
        & 0xff) as u8 as u64) << 32 | (((n >> 40) & 0xff) as u8 as u64) << 40 | (((n >> 48)
        & 0xff) as u8 as u64) << 48 | (((n >> 56) & 0xff) as u8 as u64) << 56 == n)
        by (bit_vector);
}

/// The four bytes of `n` spell `n`.
pub proof fn lemma_le_u32_of_bytes(n: u32)
    ensures
        le_u32(le_bytes_u32(n)) == n,
{
    assert(((n & 0xff) as u8 as u32) | (((n >> 8) & 0xff) as u8 as u32) << 8 | (((n >> 16)
        & 0xff) as u8 as u32) << 16 | (((n >> 24) & 0xff) as u8 as u32) << 24 == n)
        by (bit_vector);
}

/// Eight bytes are the bytes of the number they spell.
pub proof fn lemma_le_bytes_of_u64(s: Seq<u8>)
    requires
        s.len() == 8,
    ensures
        le_bytes_u64(le_u64(s)) == s,
{
    let (a, b, c, d, e, f, g, h) = (s[0], s[1], s[2], s[3], s[4], s[5], s[6], s[7]);
    let n = le_u64(s);
    assert(n == (a as u64) | (b as u64) << 8 | (c as u64) << 16 | (d as u64) << 24 | (e as u64)
        << 32 | (f as u64) << 40 | (g as u64) << 48 | (h as u64) << 56);
    assert((n & 0xff) as u8 == a && ((n >> 8) & 0xff) as u8 == b && ((n >> 16) & 0xff) as u8 == c
        && ((n >> 24) & 0xff) as u8 == d && ((n >> 32) & 0xff) as u8 == e && ((n >> 40)
        & 0xff) as u8 == f && ((n >> 48) & 0xff) as u8 == g && ((n >> 56) & 0xff) as u8 == h)
        by (bit_vector)
        requires
            n == (a as u64) | (b as u64) << 8 | (c as u64) << 16 | (d as u64) << 24 | (e as u64)
                << 32 | (f as u64) << 40 | (g as u64) << 48 | (h as u64) << 56,
    ;
    assert(le_bytes_u64(n) =~= s);
}

/// Four bytes are the bytes of the number they spell.
pub proof fn lemma_le_bytes_of_u32(s: Seq<u8>)
    requires
        s.len() == 4,
    ensures
        le_bytes_u32(le_u32(s)) == s,
{
    let (a, b, c, d) = (s[0], s[1], s[2], s[3]);
    let n = le_u32(s);
    assert(n == (a as u32) | (b as u32) << 8 | (c as u32) << 16 | (d as u32) << 24);
    assert((n & 0xff) as u8 == a && ((n >> 8) & 0xff) as u8 == b && ((n >> 16) & 0xff) as u8 == c
        && ((n >> 24) & 0xff) as u8 == d) by (bit_vector)
        requires
            n == (a as u32) | (b as u32) << 8 | (c as u32) << 16 | (d as u32) << 24,
    ;
    assert(le_bytes_u32(n) =~= s);
}

/// Decoding takes back what encoding gave.
pub proof fn lemma_decoding_of_encoding(rec: Record)
    ensures
        encoding(rec).len() == RECORD_LEN,
        decoding(encoding(rec)) == rec,
{
    lemma_le_u64_of_bytes(rec.address);
    lemma_le_u32_of_bytes(rec.value);
    assert(encoding(rec).subrange(0, 8) =~= le_bytes_u64(rec.address));
    assert(encoding(rec).subrange(8, 12) =~= le_bytes_u32(rec.value));
}

/// Encoding gives back the twelve bytes that were decoded.
pub proof fn lemma_encoding_of_decoding(s: Seq<u8>)
    requires
        s.len() == RECORD_LEN,
    ensures
        encoding(decoding(s)) == s,
{
    lemma_le_bytes_of_u64(s.subrange(0, 8));
    lemma_le_bytes_of_u32(s.subrange(8, 12));
    assert(s.subrange(0, 8) + s.subrange(8, 12) =~= s);
}

/// `byteorder::LittleEndian::read_u64`: the number that the first eight bytes
/// of `buf` spell, the lowest byte first.
#[verifier::external_body]
fn read_u64_le(buf: &[u8]) -> (n: u64)
    requires
        buf@.len() >= 8,
    ensures
        n == le_u64(buf@),
{
    LittleEndian::read_u64(buf)
}

/// `byteorder::LittleEndian::read_u32`: the number that the first four bytes
/// of `buf` spell, the lowest byte first.
#[verifier::external_body]
fn read_u32_le(buf: &[u8]) -> (n: u32)
    requires
        buf@.len() >= 4,
    ensures
        n == le_u32(buf@),
{
    LittleEndian::read_u32(buf)
}

/// `byteorder::LittleEndian::write_u64` into a buffer of eight bytes: the
/// bytes of `n`, the lowest first.
#[verifier::external_body]
fn write_u64_le(n: u64) -> (buf: [u8; 8])
    ensures
        buf@ == le_bytes_u64(n),
{
    let mut buf = [0u8; 8];
    LittleEndian::write_u64(&mut buf, n);
    buf
}

/// `byteorder::LittleEndian::write_u32` into a buffer of four bytes: the
/// bytes of `n`, the lowest first.
#[verifier::external_body]
fn write_u32_le(n: u32) -> (buf: [u8; 4])
    ensures
        buf@ == le_bytes_u32(n),
{
    let mut buf = [0u8; 4];
    LittleEndian::write_u32(&mut buf, n);
    buf
}

/// What stands at a place of a record stream.
#[derive(Clone, Copy, Debug, PartialEq, Eq, Structural)]
pub enum Decoded {
    /// A whole record.
    Record(Record),
    /// Nothing: the stream ends here.
    EndOfStream,
    /// Fewer bytes than a record has.
    CorruptStream,
}

/// What stands at `at` in the stream `s`.
pub open spec fn decoded_at(s: Seq<u8>, at: int) -> Decoded {
    if at >= s.len() {
        Decoded::EndOfStream
    } else if s.len() - at < RECORD_LEN {
        Decoded::CorruptStream
    } else {
        Decoded::Record(decoding(s.subrange(at, at + RECORD_LEN)))
    }
}

/// The records of a stream of whole records.
pub open spec fn records_of(s: Seq<u8>) -> Seq<Record> {
    Seq::new(s.len() / RECORD_LEN as nat, |i: int| decoding(s.subrange(12 * i, 12 * i + 12)))
}

/// The stream that holds the given records in their order.
pub open spec fn stream_of(records: Seq<Record>) -> Seq<u8>
    decreases records.len(),
{
    if records.len() == 0 {
        seq![]
    } else {
        stream_of(records.drop_last()) + encoding(records.last())
    }
}

/// A stream of records holds twelve bytes for each, and reading it gives the
/// records back.
pub proof fn lemma_records_of_stream(records: Seq<Record>)
    ensures
        stream_of(records).len() == RECORD_LEN * records.len(),
        records_of(stream_of(records)) == records,
    decreases records.len(),
{
    if records.len() == 0 {
        assert(records_of(stream_of(records)) =~= records);
    } else {
        let head = records.drop_last();
        let s = stream_of(records);
        lemma_records_of_stream(head);
        lemma_decoding_of_encoding(records.last());
        assert(s.len() == 12 * records.len());
        assert(s.len() / 12 == records.len());
        assert forall|i: int| 0 <= i < records.len() implies decoding(
            #[trigger] s.subrange(12 * i, 12 * i + 12),
        ) == records[i] by {
            if i < head.len() {
                assert(s.subrange(12 * i, 12 * i + 12) =~= stream_of(head).subrange(
                    12 * i,
                    12 * i + 12,
                ));
                assert(records_of(stream_of(head))[i] == head[i]);
            } else {
                assert(s.subrange(12 * i, 12 * i + 12) =~= encoding(records.last()));
            }
        }
        assert(records_of(s) =~= records);
    }
}

/// The twelve bytes of a record.
pub fn encode(rec: Record) -> (out: [u8; 12])
    ensures
        out@ == encoding(rec),
{
    let head = write_u64_le(rec.address);
    let tail = write_u32_le(rec.value);
    let out: [u8; 12] = [
        head[0],
        head[1],
        head[2],
        head[3],
        head[4],
        head[5],
        head[6],
        head[7],
        tail[0],
        tail[1],
        tail[2],
        tail[3],
    ];
    assert(out@ =~= encoding(rec));
    out
}

/// Reads what stands at `at` in `stream`.
pub fn decode(stream: &[u8], at: usize) -> (r: Decoded)
    ensures
        r == decoded_at(stream@, at as int),
{
    let n: usize = stream.len();
    if at >= n {
        Decoded::EndOfStream
    } else if n - at < RECORD_LEN {
        Decoded::CorruptStream
    } else {
        let head = slice_subrange(stream, at, at + 8);
        let tail = slice_subrange(stream, at + 8, at + 12);
        let ghost rec = stream@.subrange(at as int, at + 12);
        assert(head@ =~= rec.subrange(0, 8));
        assert(tail@ =~= rec.subrange(8, 12));
        Decoded::Record(Record { address: read_u64_le(head), value: read_u32_le(tail) })
    }
}

/// Appends the twelve bytes of a record to `dst`.
pub fn push_record(dst: &mut Vec<u8>, rec: Record)
    ensures
        final(dst)@ == old(dst)@ + encoding(rec),
{
    let bytes = encode(rec);
    let ghost before = dst@;
    let mut i: usize = 0;
    while i < 12
        invariant
            0 <= i <= 12,
            bytes@ == encoding(rec),
            dst@ == before + bytes@.subrange(0, i as int),
        decreases 12 - i,
    {
        dst.push(bytes[i]);
        assert(dst@ =~= before + bytes@.subrange(0, i + 1));
        i += 1;
    }
    assert(bytes@.subrange(0, 12) =~= bytes@);
}

/// The stream that holds the given records in their order.
pub fn encode_stream(records: &Vec<Record>) -> (out: Vec<u8>)
    ensures
        out@ == stream_of(records@),
{
    let mut out: Vec<u8> = Vec::new();
    let mut i: usize = 0;
    while i < records.len()
        invariant
            0 <= i <= records@.len(),
            out@ == stream_of(records@.subrange(0, i as int)),
        decreases records@.len() - i,
    {
        assert(records@.subrange(0, i + 1).drop_last() =~= records@.subrange(0, i as int));
        push_record(&mut out, records[i]);
        i += 1;
    }
    assert(records@.subrange(0, i as int) =~= records@);
    out
}

/// Reads a whole stream. A stream that ends inside a record is malformed,
/// whatever stands before the broken record.
pub fn decode_stream(stream: &[u8]) -> (r: Result<Vec<Record>, GpwError>)
    ensures
        match r {
            Ok(records) => stream@.len() % RECORD_LEN as nat == 0 && records@ == records_of(
                stream@,
            ),
            Err(e) => stream@.len() % RECORD_LEN as nat != 0 && e
                == GpwError::MalformedRecordStream,
        },
{
    let mut out: Vec<Record> = Vec::new();
    let mut at: usize = 0;
    let n: usize = stream.len();
    loop
        invariant
            n == stream@.len(),
            at <= stream@.len(),
            at == 12 * out@.len(),
            forall|i: int|
                0 <= i < out@.len() ==> out@[i] == decoding(
                    stream@.subrange(12 * i, 12 * i + 12),
                ),
        decreases stream@.len() - at,
    {
        match decode(stream, at) {
            Decoded::EndOfStream => {
                assert(out@ =~= records_of(stream@));
                return Ok(out);
            },
            Decoded::CorruptStream => {
                return Err(GpwError::MalformedRecordStream);
            },
            Decoded::Record(rec) => {
                out.push(rec);
                at += 12;
            },
        }
    }
}

} // verus!
