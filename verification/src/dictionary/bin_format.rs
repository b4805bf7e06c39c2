//! The `dict.bin` layout: an 8-byte magic, then little-endian fields
//! version (u32), exact entry count (u32), table offset, string blob offset
//! and string blob length (u64 each), then the entry table (four u32 per
//! entry) and the string blob.

use vstd::prelude::*;

verus! {

/// The file's magic bytes.
pub const DICT_BIN_MAGIC: [u8; 8] = [0x54, 0x4E, 0x4B, 0x44, 0x49, 0x43, 0x54, 0x31];

/// The layout version this code reads and writes.
pub const DICT_BIN_VERSION: u32 = 1;

/// Bytes before the entry table.
pub const DICT_BIN_HEADER_LEN: usize = 40;

/// Bytes per entry of the table.
pub const DICT_BIN_TABLE_ENTRY_LEN: usize = 16;

/// The header fields of a `dict.bin` file.
#[derive(Debug, Clone, Copy, PartialEq, Eq)]
pub struct ParsedHeader {
    pub version: u32,
    pub exact_count: u32,
    pub exact_table_offset: u64,
    pub string_blob_offset: u64,
    pub string_blob_len: u64,
}

/// Little-endian value of the 4 bytes of `b` from `off`.
pub open spec fn le_u32(b: Seq<u8>, off: int) -> int {
    b[off] + 256 * b[off + 1] + 65536 * b[off + 2] + 16777216 * b[off + 3]
}

/// Little-endian value of the 8 bytes of `b` from `off`.
pub open spec fn le_u64(b: Seq<u8>, off: int) -> int {
    le_u32(b, off) + 4294967296 * le_u32(b, off + 4)
}

/// The 4 little-endian bytes of `v`.
pub open spec fn u32_le_bytes(v: u32) -> Seq<u8> {
    seq![
        (v % 256) as u8,
        ((v / 256) % 256) as u8,
        ((v / 65536) % 256) as u8,
        ((v / 16777216) % 256) as u8,
    ]
}

/// The 8 little-endian bytes of `v`.
pub open spec fn u64_le_bytes(v: u64) -> Seq<u8> {
    u32_le_bytes((v % 4294967296) as u32) + u32_le_bytes((v / 4294967296) as u32)
}

/// Appends the little-endian bytes of `value`.
pub fn write_u32(out: &mut Vec<u8>, value: u32)
    ensures
        final(out)@ == old(out)@ + u32_le_bytes(value),
{
    let ghost start = out@;
    out.push((value % 256) as u8);
    out.push(((value / 256) % 256) as u8);
    out.push(((value / 65536) % 256) as u8);
    out.push(((value / 16777216) % 256) as u8);
    assert(out@ =~= start + u32_le_bytes(value));
}

/// Appends the little-endian bytes of `value`.
pub fn write_u64(out: &mut Vec<u8>, value: u64)
    ensures
        final(out)@ == old(out)@ + u64_le_bytes(value),
{
    let ghost start = out@;
    write_u32(out, (value % 4294967296) as u32);
    write_u32(out, (value / 4294967296) as u32);
    assert(out@ =~= start + u64_le_bytes(value));
}

/// The little-endian u32 at `offset`, if the bytes are there.
pub fn read_u32(bytes: &[u8], offset: usize) -> (r: Option<u32>)
    ensures
        r is Some <==> offset as int + 4 <= bytes@.len(),
        r matches Some(v) ==> v == le_u32(bytes@, offset as int),
{
    if offset > bytes.len() || bytes.len() - offset < 4 {
        return None;
    }
    let v = bytes[offset] as u32 + 256 * (bytes[offset + 1] as u32) + 65536 * (
    bytes[offset + 2] as u32) + 16777216 * (bytes[offset + 3] as u32);
    Some(v)
}

/// The little-endian u64 at `offset`, if the bytes are there.
pub fn read_u64(bytes: &[u8], offset: usize) -> (r: Option<u64>)
    ensures
        r is Some <==> offset as int + 8 <= bytes@.len(),
        r matches Some(v) ==> v == le_u64(bytes@, offset as int),
{
    if offset > bytes.len() || bytes.len() - offset < 8 {
        return None;
    }
    let lo = read_u32(bytes, offset).unwrap();
    let hi = read_u32(bytes, offset + 4).unwrap();
    Some(lo as u64 + 4294967296 * (hi as u64))
}

/// Writing then reading a u32 gives it back.
#[verifier::spinoff_prover]
pub proof fn lemma_u32_roundtrip(v: u32)
    ensures
        le_u32(u32_le_bytes(v), 0) == v,
{
    let b = u32_le_bytes(v);
    assert(b[0] == v % 256);
    assert(b[1] == (v / 256) % 256);
    assert(b[2] == (v / 65536) % 256);
    assert(b[3] == (v / 16777216) % 256);
    assert((v % 256) + 256 * ((v / 256) % 256) + 65536 * ((v / 65536) % 256) + 16777216 * ((v
        / 16777216) % 256) == v) by (nonlinear_arith);
}

/// Writing then reading a u64 gives it back.
#[verifier::spinoff_prover]
pub proof fn lemma_u64_roundtrip(v: u64)
    ensures
        le_u64(u64_le_bytes(v), 0) == v,
{
    let lo = (v % 4294967296) as u32;
    let hi = (v / 4294967296) as u32;
    lemma_u32_roundtrip(lo);
    lemma_u32_roundtrip(hi);
    let b = u64_le_bytes(v);
    assert(b.subrange(0, 4) =~= u32_le_bytes(lo));
    assert(b.subrange(4, 8) =~= u32_le_bytes(hi));
    assert(le_u32(b, 0) == le_u32(u32_le_bytes(lo), 0));
    assert(le_u32(b, 4) == le_u32(u32_le_bytes(hi), 0));
    assert(lo + 4294967296 * hi == v) by (nonlinear_arith)
        requires
            lo == v % 4294967296,
            hi == v / 4294967296,
    ;
}

/// Why a field does not fit the format.
#[derive(Debug, Clone, PartialEq, Eq)]
pub enum BinFormatError {
    /// The named field exceeds `u32::MAX`.
    InvalidData(&'static str),
}

/// `value` as a u32, or an error naming `field` when it is too large.
pub fn checked_u32(value: usize, field: &'static str) -> (r: Result<u32, BinFormatError>)
    ensures
        value <= u32::MAX ==> r == Ok::<u32, BinFormatError>(value as u32),
        value > u32::MAX ==> r == Err::<u32, BinFormatError>(BinFormatError::InvalidData(field)),
{
    if value <= 0xFFFF_FFFF {
        Ok(value as u32)
    } else {
        Err(BinFormatError::InvalidData(field))
    }
}

/// The header that `bytes` holds, when it is well formed.
#[verifier::opaque]
pub open spec fn header_spec(b: Seq<u8>) -> Option<ParsedHeader> {
    if b.len() < DICT_BIN_HEADER_LEN || b.subrange(0, 8) != DICT_BIN_MAGIC@ {
        None
    } else {
        let h = ParsedHeader {
            version: le_u32(b, 8) as u32,
            exact_count: le_u32(b, 12) as u32,
            exact_table_offset: le_u64(b, 16) as u64,
            string_blob_offset: le_u64(b, 24) as u64,
            string_blob_len: le_u64(b, 32) as u64,
        };
        let table_end = h.exact_table_offset + h.exact_count * DICT_BIN_TABLE_ENTRY_LEN;
        let blob_end = h.string_blob_offset + h.string_blob_len;
        if h.version != DICT_BIN_VERSION || h.exact_count * DICT_BIN_TABLE_ENTRY_LEN > usize::MAX
            || h.exact_table_offset > usize::MAX || table_end > usize::MAX || h.string_blob_offset
            > usize::MAX || h.string_blob_len > usize::MAX || blob_end > usize::MAX
            || h.exact_table_offset != DICT_BIN_HEADER_LEN || table_end > b.len() || blob_end
            > b.len() || table_end > h.string_blob_offset {
            None
        } else {
            Some(h)
        }
    }
}

/// What a well-formed header says of the file's layout.
#[verifier::spinoff_prover]
pub proof fn lemma_header_bounds(b: Seq<u8>)
    requires
        header_spec(b) is Some,
    ensures
        ({
            let h = header_spec(b)->0;
            &&& h.version == DICT_BIN_VERSION
            &&& h.exact_table_offset == DICT_BIN_HEADER_LEN
            &&& DICT_BIN_HEADER_LEN + DICT_BIN_TABLE_ENTRY_LEN * h.exact_count <= h.string_blob_offset
            &&& h.string_blob_offset + h.string_blob_len <= b.len()
            &&& h.string_blob_offset + h.string_blob_len <= usize::MAX
        }),
{
    reveal(header_spec);
}

/// Reads and checks the header: magic, version, and an entry table and
/// string blob that lie inside the file, the table first.
pub fn parse_dict_bin_header(bytes: &[u8]) -> (r: Option<ParsedHeader>)
    ensures
        r == header_spec(bytes@),
{
    reveal(header_spec);
    if bytes.len() < DICT_BIN_HEADER_LEN {
        return None;
    }
    let mut k: usize = 0;
    while k < 8
        invariant
            bytes@.len() >= DICT_BIN_HEADER_LEN,
            k <= 8,
            forall|j: int| 0 <= j < k ==> bytes@[j] == DICT_BIN_MAGIC@[j],
        decreases 8 - k,
    {
        if bytes[k] != DICT_BIN_MAGIC[k] {
            assert(bytes@.subrange(0, 8)[k as int] != DICT_BIN_MAGIC@[k as int]);
            reveal(header_spec);
            return None;
        }
        k += 1;
    }
    assert(bytes@.subrange(0, 8) =~= DICT_BIN_MAGIC@);
    let header = ParsedHeader {
        version: read_u32(bytes, 8).unwrap(),
        exact_count: read_u32(bytes, 12).unwrap(),
        exact_table_offset: read_u64(bytes, 16).unwrap(),
        string_blob_offset: read_u64(bytes, 24).unwrap(),
        string_blob_len: read_u64(bytes, 32).unwrap(),
    };
    if header.version != DICT_BIN_VERSION {
        return None;
    }
    let count = header.exact_count as usize;
    if count > usize::MAX / DICT_BIN_TABLE_ENTRY_LEN {
        return None;
    }
    let table_len = count * DICT_BIN_TABLE_ENTRY_LEN;
    if header.exact_table_offset > usize::MAX as u64 {
        return None;
    }
    let table_offset = header.exact_table_offset as usize;
    if table_offset > usize::MAX - table_len {
        return None;
    }
    let table_end = table_offset + table_len;
    if header.string_blob_offset > usize::MAX as u64 || header.string_blob_len > usize::MAX as u64 {
        return None;
    }
    let blob_offset = header.string_blob_offset as usize;
    let blob_len = header.string_blob_len as usize;
    if blob_offset > usize::MAX - blob_len {
        return None;
    }
    let blob_end = blob_offset + blob_len;
    if table_offset != DICT_BIN_HEADER_LEN || table_end > bytes.len() || blob_end > bytes.len()
        || table_end > blob_offset {
        return None;
    }
    Some(header)
}


// ---------------------------------------------------------------------------
// Writing a dictionary
// ---------------------------------------------------------------------------

/// An exact entry taken into the binary dictionary.
#[derive(Debug, Clone, PartialEq, Eq)]
pub struct AcceptedExactEntry {
    pub source: String,
    pub value: String,
}

/// The UTF-8 bytes of a text.
pub open spec fn sbytes(s: Seq<char>) -> Seq<u8> {
    vstd::utf8::encode_utf8(s)
}

pub open spec fn pairs_view(v: Seq<AcceptedExactEntry>) -> Seq<(Seq<char>, Seq<char>)> {
    v.map_values(|e: AcceptedExactEntry| (e.source@, e.value@))
}

/// The string blob: each entry's key bytes, then its value bytes.
pub open spec fn blob_of(e: Seq<(Seq<char>, Seq<char>)>) -> Seq<u8>
    decreases e.len(),
{
    if e.len() == 0 {
        seq![]
    } else {
        blob_of(e.drop_last()) + sbytes(e.last().0) + sbytes(e.last().1)
    }
}

/// Key offset, key length, value offset and value length of entry `i`.
pub open spec fn fields_of(e: Seq<(Seq<char>, Seq<char>)>, i: int) -> (int, int, int, int) {
    let ko = blob_of(e.take(i)).len() as int;
    let kl = sbytes(e[i].0).len() as int;
    (ko, kl, ko + kl, sbytes(e[i].1).len() as int)
}

pub open spec fn field_bytes(f: (int, int, int, int)) -> Seq<u8> {
    u32_le_bytes(f.0 as u32) + u32_le_bytes(f.1 as u32) + u32_le_bytes(f.2 as u32) + u32_le_bytes(
        f.3 as u32,
    )
}

/// The entry table: the four fields of each entry.
pub open spec fn table_of(e: Seq<(Seq<char>, Seq<char>)>) -> Seq<u8>
    decreases e.len(),
{
    if e.len() == 0 {
        seq![]
    } else {
        table_of(e.drop_last()) + field_bytes(fields_of(e, e.len() - 1))
    }
}

/// The header written for the entries.
pub open spec fn head_of(e: Seq<(Seq<char>, Seq<char>)>) -> Seq<u8> {
    DICT_BIN_MAGIC@ + u32_le_bytes(DICT_BIN_VERSION) + u32_le_bytes(e.len() as u32) + u64_le_bytes(
        DICT_BIN_HEADER_LEN as u64,
    ) + u64_le_bytes((DICT_BIN_HEADER_LEN + DICT_BIN_TABLE_ENTRY_LEN * e.len()) as u64)
        + u64_le_bytes(blob_of(e).len() as u64)
}

/// The file written for the entries.
pub open spec fn dict_bin_bytes(e: Seq<(Seq<char>, Seq<char>)>) -> Seq<u8> {
    head_of(e) + table_of(e) + blob_of(e)
}

/// The first of the four fields, in writing order, that does not fit in
/// a u32.
pub open spec fn field_error(f: (int, int, int, int)) -> Option<Seq<char>> {
    if f.0 > u32::MAX {
        Some("key offset too large"@)
    } else if f.1 > u32::MAX {
        Some("key length too large"@)
    } else if f.2 > u32::MAX {
        Some("value offset too large"@)
    } else if f.3 > u32::MAX {
        Some("value length too large"@)
    } else {
        None
    }
}

/// The first field, in writing order, that does not fit in a u32.
pub open spec fn encode_error(e: Seq<(Seq<char>, Seq<char>)>) -> Option<Seq<char>>
    decreases e.len(),
{
    if e.len() == 0 {
        None
    } else if encode_error(e.drop_last()) is Some {
        encode_error(e.drop_last())
    } else {
        field_error(fields_of(e, e.len() - 1))
    }
}

#[verifier::spinoff_prover]
proof fn lemma_blob_take(e: Seq<(Seq<char>, Seq<char>)>, i: int)
    requires
        0 <= i < e.len(),
    ensures
        blob_of(e.take(i + 1)) == blob_of(e.take(i)) + sbytes(e[i].0) + sbytes(e[i].1),
{
    assert(e.take(i + 1).drop_last() =~= e.take(i));
    assert(e.take(i + 1).last() == e[i]);
}

#[verifier::spinoff_prover]
proof fn lemma_fields_take(e: Seq<(Seq<char>, Seq<char>)>, i: int, n: int)
    requires
        0 <= i < n <= e.len(),
    ensures
        fields_of(e.take(n), i) == fields_of(e, i),
{
    assert(e.take(n).take(i) =~= e.take(i));
}

fn append_str_bytes(out: &mut Vec<u8>, s: &str)
    ensures
        final(out)@ == old(out)@ + sbytes(s@),
{
    let b = s.as_bytes();
    let mut i: usize = 0;
    let ghost start = out@;
    while i < b.len()
        invariant
            i <= b@.len(),
            b@ == sbytes(s@),
            out@ == start + b@.take(i as int),
        decreases b.len() - i,
    {
        out.push(b[i]);
        assert(b@.take(i as int + 1) =~= b@.take(i as int).push(b@[i as int]));
        i += 1;
    }
    assert(b@.take(b@.len() as int) =~= b@);
}

/// Appends one entry: its four fields to `table`, its key and value bytes
/// to `blob`; an error naming the first field that does not fit in a u32.
fn append_entry(blob: &mut Vec<u8>, table: &mut Vec<u8>, source: &str, value: &str) -> (r: Result<
    (),
    BinFormatError,
>)
    ensures
        ({
            let f = (
                old(blob)@.len() as int,
                sbytes(source@).len() as int,
                (old(blob)@.len() + sbytes(source@).len()) as int,
                sbytes(value@).len() as int,
            );
            match r {
                Ok(()) => field_error(f) is None && final(blob)@ == old(blob)@ + sbytes(source@)
                    + sbytes(value@) && final(table)@ == old(table)@ + field_bytes(f),
                Err(BinFormatError::InvalidData(m)) => field_error(f) == Some(m@),
            }
        }),
{
    let ko: usize = blob.len();
    let kl: usize = source.as_bytes().len();
    let vl: usize = value.as_bytes().len();
    if ko > 0xFFFF_FFFF {
        return Err(BinFormatError::InvalidData("key offset too large"));
    }
    if kl > 0xFFFF_FFFF {
        return Err(BinFormatError::InvalidData("key length too large"));
    }
    let vo: u64 = ko as u64 + kl as u64;
    if vo > 0xFFFF_FFFF {
        return Err(BinFormatError::InvalidData("value offset too large"));
    }
    if vl > 0xFFFF_FFFF {
        return Err(BinFormatError::InvalidData("value length too large"));
    }
    append_str_bytes(blob, source);
    append_str_bytes(blob, value);
    push_fields(table, ko as u32, kl as u32, vo as u32, vl as u32);
    Ok(())
}

fn push_fields(table: &mut Vec<u8>, ko: u32, kl: u32, vo: u32, vl: u32)
    ensures
        final(table)@ == old(table)@ + field_bytes((ko as int, kl as int, vo as int, vl as int)),
{
    write_u32(table, ko);
    write_u32(table, kl);
    write_u32(table, vo);
    write_u32(table, vl);
    assert(final(table)@ =~= old(table)@ + field_bytes((ko as int, kl as int, vo as int, vl as int)));
}

/// The bytes of a `dict.bin` for the entries, in their order, and the
/// size of its string blob; an error naming the first field that does not
/// fit in a u32.
#[verifier::rlimit(30)]
pub fn encode_dict_bin(entries: &[AcceptedExactEntry]) -> (r: Result<(Vec<u8>, usize), BinFormatError>)
    ensures
        ({
            let e = pairs_view(entries@);
            match r {
                Ok((bytes, blob_len)) => encode_error(e) is None && e.len() <= u32::MAX && bytes@
                    == dict_bin_bytes(e) && blob_len == blob_of(e).len(),
                Err(BinFormatError::InvalidData(f)) => match encode_error(e) {
                    Some(m) => f@ == m,
                    None => e.len() > u32::MAX && f@ == "exact count too large"@,
                },
            }
        }),
{
    let ghost e = pairs_view(entries@);
    let mut blob: Vec<u8> = Vec::new();
    let mut table: Vec<u8> = Vec::new();
    let mut i: usize = 0;
    assert(e.take(0) =~= Seq::<(Seq<char>, Seq<char>)>::empty());
    while i < entries.len()
        invariant
            i <= entries@.len(),
            e == pairs_view(entries@),
            encode_error(e.take(i as int)) is None,
            blob@ == blob_of(e.take(i as int)),
            table@ == table_of(e.take(i as int)),
        decreases entries.len() - i,
    {
        let ghost p = e.take(i as int);
        let ghost q = e.take(i as int + 1);
        assert(q.drop_last() =~= p);
        assert(q.last() == e[i as int]);
        proof {
            lemma_blob_take(e, i as int);
            lemma_fields_take(e, i as int, i as int + 1);
        }
        let entry = &entries[i];
        assert(e[i as int] == (entry.source@, entry.value@));
        assert(fields_of(q, i as int) == fields_of(e, i as int));
        match append_entry(&mut blob, &mut table, entry.source.as_str(), entry.value.as_str()) {
            Ok(()) => {},
            Err(err) => {
                assert(encode_error(q) == field_error(fields_of(q, i as int)));
                proof {
                    lemma_encode_error_prefix(e, i as int + 1);
                }
                return Err(err);
            },
        }
        assert(table@ =~= table_of(q));
        i += 1;
    }
    assert(e.take(entries.len() as int) =~= e);
    let count = match checked_u32(entries.len(), "exact count too large") {
        Ok(v) => v,
        Err(err) => {
            return Err(err);
        },
    };
    let mut out: Vec<u8> = Vec::new();
    let mut k: usize = 0;
    while k < 8
        invariant
            k <= 8,
            out@ == DICT_BIN_MAGIC@.take(k as int),
        decreases 8 - k,
    {
        out.push(DICT_BIN_MAGIC[k]);
        assert(DICT_BIN_MAGIC@.take(k as int + 1) =~= DICT_BIN_MAGIC@.take(k as int).push(DICT_BIN_MAGIC@[k as int]));
        k += 1;
    }
    assert(DICT_BIN_MAGIC@.take(8) =~= DICT_BIN_MAGIC@);
    write_u32(&mut out, DICT_BIN_VERSION);
    write_u32(&mut out, count);
    write_u64(&mut out, DICT_BIN_HEADER_LEN as u64);
    write_u64(&mut out, DICT_BIN_HEADER_LEN as u64 + DICT_BIN_TABLE_ENTRY_LEN as u64 * (count as u64));
    write_u64(&mut out, blob.len() as u64);
    let ghost head = out@;
    out.append(&mut table);
    let blob_len = blob.len();
    let ghost bv = blob@;
    out.append(&mut blob);
    assert(out@ =~= dict_bin_bytes(e));
    Ok((out, blob_len))
}

#[verifier::spinoff_prover]
proof fn lemma_encode_error_prefix(e: Seq<(Seq<char>, Seq<char>)>, n: int)
    requires
        0 <= n <= e.len(),
        encode_error(e.take(n)) is Some,
    ensures
        encode_error(e) == encode_error(e.take(n)),
    decreases e.len() - n,
{
    if n < e.len() {
        assert(e.take(n + 1).drop_last() =~= e.take(n));
        lemma_encode_error_prefix(e, n + 1);
    } else {
        assert(e.take(n) =~= e);
    }
}


// ---------------------------------------------------------------------------
// Reading a dictionary
// ---------------------------------------------------------------------------

/// `a` comes before `b` in byte order: at the first position where they
/// differ the byte of `a` is smaller, or `a` is a proper prefix of `b`.
pub open spec fn bytes_less(a: Seq<u8>, b: Seq<u8>) -> bool {
    bytes_less_from(a, b, 0)
}

/// `bytes_less` on what follows position `i`, the positions before it
/// being equal.
pub open spec fn bytes_less_from(a: Seq<u8>, b: Seq<u8>, i: int) -> bool
    decreases a.len() - i,
{
    if i >= a.len() {
        i < b.len()
    } else if i >= b.len() {
        false
    } else if a[i] != b[i] {
        a[i] < b[i]
    } else {
        bytes_less_from(a, b, i + 1)
    }
}

/// The order of two keys.
#[derive(Debug, Clone, Copy, PartialEq, Eq)]
pub enum KeyOrder {
    Less,
    Equal,
    Greater,
}

/// Compares two byte strings in byte order.
pub fn key_order(a: &[u8], b: &[u8]) -> (r: KeyOrder)
    ensures
        r == KeyOrder::Less <==> bytes_less(a@, b@),
        r == KeyOrder::Equal <==> a@ == b@,
{
    let mut i: usize = 0;
    while i < a.len() && i < b.len()
        invariant
            i <= a@.len(),
            i <= b@.len(),
            forall|j: int| 0 <= j < i ==> a@[j] == b@[j],
            bytes_less(a@, b@) == bytes_less_from(a@, b@, i as int),
        decreases a.len() - i,
    {
        if a[i] != b[i] {
            assert(a@[i as int] != b@[i as int]);
            if a[i] < b[i] {
                return KeyOrder::Less;
            } else {
                return KeyOrder::Greater;
            }
        }
        i += 1;
    }
    if a.len() == b.len() {
        assert(a@ =~= b@);
        proof {
            lemma_bytes_less_irreflexive(a@, i as int);
        }
        KeyOrder::Equal
    } else if a.len() < b.len() {
        KeyOrder::Less
    } else {
        KeyOrder::Greater
    }
}

/// No byte string comes before itself.
#[verifier::spinoff_prover]
pub proof fn lemma_bytes_less_irreflexive(a: Seq<u8>, i: int)
    ensures
        !bytes_less_from(a, a, i),
    decreases a.len() - i,
{
    if i < a.len() {
        lemma_bytes_less_irreflexive(a, i + 1);
    }
}

/// Of two byte strings, at most one comes before the other.
#[verifier::spinoff_prover]
pub proof fn lemma_bytes_less_asymmetric(a: Seq<u8>, b: Seq<u8>, i: int)
    ensures
        !(bytes_less_from(a, b, i) && bytes_less_from(b, a, i)),
    decreases a.len() - i,
{
    if i < a.len() && i < b.len() && a[i] == b[i] {
        lemma_bytes_less_asymmetric(a, b, i + 1);
    }
}

/// The four table fields of entry `i` of the file `b`.
pub open spec fn table_fields(b: Seq<u8>, i: int) -> (int, int, int, int) {
    let off = DICT_BIN_HEADER_LEN + DICT_BIN_TABLE_ENTRY_LEN * i;
    (le_u32(b, off), le_u32(b, off + 4), le_u32(b, off + 8), le_u32(b, off + 12))
}

/// The bytes of the string blob from `off`, `len` of them, when they lie
/// inside the blob.
pub open spec fn blob_bytes(b: Seq<u8>, h: ParsedHeader, off: int, len: int) -> Option<Seq<u8>> {
    let start = h.string_blob_offset + off;
    if start + len <= h.string_blob_offset + h.string_blob_len {
        Some(b.subrange(start, start + len))
    } else {
        None
    }
}

/// The key bytes of entry `i`.
pub open spec fn key_at(b: Seq<u8>, h: ParsedHeader, i: int) -> Option<Seq<u8>> {
    blob_bytes(b, h, table_fields(b, i).0, table_fields(b, i).1)
}

/// The value text of entry `i`, when its bytes lie in the blob and are
/// UTF-8.
pub open spec fn value_at(b: Seq<u8>, h: ParsedHeader, i: int) -> Option<Seq<char>> {
    match blob_bytes(b, h, table_fields(b, i).2, table_fields(b, i).3) {
        Some(v) => if vstd::utf8::valid_utf8(v) {
            Some(vstd::utf8::decode_utf8(v))
        } else {
            None
        },
        None => None,
    }
}

/// What the binary search for `needle` between entries `low` and `high`
/// finds: it compares with the middle entry, and stops with nothing where
/// a key lies outside the blob.
pub open spec fn search_spec(b: Seq<u8>, h: ParsedHeader, needle: Seq<u8>, low: int, high: int) -> Option<
    Seq<char>,
>
    decreases high - low,
{
    if low >= high {
        None
    } else {
        let mid = low + (high - low) / 2;
        match key_at(b, h, mid) {
            None => None,
            Some(k) => if bytes_less(k, needle) {
                search_spec(b, h, needle, mid + 1, high)
            } else if k == needle {
                value_at(b, h, mid)
            } else {
                search_spec(b, h, needle, low, mid)
            },
        }
    }
}

/// The text an optional string holds.
pub open spec fn text_view(r: Option<String>) -> Option<Seq<char>> {
    match r {
        Some(s) => Some(s@),
        None => None,
    }
}

/// The header of a well-formed file.
pub open spec fn header_of(b: Seq<u8>) -> ParsedHeader {
    header_spec(b)->0
}

/// A `dict.bin` file held in memory, with its checked header.
pub struct DictBinIndex {
    bytes: Vec<u8>,
    header: ParsedHeader,
}

impl View for DictBinIndex {
    type V = Seq<u8>;

    closed spec fn view(&self) -> Seq<u8> {
        self.bytes@
    }
}

impl DictBinIndex {
    #[verifier::type_invariant]
    spec fn well_formed(self) -> bool {
        header_spec(self.bytes@) == Some(self.header)
    }

    /// The index over `bytes`, when its header is well formed.
    pub fn from_bytes(bytes: Vec<u8>) -> (r: Option<Self>)
        ensures
            r is Some <==> header_spec(bytes@) is Some,
            r matches Some(x) ==> x@ == bytes@,
    {
        match parse_dict_bin_header(bytes.as_slice()) {
            Some(header) => Some(DictBinIndex { bytes, header }),
            None => None,
        }
    }

    /// The number of exact entries.
    pub fn exact_count(&self) -> (r: usize)
        ensures
            header_spec(self@) is Some,
            r == header_of(self@).exact_count,
    {
        proof {
            use_type_invariant(self);
        }
        self.header.exact_count as usize
    }

    fn table_entry(&self, index: usize) -> (r: Option<(usize, usize, usize, usize)>)
        ensures
            header_spec(self@) is Some,
            r is Some <==> index < header_of(self@).exact_count,
            r matches Some(f) ==> (f.0 as int, f.1 as int, f.2 as int, f.3 as int) == table_fields(
                self@,
                index as int,
            ),
    {
        proof {
            use_type_invariant(self);
            lemma_header_bounds(self.bytes@);
        }
        if index >= self.header.exact_count as usize {
            return None;
        }
        let offset = DICT_BIN_HEADER_LEN + index * DICT_BIN_TABLE_ENTRY_LEN;
        let bytes = self.bytes.as_slice();
        Some(
            (
                read_u32(bytes, offset).unwrap() as usize,
                read_u32(bytes, offset + 4).unwrap() as usize,
                read_u32(bytes, offset + 8).unwrap() as usize,
                read_u32(bytes, offset + 12).unwrap() as usize,
            ),
        )
    }

    fn blob_slice(&self, offset: usize, len: usize) -> (r: Option<&[u8]>)
        ensures
            header_spec(self@) is Some,
            r matches Some(s) ==> blob_bytes(self@, header_of(self@), offset as int, len as int)
                == Some(s@),
            r is None ==> blob_bytes(self@, header_of(self@), offset as int, len as int) is None,
    {
        proof {
            use_type_invariant(self);
            lemma_header_bounds(self.bytes@);
        }
        let blob_start = self.header.string_blob_offset as usize;
        let blob_len = self.header.string_blob_len as usize;
        if offset > blob_len || len > blob_len - offset {
            return None;
        }
        let start = blob_start + offset;
        Some(vstd::slice::slice_subrange(self.bytes.as_slice(), start, start + len))
    }

    fn key_bytes(&self, index: usize) -> (r: Option<&[u8]>)
        requires
            header_spec(self@) is Some,
            index < header_of(self@).exact_count,
        ensures
            r matches Some(s) ==> key_at(self@, header_of(self@), index as int) == Some(s@),
            r is None ==> key_at(self@, header_of(self@), index as int) is None,
    {
        let (key_offset, key_len, _, _) = self.table_entry(index).unwrap();
        self.blob_slice(key_offset, key_len)
    }

    /// The value text of entry `index`: none past the last entry, where
    /// its bytes lie outside the blob, or where they are not UTF-8.
    pub fn value_string(&self, index: usize) -> (r: Option<String>)
        ensures
            header_spec(self@) is Some,
            index >= header_of(self@).exact_count ==> r is None,
            index < header_of(self@).exact_count ==> text_view(r) == value_at(
                self@,
                header_of(self@),
                index as int,
            ),
    {
        let (_, _, value_offset, value_len) = match self.table_entry(index) {
            Some(f) => f,
            None => {
                return None;
            },
        };
        match self.blob_slice(value_offset, value_len) {
            Some(v) => crate::text::utf8_text(v),
            None => None,
        }
    }

    /// The value of `source` by binary search over the keys, which a
    /// well-formed file holds in ascending byte order.
    pub fn lookup(&self, source: &str) -> (r: Option<String>)
        ensures
            header_spec(self@) is Some,
            text_view(r) == search_spec(
                self@,
                header_of(self@),
                sbytes(source@),
                0,
                header_of(self@).exact_count as int,
            ),
    {
        let needle = source.as_bytes();
        let mut low: usize = 0;
        let mut high: usize = self.exact_count();
        while low < high
            invariant
                header_spec(self@) is Some,
                low <= high <= header_of(self@).exact_count,
                needle@ == sbytes(source@),
                search_spec(self@, header_of(self@), needle@, 0, header_of(self@).exact_count as int)
                    == search_spec(self@, header_of(self@), needle@, low as int, high as int),
            decreases high - low,
        {
            let mid = low + (high - low) / 2;
            let key = match self.key_bytes(mid) {
                Some(k) => k,
                None => {
                    return None;
                },
            };
            match key_order(key, needle) {
                KeyOrder::Less => low = mid + 1,
                KeyOrder::Greater => high = mid,
                KeyOrder::Equal => {
                    return self.value_string(mid);
                },
            }
        }
        None
    }
}


// ---------------------------------------------------------------------------
// What a search finds
// ---------------------------------------------------------------------------

/// Every key of the file lies in the blob, and the keys ascend strictly in
/// byte order.
pub open spec fn keys_sorted(b: Seq<u8>, h: ParsedHeader) -> bool {
    &&& forall|i: int| 0 <= i < h.exact_count ==> (#[trigger] key_at(b, h, i)) is Some
    &&& forall|i: int, j: int|
        0 <= i < j < h.exact_count ==> bytes_less(
            #[trigger] key_at(b, h, i)->0,
            #[trigger] key_at(b, h, j)->0,
        )
}

#[verifier::spinoff_prover]
proof fn lemma_search_range(b: Seq<u8>, h: ParsedHeader, needle: Seq<u8>, low: int, high: int)
    requires
        0 <= low <= high <= h.exact_count,
        keys_sorted(b, h),
    ensures
        forall|i: int|
            low <= i < high && #[trigger] key_at(b, h, i) == Some(needle) ==> search_spec(
                b,
                h,
                needle,
                low,
                high,
            ) == value_at(b, h, i),
        (forall|i: int| low <= i < high ==> #[trigger] key_at(b, h, i) != Some(needle))
            ==> search_spec(b, h, needle, low, high) is None,
    decreases high - low,
{
    if low < high {
        let mid = low + (high - low) / 2;
        assert(key_at(b, h, mid) is Some);
        let k = key_at(b, h, mid)->0;
        lemma_bytes_less_irreflexive(needle, 0);
        if bytes_less(k, needle) {
            lemma_search_range(b, h, needle, mid + 1, high);
            assert forall|i: int| low <= i <= mid implies #[trigger] key_at(b, h, i) != Some(
                needle,
            ) by {
                if i < mid && key_at(b, h, i) == Some(needle) {
                    assert(bytes_less(key_at(b, h, i)->0, key_at(b, h, mid)->0));
                    lemma_bytes_less_asymmetric(needle, k, 0);
                }
            }
        } else if k == needle {
            assert forall|i: int| low <= i < high && i != mid implies #[trigger] key_at(b, h, i)
                != Some(needle) by {
                if i < mid {
                    assert(bytes_less(key_at(b, h, i)->0, key_at(b, h, mid)->0));
                } else if i > mid {
                    assert(bytes_less(key_at(b, h, mid)->0, key_at(b, h, i)->0));
                }
            }
        } else {
            lemma_search_range(b, h, needle, low, mid);
            assert forall|i: int| mid <= i < high implies #[trigger] key_at(b, h, i) != Some(
                needle,
            ) by {
                if i > mid {
                    assert(bytes_less(key_at(b, h, mid)->0, key_at(b, h, i)->0));
                }
            }
        }
    }
}

/// In a file whose keys ascend strictly, the search for a key finds the
/// value of the entry that holds it.
#[verifier::spinoff_prover]
pub proof fn lemma_search_finds_key(b: Seq<u8>, needle: Seq<u8>, i: int)
    requires
        header_spec(b) is Some,
        keys_sorted(b, header_of(b)),
        0 <= i < header_of(b).exact_count,
        key_at(b, header_of(b), i) == Some(needle),
    ensures
        search_spec(b, header_of(b), needle, 0, header_of(b).exact_count as int) == value_at(
            b,
            header_of(b),
            i,
        ),
{
    lemma_search_range(b, header_of(b), needle, 0, header_of(b).exact_count as int);
}

/// In a file whose keys ascend strictly, the search for a text that no
/// entry holds finds nothing.
#[verifier::spinoff_prover]
pub proof fn lemma_search_misses_absent(b: Seq<u8>, needle: Seq<u8>)
    requires
        header_spec(b) is Some,
        keys_sorted(b, header_of(b)),
        forall|i: int| 0 <= i < header_of(b).exact_count ==> key_at(b, header_of(b), i) != Some(needle),
    ensures
        search_spec(b, header_of(b), needle, 0, header_of(b).exact_count as int) is None,
{
    lemma_search_range(b, header_of(b), needle, 0, header_of(b).exact_count as int);
}


// ---------------------------------------------------------------------------
// Reading back what was written
// ---------------------------------------------------------------------------

#[verifier::spinoff_prover]
proof fn lemma_le_u32_at(b: Seq<u8>, off: int, v: u32)
    requires
        0 <= off,
        off + 4 <= b.len(),
        b.subrange(off, off + 4) == u32_le_bytes(v),
    ensures
        le_u32(b, off) == v,
{
    lemma_u32_roundtrip(v);
    let w = u32_le_bytes(v);
    assert(b[off] == w[0] && b[off + 1] == w[1] && b[off + 2] == w[2] && b[off + 3] == w[3]) by {
        assert(b.subrange(off, off + 4)[0] == b[off]);
        assert(b.subrange(off, off + 4)[1] == b[off + 1]);
        assert(b.subrange(off, off + 4)[2] == b[off + 2]);
        assert(b.subrange(off, off + 4)[3] == b[off + 3]);
    }
}

#[verifier::spinoff_prover]
proof fn lemma_le_u64_at(b: Seq<u8>, off: int, v: u64)
    requires
        0 <= off,
        off + 8 <= b.len(),
        b.subrange(off, off + 8) == u64_le_bytes(v),
    ensures
        le_u64(b, off) == v,
{
    let lo = (v % 4294967296) as u32;
    let hi = (v / 4294967296) as u32;
    assert(b.subrange(off, off + 4) =~= u32_le_bytes(lo)) by {
        assert(b.subrange(off, off + 4) =~= b.subrange(off, off + 8).subrange(0, 4));
    }
    assert(b.subrange(off + 4, off + 8) =~= u32_le_bytes(hi)) by {
        assert(b.subrange(off + 4, off + 8) =~= b.subrange(off, off + 8).subrange(4, 8));
    }
    lemma_le_u32_at(b, off, lo);
    lemma_le_u32_at(b, off + 4, hi);
    assert(lo + 4294967296 * hi == v) by (nonlinear_arith)
        requires
            lo == v % 4294967296,
            hi == v / 4294967296,
    ;
}

#[verifier::spinoff_prover]
proof fn lemma_table_len(e: Seq<(Seq<char>, Seq<char>)>)
    ensures
        table_of(e).len() == DICT_BIN_TABLE_ENTRY_LEN * e.len(),
    decreases e.len(),
{
    if e.len() > 0 {
        lemma_table_len(e.drop_last());
    }
}

#[verifier::spinoff_prover]
proof fn lemma_fields_drop_last(e: Seq<(Seq<char>, Seq<char>)>, i: int)
    requires
        0 <= i < e.len() - 1,
    ensures
        fields_of(e.drop_last(), i) == fields_of(e, i),
{
    assert(e.drop_last().take(i) =~= e.take(i));
}

#[verifier::spinoff_prover]
proof fn lemma_table_entry(e: Seq<(Seq<char>, Seq<char>)>, i: int)
    requires
        0 <= i < e.len(),
    ensures
        table_of(e).subrange(16 * i, 16 * i + 16) == field_bytes(fields_of(e, i)),
    decreases e.len(),
{
    lemma_table_len(e.drop_last());
    let t = table_of(e);
    let p = table_of(e.drop_last());
    assert(t == p + field_bytes(fields_of(e, e.len() - 1)));
    if i == e.len() - 1 {
        assert(t.subrange(16 * i, 16 * i + 16) =~= field_bytes(fields_of(e, i)));
    } else {
        lemma_table_entry(e.drop_last(), i);
        lemma_fields_drop_last(e, i);
        assert(t.subrange(16 * i, 16 * i + 16) =~= p.subrange(16 * i, 16 * i + 16));
    }
}

#[verifier::spinoff_prover]
proof fn lemma_no_field_error(e: Seq<(Seq<char>, Seq<char>)>, i: int)
    requires
        0 <= i < e.len(),
        encode_error(e) is None,
    ensures
        field_error(fields_of(e, i)) is None,
    decreases e.len(),
{
    if i < e.len() - 1 {
        lemma_no_field_error(e.drop_last(), i);
        lemma_fields_drop_last(e, i);
    }
}

#[verifier::spinoff_prover]
proof fn lemma_blob_prefix(e: Seq<(Seq<char>, Seq<char>)>, n: int)
    requires
        0 <= n <= e.len(),
    ensures
        blob_of(e.take(n)).len() <= blob_of(e).len(),
        blob_of(e).subrange(0, blob_of(e.take(n)).len() as int) == blob_of(e.take(n)),
    decreases e.len(),
{
    if n == e.len() {
        assert(e.take(n) =~= e);
        assert(blob_of(e).subrange(0, blob_of(e).len() as int) =~= blob_of(e));
    } else {
        lemma_blob_prefix(e.drop_last(), n);
        assert(e.drop_last().take(n) =~= e.take(n));
        let p = blob_of(e.drop_last());
        let q = blob_of(e.take(n));
        assert(blob_of(e).subrange(0, q.len() as int) =~= p.subrange(0, q.len() as int));
    }
}

/// Where entry `i` of the entries lies in the blob: its key bytes, then its
/// value bytes.
#[verifier::spinoff_prover]
proof fn lemma_blob_entry(e: Seq<(Seq<char>, Seq<char>)>, i: int)
    requires
        0 <= i < e.len(),
    ensures
        ({
            let f = fields_of(e, i);
            &&& f.0 + f.1 + f.3 <= blob_of(e).len()
            &&& f.2 == f.0 + f.1
            &&& blob_of(e).subrange(f.0, f.0 + f.1) == sbytes(e[i].0)
            &&& blob_of(e).subrange(f.2, f.2 + f.3) == sbytes(e[i].1)
        }),
{
    lemma_blob_prefix(e, i + 1);
    lemma_blob_take(e, i);
    let f = fields_of(e, i);
    let q = blob_of(e.take(i + 1));
    let whole = blob_of(e);
    assert(whole.subrange(f.0, f.0 + f.1) =~= q.subrange(f.0, f.0 + f.1));
    assert(q.subrange(f.0, f.0 + f.1) =~= sbytes(e[i].0));
    assert(whole.subrange(f.2, f.2 + f.3) =~= q.subrange(f.2, f.2 + f.3));
    assert(q.subrange(f.2, f.2 + f.3) =~= sbytes(e[i].1));
}

#[verifier::spinoff_prover]
proof fn lemma_sub_of_front(x: Seq<u8>, y: Seq<u8>, off: int, len: int)
    requires
        0 <= off,
        0 <= len,
        off + len <= x.len(),
    ensures
        (x + y).subrange(off, off + len) == x.subrange(off, off + len),
{
    assert((x + y).subrange(off, off + len) =~= x.subrange(off, off + len));
}

#[verifier::spinoff_prover]
proof fn lemma_sub_of_back(x: Seq<u8>, y: Seq<u8>, off: int, len: int)
    requires
        0 <= off,
        0 <= len,
        off + len <= y.len(),
    ensures
        (x + y).subrange(x.len() + off, x.len() + off + len) == y.subrange(off, off + len),
{
    assert((x + y).subrange(x.len() + off, x.len() + off + len) =~= y.subrange(off, off + len));
}

/// The header of the written file: the layout's version, the entry count,
/// the table right after the header and the blob right after the table.
#[verifier::spinoff_prover]
#[verifier::rlimit(100)]
proof fn lemma_written_header(e: Seq<(Seq<char>, Seq<char>)>)
    requires
        e.len() <= u32::MAX,
        dict_bin_bytes(e).len() <= usize::MAX,
    ensures
        header_spec(dict_bin_bytes(e)) == Some(
            ParsedHeader {
                version: DICT_BIN_VERSION,
                exact_count: e.len() as u32,
                exact_table_offset: DICT_BIN_HEADER_LEN as u64,
                string_blob_offset: (DICT_BIN_HEADER_LEN + DICT_BIN_TABLE_ENTRY_LEN * e.len()) as u64,
                string_blob_len: blob_of(e).len() as u64,
            },
        ),
{
    reveal(header_spec);
    let n = e.len();
    let b = dict_bin_bytes(e);
    lemma_table_len(e);
    let hd = head_of(e);
    let rest = table_of(e) + blob_of(e);
    assert(b =~= hd + rest);
    let p1 = u32_le_bytes(DICT_BIN_VERSION);
    let p2 = u32_le_bytes(n as u32);
    let p3 = u64_le_bytes(DICT_BIN_HEADER_LEN as u64);
    let p4 = u64_le_bytes((DICT_BIN_HEADER_LEN + DICT_BIN_TABLE_ENTRY_LEN * n) as u64);
    let p5 = u64_le_bytes(blob_of(e).len() as u64);
    assert(hd.len() == 40);
    assert(hd.subrange(0, 8) =~= DICT_BIN_MAGIC@);
    assert(hd.subrange(8, 12) =~= p1);
    assert(hd.subrange(12, 16) =~= p2);
    assert(hd.subrange(16, 24) =~= p3);
    assert(hd.subrange(24, 32) =~= p4);
    assert(hd.subrange(32, 40) =~= p5);
    lemma_sub_of_front(hd, rest, 0, 8);
    lemma_sub_of_front(hd, rest, 8, 4);
    lemma_sub_of_front(hd, rest, 12, 4);
    lemma_sub_of_front(hd, rest, 16, 8);
    lemma_sub_of_front(hd, rest, 24, 8);
    lemma_sub_of_front(hd, rest, 32, 8);
    lemma_le_u32_at(b, 8, DICT_BIN_VERSION);
    lemma_le_u32_at(b, 12, n as u32);
    lemma_le_u64_at(b, 16, DICT_BIN_HEADER_LEN as u64);
    lemma_le_u64_at(b, 24, (DICT_BIN_HEADER_LEN + DICT_BIN_TABLE_ENTRY_LEN * n) as u64);
    lemma_le_u64_at(b, 32, blob_of(e).len() as u64);
}

/// The table fields read back from the written file are those written.
#[verifier::spinoff_prover]
#[verifier::rlimit(100)]
proof fn lemma_written_fields(e: Seq<(Seq<char>, Seq<char>)>, i: int)
    requires
        encode_error(e) is None,
        0 <= i < e.len(),
    ensures
        table_fields(dict_bin_bytes(e), i) == fields_of(e, i),
{
    let b = dict_bin_bytes(e);
    let hd = head_of(e);
    let t = table_of(e);
    lemma_table_len(e);
    lemma_table_entry(e, i);
    lemma_no_field_error(e, i);
    let f = fields_of(e, i);
    let fb = field_bytes(f);
    assert(hd.len() == 40);
    assert(b =~= hd + (t + blob_of(e)));
    lemma_sub_of_front(t, blob_of(e), 16 * i, 16);
    lemma_sub_of_back(hd, t + blob_of(e), 16 * i, 16);
    let off = 40 + 16 * i;
    assert(b.subrange(off, off + 16) == fb);
    assert(b.subrange(off, off + 4) =~= fb.subrange(0, 4));
    assert(b.subrange(off + 4, off + 8) =~= fb.subrange(4, 8));
    assert(b.subrange(off + 8, off + 12) =~= fb.subrange(8, 12));
    assert(b.subrange(off + 12, off + 16) =~= fb.subrange(12, 16));
    assert(fb.subrange(0, 4) =~= u32_le_bytes(f.0 as u32));
    assert(fb.subrange(4, 8) =~= u32_le_bytes(f.1 as u32));
    assert(fb.subrange(8, 12) =~= u32_le_bytes(f.2 as u32));
    assert(fb.subrange(12, 16) =~= u32_le_bytes(f.3 as u32));
    lemma_le_u32_at(b, off, f.0 as u32);
    lemma_le_u32_at(b, off + 4, f.1 as u32);
    lemma_le_u32_at(b, off + 8, f.2 as u32);
    lemma_le_u32_at(b, off + 12, f.3 as u32);
}

/// A range of the blob read back from the written file.
#[verifier::spinoff_prover]
proof fn lemma_written_blob_range(e: Seq<(Seq<char>, Seq<char>)>, off: int, len: int)
    requires
        e.len() <= u32::MAX,
        dict_bin_bytes(e).len() <= usize::MAX,
        0 <= off,
        0 <= len,
        off + len <= blob_of(e).len(),
    ensures
        header_spec(dict_bin_bytes(e)) is Some,
        blob_bytes(dict_bin_bytes(e), header_of(dict_bin_bytes(e)), off, len) == Some(
            blob_of(e).subrange(off, off + len),
        ),
{
    let b = dict_bin_bytes(e);
    lemma_written_header(e);
    lemma_table_len(e);
    let front = head_of(e) + table_of(e);
    let bl = blob_of(e);
    assert(b == front + bl);
    assert(head_of(e).len() == 40);
    let h = header_of(b);
    assert(h.string_blob_offset == front.len());
    assert(h.string_blob_len == bl.len());
    lemma_sub_of_back(front, bl, off, len);
}

/// Entry `i` read back from the written file: its key bytes and its value.
#[verifier::spinoff_prover]
proof fn lemma_written_entry(e: Seq<(Seq<char>, Seq<char>)>, i: int)
    requires
        encode_error(e) is None,
        e.len() <= u32::MAX,
        dict_bin_bytes(e).len() <= usize::MAX,
        0 <= i < e.len(),
    ensures
        header_spec(dict_bin_bytes(e)) is Some,
        key_at(dict_bin_bytes(e), header_of(dict_bin_bytes(e)), i) == Some(sbytes(e[i].0)),
        value_at(dict_bin_bytes(e), header_of(dict_bin_bytes(e)), i) == Some(e[i].1),
{
    let f = fields_of(e, i);
    lemma_written_fields(e, i);
    lemma_blob_entry(e, i);
    lemma_written_blob_range(e, f.0, f.1);
    lemma_written_blob_range(e, f.2, f.3);
    vstd::utf8::encode_utf8_valid_utf8(e[i].1);
    vstd::utf8::encode_utf8_decode_utf8(e[i].1);
}

/// The sources ascend strictly in byte order.
pub open spec fn sources_ascending(e: Seq<(Seq<char>, Seq<char>)>) -> bool {
    forall|i: int, j: int|
        0 <= i < j < e.len() ==> bytes_less(#[trigger] sbytes(e[i].0), #[trigger] sbytes(e[j].0))
}

#[verifier::spinoff_prover]
proof fn lemma_written_keys_sorted(e: Seq<(Seq<char>, Seq<char>)>)
    requires
        encode_error(e) is None,
        e.len() <= u32::MAX,
        dict_bin_bytes(e).len() <= usize::MAX,
        sources_ascending(e),
    ensures
        header_spec(dict_bin_bytes(e)) is Some,
        header_of(dict_bin_bytes(e)).exact_count == e.len(),
        keys_sorted(dict_bin_bytes(e), header_of(dict_bin_bytes(e))),
{
    let b = dict_bin_bytes(e);
    lemma_written_header(e);
    let h = header_of(b);
    assert forall|i: int| 0 <= i < h.exact_count implies (#[trigger] key_at(b, h, i)) is Some by {
        lemma_written_entry(e, i);
    }
    assert forall|i: int, j: int| 0 <= i < j < h.exact_count implies bytes_less(
        #[trigger] key_at(b, h, i)->0,
        #[trigger] key_at(b, h, j)->0,
    ) by {
        lemma_written_entry(e, i);
        lemma_written_entry(e, j);
        assert(bytes_less(sbytes(e[i].0), sbytes(e[j].0)));
    }
}

/// A dictionary written from entries whose sources ascend strictly reads
/// back each entry: the search for a source's bytes finds its value.
#[verifier::spinoff_prover]
pub proof fn lemma_dict_bin_roundtrip(e: Seq<(Seq<char>, Seq<char>)>, j: int)
    requires
        encode_error(e) is None,
        e.len() <= u32::MAX,
        dict_bin_bytes(e).len() <= usize::MAX,
        sources_ascending(e),
        0 <= j < e.len(),
    ensures
        header_spec(dict_bin_bytes(e)) is Some,
        search_spec(
            dict_bin_bytes(e),
            header_of(dict_bin_bytes(e)),
            sbytes(e[j].0),
            0,
            header_of(dict_bin_bytes(e)).exact_count as int,
        ) == Some(e[j].1),
{
    lemma_written_keys_sorted(e);
    lemma_written_entry(e, j);
    lemma_search_finds_key(dict_bin_bytes(e), sbytes(e[j].0), j);
}

/// A dictionary written from entries whose sources ascend strictly has
/// nothing for a text that is no entry's source.
#[verifier::spinoff_prover]
pub proof fn lemma_dict_bin_absent(e: Seq<(Seq<char>, Seq<char>)>, source: Seq<char>)
    requires
        encode_error(e) is None,
        e.len() <= u32::MAX,
        dict_bin_bytes(e).len() <= usize::MAX,
        sources_ascending(e),
        forall|i: int| 0 <= i < e.len() ==> e[i].0 != source,
    ensures
        header_spec(dict_bin_bytes(e)) is Some,
        search_spec(
            dict_bin_bytes(e),
            header_of(dict_bin_bytes(e)),
            sbytes(source),
            0,
            header_of(dict_bin_bytes(e)).exact_count as int,
        ) is None,
{
    let b = dict_bin_bytes(e);
    lemma_written_keys_sorted(e);
    assert forall|i: int| 0 <= i < header_of(b).exact_count implies key_at(b, header_of(b), i)
        != Some(sbytes(source)) by {
        lemma_written_entry(e, i);
        vstd::utf8::encode_utf8_decode_utf8(e[i].0);
        vstd::utf8::encode_utf8_decode_utf8(source);
    }
    lemma_search_misses_absent(b, sbytes(source));
}

} // verus!
