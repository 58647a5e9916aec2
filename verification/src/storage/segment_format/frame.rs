//! The frame of a raw segment file: header, columns and footer.

use vstd::prelude::*;
use vstd::slice::slice_subrange;

use crate::bytes;
use crate::bytes::{push_le, read_le};
use crate::storage::compression::CompressionError;
use crate::storage::segment_format;
use crate::storage::segment_format::{
    checksum, Codec, Encoding, MAGIC, MAGIC_END, VERSION,
};
use crate::text;

verus! {

/// Why a raw segment cannot be read or written.
#[derive(Debug, PartialEq, Eq)]
pub enum SegmentFault {
    /// The file is shorter than a header and a footer.
    TooSmall,
    MissingMagic,
    MissingEndMagic,
    ChecksumMismatch { stored: u64, computed: u64 },
    UnsupportedVersion(u8),
    /// A column runs past the footer.
    TruncatedColumn,
    /// Something stands between the last column and the footer.
    TrailingBytes,
    UnknownEncoding(u8),
    UnknownCodec(u8),
    MissingColumn(&'static str),
    /// The column's payload does not hold a value for each row.
    CorruptColumn(&'static str),
    /// There are more rows, or more bytes in a column, than the format counts.
    TooLarge,
    Compression(CompressionError),
}

/// A fault in words.
pub open spec fn fault_text(f: SegmentFault) -> Seq<char> {
    match f {
        SegmentFault::TooSmall => "segment: file too small"@,
        SegmentFault::MissingMagic => "segment: missing magic"@,
        SegmentFault::MissingEndMagic => "segment: missing end magic"@,
        SegmentFault::ChecksumMismatch { stored, computed } => "segment: checksum mismatch (stored "@
            + text::decimal(stored as int) + ", computed "@ + text::decimal(computed as int) + ")"@,
        SegmentFault::UnsupportedVersion(v) => "segment: unsupported version "@ + text::decimal(
            v as int,
        ),
        SegmentFault::TruncatedColumn => "segment: truncated column"@,
        SegmentFault::TrailingBytes => "segment: bytes behind the last column"@,
        SegmentFault::UnknownEncoding(b) => "segment: unknown encoding "@ + text::decimal(b as int),
        SegmentFault::UnknownCodec(b) => "segment: unknown codec "@ + text::decimal(b as int),
        SegmentFault::MissingColumn(name) => "segment: missing column "@ + name@,
        SegmentFault::CorruptColumn(name) => "segment: corrupt column "@ + name@,
        SegmentFault::TooLarge => "segment: too large"@,
        SegmentFault::Compression(e) => "segment: "@ + e.0@,
    }
}

impl SegmentFault {
    /// The fault in words.
    pub fn message(&self) -> (r: String)
        ensures
            r@ == fault_text(*self),
    {
        match self {
            SegmentFault::TooSmall => "segment: file too small".to_owned(),
            SegmentFault::MissingMagic => "segment: missing magic".to_owned(),
            SegmentFault::MissingEndMagic => "segment: missing end magic".to_owned(),
            SegmentFault::ChecksumMismatch { stored, computed } => {
                let a = text::decimal_of(*stored as u128);
                let b = text::decimal_of(*computed as u128);
                let head = text::join3(
                    "segment: checksum mismatch (stored ",
                    a.as_str(),
                    ", computed ",
                );
                text::join3(head.as_str(), b.as_str(), ")")
            },
            SegmentFault::UnsupportedVersion(v) => text::join2(
                "segment: unsupported version ",
                text::decimal_of(*v as u128).as_str(),
            ),
            SegmentFault::TruncatedColumn => "segment: truncated column".to_owned(),
            SegmentFault::TrailingBytes => "segment: bytes behind the last column".to_owned(),
            SegmentFault::UnknownEncoding(b) => text::join2(
                "segment: unknown encoding ",
                text::decimal_of(*b as u128).as_str(),
            ),
            SegmentFault::UnknownCodec(b) => text::join2(
                "segment: unknown codec ",
                text::decimal_of(*b as u128).as_str(),
            ),
            SegmentFault::MissingColumn(name) => text::join2("segment: missing column ", *name),
            SegmentFault::CorruptColumn(name) => text::join2("segment: corrupt column ", *name),
            SegmentFault::TooLarge => "segment: too large".to_owned(),
            SegmentFault::Compression(e) => text::join2("segment: ", e.0.as_str()),
        }
    }
}

/// A column as it stands in a file.
#[derive(Debug)]
pub struct Column {
    pub name: Vec<u8>,
    pub encoding: Encoding,
    pub codec: Codec,
    pub payload: Vec<u8>,
}

/// A column by its contents.
#[verifier::ext_equal]
pub struct ColumnModel {
    pub name: Seq<u8>,
    pub encoding: Encoding,
    pub codec: Codec,
    pub payload: Seq<u8>,
}

impl View for Column {
    type V = ColumnModel;

    open spec fn view(&self) -> ColumnModel {
        ColumnModel {
            name: self.name@,
            encoding: self.encoding,
            codec: self.codec,
            payload: self.payload@,
        }
    }
}

pub open spec fn column_views(cols: Seq<Column>) -> Seq<ColumnModel> {
    cols.map_values(|c: Column| c@)
}

// ---------------------------------------------------------------------------
// Columns
// ---------------------------------------------------------------------------

/// The bytes of a column.
pub open spec fn column_bytes(c: ColumnModel) -> Seq<u8> {
    bytes::le_bytes(c.name.len() as int, 2) + c.name + seq![
        segment_format::encoding_byte(c.encoding),
        segment_format::codec_byte(c.codec),
    ] + bytes::le_bytes(c.payload.len() as int, 4) + c.payload
}

/// The bytes of columns, one after the other.
pub open spec fn columns_bytes(cols: Seq<ColumnModel>) -> Seq<u8>
    decreases cols.len(),
{
    if cols.len() == 0 {
        Seq::empty()
    } else {
        columns_bytes(cols.drop_last()) + column_bytes(cols.last())
    }
}

/// The column at the front of `b`, and what follows it.
pub open spec fn split_column(b: Seq<u8>) -> Result<(ColumnModel, Seq<u8>), SegmentFault> {
    let n = bytes::le_value(b.take(2));
    let size = bytes::le_value(b.subrange(n + 4, n + 8));
    if b.len() < 2 || b.len() < n + 8 {
        Err(SegmentFault::TruncatedColumn)
    } else if segment_format::encoding_of(b[n + 2]) is None {
        Err(SegmentFault::UnknownEncoding(b[n + 2]))
    } else if segment_format::codec_of(b[n + 3]) is None {
        Err(SegmentFault::UnknownCodec(b[n + 3]))
    } else if b.len() < n + 8 + size {
        Err(SegmentFault::TruncatedColumn)
    } else {
        Ok(
            (
                ColumnModel {
                    name: b.subrange(2, n + 2),
                    encoding: segment_format::encoding_of(b[n + 2])->0,
                    codec: segment_format::codec_of(b[n + 3])->0,
                    payload: b.subrange(n + 8, n + 8 + size),
                },
                b.skip(n + 8 + size),
            ),
        )
    }
}

/// The `n` columns that `b` consists of.
pub open spec fn columns(b: Seq<u8>, n: nat) -> Result<Seq<ColumnModel>, SegmentFault>
    decreases n,
{
    if n == 0 {
        if b.len() == 0 {
            Ok(Seq::empty())
        } else {
            Err(SegmentFault::TrailingBytes)
        }
    } else {
        match split_column(b) {
            Err(f) => Err(f),
            Ok((c, rest)) => match columns(rest, (n - 1) as nat) {
                Err(f) => Err(f),
                Ok(more) => Ok(seq![c] + more),
            },
        }
    }
}

/// A column whose name and payload the format can count.
pub open spec fn countable(c: ColumnModel) -> bool {
    c.name.len() < 0x1_0000 && c.payload.len() < 0x1_0000_0000
}

proof fn lemma_split_column(c: ColumnModel, rest: Seq<u8>)
    requires
        countable(c),
    ensures
        split_column(column_bytes(c) + rest) == Ok::<_, SegmentFault>((c, rest)),
{
    let b = column_bytes(c) + rest;
    let n = c.name.len() as int;
    let size = c.payload.len() as int;
    bytes::lemma_pow256_values();
    bytes::lemma_le_round_trip(n, 2);
    bytes::lemma_le_round_trip(size, 4);
    assert(b.take(2) =~= bytes::le_bytes(n, 2));
    assert(b.subrange(n + 4, n + 8) =~= bytes::le_bytes(size, 4));
    assert(b.subrange(2, n + 2) =~= c.name);
    assert(b.subrange(n + 8, n + 8 + size) =~= c.payload);
    assert(b.skip(n + 8 + size) =~= rest);
    assert(b[n + 2] == segment_format::encoding_byte(c.encoding));
    assert(b[n + 3] == segment_format::codec_byte(c.codec));
}

proof fn lemma_columns_front(cols: Seq<ColumnModel>)
    requires
        cols.len() > 0,
    ensures
        columns_bytes(cols) == column_bytes(cols[0]) + columns_bytes(cols.drop_first()),
    decreases cols.len(),
{
    if cols.len() == 1 {
        assert(cols.drop_last() =~= Seq::empty());
        assert(cols.drop_first() =~= Seq::empty());
        assert(columns_bytes(cols) =~= column_bytes(cols[0]) + columns_bytes(cols.drop_first()));
    } else {
        let init = cols.drop_last();
        lemma_columns_front(init);
        assert(init.drop_first() =~= cols.drop_first().drop_last());
        assert(columns_bytes(cols) =~= column_bytes(cols[0]) + columns_bytes(cols.drop_first()));
    }
}

/// The columns that were written are read.
pub proof fn lemma_columns(cols: Seq<ColumnModel>)
    requires
        forall|i: int| 0 <= i < cols.len() ==> countable(#[trigger] cols[i]),
    ensures
        columns(columns_bytes(cols), cols.len()) == Ok::<_, SegmentFault>(cols),
    decreases cols.len(),
{
    if cols.len() > 0 {
        let rest = cols.drop_first();
        assert forall|i: int| 0 <= i < rest.len() implies countable(#[trigger] rest[i]) by {
            assert(rest[i] == cols[i + 1]);
        }
        lemma_columns(rest);
        lemma_columns_front(cols);
        lemma_split_column(cols[0], columns_bytes(rest));
        assert(seq![cols[0]] + rest =~= cols);
    } else {
        assert(cols =~= Seq::empty());
    }
}

fn copied(data: &[u8], from: usize, to: usize) -> (r: Vec<u8>)
    requires
        from <= to <= data@.len(),
    ensures
        r@ == data@.subrange(from as int, to as int),
{
    let part = slice_subrange(data, from, to);
    let mut out: Vec<u8> = Vec::new();
    for i in 0..part.len()
        invariant
            out@ == part@.take(i as int),
    {
        out.push(part[i]);
        assert(out@ =~= part@.take(i + 1));
    }
    assert(part@.take(part@.len() as int) =~= part@);
    out
}

/// Appends the bytes of a column.
pub(crate) fn push_column(out: &mut Vec<u8>, c: &Column)
    requires
        countable(c@),
    ensures
        final(out)@ == old(out)@ + column_bytes(c@),
{
    let ghost start = out@;
    push_le(out, c.name.len() as u128, 2);
    let mut name = c.name.clone();
    assert(name@ =~= c.name@);
    out.append(&mut name);
    out.push(c.encoding.to_byte());
    out.push(c.codec.to_byte());
    push_le(out, c.payload.len() as u128, 4);
    let mut payload = c.payload.clone();
    assert(payload@ =~= c.payload@);
    out.append(&mut payload);
    assert(out@ =~= start + column_bytes(c@));
}

fn read_column(data: &[u8], at: usize, end: usize) -> (r: Result<(Column, usize), SegmentFault>)
    requires
        at <= end <= data@.len(),
    ensures
        match r {
            Ok((c, next)) => at < next <= end && split_column(
                data@.subrange(at as int, end as int),
            ) == Ok::<_, SegmentFault>((c@, data@.subrange(next as int, end as int))),
            Err(f) => split_column(data@.subrange(at as int, end as int)) == Err::<
                (ColumnModel, Seq<u8>),
                _,
            >(f),
        },
{
    let ghost b = data@.subrange(at as int, end as int);
    assert(data@.len() == data.len());
    proof {
        bytes::lemma_pow256_values();
    }
    if end - at < 2 {
        return Err(SegmentFault::TruncatedColumn);
    }
    let n: usize = read_le(data, at, 2) as usize;
    assert(data@.subrange(at as int, at + 2) =~= b.take(2));
    if end - at < 8 || end - at - 8 < n {
        return Err(SegmentFault::TruncatedColumn);
    }
    let encoding_at: usize = at + 2 + n;
    assert(data@[encoding_at as int] == b[n + 2]);
    assert(data@[encoding_at + 1] == b[n + 3]);
    let encoding = match Encoding::from_byte(data[encoding_at]) {
        None => {
            return Err(SegmentFault::UnknownEncoding(data[encoding_at]));
        },
        Some(e) => e,
    };
    let codec = match Codec::from_byte(data[encoding_at + 1]) {
        None => {
            return Err(SegmentFault::UnknownCodec(data[encoding_at + 1]));
        },
        Some(c) => c,
    };
    let size: usize = read_le(data, encoding_at + 2, 4) as usize;
    assert(data@.subrange(encoding_at + 2, encoding_at + 6) =~= b.subrange(n + 4, n + 8));
    let start: usize = encoding_at + 6;
    if end - start < size {
        return Err(SegmentFault::TruncatedColumn);
    }
    let name = copied(data, at + 2, encoding_at);
    let payload = copied(data, start, start + size);
    assert(name@ =~= b.subrange(2, n + 2));
    assert(payload@ =~= b.subrange(n + 8, n + 8 + size));
    assert(data@.subrange(start + size, end as int) =~= b.skip(n + 8 + size));
    Ok((Column { name, encoding, codec, payload }, start + size))
}

spec fn led_by(
    done: Seq<ColumnModel>,
    rest: Result<Seq<ColumnModel>, SegmentFault>,
) -> Result<Seq<ColumnModel>, SegmentFault> {
    match rest {
        Ok(more) => Ok(done + more),
        Err(f) => Err(f),
    }
}

fn read_columns(data: &[u8], from: usize, end: usize, n: usize) -> (r: Result<
    Vec<Column>,
    SegmentFault,
>)
    requires
        from <= end <= data@.len(),
    ensures
        match r {
            Ok(cols) => columns(data@.subrange(from as int, end as int), n as nat) == Ok::<
                _,
                SegmentFault,
            >(column_views(cols@)),
            Err(f) => columns(data@.subrange(from as int, end as int), n as nat) == Err::<
                Seq<ColumnModel>,
                _,
            >(f),
        },
{
    let ghost whole = columns(data@.subrange(from as int, end as int), n as nat);
    let mut cols: Vec<Column> = Vec::new();
    let mut at: usize = from;
    proof {
        let rest = whole;
        if let Ok(more) = rest {
            assert(column_views(cols@) + more =~= more);
        }
    }
    for i in 0..n
        invariant
            at <= end <= data@.len(),
            whole == columns(data@.subrange(from as int, end as int), n as nat),
            whole == led_by(
                column_views(cols@),
                columns(data@.subrange(at as int, end as int), (n - i) as nat),
            ),
    {
        match read_column(data, at, end) {
            Err(f) => {
                return Err(f);
            },
            Ok((c, next)) => {
                let ghost before = cols@;
                let ghost view = c@;
                cols.push(c);
                proof {
                    let more = columns(data@.subrange(next as int, end as int), (n - i - 1) as nat);
                    assert(column_views(cols@) =~= column_views(before).push(view));
                    if let Ok(m) = more {
                        assert(column_views(before) + (seq![view] + m) =~= column_views(cols@) + m);
                    }
                }
                at = next;
            },
        }
    }
    if at != end {
        return Err(SegmentFault::TrailingBytes);
    }
    assert(column_views(cols@) + Seq::<ColumnModel>::empty() =~= column_views(cols@));
    Ok(cols)
}

// ---------------------------------------------------------------------------
// Files
// ---------------------------------------------------------------------------

/// What stands before the footer.
pub open spec fn body_bytes(rows: nat, cols: Seq<ColumnModel>) -> Seq<u8> {
    MAGIC@ + seq![VERSION] + bytes::le_bytes(rows as int, 4) + bytes::le_bytes(
        cols.len() as int,
        2,
    ) + columns_bytes(cols)
}

/// A whole file.
pub open spec fn file_bytes(rows: nat, cols: Seq<ColumnModel>) -> Seq<u8> {
    let body = body_bytes(rows, cols);
    body + bytes::le_bytes(segment_format::checksum_of(body), 8) + MAGIC_END@
}

/// The number of rows and the columns of a file.
pub open spec fn contents(data: Seq<u8>) -> Result<(nat, Seq<ColumnModel>), SegmentFault> {
    let len = data.len() as int;
    let stored = bytes::le_value(data.subrange(len - 16, len - 8));
    let computed = segment_format::checksum_of(data.take(len - 16));
    if len < 31 {
        Err(SegmentFault::TooSmall)
    } else if data.take(8) != MAGIC@ {
        Err(SegmentFault::MissingMagic)
    } else if data.skip(len - 8) != MAGIC_END@ {
        Err(SegmentFault::MissingEndMagic)
    } else if stored != computed {
        Err(SegmentFault::ChecksumMismatch { stored: stored as u64, computed: computed as u64 })
    } else if data[8] != VERSION {
        Err(SegmentFault::UnsupportedVersion(data[8]))
    } else {
        let n = bytes::le_value(data.subrange(13, 15)) as nat;
        match columns(data.subrange(15, len - 16), n) {
            Err(f) => Err(f),
            Ok(cols) => Ok((bytes::le_value(data.subrange(9, 13)) as nat, cols)),
        }
    }
}

/// What was written into a file is read from it.
pub proof fn lemma_contents(rows: nat, cols: Seq<ColumnModel>)
    requires
        rows < 0x1_0000_0000,
        cols.len() < 0x1_0000,
        forall|i: int| 0 <= i < cols.len() ==> countable(#[trigger] cols[i]),
        0 <= segment_format::checksum_of(body_bytes(rows, cols)) <= u64::MAX,
    ensures
        contents(file_bytes(rows, cols)) == Ok::<_, SegmentFault>((rows, cols)),
{
    let body = body_bytes(rows, cols);
    let data = file_bytes(rows, cols);
    let len = data.len() as int;
    let sum = segment_format::checksum_of(body);
    bytes::lemma_pow256_values();
    bytes::lemma_le_round_trip(rows as int, 4);
    bytes::lemma_le_round_trip(cols.len() as int, 2);
    bytes::lemma_le_round_trip(sum, 8);
    lemma_columns(cols);
    assert(data.take(len - 16) =~= body);
    assert(data.subrange(len - 16, len - 8) =~= bytes::le_bytes(sum, 8));
    assert(data.take(8) =~= MAGIC@);
    assert(data.skip(len - 8) =~= MAGIC_END@);
    assert(data[8] == VERSION);
    assert(data.subrange(9, 13) =~= bytes::le_bytes(rows as int, 4));
    assert(data.subrange(13, 15) =~= bytes::le_bytes(cols.len() as int, 2));
    assert(data.subrange(15, len - 16) =~= columns_bytes(cols));
}

fn same_bytes(data: &[u8], at: usize, magic: &[u8; 8]) -> (r: bool)
    requires
        at + 8 <= data@.len(),
    ensures
        r == (data@.subrange(at as int, at + 8) == magic@),
{
    let ghost part = data@.subrange(at as int, at + 8);
    for i in 0..8usize
        invariant
            at + 8 <= data@.len(),
            data@.len() == data.len(),
            part == data@.subrange(at as int, at + 8),
            forall|k: int| 0 <= k < i ==> part[k] == magic@[k],
    {
        if data[at + i] != magic[i] {
            assert(part[i as int] != magic@[i as int]);
            return false;
        }
    }
    assert(part =~= magic@);
    true
}

/// Reads the frame of a file.
pub(crate) fn read_contents(data: &[u8]) -> (r: Result<(usize, Vec<Column>), SegmentFault>)
    ensures
        match r {
            Ok((rows, cols)) => contents(data@) == Ok::<_, SegmentFault>(
                (rows as nat, column_views(cols@)),
            ),
            Err(f) => contents(data@) == Err::<(nat, Seq<ColumnModel>), _>(f),
        },
{
    assert(data@.len() == data.len());
    let len: usize = data.len();
    if len < 31 {
        return Err(SegmentFault::TooSmall);
    }
    proof {
        bytes::lemma_pow256_values();
        assert(data@.take(8) =~= data@.subrange(0, 8));
        assert(data@.skip(len - 8) =~= data@.subrange(len - 8, len as int));
    }
    if !same_bytes(data, 0, &MAGIC) {
        return Err(SegmentFault::MissingMagic);
    }
    if !same_bytes(data, len - 8, &MAGIC_END) {
        return Err(SegmentFault::MissingEndMagic);
    }
    let stored: u64 = read_le(data, len - 16, 8) as u64;
    let body = slice_subrange(data, 0, len - 16);
    assert(body@ =~= data@.take(len - 16));
    let computed: u64 = checksum(body);
    if stored != computed {
        return Err(SegmentFault::ChecksumMismatch { stored, computed });
    }
    if data[8] != VERSION {
        return Err(SegmentFault::UnsupportedVersion(data[8]));
    }
    let rows: usize = read_le(data, 9, 4) as usize;
    let n: usize = read_le(data, 13, 2) as usize;
    match read_columns(data, 15, len - 16, n) {
        Err(f) => Err(f),
        Ok(cols) => Ok((rows, cols)),
    }
}

/// Writes a file, and gives its checksum.
pub(crate) fn write_contents(rows: usize, cols: &Vec<Column>) -> (r: (Vec<u8>, u64))
    requires
        rows < 0x1_0000_0000,
        cols@.len() < 0x1_0000,
        forall|i: int| 0 <= i < cols@.len() ==> countable((#[trigger] cols@[i])@),
    ensures
        r.0@ == file_bytes(rows as nat, column_views(cols@)),
        r.1 == segment_format::checksum_of(body_bytes(rows as nat, column_views(cols@))),
{
    let ghost views = column_views(cols@);
    let mut out: Vec<u8> = Vec::new();
    push_magic(&mut out, &MAGIC);
    out.push(VERSION);
    push_le(&mut out, rows as u128, 4);
    push_le(&mut out, cols.len() as u128, 2);
    let ghost head = out@;
    assert(columns_bytes(views.take(0)) =~= Seq::empty());
    assert(head + Seq::<u8>::empty() =~= head);
    for i in 0..cols.len()
        invariant
            views == column_views(cols@),
            forall|k: int| 0 <= k < cols@.len() ==> countable((#[trigger] cols@[k])@),
            out@ == head + columns_bytes(views.take(i as int)),
    {
        let ghost before = out@;
        push_column(&mut out, &cols[i]);
        proof {
            assert(views.take(i + 1).drop_last() =~= views.take(i as int));
            assert(views.take(i + 1).last() == cols@[i as int]@);
            assert(out@ =~= head + columns_bytes(views.take(i + 1)));
        }
    }
    assert(views.take(views.len() as int) =~= views);
    let ghost body = out@;
    assert(body =~= body_bytes(rows as nat, views));
    let sum: u64 = checksum(out.as_slice());
    push_le(&mut out, sum as u128, 8);
    push_magic(&mut out, &MAGIC_END);
    assert(out@ =~= file_bytes(rows as nat, views));
    (out, sum)
}

fn push_magic(out: &mut Vec<u8>, magic: &[u8; 8])
    ensures
        final(out)@ == old(out)@ + magic@,
{
    let ghost start = out@;
    for i in 0..8usize
        invariant
            out@ == start + magic@.take(i as int),
    {
        out.push(magic[i]);
        assert(out@ =~= start + magic@.take(i + 1));
    }
    assert(magic@.take(8) =~= magic@);
}

/// A file is read only where it is what it says: it begins with `UDBRAW1` and the end of
/// a line, ends with `UDBEND01`, is of version one, and holds before its end the first
/// eight bytes of the digest of all that stands before them. A file that is not is
/// refused, for the first of these that is wrong.
pub proof fn law_files_are_checked(data: Seq<u8>)
    ensures
        ({
            let len = data.len() as int;
            let head = seq![0x55u8, 0x44, 0x42, 0x52, 0x41, 0x57, 0x31, 0x0a];
            let tail = seq![0x55u8, 0x44, 0x42, 0x45, 0x4e, 0x44, 0x30, 0x31];
            let digest = bytes::blake3_digest(data.take(len - 16));
            let stored = bytes::le_value(data.subrange(len - 16, len - 8));
            let computed = bytes::le_value(digest.subrange(0, 8));
            match contents(data) {
                Ok((rows, cols)) => {
                    &&& len >= 31
                    &&& data.take(8) == head
                    &&& data.skip(len - 8) == tail
                    &&& stored == computed
                    &&& data[8] == 1
                    &&& rows == bytes::le_value(data.subrange(9, 13))
                    &&& columns(
                        data.subrange(15, len - 16),
                        bytes::le_value(data.subrange(13, 15)) as nat,
                    ) == Ok::<_, SegmentFault>(cols)
                },
                Err(f) => {
                    &&& len < 31 <==> f is TooSmall
                    &&& len >= 31 && data.take(8) != head <==> f is MissingMagic
                    &&& len >= 31 && data.take(8) == head && data.skip(len - 8) != tail
                        <==> f is MissingEndMagic
                    &&& len >= 31 && data.take(8) == head && data.skip(len - 8) == tail && stored
                        != computed <==> f is ChecksumMismatch
                },
            }
        }),
{
    let head = seq![0x55u8, 0x44, 0x42, 0x52, 0x41, 0x57, 0x31, 0x0a];
    let tail = seq![0x55u8, 0x44, 0x42, 0x45, 0x4e, 0x44, 0x30, 0x31];
    assert(MAGIC@ =~= head);
    assert(MAGIC_END@ =~= tail);
    let len = data.len() as int;
    if len >= 31 {
        bytes::lemma_le_value_bound(data.subrange(9, 13));
        lemma_column_faults(
            data.subrange(15, len - 16),
            bytes::le_value(data.subrange(13, 15)) as nat,
        );
    }
}

proof fn lemma_column_faults(b: Seq<u8>, n: nat)
    ensures
        columns(b, n) matches Err(f) ==> f is TruncatedColumn || f is TrailingBytes
            || f is UnknownEncoding || f is UnknownCodec,
    decreases n,
{
    if n > 0 {
        if split_column(b) is Ok {
            lemma_column_faults((split_column(b)->Ok_0).1, (n - 1) as nat);
        }
    }
}

/// A column begins with the length of its name and the name, goes on with a byte for its
/// encoding and one for its codec and the length of its payload, and ends with the
/// payload.
pub proof fn law_layout_of_columns(c: ColumnModel)
    requires
        countable(c),
    ensures
        ({
            let b = column_bytes(c);
            let n = c.name.len() as int;
            &&& b.len() == n + 8 + c.payload.len()
            &&& bytes::le_value(b.take(2)) == n
            &&& b.subrange(2, n + 2) == c.name
            &&& b[n + 2] == match c.encoding {
                Encoding::Plain => 0u8,
                Encoding::Dictionary => 1,
                Encoding::Delta => 2,
                Encoding::ZigzagVarint => 3,
                Encoding::Rle => 4,
            }
            &&& b[n + 3] == match c.codec {
                Codec::Uncompressed => 0u8,
                Codec::Zstd => 1,
                Codec::Lz4 => 2,
            }
            &&& bytes::le_value(b.subrange(n + 4, n + 8)) == c.payload.len()
            &&& b.skip(n + 8) == c.payload
        }),
{
    let b = column_bytes(c);
    let n = c.name.len() as int;
    reveal_with_fuel(bytes::pow256, 5);
    bytes::lemma_le_round_trip(n, 2);
    bytes::lemma_le_round_trip(c.payload.len() as int, 4);
    assert(b.take(2) =~= bytes::le_bytes(n, 2));
    assert(b.subrange(2, n + 2) =~= c.name);
    assert(b.subrange(n + 4, n + 8) =~= bytes::le_bytes(c.payload.len() as int, 4));
    assert(b.skip(n + 8) =~= c.payload);
}

} // verus!
