//! The protobuf message in which a node of a file tree says what it is.

use crate::error::CarError;
use crate::stream::append_bytes;
use crate::unixfs::{FileType, UnixTime};
use crate::varint::{first_low, le128, varint_encode};
use vstd::prelude::*;

verus! {

/// Field `Type`: the kind of the node, a number.
pub const TAG_TYPE: u32 = 8;

/// Field `Data`: bytes carried in the node itself.
pub const TAG_DATA: u32 = 18;

/// Field `filesize`.
pub const TAG_FILESIZE: u32 = 24;

/// Field `blocksizes`, once for each chunk.
pub const TAG_BLOCKSIZES: u32 = 32;

/// Field `hashType`.
pub const TAG_HASHTYPE: u32 = 40;

/// Field `fanout`.
pub const TAG_FANOUT: u32 = 48;

/// Field `mode`.
pub const TAG_MODE: u32 = 56;

/// Field `mtime`, a message of its own.
pub const TAG_MTIME: u32 = 66;

/// Field `Seconds` of a time.
pub const TAG_SECONDS: u32 = 8;

/// Field `FractionalNanoseconds` of a time: four bytes.
pub const TAG_NANOS: u32 = 21;

/// What the message holds, but for the bytes carried in the node itself.
#[derive(Debug)]
pub struct PbData {
    pub file_type: FileType,
    pub file_size: Option<u64>,
    pub block_sizes: Vec<u64>,
    pub hash_type: Option<u64>,
    pub fanout: Option<u64>,
    pub mode: Option<u32>,
    pub mtime: Option<UnixTime>,
}

/// The message as a mathematical value.
pub struct PbDataView {
    pub file_type: FileType,
    pub file_size: Option<u64>,
    pub block_sizes: Seq<u64>,
    pub hash_type: Option<u64>,
    pub fanout: Option<u64>,
    pub mode: Option<u32>,
    pub mtime: Option<UnixTime>,
}

impl View for PbData {
    type V = PbDataView;

    open spec fn view(&self) -> PbDataView {
        PbDataView {
            file_type: self.file_type,
            file_size: self.file_size,
            block_sizes: self.block_sizes@,
            hash_type: self.hash_type,
            fanout: self.fanout,
            mode: self.mode,
            mtime: self.mtime,
        }
    }
}

impl PbDataView {
    /// The message without any field.
    pub open spec fn empty() -> PbDataView {
        PbDataView {
            file_type: FileType::Raw,
            file_size: None,
            block_sizes: Seq::empty(),
            hash_type: None,
            fanout: None,
            mode: None,
            mtime: None,
        }
    }
}

/// The number of 32 bits that a protobuf varint at the start of `s` holds,
/// and the number of its bytes: the groups of seven bits up to the first
/// byte with a clear top bit, the lowest group first, of which the low 32
/// bits are kept. There is none where the bytes run out or ten bytes do not
/// end it.
pub open spec fn pb_varint32(s: Seq<u8>) -> Option<(u32, nat)> {
    let k = first_low(s);
    if k < s.len() && k < 10 {
        Some(((le128(s.take(k as int + 1)) % 0x1_0000_0000) as u32, k + 1))
    } else {
        None
    }
}

/// The number of 64 bits that a protobuf varint at the start of `s` holds,
/// and the number of its bytes: as for 32 bits, with the low 64 bits kept.
pub open spec fn pb_varint64(s: Seq<u8>) -> Option<(u64, nat)> {
    let k = first_low(s);
    if k < s.len() && k < 10 {
        Some(((le128(s.take(k as int + 1)) % 0x1_0000_0000_0000_0000) as u64, k + 1))
    } else {
        None
    }
}

/// The number of bytes that the value of a field with the tag `tag` takes at
/// the start of `s`, for a field that is passed over. The low three bits of
/// the tag say what the value is: a varint, eight bytes, four bytes, or a
/// varint and as many bytes as it says. There is none where the bytes run
/// out, or the bits say anything else.
pub open spec fn pb_unknown(s: Seq<u8>, tag: u32) -> Option<nat> {
    let wire = tag % 8;
    if wire == 0 {
        match pb_varint64(s) {
            Some((v, n)) => Some(n),
            None => None,
        }
    } else if wire == 1 {
        if s.len() >= 8 {
            Some(8)
        } else {
            None
        }
    } else if wire == 5 {
        if s.len() >= 4 {
            Some(4)
        } else {
            None
        }
    } else if wire == 2 {
        match pb_varint64(s) {
            Some((v, n)) => if v <= s.len() - n {
                Some(n + v as nat)
            } else {
                None
            },
            None => None,
        }
    } else {
        None
    }
}

/// The number that four bytes hold, the lowest byte first.
pub open spec fn le_u32(s: Seq<u8>) -> u32 {
    (s[0] as int + 256 * (s[1] as int) + 65536 * (s[2] as int) + 16777216 * (s[3] as int)) as u32
}

/// The four bytes that hold a number, the lowest byte first.
pub open spec fn fixed32_bytes(v: u32) -> Seq<u8> {
    seq![
        (v % 256) as u8,
        ((v / 256) % 256) as u8,
        ((v / 65536) % 256) as u8,
        ((v / 16777216) % 256) as u8,
    ]
}

/// The number of 64 bits without sign that has the bits of a signed one.
pub open spec fn to_unsigned(v: i64) -> u64 {
    if v >= 0 {
        v as u64
    } else {
        (v + 0x1_0000_0000_0000_0000) as u64
    }
}

/// The signed number that has the bits of one without sign.
pub open spec fn to_signed(v: u64) -> i64 {
    if v < 0x8000_0000_0000_0000 {
        v as i64
    } else {
        (v - 0x1_0000_0000_0000_0000) as i64
    }
}

/// `quick_protobuf::BytesReader::read_varint32` on the bytes of `data` from
/// `from` up to `to`: the number, and how many of those bytes are left
/// behind it.
#[verifier::external_body]
fn read_varint32(data: &[u8], from: usize, to: usize) -> (r: Result<(u32, usize), String>)
    requires
        from <= to <= data@.len(),
    ensures
        match pb_varint32(data@.subrange(from as int, to as int)) {
            Some((v, n)) => r == Ok::<(u32, usize), String>((v, (to - from - n) as usize)),
            None => r is Err,
        },
{
    let part = &data[from..to];
    let mut reader = quick_protobuf::BytesReader::from_bytes(part);
    let v = reader.read_varint32(part).map_err(|e| e.to_string())?;
    Ok((v, reader.len()))
}

/// `quick_protobuf::BytesReader::read_varint64` on the bytes of `data` from
/// `from` up to `to`: the number, and how many of those bytes are left
/// behind it.
#[verifier::external_body]
fn read_varint64(data: &[u8], from: usize, to: usize) -> (r: Result<(u64, usize), String>)
    requires
        from <= to <= data@.len(),
    ensures
        match pb_varint64(data@.subrange(from as int, to as int)) {
            Some((v, n)) => r == Ok::<(u64, usize), String>((v, (to - from - n) as usize)),
            None => r is Err,
        },
{
    let part = &data[from..to];
    let mut reader = quick_protobuf::BytesReader::from_bytes(part);
    let v = reader.read_varint64(part).map_err(|e| e.to_string())?;
    Ok((v, reader.len()))
}

/// `quick_protobuf::BytesReader::read_fixed32` on the bytes of `data` from
/// `from` up to `to`: the number that the first four hold, the lowest byte
/// first, and how many bytes are left behind them; an error where there are
/// not four.
#[verifier::external_body]
fn read_fixed32(data: &[u8], from: usize, to: usize) -> (r: Result<(u32, usize), String>)
    requires
        from <= to <= data@.len(),
    ensures
        (if to - from >= 4 {
            r == Ok::<(u32, usize), String>(
                (le_u32(data@.subrange(from as int, from + 4)), (to - from - 4) as usize),
            )
        } else {
            r is Err
        }),
{
    let part = &data[from..to];
    let mut reader = quick_protobuf::BytesReader::from_bytes(part);
    let v = reader.read_fixed32(part).map_err(|e| e.to_string())?;
    Ok((v, reader.len()))
}

/// `quick_protobuf::BytesReader::read_unknown` on the bytes of `data` from
/// `from` up to `to`: how many of those bytes are left behind the value of
/// a field with the tag `tag`.
#[verifier::external_body]
fn read_unknown(data: &[u8], from: usize, to: usize, tag: u32) -> (r: Result<usize, String>)
    requires
        from <= to <= data@.len(),
    ensures
        match pb_unknown(data@.subrange(from as int, to as int), tag) {
            Some(n) => r == Ok::<usize, String>((to - from - n) as usize),
            None => r is Err,
        },
{
    let part = &data[from..to];
    let mut reader = quick_protobuf::BytesReader::from_bytes(part);
    reader.read_unknown(part, tag).map_err(|e| e.to_string())?;
    Ok(reader.len())
}

/// `quick_protobuf::Writer::write_varint` into an empty vector: seven bits
/// to a byte, the lowest first, the top bit set on all bytes but the last.
#[verifier::external_body]
fn varint_bytes(v: u64) -> (out: Vec<u8>)
    ensures
        out@ == varint_encode(v as nat),
{
    let mut out: Vec<u8> = Vec::new();
    let _ = quick_protobuf::Writer::new(&mut out).write_varint(v);
    out
}

/// `quick_protobuf::Writer::write_fixed32` into an empty vector: the four
/// bytes of the number, the lowest first.
#[verifier::external_body]
fn fixed32(v: u32) -> (out: Vec<u8>)
    ensures
        out@ == fixed32_bytes(v),
{
    let mut out: Vec<u8> = Vec::new();
    let _ = quick_protobuf::Writer::new(&mut out).write_fixed32(v);
    out
}

/// The number of 32 bits read at `pos`, and the position behind it.
pub open spec fn varint32_at(data: Seq<u8>, pos: int, end: int) -> Option<(u32, int)> {
    match pb_varint32(data.subrange(pos, end)) {
        Some((v, n)) => if 1 <= n <= end - pos {
            Some((v, pos + n))
        } else {
            None
        },
        None => None,
    }
}

/// The number of 64 bits read at `pos`, and the position behind it.
pub open spec fn varint64_at(data: Seq<u8>, pos: int, end: int) -> Option<(u64, int)> {
    match pb_varint64(data.subrange(pos, end)) {
        Some((v, n)) => if 1 <= n <= end - pos {
            Some((v, pos + n))
        } else {
            None
        },
        None => None,
    }
}

/// The four bytes read at `pos` as a number, and the position behind them.
pub open spec fn fixed32_at(data: Seq<u8>, pos: int, end: int) -> Option<(u32, int)> {
    if end - pos >= 4 {
        Some((le_u32(data.subrange(pos, pos + 4)), pos + 4))
    } else {
        None
    }
}

/// The position behind a value that is passed over at `pos`.
pub open spec fn unknown_at(data: Seq<u8>, pos: int, end: int, tag: u32) -> Option<int> {
    match pb_unknown(data.subrange(pos, end), tag) {
        Some(n) => if n <= end - pos {
            Some(pos + n)
        } else {
            None
        },
        None => None,
    }
}

/// The bounds of a value that comes with its length at `pos`: where it
/// starts and where it ends.
pub open spec fn delimited_at(data: Seq<u8>, pos: int, end: int) -> Option<(int, int)> {
    match varint32_at(data, pos, end) {
        Some((len, start)) => if start + len <= end {
            Some((start, start + len))
        } else {
            None
        },
        None => None,
    }
}

fn get_varint32(data: &[u8], pos: usize, end: usize) -> (r: Result<(u32, usize), CarError>)
    requires
        pos <= end <= data@.len(),
    ensures
        match varint32_at(data@, pos as int, end as int) {
            Some((v, p)) => r is Ok && r->Ok_0.0 == v && r->Ok_0.1 == p && pos < p <= end,
            None => r is Err && r->Err_0 is Parsing,
        },
{
    match read_varint32(data, pos, end) {
        Ok((v, left)) => Ok((v, end - left)),
        Err(text) => Err(CarError::Parsing(text)),
    }
}

fn get_varint64(data: &[u8], pos: usize, end: usize) -> (r: Result<(u64, usize), CarError>)
    requires
        pos <= end <= data@.len(),
    ensures
        match varint64_at(data@, pos as int, end as int) {
            Some((v, p)) => r is Ok && r->Ok_0.0 == v && r->Ok_0.1 == p && pos < p <= end,
            None => r is Err && r->Err_0 is Parsing,
        },
{
    match read_varint64(data, pos, end) {
        Ok((v, left)) => Ok((v, end - left)),
        Err(text) => Err(CarError::Parsing(text)),
    }
}

fn get_fixed32(data: &[u8], pos: usize, end: usize) -> (r: Result<(u32, usize), CarError>)
    requires
        pos <= end <= data@.len(),
    ensures
        match fixed32_at(data@, pos as int, end as int) {
            Some((v, p)) => r is Ok && r->Ok_0.0 == v && r->Ok_0.1 == p && pos < p <= end,
            None => r is Err && r->Err_0 is Parsing,
        },
{
    match read_fixed32(data, pos, end) {
        Ok((v, left)) => Ok((v, end - left)),
        Err(text) => Err(CarError::Parsing(text)),
    }
}

fn skip_unknown(data: &[u8], pos: usize, end: usize, tag: u32) -> (r: Result<usize, CarError>)
    requires
        pos <= end <= data@.len(),
    ensures
        match unknown_at(data@, pos as int, end as int, tag) {
            Some(p) => r is Ok && r->Ok_0 == p && pos <= p <= end,
            None => r is Err && r->Err_0 is Parsing,
        },
{
    match read_unknown(data, pos, end, tag) {
        Ok(left) => Ok(end - left),
        Err(text) => Err(CarError::Parsing(text)),
    }
}

fn get_delimited(data: &[u8], pos: usize, end: usize) -> (r: Result<(usize, usize), CarError>)
    requires
        pos <= end <= data@.len(),
    ensures
        match delimited_at(data@, pos as int, end as int) {
            Some((a, b)) => r is Ok && r->Ok_0.0 == a && r->Ok_0.1 == b && pos < a <= b <= end,
            None => r is Err && r->Err_0 is Parsing,
        },
{
    let (len, start) = get_varint32(data, pos, end)?;
    if len as u64 > (end - start) as u64 {
        return Err(CarError::Parsing("unexpected end of buffer".to_string()));
    }
    Ok((start, start + len as usize))
}

/// The signed number that has the bits of `v`.
fn signed(v: u64) -> (s: i64)
    ensures
        s == to_signed(v),
{
    if v < 0x8000_0000_0000_0000 {
        v as i64
    } else {
        (v as i128 - 0x1_0000_0000_0000_0000i128) as i64
    }
}

/// The number without sign that has the bits of `v`.
fn unsigned(v: i64) -> (u: u64)
    ensures
        u == to_unsigned(v),
{
    if v >= 0 {
        v as u64
    } else {
        (v as i128 + 0x1_0000_0000_0000_0000i128) as u64
    }
}

/// The time that the fields between `pos` and `end` make of `acc`, taken
/// one after another; a field that a time does not have is passed over.
pub open spec fn time_fields(data: Seq<u8>, pos: int, end: int, acc: UnixTime) -> Option<UnixTime>
    decreases end - pos,
{
    if pos >= end {
        Some(acc)
    } else {
        match varint32_at(data, pos, end) {
            None => None,
            Some((tag, p)) => if tag == TAG_SECONDS {
                match varint64_at(data, p, end) {
                    Some((v, q)) => time_fields(
                        data,
                        q,
                        end,
                        UnixTime { seconds: to_signed(v), ..acc },
                    ),
                    None => None,
                }
            } else if tag == TAG_NANOS {
                match fixed32_at(data, p, end) {
                    Some((v, q)) => time_fields(
                        data,
                        q,
                        end,
                        UnixTime { fractional_nanoseconds: Some(v), ..acc },
                    ),
                    None => None,
                }
            } else {
                match unknown_at(data, p, end, tag) {
                    Some(q) => time_fields(data, q, end, acc),
                    None => None,
                }
            },
        }
    }
}

/// The message that the fields between `pos` and `end` make of `acc`, taken
/// one after another: a later value of a field replaces an earlier one, but
/// `blocksizes` gathers its values; a field that the message does not have
/// is passed over.
pub open spec fn data_fields(data: Seq<u8>, pos: int, end: int, acc: PbDataView) -> Option<
    PbDataView,
>
    decreases end - pos,
{
    if pos >= end {
        Some(acc)
    } else {
        match varint32_at(data, pos, end) {
            None => None,
            Some((tag, p)) => if tag == TAG_TYPE {
                match varint32_at(data, p, end) {
                    Some((v, q)) => data_fields(
                        data,
                        q,
                        end,
                        PbDataView { file_type: FileType::spec_from_number(v), ..acc },
                    ),
                    None => None,
                }
            } else if tag == TAG_DATA {
                match delimited_at(data, p, end) {
                    Some((a, b)) => data_fields(data, b, end, acc),
                    None => None,
                }
            } else if tag == TAG_FILESIZE {
                match varint64_at(data, p, end) {
                    Some((v, q)) => data_fields(
                        data,
                        q,
                        end,
                        PbDataView { file_size: Some(v), ..acc },
                    ),
                    None => None,
                }
            } else if tag == TAG_BLOCKSIZES {
                match varint64_at(data, p, end) {
                    Some((v, q)) => data_fields(
                        data,
                        q,
                        end,
                        PbDataView { block_sizes: acc.block_sizes.push(v), ..acc },
                    ),
                    None => None,
                }
            } else if tag == TAG_HASHTYPE {
                match varint64_at(data, p, end) {
                    Some((v, q)) => data_fields(
                        data,
                        q,
                        end,
                        PbDataView { hash_type: Some(v), ..acc },
                    ),
                    None => None,
                }
            } else if tag == TAG_FANOUT {
                match varint64_at(data, p, end) {
                    Some((v, q)) => data_fields(data, q, end, PbDataView { fanout: Some(v), ..acc }),
                    None => None,
                }
            } else if tag == TAG_MODE {
                match varint32_at(data, p, end) {
                    Some((v, q)) => data_fields(data, q, end, PbDataView { mode: Some(v), ..acc }),
                    None => None,
                }
            } else if tag == TAG_MTIME {
                match delimited_at(data, p, end) {
                    Some((a, b)) => match time_fields(
                        data,
                        a,
                        b,
                        UnixTime { seconds: 0, fractional_nanoseconds: None },
                    ) {
                        Some(t) => data_fields(data, b, end, PbDataView { mtime: Some(t), ..acc }),
                        None => None,
                    },
                    None => None,
                }
            } else {
                match unknown_at(data, p, end, tag) {
                    Some(q) => data_fields(data, q, end, acc),
                    None => None,
                }
            },
        }
    }
}

/// The message that bytes stand for, if they stand for one.
pub open spec fn data_parse(data: Seq<u8>) -> Option<PbDataView> {
    data_fields(data, 0, data.len() as int, PbDataView::empty())
}

fn parse_time(data: &[u8], from: usize, end: usize) -> (r: Result<UnixTime, CarError>)
    requires
        from <= end <= data@.len(),
    ensures
        match time_fields(
            data@,
            from as int,
            end as int,
            UnixTime { seconds: 0, fractional_nanoseconds: None },
        ) {
            Some(t) => r is Ok && r->Ok_0 == t,
            None => r is Err && r->Err_0 is Parsing,
        },
{
    let mut acc = UnixTime { seconds: 0, fractional_nanoseconds: None };
    let mut pos = from;
    while pos < end
        invariant
            from <= pos <= end <= data@.len(),
            time_fields(
                data@,
                from as int,
                end as int,
                UnixTime { seconds: 0, fractional_nanoseconds: None },
            ) == time_fields(data@, pos as int, end as int, acc),
        decreases end - pos,
    {
        let (tag, p) = get_varint32(data, pos, end)?;
        if tag == TAG_SECONDS {
            let (v, q) = get_varint64(data, p, end)?;
            acc.seconds = signed(v);
            pos = q;
        } else if tag == TAG_NANOS {
            let (v, q) = get_fixed32(data, p, end)?;
            acc.fractional_nanoseconds = Some(v);
            pos = q;
        } else {
            let q = skip_unknown(data, p, end, tag)?;
            pos = q;
        }
    }
    Ok(acc)
}

impl PbData {
    /// The message without any field.
    pub fn new() -> (d: Self)
        ensures
            d@ == PbDataView::empty(),
    {
        PbData {
            file_type: FileType::Raw,
            file_size: None,
            block_sizes: Vec::new(),
            hash_type: None,
            fanout: None,
            mode: None,
            mtime: None,
        }
    }

    /// Reads the message that `data` stands for. Fails with a parsing error
    /// where the bytes are not fields one after another.
    #[verifier::rlimit(50)]
    pub fn from_bytes(data: &[u8]) -> (r: Result<PbData, CarError>)
        ensures
            match data_parse(data@) {
                Some(d) => r is Ok && r->Ok_0@ == d,
                None => r is Err && r->Err_0 is Parsing,
            },
    {
        let end = data.len();
        let mut acc = PbData::new();
        let mut pos: usize = 0;
        while pos < end
            invariant
                pos <= end == data@.len(),
                data_parse(data@) == data_fields(data@, pos as int, end as int, acc@),
            decreases end - pos,
        {
            let (tag, p) = get_varint32(data, pos, end)?;
            if tag == TAG_TYPE {
                let (v, q) = get_varint32(data, p, end)?;
                acc.file_type = FileType::from_number(v);
                pos = q;
            } else if tag == TAG_DATA {
                let (a, b) = get_delimited(data, p, end)?;
                pos = b;
            } else if tag == TAG_FILESIZE {
                let (v, q) = get_varint64(data, p, end)?;
                acc.file_size = Some(v);
                pos = q;
            } else if tag == TAG_BLOCKSIZES {
                let (v, q) = get_varint64(data, p, end)?;
                acc.block_sizes.push(v);
                pos = q;
            } else if tag == TAG_HASHTYPE {
                let (v, q) = get_varint64(data, p, end)?;
                acc.hash_type = Some(v);
                pos = q;
            } else if tag == TAG_FANOUT {
                let (v, q) = get_varint64(data, p, end)?;
                acc.fanout = Some(v);
                pos = q;
            } else if tag == TAG_MODE {
                let (v, q) = get_varint32(data, p, end)?;
                acc.mode = Some(v);
                pos = q;
            } else if tag == TAG_MTIME {
                let (a, b) = get_delimited(data, p, end)?;
                let t = parse_time(data, a, b)?;
                acc.mtime = Some(t);
                pos = b;
            } else {
                let q = skip_unknown(data, p, end, tag)?;
                pos = q;
            }
        }
        Ok(acc)
    }

    /// The bytes that stand for the message: its fields in the order of
    /// their numbers, those that are missing left out.
    #[verifier::rlimit(50)]
    pub fn to_bytes(&self) -> (out: Vec<u8>)
        ensures
            out@ == data_bytes(self@),
    {
        let mut out: Vec<u8> = Vec::new();
        put_varint(&mut out, TAG_TYPE as u64, self.file_type.number() as u64);
        if let Some(v) = self.file_size {
            put_varint(&mut out, TAG_FILESIZE as u64, v);
        }
        let ghost before = out@;
        let mut i: usize = 0;
        while i < self.block_sizes.len()
            invariant
                i <= self.block_sizes@.len(),
                out@ == before + sizes_bytes(self.block_sizes@.take(i as int)),
            decreases self.block_sizes@.len() - i,
        {
            put_varint(&mut out, TAG_BLOCKSIZES as u64, self.block_sizes[i]);
            proof {
                let s = self.block_sizes@;
                assert(s.take(i + 1).drop_last() =~= s.take(i as int));
            }
            i = i + 1;
        }
        proof {
            assert(self.block_sizes@.take(i as int) =~= self.block_sizes@);
        }
        if let Some(v) = self.hash_type {
            put_varint(&mut out, TAG_HASHTYPE as u64, v);
        }
        if let Some(v) = self.fanout {
            put_varint(&mut out, TAG_FANOUT as u64, v);
        }
        if let Some(v) = self.mode {
            put_varint(&mut out, TAG_MODE as u64, v as u64);
        }
        if let Some(t) = self.mtime {
            let mut inner: Vec<u8> = Vec::new();
            put_varint(&mut inner, TAG_SECONDS as u64, unsigned(t.seconds));
            if let Some(n) = t.fractional_nanoseconds {
                let tag = varint_bytes(TAG_NANOS as u64);
                append_bytes(&mut inner, tag.as_slice());
                let four = fixed32(n);
                append_bytes(&mut inner, four.as_slice());
            }
            put_varint(&mut out, TAG_MTIME as u64, inner.len() as u64);
            append_bytes(&mut out, inner.as_slice());
        }
        proof {
            assert(out@ =~= data_bytes(self@));
        }
        out
    }
}

/// Adds a field that holds a number: its tag, then the number.
fn put_varint(out: &mut Vec<u8>, tag: u64, v: u64)
    ensures
        final(out)@ == old(out)@ + field_bytes(tag, v),
{
    let t = varint_bytes(tag);
    append_bytes(out, t.as_slice());
    let n = varint_bytes(v);
    append_bytes(out, n.as_slice());
    assert(out@ =~= old(out)@ + field_bytes(tag, v));
}

/// The bytes of a field that holds a number: its tag, then the number.
pub open spec fn field_bytes(tag: u64, v: u64) -> Seq<u8> {
    varint_encode(tag as nat) + varint_encode(v as nat)
}

/// The bytes of a field that may be missing.
pub open spec fn opt_field_bytes(tag: u64, v: Option<u64>) -> Seq<u8> {
    match v {
        Some(x) => field_bytes(tag, x),
        None => Seq::empty(),
    }
}

/// The bytes of the sizes of the chunks: one field for each.
pub open spec fn sizes_bytes(sizes: Seq<u64>) -> Seq<u8>
    decreases sizes.len(),
{
    if sizes.len() == 0 {
        Seq::empty()
    } else {
        sizes_bytes(sizes.drop_last()) + field_bytes(TAG_BLOCKSIZES as u64, sizes.last())
    }
}

/// The bytes of a time: the seconds, then the fraction where there is one.
pub open spec fn time_bytes(t: UnixTime) -> Seq<u8> {
    field_bytes(TAG_SECONDS as u64, to_unsigned(t.seconds)) + (match t.fractional_nanoseconds {
        Some(n) => varint_encode(TAG_NANOS as nat) + fixed32_bytes(n),
        None => Seq::empty(),
    })
}

/// The bytes of the field that holds the time, where there is one: its
/// tag, the length of the time's bytes, those bytes.
pub open spec fn mtime_bytes(t: Option<UnixTime>) -> Seq<u8> {
    match t {
        Some(x) => field_bytes(TAG_MTIME as u64, time_bytes(x).len() as u64) + time_bytes(x),
        None => Seq::empty(),
    }
}

/// The mode, where there is one, as a number of 64 bits.
pub open spec fn opt_wide(v: Option<u32>) -> Option<u64> {
    match v {
        Some(x) => Some(x as u64),
        None => None,
    }
}

/// The bytes that stand for a message: the type, then the size of the
/// file, the sizes of the chunks, the hash function, the width, the mode
/// and the time, each where there is one.
pub open spec fn data_bytes(d: PbDataView) -> Seq<u8> {
    field_bytes(TAG_TYPE as u64, d.file_type.spec_number() as u64) + opt_field_bytes(
        TAG_FILESIZE as u64,
        d.file_size,
    ) + sizes_bytes(d.block_sizes) + opt_field_bytes(TAG_HASHTYPE as u64, d.hash_type)
        + opt_field_bytes(TAG_FANOUT as u64, d.fanout) + opt_field_bytes(
        TAG_MODE as u64,
        opt_wide(d.mode),
    ) + mtime_bytes(d.mtime)
}

} // verus!
