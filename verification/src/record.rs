//! A resource record, RFC 1035 section 3.2, and what it carries by type:
//! PTR, SRV, TXT, A and AAAA, the types DNS-SD is made of and a dynamic
//! update carries. Records are written and read inside a message, where a
//! name in rdata may point back into the message before it.

use vstd::prelude::*;

use crate::error::DnsError;
use crate::label;
use crate::label::{read_name, write_name};
use crate::wire;
use crate::wire::{field16, push16, push_bytes};

verus! {

pub const TYPE_A: u16 = 1;

pub const TYPE_SOA: u16 = 6;

pub const TYPE_PTR: u16 = 12;

pub const TYPE_TXT: u16 = 16;

pub const TYPE_AAAA: u16 = 28;

pub const TYPE_SRV: u16 = 33;

pub const TYPE_OPT: u16 = 41;

pub const TYPE_ANY: u16 = 255;

pub const CLASS_IN: u16 = 1;

pub const CLASS_ANY: u16 = 255;

/// The top bit of a class: RFC 6762's QU bit on a question, its cache-flush
/// bit on a record. Unicast DNS assigns no class there, so a record's rdata
/// is read by its type whether the bit is set or not.
pub const BIT_UNICAST: u16 = 0x8000;

/// The most bytes a TXT character string has, RFC 1035 section 3.3.
pub const MAX_STRING: usize = 255;

/// The most bytes of rdata a record's length field can say.
pub const MAX_RDATA: usize = 65535;

/// What a record carries, by type. Read by type only in class IN, where RFC
/// 1035 defines these shapes; any other class (the ANY and NONE of an RFC
/// 2136 update, the payload size of an OPT) keeps its rdata as it came.
#[derive(Clone, Debug, PartialEq, Eq)]
pub enum RecordData {
    Ptr(String),
    Srv { priority: u16, weight: u16, port: u16, target: String },
    /// The character strings, each at most 255 bytes, every one kept: a
    /// record of one empty string is the empty TXT RFC 6763 section 6.1
    /// asks for, a record of none is the empty rdata of an update.
    Txt(Vec<Vec<u8>>),
    /// The four octets of an IPv4 address.
    A([u8; 4]),
    /// The sixteen octets of an IPv6 address.
    Aaaa([u8; 16]),
    /// Any other type or class, as it came.
    Other(Vec<u8>),
}

/// [`RecordData`] with its text and bytes as sequences.
#[verifier::ext_equal]
pub enum DataModel {
    Ptr(Seq<char>),
    Srv { priority: u16, weight: u16, port: u16, target: Seq<char> },
    Txt(Seq<Seq<u8>>),
    A(Seq<u8>),
    Aaaa(Seq<u8>),
    Other(Seq<u8>),
}

/// The strings of a TXT record as sequences.
pub open spec fn string_views(strings: Seq<Vec<u8>>) -> Seq<Seq<u8>> {
    Seq::new(strings.len(), |i: int| strings[i]@)
}

impl View for RecordData {
    type V = DataModel;

    open spec fn view(&self) -> DataModel {
        match self {
            RecordData::Ptr(target) => DataModel::Ptr(target@),
            RecordData::Srv { priority, weight, port, target } => DataModel::Srv {
                priority: *priority,
                weight: *weight,
                port: *port,
                target: target@,
            },
            RecordData::Txt(strings) => DataModel::Txt(string_views(strings@)),
            RecordData::A(octets) => DataModel::A(octets@),
            RecordData::Aaaa(octets) => DataModel::Aaaa(octets@),
            RecordData::Other(bytes) => DataModel::Other(bytes@),
        }
    }
}

#[derive(Clone, Debug, PartialEq, Eq)]
pub struct Record {
    pub name: String,
    pub kind: u16,
    /// [`CLASS_IN`], with [`BIT_UNICAST`] where an mDNS record replaces the
    /// cache.
    pub class: u16,
    pub ttl: u32,
    pub data: RecordData,
}

/// [`Record`] with its text and bytes as sequences.
#[verifier::ext_equal]
pub struct RecordModel {
    pub name: Seq<char>,
    pub kind: u16,
    pub class: u16,
    pub ttl: u32,
    pub data: DataModel,
}

impl View for Record {
    type V = RecordModel;

    open spec fn view(&self) -> RecordModel {
        RecordModel {
            name: self.name@,
            kind: self.kind,
            class: self.class,
            ttl: self.ttl,
            data: self.data@,
        }
    }
}

/// Character strings as they are written, each behind its length.
pub open spec fn strings_wire(strings: Seq<Seq<u8>>) -> Result<Seq<u8>, DnsError>
    decreases strings.len(),
{
    if strings.len() == 0 {
        Ok(Seq::empty())
    } else {
        match strings_wire(strings.drop_last()) {
            Err(error) => Err(error),
            Ok(wire) => if strings.last().len() > MAX_STRING {
                Err(DnsError::LongString)
            } else {
                Ok(wire.push(strings.last().len() as u8) + strings.last())
            },
        }
    }
}

/// The rdata `data` is written as.
pub open spec fn rdata_wire(data: DataModel) -> Result<Seq<u8>, DnsError> {
    match data {
        DataModel::Ptr(target) => label::name_wire(target),
        DataModel::Srv { priority, weight, port, target } => match label::name_wire(target) {
            Ok(name) => Ok(wire::be16(priority) + wire::be16(weight) + wire::be16(port) + name),
            Err(error) => Err(error),
        },
        DataModel::Txt(strings) => strings_wire(strings),
        DataModel::A(octets) => Ok(octets),
        DataModel::Aaaa(octets) => Ok(octets),
        DataModel::Other(bytes) => Ok(bytes),
    }
}

/// Strings that cannot be written cannot be with more behind them.
proof fn lemma_strings_wire_error(strings: Seq<Seq<u8>>, upto: int)
    requires
        0 <= upto <= strings.len(),
        strings_wire(strings.take(upto)) is Err,
    ensures
        strings_wire(strings) == strings_wire(strings.take(upto)),
    decreases strings.len(),
{
    if upto == strings.len() {
        assert(strings.take(upto) =~= strings);
    } else {
        assert(strings.drop_last().take(upto) =~= strings.take(upto));
        lemma_strings_wire_error(strings.drop_last(), upto);
    }
}

/// Write `strings` behind each other, each behind its length.
fn write_strings(strings: &Vec<Vec<u8>>) -> (written: Result<Vec<u8>, DnsError>)
    ensures
        written matches Ok(bytes) ==> strings_wire(string_views(strings@)) == Ok::<
            Seq<u8>,
            DnsError,
        >(bytes@),
        written matches Err(error) ==> strings_wire(string_views(strings@)) == Err::<
            Seq<u8>,
            DnsError,
        >(error),
{
    let ghost views = string_views(strings@);
    let mut out: Vec<u8> = Vec::new();
    let mut i: usize = 0;
    assert(views.take(0) =~= Seq::empty());
    while i < strings.len()
        invariant
            i <= strings.len(),
            views == string_views(strings@),
            strings_wire(views.take(i as int)) == Ok::<Seq<u8>, DnsError>(out@),
        decreases strings.len() - i,
    {
        let string = &strings[i];
        assert(views.take(i + 1).drop_last() =~= views.take(i as int));
        assert(views.take(i + 1).last() == string@);
        if string.len() > MAX_STRING {
            proof {
                lemma_strings_wire_error(views, i + 1);
            }
            return Err(DnsError::LongString);
        }
        out.push(string.len() as u8);
        push_bytes(&mut out, string.as_slice());
        i = i + 1;
    }
    assert(views.take(i as int) =~= views);
    Ok(out)
}

/// The rdata `data` is written as.
///
/// # Errors
/// A label over 63 bytes, a name over 255, or a TXT string over 255 bytes.
pub fn rdata(data: &RecordData) -> (written: Result<Vec<u8>, DnsError>)
    ensures
        written matches Ok(bytes) ==> rdata_wire(data@) == Ok::<Seq<u8>, DnsError>(bytes@),
        written matches Err(error) ==> rdata_wire(data@) == Err::<Seq<u8>, DnsError>(error),
{
    let mut out: Vec<u8> = Vec::new();
    match data {
        RecordData::Ptr(target) => {
            write_name(&mut out, target.as_str())?;
            assert(out@ =~= label::name_wire(target@)->Ok_0);
        },
        RecordData::Srv { priority, weight, port, target } => {
            push16(&mut out, *priority);
            push16(&mut out, *weight);
            push16(&mut out, *port);
            write_name(&mut out, target.as_str())?;
            assert(out@ =~= wire::be16(*priority) + wire::be16(*weight) + wire::be16(*port)
                + label::name_wire(target@)->Ok_0);
        },
        RecordData::Txt(strings) => {
            return write_strings(strings);
        },
        RecordData::A(octets) => {
            push_bytes(&mut out, octets);
            assert(out@ =~= octets@);
        },
        RecordData::Aaaa(octets) => {
            push_bytes(&mut out, octets);
            assert(out@ =~= octets@);
        },
        RecordData::Other(bytes) => {
            push_bytes(&mut out, bytes.as_slice());
            assert(out@ =~= bytes@);
        },
    }
    Ok(out)
}

/// A record as it is written.
pub open spec fn record_wire(record: RecordModel) -> Result<Seq<u8>, DnsError> {
    match label::name_wire(record.name) {
        Err(error) => Err(error),
        Ok(name) => match rdata_wire(record.data) {
            Err(error) => Err(error),
            Ok(rdata) => if rdata.len() > MAX_RDATA {
                Err(DnsError::LongRdata)
            } else {
                Ok(
                    name + wire::be16(record.kind) + wire::be16(record.class) + wire::be32(
                        record.ttl,
                    ) + wire::be16(rdata.len() as u16) + rdata,
                )
            },
        },
    }
}

/// The bytes `record` is written as.
///
/// # Errors
/// A name or a TXT string too long, or more rdata than a record carries.
pub fn record_bytes(record: &Record) -> (written: Result<Vec<u8>, DnsError>)
    ensures
        written matches Ok(bytes) ==> record_wire(record@) == Ok::<Seq<u8>, DnsError>(bytes@),
        written matches Err(error) ==> record_wire(record@) == Err::<Seq<u8>, DnsError>(error),
{
    let mut out: Vec<u8> = Vec::new();
    write_name(&mut out, record.name.as_str())?;
    push16(&mut out, record.kind);
    push16(&mut out, record.class);
    wire::push32(&mut out, record.ttl);
    let rdata = rdata(&record.data)?;
    if rdata.len() > MAX_RDATA {
        return Err(DnsError::LongRdata);
    }
    push16(&mut out, rdata.len() as u16);
    push_bytes(&mut out, rdata.as_slice());
    assert(out@ =~= record_wire(record@)->Ok_0);
    Ok(out)
}

/// Whether rdata is read by type under this class: class IN, with or
/// without [`BIT_UNICAST`].
pub open spec fn is_class_in(class: u16) -> bool {
    class == CLASS_IN || class == CLASS_IN + BIT_UNICAST
}

/// The top bit of a class makes no difference to how its rdata is read.
pub proof fn law_class_is_read_without_its_top_bit(class: u16)
    ensures
        is_class_in(class) <==> class & !BIT_UNICAST == CLASS_IN,
{
    assert((class & !0x8000u16 == 1) == (class == 1 || class == 0x8001)) by (bit_vector);
}

/// The character strings from `at` to the end of `raw`.
pub open spec fn strings_from(raw: Seq<u8>, at: int) -> Result<Seq<Seq<u8>>, DnsError>
    decreases raw.len() - at,
{
    if at < 0 || at >= raw.len() {
        Ok(Seq::empty())
    } else if at + 1 + raw[at] > raw.len() {
        Err(DnsError::ShortString)
    } else {
        match strings_from(raw, at + 1 + raw[at]) {
            Ok(rest) => Ok(seq![raw.subrange(at + 1, at + 1 + raw[at])] + rest),
            Err(error) => Err(error),
        }
    }
}

/// The `length` bytes of rdata at `start`, read as `kind`. A name in them is
/// read in the whole message, since it may point back into it, and ends where
/// they do.
pub open spec fn data_at(bytes: Seq<u8>, start: int, length: int, kind: u16) -> Result<
    DataModel,
    DnsError,
> {
    let raw = bytes.subrange(start, start + length);
    if kind == TYPE_PTR {
        match label::name_at(bytes, start) {
            Ok((target, next)) => if next == start + length {
                Ok(DataModel::Ptr(target))
            } else {
                Err(DnsError::NameLength)
            },
            Err(error) => Err(error),
        }
    } else if kind == TYPE_SRV {
        if length < 6 {
            Err(DnsError::ShortSection)
        } else {
            match label::name_at(bytes, start + 6) {
                Ok((target, next)) => if next == start + length {
                    Ok(
                        DataModel::Srv {
                            priority: wire::word(raw, 0),
                            weight: wire::word(raw, 2),
                            port: wire::word(raw, 4),
                            target,
                        },
                    )
                } else {
                    Err(DnsError::NameLength)
                },
                Err(error) => Err(error),
            }
        }
    } else if kind == TYPE_TXT {
        match strings_from(raw, 0) {
            Ok(strings) => Ok(DataModel::Txt(strings)),
            Err(error) => Err(error),
        }
    } else if kind == TYPE_A {
        if length == 4 {
            Ok(DataModel::A(raw))
        } else {
            Err(DnsError::AddressLength)
        }
    } else if kind == TYPE_AAAA {
        if length == 16 {
            Ok(DataModel::Aaaa(raw))
        } else {
            Err(DnsError::LongAddressLength)
        }
    } else {
        Ok(DataModel::Other(raw))
    }
}

/// The record at `at`, and where the next begins.
pub open spec fn record_at(bytes: Seq<u8>, at: int) -> Result<(RecordModel, int), DnsError> {
    match label::name_at(bytes, at) {
        Err(error) => Err(error),
        Ok((name, next)) => if next + 10 > bytes.len() {
            Err(DnsError::ShortSection)
        } else {
            let kind = wire::word(bytes, next);
            let class = wire::word(bytes, next + 2);
            let length = wire::word(bytes, next + 8);
            let start = next + 10;
            if start + length > bytes.len() {
                Err(DnsError::ShortSection)
            } else {
                let data = if is_class_in(class) {
                    data_at(bytes, start, length as int, kind)
                } else {
                    Ok(DataModel::Other(bytes.subrange(start, start + length)))
                };
                match data {
                    Err(error) => Err(error),
                    Ok(data) => Ok(
                        (
                            RecordModel { name, kind, class, ttl: wire::long(bytes, next + 4), data },
                            start + length,
                        ),
                    ),
                }
            }
        },
    }
}

/// The character strings `raw` is made of.
fn read_strings(raw: &[u8]) -> (read: Result<Vec<Vec<u8>>, DnsError>)
    ensures
        read matches Ok(strings) ==> strings_from(raw@, 0) == Ok::<Seq<Seq<u8>>, DnsError>(
            string_views(strings@),
        ),
        read matches Err(error) ==> strings_from(raw@, 0) == Err::<Seq<Seq<u8>>, DnsError>(error),
{
    let mut strings: Vec<Vec<u8>> = Vec::new();
    let mut at: usize = 0;
    let ghost goal = strings_from(raw@, 0);
    proof {
        if goal is Ok {
            assert(string_views(strings@) + goal->Ok_0 =~= goal->Ok_0);
        }
    }
    while at < raw.len()
        invariant
            at <= raw@.len(),
            goal == strings_from(raw@, 0),
            match strings_from(raw@, at as int) {
                Ok(rest) => goal == Ok::<Seq<Seq<u8>>, DnsError>(string_views(strings@) + rest),
                Err(error) => goal == Err::<Seq<Seq<u8>>, DnsError>(error),
            },
        decreases raw.len() - at,
    {
        let length: usize = raw[at] as usize;
        if raw.len() - at - 1 < length {
            return Err(DnsError::ShortString);
        }
        let string = vstd::slice::slice_subrange(raw, at + 1, at + 1 + length);
        let ghost done = string_views(strings@);
        strings.push(vstd::slice::slice_to_vec(string));
        proof {
            assert(string_views(strings@) =~= done.push(string@));
            match strings_from(raw@, at + 1 + length) {
                Ok(rest) => {
                    assert(done + (seq![string@] + rest) =~= done.push(string@) + rest);
                },
                Err(_) => {},
            }
        }
        at = at + 1 + length;
    }
    assert(string_views(strings@) + Seq::<Seq<u8>>::empty() =~= string_views(strings@));
    Ok(strings)
}

/// The `length` bytes of rdata at `start`, read as `kind`.
fn read_data(bytes: &[u8], start: usize, length: usize, kind: u16) -> (read: Result<
    RecordData,
    DnsError,
>)
    requires
        start + length <= bytes@.len(),
    ensures
        read matches Ok(data) ==> data_at(bytes@, start as int, length as int, kind) == Ok::<
            DataModel,
            DnsError,
        >(data@),
        read matches Err(error) ==> data_at(bytes@, start as int, length as int, kind) == Err::<
            DataModel,
            DnsError,
        >(error),
{
    assert(bytes@.len() == bytes.len());
    let raw = vstd::slice::slice_subrange(bytes, start, start + length);
    if kind == TYPE_PTR {
        let (target, next) = read_name(bytes, start)?;
        if next != start + length {
            return Err(DnsError::NameLength);
        }
        Ok(RecordData::Ptr(target))
    } else if kind == TYPE_SRV {
        let priority: u16 = field16(raw, 0)?;
        let weight: u16 = field16(raw, 2)?;
        let port: u16 = field16(raw, 4)?;
        let (target, next) = read_name(bytes, start + 6)?;
        if next != start + length {
            return Err(DnsError::NameLength);
        }
        Ok(RecordData::Srv { priority, weight, port, target })
    } else if kind == TYPE_TXT {
        let strings = read_strings(raw)?;
        Ok(RecordData::Txt(strings))
    } else if kind == TYPE_A {
        if length != 4 {
            return Err(DnsError::AddressLength);
        }
        let octets: [u8; 4] = [raw[0], raw[1], raw[2], raw[3]];
        assert(octets@ =~= raw@);
        Ok(RecordData::A(octets))
    } else if kind == TYPE_AAAA {
        if length != 16 {
            return Err(DnsError::LongAddressLength);
        }
        let octets: [u8; 16] = [
            raw[0],
            raw[1],
            raw[2],
            raw[3],
            raw[4],
            raw[5],
            raw[6],
            raw[7],
            raw[8],
            raw[9],
            raw[10],
            raw[11],
            raw[12],
            raw[13],
            raw[14],
            raw[15],
        ];
        assert(octets@ =~= raw@);
        Ok(RecordData::Aaaa(octets))
    } else {
        Ok(RecordData::Other(vstd::slice::slice_to_vec(raw)))
    }
}

/// One record at `at`, and where the next begins.
///
/// # Errors
/// A record shorter than its fields, or class IN rdata of a known type not
/// shaped as that type.
pub fn read_record(bytes: &[u8], at: usize) -> (read: Result<(Record, usize), DnsError>)
    ensures
        read matches Ok((record, next)) ==> record_at(bytes@, at as int) == Ok::<
            (RecordModel, int),
            DnsError,
        >((record@, next as int)) && at < next <= bytes@.len(),
        read matches Err(error) ==> record_at(bytes@, at as int) == Err::<
            (RecordModel, int),
            DnsError,
        >(error),
{
    let total: usize = bytes.len();
    let (name, next) = read_name(bytes, at)?;
    let kind: u16 = field16(bytes, next)?;
    let class: u16 = field16(bytes, next + 2)?;
    let high: u16 = field16(bytes, next + 4)?;
    let low: u16 = field16(bytes, next + 6)?;
    let ttl: u32 = high as u32 * 65536 + low as u32;
    let length: usize = field16(bytes, next + 8)? as usize;
    let start: usize = next + 10;
    if total - start < length {
        return Err(DnsError::ShortSection);
    }
    proof {
        law_class_is_read_without_its_top_bit(class);
    }
    let data = if class & !BIT_UNICAST == CLASS_IN {
        read_data(bytes, start, length, kind)?
    } else {
        let raw = vstd::slice::slice_subrange(bytes, start, start + length);
        RecordData::Other(vstd::slice::slice_to_vec(raw))
    };
    Ok((Record { name, kind, class, ttl, data }, start + length))
}

} // verus!
