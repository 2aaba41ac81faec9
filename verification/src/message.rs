//! RFC 1035 section 4: the header, questions and resource records, and the
//! RFC 2136 UPDATE that reuses the four sections as zone, prerequisite,
//! update and additional. mDNS speaks RFC 6762, which is this wire format
//! with two bits repurposed. A name's label-and-pointer form is
//! [`crate::label`]'s; a record and what it carries are [`crate::record`]'s.

use vstd::prelude::*;

use crate::error::DnsError;
use crate::label;
use crate::label::{read_name, write_name};
use crate::record;
use crate::record::{
    read_record, record_bytes, DataModel, Record, RecordData, RecordModel, MAX_STRING, TYPE_OPT,
    TYPE_SOA,
};
pub use crate::record::{CLASS_IN, TYPE_TXT};
use crate::wire;
use crate::wire::{field16, push16, push_bytes};

verus! {

/// The largest message a UDP datagram carries without EDNS.
pub const UDP_CLASSIC: usize = 512;

/// The payload size this transport advertises in its OPT record.
pub const UDP_EDNS: usize = 4096;

/// The largest message at all: what a TCP length prefix can say.
pub const MAX_MESSAGE: usize = 65535;

/// The most entries a section's count can say.
pub const MAX_SECTION: usize = 65535;

/// The bytes of the fixed header.
pub const HEADER: usize = 12;

/// The header's QR bit: this is a response.
pub const FLAG_RESPONSE: u16 = 0x8000;

/// The header's AA bit: the answer is authoritative.
pub const FLAG_AUTHORITATIVE: u16 = 0x0400;

pub const OPCODE_QUERY: u16 = 0;

pub const OPCODE_UPDATE: u16 = 5;

pub const RCODE_NOERROR: u16 = 0;

pub const RCODE_FORMERR: u16 = 1;

pub const RCODE_SERVFAIL: u16 = 2;

pub const RCODE_NOTIMP: u16 = 4;

pub const RCODE_REFUSED: u16 = 5;

#[derive(Clone, Debug, PartialEq, Eq)]
pub struct Question {
    pub name: String,
    pub kind: u16,
    /// [`CLASS_IN`], with [`BIT_UNICAST`](crate::record::BIT_UNICAST) where
    /// mDNS asks a unicast answer.
    pub class: u16,
}

/// [`Question`] with its text as a sequence.
#[verifier::ext_equal]
pub struct QuestionModel {
    pub name: Seq<char>,
    pub kind: u16,
    pub class: u16,
}

impl View for Question {
    type V = QuestionModel;

    open spec fn view(&self) -> QuestionModel {
        QuestionModel { name: self.name@, kind: self.kind, class: self.class }
    }
}

/// One message, its four sections by their RFC 1035 names. An UPDATE reads
/// them as zone, prerequisite, update and additional.
#[derive(Clone, Debug, PartialEq, Eq)]
pub struct Message {
    pub id: u16,
    pub flags: u16,
    pub questions: Vec<Question>,
    pub answers: Vec<Record>,
    pub authority: Vec<Record>,
    pub additional: Vec<Record>,
}

/// [`Message`] with its sections as sequences.
#[verifier::ext_equal]
pub struct MessageModel {
    pub id: u16,
    pub flags: u16,
    pub questions: Seq<QuestionModel>,
    pub answers: Seq<RecordModel>,
    pub authority: Seq<RecordModel>,
    pub additional: Seq<RecordModel>,
}

/// Questions as the sequence of what they are.
pub open spec fn question_views(questions: Seq<Question>) -> Seq<QuestionModel> {
    Seq::new(questions.len(), |i: int| questions[i]@)
}

/// Records as the sequence of what they are.
pub open spec fn record_views(records: Seq<Record>) -> Seq<RecordModel> {
    Seq::new(records.len(), |i: int| records[i]@)
}

/// References to records as the sequence of what they refer to.
pub open spec fn reference_views(records: Seq<&Record>) -> Seq<RecordModel> {
    Seq::new(records.len(), |i: int| records[i]@)
}

impl View for Message {
    type V = MessageModel;

    open spec fn view(&self) -> MessageModel {
        MessageModel {
            id: self.id,
            flags: self.flags,
            questions: question_views(self.questions@),
            answers: record_views(self.answers@),
            authority: record_views(self.authority@),
            additional: record_views(self.additional@),
        }
    }
}

/// How many character strings a payload of `length` bytes is split into: at
/// least the one empty string.
pub open spec fn string_count(length: nat) -> nat {
    if length == 0 {
        1
    } else {
        (length + MAX_STRING - 1) as nat / MAX_STRING as nat
    }
}

/// The `i`th of the character strings `payload` is split into: 255 bytes of
/// it, or what is left.
pub open spec fn string_of(payload: Seq<u8>, i: int) -> Seq<u8> {
    payload.subrange(
        MAX_STRING * i,
        if MAX_STRING * (i + 1) < payload.len() {
            MAX_STRING * (i + 1)
        } else {
            payload.len() as int
        },
    )
}

/// The character strings `payload` is split into.
pub open spec fn split(payload: Seq<u8>) -> Seq<Seq<u8>> {
    Seq::new(string_count(payload.len()), |i: int| string_of(payload, i))
}

/// The bytes of a record's character strings: none but in TXT.
pub open spec fn string_bytes(record: RecordModel) -> Seq<u8> {
    match record.data {
        DataModel::Txt(strings) => strings.flatten(),
        _ => Seq::empty(),
    }
}

/// What the TXT records among `records` carry, in order.
pub open spec fn carried(records: Seq<RecordModel>) -> Seq<u8>
    decreases records.len(),
{
    if records.len() == 0 {
        Seq::empty()
    } else {
        carried(records.drop_last()) + string_bytes(records.last())
    }
}

/// The OPT record that says this side takes [`UDP_EDNS`] bytes over UDP.
pub open spec fn edns_record() -> RecordModel {
    RecordModel {
        name: Seq::empty(),
        kind: TYPE_OPT,
        class: UDP_EDNS as u16,
        ttl: 0,
        data: DataModel::Other(Seq::empty()),
    }
}

impl MessageModel {
    /// A message with no section filled.
    pub open spec fn bare(id: u16, flags: u16) -> MessageModel {
        MessageModel {
            id,
            flags,
            questions: Seq::empty(),
            answers: Seq::empty(),
            authority: Seq::empty(),
            additional: Seq::empty(),
        }
    }

    /// The UPDATE adding one TXT record `name` in `zone` that carries
    /// `payload`.
    pub open spec fn update(id: u16, zone: Seq<char>, name: Seq<char>, payload: Seq<u8>) -> MessageModel {
        MessageModel {
            questions: seq![QuestionModel { name: zone, kind: TYPE_SOA, class: CLASS_IN }],
            authority: seq![
                RecordModel {
                    name,
                    kind: TYPE_TXT,
                    class: CLASS_IN,
                    ttl: 0,
                    data: DataModel::Txt(split(payload)),
                },
            ],
            ..MessageModel::bare(id, OPCODE_UPDATE << 11)
        }
    }

    /// The response to this message with `rcode`.
    pub open spec fn response(self, rcode: u16) -> MessageModel {
        MessageModel {
            questions: self.questions,
            ..MessageModel::bare(
                self.id,
                FLAG_RESPONSE | (self.flags & 0x7800) | (rcode & 0x0f),
            )
        }
    }

    /// This message with the OPT record of [`edns_record`] behind its
    /// additional section.
    pub open spec fn with_edns(self) -> MessageModel {
        MessageModel { additional: self.additional.push(edns_record()), ..self }
    }

    /// The opcode, bits 11 to 14 of the flags.
    pub open spec fn opcode(self) -> u16 {
        (self.flags >> 11) & 0x0f
    }

    /// Whether this is a response, bit 15.
    pub open spec fn is_response(self) -> bool {
        self.flags & FLAG_RESPONSE != 0
    }

    /// The response code, the low four bits.
    pub open spec fn rcode(self) -> u16 {
        self.flags & 0x0f
    }

    /// Every record in every section, in order.
    pub open spec fn records(self) -> Seq<RecordModel> {
        self.answers + self.authority + self.additional
    }

    /// What the TXT records of the update section carry.
    pub open spec fn payload(self) -> Seq<u8> {
        carried(self.authority)
    }
}

/// The views of one more record.
proof fn lemma_record_views_push(records: Seq<Record>, record: Record)
    ensures
        record_views(records.push(record)) == record_views(records).push(record@),
{
    assert(record_views(records.push(record)) =~= record_views(records).push(record@));
}

/// The views of one more question.
proof fn lemma_question_views_push(questions: Seq<Question>, question: Question)
    ensures
        question_views(questions.push(question)) == question_views(questions).push(question@),
{
    assert(question_views(questions.push(question)) =~= question_views(questions).push(question@));
}

/// The character strings `payload` is split into.
fn split_strings(payload: &[u8]) -> (strings: Vec<Vec<u8>>)
    ensures
        record::string_views(strings@) == split(payload@),
{
    let total: usize = payload.len();
    let mut strings: Vec<Vec<u8>> = Vec::new();
    let mut at: usize = 0;
    while at < total
        invariant
            total == payload@.len(),
            at <= total,
            at == MAX_STRING * strings@.len() || at == total,
            at == 0 <==> strings@.len() == 0,
            MAX_STRING * (strings@.len() - 1) < at <= MAX_STRING * strings@.len(),
            forall|i: int| 0 <= i < strings@.len() ==> #[trigger] strings@[i]@ == string_of(payload@, i),
        decreases total - at,
    {
        let end: usize = if total - at > MAX_STRING {
            at + MAX_STRING
        } else {
            total
        };
        let string = vstd::slice::slice_subrange(payload, at, end);
        assert(string@ =~= string_of(payload@, strings@.len() as int));
        strings.push(vstd::slice::slice_to_vec(string));
        at = end;
    }
    if strings.len() == 0 {
        strings.push(Vec::new());
        assert(strings@[0]@ =~= string_of(payload@, 0));
    }
    assert(strings@.len() == string_count(payload@.len()));
    assert(record::string_views(strings@) =~= split(payload@));
    strings
}

/// The same questions again.
fn copy_questions(questions: &Vec<Question>) -> (copy: Vec<Question>)
    ensures
        question_views(copy@) == question_views(questions@),
{
    let mut copy: Vec<Question> = Vec::new();
    let mut i: usize = 0;
    while i < questions.len()
        invariant
            i <= questions.len(),
            question_views(copy@) == question_views(questions@).take(i as int),
        decreases questions.len() - i,
    {
        let question = &questions[i];
        let same = Question {
            name: question.name.clone(),
            kind: question.kind,
            class: question.class,
        };
        proof {
            lemma_question_views_push(copy@, same);
            assert(question_views(questions@).take(i + 1) =~= question_views(questions@).take(
                i as int,
            ).push(question@));
        }
        copy.push(same);
        i = i + 1;
    }
    assert(question_views(questions@).take(i as int) =~= question_views(questions@));
    copy
}

impl Default for Message {
    /// A query with id 0 and no section filled.
    fn default() -> (message: Message)
        ensures
            message@ == MessageModel::bare(0, 0),
    {
        let message = Message {
            id: 0,
            flags: 0,
            questions: Vec::new(),
            answers: Vec::new(),
            authority: Vec::new(),
            additional: Vec::new(),
        };
        assert(message@ =~= MessageModel::bare(0, 0));
        message
    }
}

impl Message {
    /// A query for `kind` records at `name`, id 0 as mDNS queries carry; a
    /// unicast resolver sets its own.
    #[must_use]
    pub fn query(name: &str, kind: u16) -> (message: Self)
        ensures
            message@ == (MessageModel {
                questions: seq![QuestionModel { name: name@, kind, class: CLASS_IN }],
                ..MessageModel::bare(0, 0)
            }),
    {
        let mut message = Message::default();
        let question = Question { name: name.to_string(), kind, class: CLASS_IN };
        proof {
            lemma_question_views_push(message.questions@, question);
        }
        message.questions.push(question);
        assert(message@.questions =~= seq![QuestionModel { name: name@, kind, class: CLASS_IN }]);
        message
    }

    /// An authoritative response carrying `answers`: unsolicited, an mDNS
    /// announcement, when `id` is 0.
    #[must_use]
    pub fn authoritative(id: u16, answers: Vec<Record>) -> (message: Self)
        ensures
            message@ == (MessageModel {
                answers: record_views(answers@),
                ..MessageModel::bare(id, FLAG_RESPONSE | FLAG_AUTHORITATIVE)
            }),
    {
        let mut message = Message::default();
        message.id = id;
        message.flags = FLAG_RESPONSE | FLAG_AUTHORITATIVE;
        message.answers = answers;
        message
    }

    /// An UPDATE adding one TXT record `name` in `zone` carrying `payload`,
    /// split into the 255-byte character strings TXT is made of.
    #[must_use]
    pub fn update_adding_txt(id: u16, zone: &str, name: &str, payload: &[u8]) -> (message: Self)
        ensures
            message@ == MessageModel::update(id, zone@, name@, payload@),
    {
        let strings = split_strings(payload);
        let mut message = Message::default();
        message.id = id;
        message.flags = OPCODE_UPDATE << 11;
        let question = Question { name: zone.to_string(), kind: TYPE_SOA, class: CLASS_IN };
        let record = Record {
            name: name.to_string(),
            kind: TYPE_TXT,
            class: CLASS_IN,
            ttl: 0,
            data: RecordData::Txt(strings),
        };
        proof {
            lemma_question_views_push(message.questions@, question);
            lemma_record_views_push(message.authority@, record);
        }
        message.questions.push(question);
        message.authority.push(record);
        assert(message@ =~= MessageModel::update(id, zone@, name@, payload@));
        message
    }

    /// The opcode, bits 11 to 14 of the flags.
    #[must_use]
    pub fn opcode(&self) -> (opcode: u16)
        ensures
            opcode == self@.opcode(),
    {
        (self.flags >> 11) & 0x0f
    }

    /// Whether this is a response, bit 15.
    #[must_use]
    pub fn is_response(&self) -> (response: bool)
        ensures
            response == self@.is_response(),
    {
        self.flags & FLAG_RESPONSE != 0
    }

    /// The response code, the low four bits.
    #[must_use]
    pub fn rcode(&self) -> (rcode: u16)
        ensures
            rcode == self@.rcode(),
    {
        self.flags & 0x0f
    }

    /// Every record in every section, in order.
    #[must_use]
    pub fn records(&self) -> (records: Vec<&Record>)
        ensures
            reference_views(records@) == self@.records(),
    {
        let mut records: Vec<&Record> = Vec::new();
        push_records(&mut records, &self.answers);
        push_records(&mut records, &self.authority);
        push_records(&mut records, &self.additional);
        assert(reference_views(records@) =~= self@.records());
        records
    }

    /// The payload the TXT records of the update section carry, their
    /// character strings concatenated in order.
    #[must_use]
    pub fn txt_payload(&self) -> (payload: Vec<u8>)
        ensures
            payload@ == self@.payload(),
    {
        let ghost views = record_views(self.authority@);
        let mut payload: Vec<u8> = Vec::new();
        let mut i: usize = 0;
        assert(views.take(0) =~= Seq::empty());
        while i < self.authority.len()
            invariant
                i <= self.authority.len(),
                views == record_views(self.authority@),
                payload@ == carried(views.take(i as int)),
            decreases self.authority.len() - i,
        {
            assert(views.take(i + 1).drop_last() =~= views.take(i as int));
            if let RecordData::Txt(strings) = &self.authority[i].data {
                push_strings(&mut payload, strings);
            } else {
                assert(payload@ + Seq::<u8>::empty() =~= payload@);
            }
            i = i + 1;
        }
        assert(views.take(i as int) =~= views);
        payload
    }

    /// The response to `self`: same id, opcode and question, `rcode` set.
    #[must_use]
    pub fn response(&self, rcode: u16) -> (message: Self)
        ensures
            message@ == self@.response(rcode),
    {
        let mut message = Message::default();
        message.id = self.id;
        message.flags = FLAG_RESPONSE | (self.flags & 0x7800) | (rcode & 0x0f);
        message.questions = copy_questions(&self.questions);
        message
    }

    /// Say in the additional section that this side takes [`UDP_EDNS`]
    /// bytes over UDP, RFC 6891.
    #[must_use]
    pub fn with_edns(self) -> (message: Self)
        ensures
            message@ == self@.with_edns(),
    {
        let mut message = self;
        let record = Record {
            name: String::new(),
            kind: TYPE_OPT,
            class: UDP_EDNS as u16,
            ttl: 0,
            data: RecordData::Other(Vec::new()),
        };
        assert(record@ =~= edns_record());
        proof {
            lemma_record_views_push(message.additional@, record);
        }
        message.additional.push(record);
        message
    }
}

/// Put references to `more` behind `records`.
fn push_records<'a>(records: &mut Vec<&'a Record>, more: &'a Vec<Record>)
    ensures
        reference_views(final(records)@) == reference_views(old(records)@) + record_views(more@),
{
    let ghost before = reference_views(records@);
    let mut i: usize = 0;
    assert(before + record_views(more@).take(0) =~= before);
    while i < more.len()
        invariant
            i <= more.len(),
            before == reference_views(old(records)@),
            reference_views(records@) == before + record_views(more@).take(i as int),
        decreases more.len() - i,
    {
        let ghost earlier = records@;
        records.push(&more[i]);
        assert(reference_views(records@) =~= reference_views(earlier).push(more@[i as int]@));
        assert(before + record_views(more@).take(i + 1) =~= (before + record_views(more@).take(
            i as int,
        )).push(more@[i as int]@));
        i = i + 1;
    }
    assert(record_views(more@).take(i as int) =~= record_views(more@));
}

/// Write the bytes of `strings` behind `out`.
fn push_strings(out: &mut Vec<u8>, strings: &Vec<Vec<u8>>)
    ensures
        final(out)@ == old(out)@ + record::string_views(strings@).flatten(),
{
    let ghost views = record::string_views(strings@);
    let mut i: usize = 0;
    assert(views.take(0) =~= Seq::empty());
    assert(out@ =~= old(out)@ + views.take(0).flatten());
    while i < strings.len()
        invariant
            i <= strings.len(),
            views == record::string_views(strings@),
            out@ == old(out)@ + views.take(i as int).flatten(),
        decreases strings.len() - i,
    {
        proof {
            assert(views.take(i + 1) =~= views.take(i as int).push(strings@[i as int]@));
            views.take(i as int).lemma_flatten_push(strings@[i as int]@);
        }
        push_bytes(out, strings[i].as_slice());
        assert(out@ =~= old(out)@ + views.take(i + 1).flatten());
        i = i + 1;
    }
    assert(views.take(i as int) =~= views);
}

/// A question as it is written.
pub open spec fn question_wire(question: QuestionModel) -> Result<Seq<u8>, DnsError> {
    match label::name_wire(question.name) {
        Ok(name) => Ok(name + wire::be16(question.kind) + wire::be16(question.class)),
        Err(error) => Err(error),
    }
}

/// Questions as they are written behind each other; the first that cannot
/// be is the error.
pub open spec fn questions_wire(questions: Seq<QuestionModel>) -> Result<Seq<u8>, DnsError>
    decreases questions.len(),
{
    if questions.len() == 0 {
        Ok(Seq::empty())
    } else {
        match questions_wire(questions.drop_last()) {
            Err(error) => Err(error),
            Ok(wire) => match question_wire(questions.last()) {
                Err(error) => Err(error),
                Ok(last) => Ok(wire + last),
            },
        }
    }
}

/// Records as they are written behind each other; the first that cannot be
/// is the error.
pub open spec fn records_wire(records: Seq<RecordModel>) -> Result<Seq<u8>, DnsError>
    decreases records.len(),
{
    if records.len() == 0 {
        Ok(Seq::empty())
    } else {
        match records_wire(records.drop_last()) {
            Err(error) => Err(error),
            Ok(wire) => match record::record_wire(records.last()) {
                Err(error) => Err(error),
                Ok(last) => Ok(wire + last),
            },
        }
    }
}

/// The header `message` is written with.
pub open spec fn header_wire(message: MessageModel) -> Seq<u8> {
    wire::be16(message.id) + wire::be16(message.flags) + wire::be16(
        message.questions.len() as u16,
    ) + wire::be16(message.answers.len() as u16) + wire::be16(message.authority.len() as u16)
        + wire::be16(message.additional.len() as u16)
}

/// A message as it is written: a section too long is the error before
/// anything in a section, and the whole being too long is the last.
pub open spec fn message_wire(message: MessageModel) -> Result<Seq<u8>, DnsError> {
    if message.questions.len() > MAX_SECTION || message.answers.len() > MAX_SECTION
        || message.authority.len() > MAX_SECTION || message.additional.len() > MAX_SECTION {
        Err(DnsError::LongSection)
    } else {
        match questions_wire(message.questions) {
            Err(error) => Err(error),
            Ok(questions) => match records_wire(message.records()) {
                Err(error) => Err(error),
                Ok(records) => {
                    let whole = header_wire(message) + questions + records;
                    if whole.len() > MAX_MESSAGE {
                        Err(DnsError::LongMessage)
                    } else {
                        Ok(whole)
                    }
                },
            },
        }
    }
}

/// Questions that cannot be written cannot be with more behind them.
proof fn lemma_questions_wire_error(questions: Seq<QuestionModel>, upto: int)
    requires
        0 <= upto <= questions.len(),
        questions_wire(questions.take(upto)) is Err,
    ensures
        questions_wire(questions) == questions_wire(questions.take(upto)),
    decreases questions.len(),
{
    if upto == questions.len() {
        assert(questions.take(upto) =~= questions);
    } else {
        assert(questions.drop_last().take(upto) =~= questions.take(upto));
        lemma_questions_wire_error(questions.drop_last(), upto);
    }
}

/// Records that cannot be written cannot be with more behind them.
proof fn lemma_records_wire_error(records: Seq<RecordModel>, upto: int)
    requires
        0 <= upto <= records.len(),
        records_wire(records.take(upto)) is Err,
    ensures
        records_wire(records) == records_wire(records.take(upto)),
    decreases records.len(),
{
    if upto == records.len() {
        assert(records.take(upto) =~= records);
    } else {
        assert(records.drop_last().take(upto) =~= records.take(upto));
        lemma_records_wire_error(records.drop_last(), upto);
    }
}

/// The bytes `questions` are written as.
fn questions_bytes(questions: &Vec<Question>) -> (written: Result<Vec<u8>, DnsError>)
    ensures
        written matches Ok(bytes) ==> questions_wire(question_views(questions@)) == Ok::<
            Seq<u8>,
            DnsError,
        >(bytes@),
        written matches Err(error) ==> questions_wire(question_views(questions@)) == Err::<
            Seq<u8>,
            DnsError,
        >(error),
{
    let ghost views = question_views(questions@);
    let mut out: Vec<u8> = Vec::new();
    let mut i: usize = 0;
    assert(views.take(0) =~= Seq::empty());
    while i < questions.len()
        invariant
            i <= questions.len(),
            views == question_views(questions@),
            questions_wire(views.take(i as int)) == Ok::<Seq<u8>, DnsError>(out@),
        decreases questions.len() - i,
    {
        let question = &questions[i];
        let ghost before = out@;
        assert(views.take(i + 1).drop_last() =~= views.take(i as int));
        assert(views.take(i + 1).last() == question@);
        match write_name(&mut out, question.name.as_str()) {
            Err(error) => {
                proof {
                    lemma_questions_wire_error(views, i + 1);
                }
                return Err(error);
            },
            Ok(()) => {},
        }
        push16(&mut out, question.kind);
        push16(&mut out, question.class);
        assert(out@ =~= before + question_wire(question@)->Ok_0);
        i = i + 1;
    }
    assert(views.take(i as int) =~= views);
    Ok(out)
}

/// The bytes `records` are written as.
fn records_bytes(records: &Vec<&Record>) -> (written: Result<Vec<u8>, DnsError>)
    ensures
        written matches Ok(bytes) ==> records_wire(reference_views(records@)) == Ok::<
            Seq<u8>,
            DnsError,
        >(bytes@),
        written matches Err(error) ==> records_wire(reference_views(records@)) == Err::<
            Seq<u8>,
            DnsError,
        >(error),
{
    let ghost views = reference_views(records@);
    let mut out: Vec<u8> = Vec::new();
    let mut i: usize = 0;
    assert(views.take(0) =~= Seq::empty());
    while i < records.len()
        invariant
            i <= records.len(),
            views == reference_views(records@),
            records_wire(views.take(i as int)) == Ok::<Seq<u8>, DnsError>(out@),
        decreases records.len() - i,
    {
        let record = records[i];
        assert(views.take(i + 1).drop_last() =~= views.take(i as int));
        assert(views.take(i + 1).last() == record@);
        match record_bytes(record) {
            Err(error) => {
                proof {
                    lemma_records_wire_error(views, i + 1);
                }
                return Err(error);
            },
            Ok(bytes) => {
                push_bytes(&mut out, bytes.as_slice());
            },
        }
        i = i + 1;
    }
    assert(views.take(i as int) =~= views);
    Ok(out)
}

/// Encode `message`. Names are written whole; compression is read but not
/// written, which every resolver accepts.
///
/// # Errors
/// A section of more than 65535 entries, a label over 63 bytes, a name over
/// 255, a TXT string over 255, rdata over 65535, or a message over
/// [`MAX_MESSAGE`].
pub fn encode(message: &Message) -> (written: Result<Vec<u8>, DnsError>)
    ensures
        written matches Ok(bytes) ==> message_wire(message@) == Ok::<Seq<u8>, DnsError>(bytes@)
            && bytes@.len() <= MAX_MESSAGE,
        written matches Err(error) ==> message_wire(message@) == Err::<Seq<u8>, DnsError>(error),
{
    if message.questions.len() > MAX_SECTION || message.answers.len() > MAX_SECTION
        || message.authority.len() > MAX_SECTION || message.additional.len() > MAX_SECTION {
        return Err(DnsError::LongSection);
    }
    let mut out: Vec<u8> = Vec::new();
    push16(&mut out, message.id);
    push16(&mut out, message.flags);
    push16(&mut out, message.questions.len() as u16);
    push16(&mut out, message.answers.len() as u16);
    push16(&mut out, message.authority.len() as u16);
    push16(&mut out, message.additional.len() as u16);
    assert(out@ =~= header_wire(message@));
    let questions = questions_bytes(&message.questions)?;
    push_bytes(&mut out, questions.as_slice());
    let all = message.records();
    let records = records_bytes(&all)?;
    push_bytes(&mut out, records.as_slice());
    if out.len() > MAX_MESSAGE {
        return Err(DnsError::LongMessage);
    }
    Ok(out)
}

/// The question at `at`, and where what follows it begins.
pub open spec fn question_at(bytes: Seq<u8>, at: int) -> Result<(QuestionModel, int), DnsError> {
    match label::name_at(bytes, at) {
        Err(error) => Err(error),
        Ok((name, next)) => if next + 4 > bytes.len() {
            Err(DnsError::ShortSection)
        } else {
            Ok(
                (
                    QuestionModel {
                        name,
                        kind: wire::word(bytes, next),
                        class: wire::word(bytes, next + 2),
                    },
                    next + 4,
                ),
            )
        },
    }
}

/// The `count` questions from `at` on, and where what follows begins.
pub open spec fn questions_at(bytes: Seq<u8>, at: int, count: nat) -> Result<
    (Seq<QuestionModel>, int),
    DnsError,
>
    decreases count,
{
    if count == 0 {
        Ok((Seq::empty(), at))
    } else {
        match questions_at(bytes, at, (count - 1) as nat) {
            Err(error) => Err(error),
            Ok((questions, next)) => match question_at(bytes, next) {
                Err(error) => Err(error),
                Ok((question, next)) => Ok((questions.push(question), next)),
            },
        }
    }
}

/// The `count` records from `at` on, and where what follows begins.
pub open spec fn records_at(bytes: Seq<u8>, at: int, count: nat) -> Result<
    (Seq<RecordModel>, int),
    DnsError,
>
    decreases count,
{
    if count == 0 {
        Ok((Seq::empty(), at))
    } else {
        match records_at(bytes, at, (count - 1) as nat) {
            Err(error) => Err(error),
            Ok((records, next)) => match record::record_at(bytes, next) {
                Err(error) => Err(error),
                Ok((record, next)) => Ok((records.push(record), next)),
            },
        }
    }
}

/// The message `bytes` begin with.
pub open spec fn message_at(bytes: Seq<u8>) -> Result<MessageModel, DnsError> {
    if bytes.len() < HEADER {
        Err(DnsError::ShortHeader)
    } else {
        match questions_at(bytes, HEADER as int, wire::word(bytes, 4) as nat) {
            Err(error) => Err(error),
            Ok((questions, next)) => match records_at(bytes, next, wire::word(bytes, 6) as nat) {
                Err(error) => Err(error),
                Ok((answers, next)) => match records_at(
                    bytes,
                    next,
                    wire::word(bytes, 8) as nat,
                ) {
                    Err(error) => Err(error),
                    Ok((authority, next)) => match records_at(
                        bytes,
                        next,
                        wire::word(bytes, 10) as nat,
                    ) {
                        Err(error) => Err(error),
                        Ok((additional, _)) => Ok(
                            MessageModel {
                                id: wire::word(bytes, 0),
                                flags: wire::word(bytes, 2),
                                questions,
                                answers,
                                authority,
                                additional,
                            },
                        ),
                    },
                },
            },
        }
    }
}

/// Where some questions cannot be read, more cannot be either.
proof fn lemma_questions_at_error(bytes: Seq<u8>, at: int, some: nat, count: nat)
    requires
        some <= count,
        questions_at(bytes, at, some) is Err,
    ensures
        questions_at(bytes, at, count) == questions_at(bytes, at, some),
    decreases count,
{
    if some < count {
        lemma_questions_at_error(bytes, at, some, (count - 1) as nat);
    }
}

/// Where some records cannot be read, more cannot be either.
proof fn lemma_records_at_error(bytes: Seq<u8>, at: int, some: nat, count: nat)
    requires
        some <= count,
        records_at(bytes, at, some) is Err,
    ensures
        records_at(bytes, at, count) == records_at(bytes, at, some),
    decreases count,
{
    if some < count {
        lemma_records_at_error(bytes, at, some, (count - 1) as nat);
    }
}

/// One question at `at`, and where what follows it begins.
fn read_question(bytes: &[u8], at: usize) -> (read: Result<(Question, usize), DnsError>)
    ensures
        read matches Ok((question, next)) ==> question_at(bytes@, at as int) == Ok::<
            (QuestionModel, int),
            DnsError,
        >((question@, next as int)) && at < next <= bytes@.len(),
        read matches Err(error) ==> question_at(bytes@, at as int) == Err::<
            (QuestionModel, int),
            DnsError,
        >(error),
{
    assert(bytes@.len() == bytes.len());
    let (name, next) = read_name(bytes, at)?;
    let kind: u16 = field16(bytes, next)?;
    let class: u16 = field16(bytes, next + 2)?;
    Ok((Question { name, kind, class }, next + 4))
}

/// The `count` questions from `at` on, and where what follows begins.
fn read_questions(bytes: &[u8], at: usize, count: u16) -> (read: Result<
    (Vec<Question>, usize),
    DnsError,
>)
    requires
        at <= bytes@.len(),
    ensures
        read matches Ok((questions, next)) ==> questions_at(bytes@, at as int, count as nat)
            == Ok::<(Seq<QuestionModel>, int), DnsError>(
            (question_views(questions@), next as int),
        ) && next <= bytes@.len(),
        read matches Err(error) ==> questions_at(bytes@, at as int, count as nat) == Err::<
            (Seq<QuestionModel>, int),
            DnsError,
        >(error),
{
    let mut questions: Vec<Question> = Vec::new();
    let mut here: usize = at;
    let mut i: u16 = 0;
    assert(question_views(questions@) =~= Seq::empty());
    while i < count
        invariant
            i <= count,
            here <= bytes@.len(),
            questions_at(bytes@, at as int, i as nat) == Ok::<(Seq<QuestionModel>, int), DnsError>(
                (question_views(questions@), here as int),
            ),
        decreases count - i,
    {
        match read_question(bytes, here) {
            Err(error) => {
                proof {
                    lemma_questions_at_error(bytes@, at as int, (i + 1) as nat, count as nat);
                }
                return Err(error);
            },
            Ok((question, next)) => {
                proof {
                    lemma_question_views_push(questions@, question);
                }
                questions.push(question);
                here = next;
            },
        }
        i = i + 1;
    }
    Ok((questions, here))
}

/// The `count` records from `at` on, and where what follows begins.
fn read_records(bytes: &[u8], at: usize, count: u16) -> (read: Result<
    (Vec<Record>, usize),
    DnsError,
>)
    requires
        at <= bytes@.len(),
    ensures
        read matches Ok((records, next)) ==> records_at(bytes@, at as int, count as nat) == Ok::<
            (Seq<RecordModel>, int),
            DnsError,
        >((record_views(records@), next as int)) && next <= bytes@.len(),
        read matches Err(error) ==> records_at(bytes@, at as int, count as nat) == Err::<
            (Seq<RecordModel>, int),
            DnsError,
        >(error),
{
    let mut records: Vec<Record> = Vec::new();
    let mut here: usize = at;
    let mut i: u16 = 0;
    assert(record_views(records@) =~= Seq::empty());
    while i < count
        invariant
            i <= count,
            here <= bytes@.len(),
            records_at(bytes@, at as int, i as nat) == Ok::<(Seq<RecordModel>, int), DnsError>(
                (record_views(records@), here as int),
            ),
        decreases count - i,
    {
        match read_record(bytes, here) {
            Err(error) => {
                proof {
                    lemma_records_at_error(bytes@, at as int, (i + 1) as nat, count as nat);
                }
                return Err(error);
            },
            Ok((record, next)) => {
                proof {
                    lemma_record_views_push(records@, record);
                }
                records.push(record);
                here = next;
            },
        }
        i = i + 1;
    }
    Ok((records, here))
}

/// Decode one message.
///
/// # Errors
/// Shorter than its header, a section shorter than its count, a compression
/// pointer that loops or points forward, a label over 63, or class IN rdata
/// of a known type that is not shaped as that type.
pub fn decode(bytes: &[u8]) -> (read: Result<Message, DnsError>)
    ensures
        read matches Ok(message) ==> message_at(bytes@) == Ok::<MessageModel, DnsError>(message@),
        read matches Err(error) ==> message_at(bytes@) == Err::<MessageModel, DnsError>(error),
{
    if bytes.len() < HEADER {
        return Err(DnsError::ShortHeader);
    }
    let id: u16 = field16(bytes, 0)?;
    let flags: u16 = field16(bytes, 2)?;
    let (questions, next) = read_questions(bytes, HEADER, field16(bytes, 4)?)?;
    let (answers, next) = read_records(bytes, next, field16(bytes, 6)?)?;
    let (authority, next) = read_records(bytes, next, field16(bytes, 8)?)?;
    let (additional, _) = read_records(bytes, next, field16(bytes, 10)?)?;
    Ok(Message { id, flags, questions, answers, authority, additional })
}

} // verus!
