//! What goes out, what it earns and what the answer means, said of bytes,
//! flags and text.

use vstd::prelude::*;

use crate::error::DnsError;
use crate::label;
use crate::laws::lengths;
use crate::laws::shapes;
use crate::laws::strings;
use crate::laws::texts;
use crate::laws::writing;
use crate::message;
use crate::message::MessageModel;
use crate::record;
use crate::record::{DataModel, RecordModel};
use crate::text;
use crate::transport;
use crate::transport::{ArrivedModel, TransportModel};

verus! {

/// The zone a message is about is the name of its first question, and the
/// name it updates that of its first update record.
pub proof fn law_zone_and_name_are_the_first(message: MessageModel)
    ensures
        message.questions.len() > 0 ==> transport::zone_of(message) == message.questions[0].name,
        message.questions.len() == 0 ==> transport::zone_of(message).len() == 0,
        message.authority.len() > 0 ==> transport::name_of(message) == message.authority[0].name,
        message.authority.len() == 0 ==> transport::name_of(message).len() == 0,
{
}

/// Whether two texts are as long, and in each place have one character, or
/// an ASCII letter once as a capital and once small.
pub open spec fn differ_in_case_alone(a: Seq<char>, b: Seq<char>) -> bool {
    a.len() == b.len() && forall|i: int|
        0 <= i < a.len() ==> a[i] == b[i] || texts::is_capital_of(#[trigger] a[i], b[i])
            || texts::is_capital_of(b[i], a[i])
}

/// A message whose opcode is not 5 earns 4, NOTIMP, and carries nothing. An
/// update to a zone that differs from the receiver's in more than case earns
/// 5, REFUSED, and carries nothing, unless the receiver has no zone. Any
/// other update earns 0, NOERROR, and carries what its update section does,
/// from `dns://peer/name?zone=zone&id=id`.
pub proof fn law_a_message_earns_its_rcode(
    receiver: TransportModel,
    peer: Seq<char>,
    message: MessageModel,
)
    ensures
        receiver.judged(peer, message) == if message.flags / 0x800 % 16 != 5 {
            (4u16, None::<ArrivedModel>)
        } else if receiver.zone.len() > 0 && !differ_in_case_alone(
            transport::zone_of(message),
            receiver.zone,
        ) {
            (5u16, None)
        } else {
            (
                0u16,
                Some(
                    ArrivedModel {
                        origin_uri: "dns://"@ + peer + "/"@ + transport::name_of(message)
                            + "?zone="@ + transport::zone_of(message) + "&id="@ + text::decimal(
                            message.id as nat,
                        ),
                        bytes: message::carried(message.authority),
                    },
                ),
            )
        },
{
    shapes::law_flags_are_read_bit_by_bit(message);
    texts::law_only_ascii_letters_have_case(transport::zone_of(message), receiver.zone);
}

/// The response to a message, field by field.
proof fn lemma_response_is(message: MessageModel, rcode: u16)
    requires
        rcode < 16,
    ensures
        message.response(rcode) == (MessageModel {
            id: message.id,
            flags: (0x8000 + (message.flags / 0x800 % 16) * 0x800 + rcode) as u16,
            questions: message.questions,
            answers: Seq::empty(),
            authority: Seq::empty(),
            additional: Seq::empty(),
        }),
{
    shapes::law_a_response_is_made_of(message, rcode);
    assert(message.response(rcode).answers =~= Seq::empty());
    assert(message.response(rcode).authority =~= Seq::empty());
    assert(message.response(rcode).additional =~= Seq::empty());
}

/// What is answered is the response of the rcode earned: the id and the
/// questions of the message, the flags of a response to its opcode, and no
/// record. What is not DNS, or whose questions cannot be written, is not
/// answered.
pub proof fn law_what_arrives_is_answered_as_it_earned(
    receiver: TransportModel,
    peer: Seq<char>,
    bytes: Seq<u8>,
)
    ensures
        match message::message_at(bytes) {
            Err(error) => receiver.answered(peer, bytes) == Err::<
                transport::AnswerModel,
                DnsError,
            >(error),
            Ok(message) => {
                let (rcode, arrived) = receiver.judged(peer, message);
                let response = MessageModel {
                    id: message.id,
                    flags: (0x8000 + (message.flags / 0x800 % 16) * 0x800 + rcode) as u16,
                    questions: message.questions,
                    answers: Seq::empty(),
                    authority: Seq::empty(),
                    additional: Seq::empty(),
                };
                match receiver.answered(peer, bytes) {
                    Ok(answer) => answer.arrived == arrived && message::message_wire(response)
                        == Ok::<Seq<u8>, DnsError>(answer.bytes),
                    Err(error) => message::message_wire(response) == Err::<Seq<u8>, DnsError>(
                        error,
                    ),
                }
            },
        },
{
    if let Ok(message) = message::message_at(bytes) {
        law_a_message_earns_its_rcode(receiver, peer, message);
        lemma_response_is(message, receiver.judged(peer, message).0);
    }
}

/// An answer is accepted where its id is the update's and the low four bits
/// of its flags are zero; it says that the server failed where they are two;
/// anything else it says is the reason why the update was refused.
pub proof fn law_an_answer_means_its_low_four_bits(id: u16, message: MessageModel)
    ensures
        message.id != id ==> transport::settled(id, message) == Err::<MessageModel, DnsError>(
            DnsError::OtherAnswer,
        ),
        message.id == id && message.flags % 16 == 0 ==> transport::settled(id, message) == Ok::<
            MessageModel,
            DnsError,
        >(message),
        message.id == id && message.flags % 16 == 2 ==> transport::settled(id, message) == Err::<
            MessageModel,
            DnsError,
        >(DnsError::ServerFailure),
        message.id == id && message.flags % 16 != 0 && message.flags % 16 != 2
            ==> transport::settled(id, message) == Err::<MessageModel, DnsError>(
            DnsError::Refused { rcode: message.flags % 16 },
        ),
        transport::settled(id, message) is Ok ==> message.id == id && message.flags % 16 == 0,
{
    shapes::law_flags_are_read_bit_by_bit(message);
}

/// The bytes of an answer mean what the message in them does.
pub proof fn law_an_answer_is_read_and_settled(id: u16, bytes: Seq<u8>)
    ensures
        match message::message_at(bytes) {
            Err(error) => transport::accepted(id, bytes) == Err::<MessageModel, DnsError>(error),
            Ok(message) => transport::accepted(id, bytes) == if message.id != id {
                Err::<MessageModel, DnsError>(DnsError::OtherAnswer)
            } else if message.flags % 16 == 0 {
                Ok(message)
            } else if message.flags % 16 == 2 {
                Err(DnsError::ServerFailure)
            } else {
                Err(DnsError::Refused { rcode: message.flags % 16 })
            },
        },
{
    if let Ok(message) = message::message_at(bytes) {
        law_an_answer_means_its_low_four_bits(id, message);
    }
}

/// An answer that was refused says which of the codes it was by number, and
/// a payload over the ceiling says both numbers.
pub proof fn law_errors_say_their_numbers(rcode: u16, bytes: usize, ceiling: usize)
    ensures
        (DnsError::Refused { rcode }).words() == "the server answered rcode "@ + text::decimal(
            rcode as nat,
        ),
        (DnsError::OverCeiling { bytes, ceiling }).words() == text::decimal(bytes as nat)
            + " bytes is over the "@ + text::decimal(ceiling as nat)
            + " one update carries in a message"@,
{
}

/// What arrives, what is answered and what goes out are modelled by all their
/// fields.
pub proof fn law_what_is_handed_over_is_modelled_whole(
    arrived: transport::Arrived,
    answer: transport::Answer,
    outgoing: transport::Outgoing,
)
    ensures
        arrived@.origin_uri == arrived.origin_uri@,
        arrived@.bytes == arrived.bytes@,
        answer@.bytes == answer.bytes@,
        answer@.arrived == transport::arrived_view(answer.arrived),
        transport::arrived_view(Some(arrived)) == Some(arrived@),
        transport::arrived_view(None) == None::<ArrivedModel>,
        outgoing@.address == outgoing.address@,
        outgoing@.id == outgoing.id,
        outgoing@.bytes == outgoing.bytes@,
{
}

/// The bytes of an update under `id`, of `rdata` in its TXT record, with
/// `zone` and `name` as they are written.
pub open spec fn update_bytes(
    id: u16,
    zone: Seq<u8>,
    name: Seq<u8>,
    rdata: Seq<u8>,
    edns: bool,
) -> Seq<u8> {
    let opt = if edns {
        seq![0u8, 0, 41, 0x10, 0, 0, 0, 0, 0, 0, 0]
    } else {
        Seq::empty()
    };
    let count: u8 = if edns {
        1
    } else {
        0
    };
    seq![(id / 0x100) as u8, (id % 0x100) as u8, 0x28, 0, 0, 1, 0, 0, 0, 1, 0, count] + zone
        + seq![0u8, 6, 0, 1] + name + seq![
        0u8,
        16,
        0,
        1,
        0,
        0,
        0,
        0,
        (rdata.len() / 0x100) as u8,
        (rdata.len() % 0x100) as u8,
    ] + rdata + opt
}

/// The record of an update as it is written.
proof fn lemma_txt_record_bytes(name: Seq<char>, parts: Seq<Seq<u8>>)
    requires
        label::name_wire(name) is Ok,
        strings::are_short(parts),
    ensures
        ({
            let wire = label::name_wire(name)->Ok_0;
            let rdata = strings::string_pieces(parts).flatten();
            let record = RecordModel {
                name,
                kind: 16,
                class: 1,
                ttl: 0,
                data: DataModel::Txt(parts),
            };
            record::record_wire(record) == if rdata.len() > 65535 {
                Err::<Seq<u8>, DnsError>(DnsError::LongRdata)
            } else {
                Ok(
                    wire + seq![
                        0u8,
                        16,
                        0,
                        1,
                        0,
                        0,
                        0,
                        0,
                        (rdata.len() / 0x100) as u8,
                        (rdata.len() % 0x100) as u8,
                    ] + rdata,
                )
            }
        }),
{
    let wire = label::name_wire(name)->Ok_0;
    let rdata = strings::string_pieces(parts).flatten();
    let record = RecordModel { name, kind: 16, class: 1, ttl: 0, data: DataModel::Txt(parts) };
    writing::law_rdata_is_written_by_type(record.data);
    if rdata.len() <= 65535 {
        assert(record::record_wire(record)->Ok_0 =~= wire + seq![
            0u8,
            16,
            0,
            1,
            0,
            0,
            0,
            0,
            (rdata.len() / 0x100) as u8,
            (rdata.len() % 0x100) as u8,
        ] + rdata);
    }
}

/// The OPT record as it is written.
proof fn lemma_opt_record_bytes()
    ensures
        record::record_wire(message::edns_record()) == Ok::<Seq<u8>, DnsError>(
            seq![0u8, 0, 41, 0x10, 0, 0, 0, 0, 0, 0, 0],
        ),
{
    let record = message::edns_record();
    assert(label::labels(record.name) =~= Seq::empty());
    assert(Seq::<u8>::empty().push(0) =~= seq![0u8]);
    assert(record::record_wire(record)->Ok_0 =~= seq![0u8, 0, 41, 0x10, 0, 0, 0, 0, 0, 0, 0]);
}

/// The records of an update as they are written.
proof fn lemma_update_records(txt: RecordModel, edns: bool)
    ensures
        ({
            let opt = message::edns_record();
            let records = if edns {
                seq![txt, opt]
            } else {
                seq![txt]
            };
            message::records_wire(records) == match record::record_wire(txt) {
                Err(error) => Err::<Seq<u8>, DnsError>(error),
                Ok(bytes) => Ok(
                    bytes + if edns {
                        seq![0u8, 0, 41, 0x10, 0, 0, 0, 0, 0, 0, 0]
                    } else {
                        Seq::empty()
                    },
                ),
            }
        }),
{
    let opt = message::edns_record();
    lemma_opt_record_bytes();
    lengths::lemma_records_wire_alone(txt);
    assert(seq![txt, opt].drop_last() =~= seq![txt]);
    if let Ok(bytes) = record::record_wire(txt) {
        assert(bytes + Seq::<u8>::empty() =~= bytes);
    }
}

/// The header of an update.
proof fn lemma_update_header(message: MessageModel, edns: bool)
    requires
        message.flags == 0x2800,
        message.questions.len() == 1,
        message.answers.len() == 0,
        message.authority.len() == 1,
        message.additional.len() == if edns {
            1nat
        } else {
            0
        },
    ensures
        message::header_wire(message) == seq![
            (message.id / 0x100) as u8,
            (message.id % 0x100) as u8,
            0x28,
            0,
            0,
            1,
            0,
            0,
            0,
            1,
            0,
            if edns {
                1u8
            } else {
                0
            },
        ],
{
    assert(message::header_wire(message) =~= seq![
        (message.id / 0x100) as u8,
        (message.id % 0x100) as u8,
        0x28,
        0,
        0,
        1,
        0,
        0,
        0,
        1,
        0,
        if edns {
            1u8
        } else {
            0
        },
    ]);
}

/// A question for the zone of an update as it is written.
proof fn lemma_zone_question_bytes(zone: Seq<char>)
    ensures
        message::questions_wire(seq![message::QuestionModel { name: zone, kind: 6, class: 1 }])
            == match label::name_wire(zone) {
            Err(error) => Err::<Seq<u8>, DnsError>(error),
            Ok(wire) => Ok(wire + seq![0u8, 6, 0, 1]),
        },
{
    let question = message::QuestionModel { name: zone, kind: 6, class: 1 };
    lengths::lemma_questions_wire_alone(question);
    if let Ok(wire) = label::name_wire(zone) {
        assert(message::question_wire(question)->Ok_0 =~= wire + seq![0u8, 6, 0, 1]);
    }
}

/// An update as it is written.
#[verifier::rlimit(40)]
proof fn lemma_update_wire(
    id: u16,
    zone: Seq<char>,
    name: Seq<char>,
    payload: Seq<u8>,
    edns: bool,
)
    ensures
        ({
            let update = lengths::update_with(id, zone, name, payload, edns);
            let rdata = strings::string_pieces(message::split(payload)).flatten();
            match (label::name_wire(zone), label::name_wire(name)) {
                (Err(error), _) => message::message_wire(update) == Err::<Seq<u8>, DnsError>(error),
                (_, Err(error)) => message::message_wire(update) == Err::<Seq<u8>, DnsError>(error),
                (Ok(z), Ok(n)) => {
                    let bytes = update_bytes(id, z, n, rdata, edns);
                    message::message_wire(update) == if rdata.len() > 65535 {
                        Err::<Seq<u8>, DnsError>(DnsError::LongRdata)
                    } else if bytes.len() > 65535 {
                        Err(DnsError::LongMessage)
                    } else {
                        Ok(bytes)
                    }
                },
            }
        }),
{
    let update = lengths::update_with(id, zone, name, payload, edns);
    let parts = message::split(payload);
    let rdata = strings::string_pieces(parts).flatten();
    let txt = RecordModel { name, kind: 16, class: 1, ttl: 0, data: DataModel::Txt(parts) };
    let question = message::QuestionModel { name: zone, kind: 6, class: 1 };
    let opt = message::edns_record();
    shapes::law_flags_of_what_is_made();
    assert(update.questions =~= seq![question]);
    if edns {
        assert(update.records() =~= seq![txt, opt]);
    } else {
        assert(update.records() =~= seq![txt]);
    }
    lemma_update_header(update, edns);
    lemma_zone_question_bytes(zone);
    lemma_update_records(txt, edns);
    lengths::lemma_split_strings_fit(payload);
    assert(strings::are_short(parts));
    if label::name_wire(zone) is Ok && label::name_wire(name) is Ok {
        lemma_txt_record_bytes(name, parts);
        if rdata.len() <= 65535 {
            let z = label::name_wire(zone)->Ok_0;
            let n = label::name_wire(name)->Ok_0;
            let whole = message::header_wire(update) + message::questions_wire(
                update.questions,
            )->Ok_0 + message::records_wire(update.records())->Ok_0;
            lemma_update_parts(
                message::header_wire(update),
                z,
                seq![0u8, 6, 0, 1],
                n,
                seq![
                    0u8,
                    16,
                    0,
                    1,
                    0,
                    0,
                    0,
                    0,
                    (rdata.len() / 0x100) as u8,
                    (rdata.len() % 0x100) as u8,
                ],
                rdata,
                if edns {
                    seq![0u8, 0, 41, 0x10, 0, 0, 0, 0, 0, 0, 0]
                } else {
                    Seq::empty()
                },
            );
            assert(whole == update_bytes(id, z, n, rdata, edns));
        }
    }
}

/// Seven parts, put together as sections or one by one.
proof fn lemma_update_parts(
    a: Seq<u8>,
    b: Seq<u8>,
    c: Seq<u8>,
    d: Seq<u8>,
    e: Seq<u8>,
    f: Seq<u8>,
    g: Seq<u8>,
)
    ensures
        a + (b + c) + ((d + e + f) + g) == a + b + c + d + e + f + g,
{
    assert(a + (b + c) + ((d + e + f) + g) =~= a + b + c + d + e + f + g);
}

/// The update that takes a payload to a target is these bytes: twelve of
/// header with the id, the opcode of an update and the counts; the zone with
/// type 6 and class 1; the name with type 16, class 1, ttl 0 and the payload
/// in strings behind their lengths; and over UDP the OPT of 4096 bytes. It
/// is refused for a zone or a name that cannot be written, a payload no
/// record holds, a message over 65535 bytes, or over UDP one over 4096.
pub proof fn law_what_goes_out_is_these_bytes(
    sender: TransportModel,
    target: Seq<char>,
    payload: Seq<u8>,
)
    ensures
        ({
            let (address, name, zone) = sender.resolved(target);
            let rdata = strings::string_pieces(message::split(payload)).flatten();
            let over_udp = sender.carrier is Udp;
            match (label::name_wire(zone), label::name_wire(name)) {
                (Err(error), _) => sender.prepared(target, payload) == Err::<
                    transport::OutgoingModel,
                    DnsError,
                >(error),
                (_, Err(error)) => sender.prepared(target, payload) == Err::<
                    transport::OutgoingModel,
                    DnsError,
                >(error),
                (Ok(z), Ok(n)) => {
                    let bytes = update_bytes(sender.next_id, z, n, rdata, over_udp);
                    sender.prepared(target, payload) == if rdata.len() > 65535 {
                        Err::<transport::OutgoingModel, DnsError>(DnsError::LongRdata)
                    } else if bytes.len() > 65535 {
                        Err(DnsError::LongMessage)
                    } else if over_udp && bytes.len() > 4096 {
                        Err(DnsError::LongDatagram)
                    } else {
                        Ok(transport::OutgoingModel { address, id: sender.next_id, bytes })
                    }
                },
            }
        }),
{
    let (address, name, zone) = sender.resolved(target);
    let edns = sender.carrier is Udp;
    assert(sender.update_for(target, payload) == lengths::update_with(
        sender.next_id,
        zone,
        name,
        payload,
        edns,
    ));
    lemma_update_wire(sender.next_id, zone, name, payload, edns);
}

} // verus!
