use std::time::Duration;

use dns::error::DnsError;
use dns::frame::{frame_length, framed};
use dns::message::{
    decode, encode, Message, Question, CLASS_IN, MAX_MESSAGE, RCODE_NOERROR, RCODE_NOTIMP,
    RCODE_REFUSED, RCODE_SERVFAIL, TYPE_TXT, UDP_EDNS,
};
use dns::transport::{accept, settle, Arrived, Carrier, DnsTransport};

const PEER: &str = "127.0.0.1:40000";

fn node() -> DnsTransport {
    DnsTransport::new("127.0.0.1:0", "xmip.example.", "probe.xmip.example.")
        .timing_out_after(Duration::from_secs(2))
}

/// One message from one end to the other and its answer back.
fn send(
    near: &mut DnsTransport,
    far: &DnsTransport,
    target: &str,
    payload: &[u8],
) -> Result<(Option<Arrived>, Result<Message, DnsError>), DnsError> {
    let outgoing = near.prepare(target, payload)?;
    let answer = far.answer(PEER, &outgoing.bytes)?;
    Ok((answer.arrived, accept(outgoing.id, &answer.bytes)))
}

#[test]
fn an_update_over_udp_carries_the_payload_and_is_answered() {
    let far_end = node();
    let payload: Vec<u8> = (0..3000)
        .map(|i| u8::try_from(i % 251).unwrap_or(0))
        .collect();
    let mut near = node();
    let address = "127.0.0.1:5353";
    let (arrived, answer) = send(
        &mut near,
        &far_end,
        &format!("dns://{address}/order.xmip.example.?zone=xmip.example."),
        &payload,
    )
    .expect("sending");
    let arrived = arrived.expect("receiving");
    assert_eq!(arrived.bytes, payload);
    assert!(arrived
        .origin_uri
        .contains("/order.xmip.example.?zone=xmip.example.&id="));
    assert!(answer.is_ok());
    let (empty, answer) = send(&mut near, &far_end, address, b"").expect("sending");
    let empty = empty.expect("receiving");
    assert!(empty.bytes.is_empty());
    assert!(empty.origin_uri.contains("/probe.xmip.example.?"));
    assert_eq!(
        empty.origin_uri,
        "dns://127.0.0.1:40000/probe.xmip.example.?zone=xmip.example.&id=2"
    );
    assert!(answer.is_ok());
}

#[test]
fn an_update_over_tcp_carries_more_and_a_query_is_not_implemented() {
    let far_end = node().over(Carrier::Tcp);
    let payload = vec![0x2a; 40_000];
    let query = Message {
        id: 9,
        flags: 0,
        questions: vec![Question {
            name: "xmip.example.".into(),
            kind: TYPE_TXT,
            class: CLASS_IN,
        }],
        answers: Vec::new(),
        authority: Vec::new(),
        additional: Vec::new(),
    };
    let skipped = far_end
        .answer(PEER, &encode(&query).expect("encode"))
        .expect("answer");
    assert_eq!(skipped.arrived, None);
    let answer = decode(&skipped.bytes).expect("answer");
    assert_eq!(answer.rcode(), RCODE_NOTIMP);
    assert_eq!(answer.questions, query.questions);
    let update = Message::update_adding_txt(10, "xmip.example.", "n.", &payload);
    let taken = far_end
        .answer(PEER, &encode(&update).expect("encode"))
        .expect("update");
    let answer = decode(&taken.bytes).expect("answer");
    assert_eq!(answer.rcode(), RCODE_NOERROR);
    assert_eq!(taken.arrived.expect("receiving").bytes, payload);
    let mut near = node().over(Carrier::Tcp);
    let (second, answer) =
        send(&mut near, &far_end, "127.0.0.1:5353", &vec![0; UDP_EDNS]).expect("sending");
    assert_eq!(second.expect("second").bytes.len(), UDP_EDNS);
    assert!(answer.is_ok());
}

#[test]
fn the_wrong_zone_is_refused_and_too_much_does_not_fit() {
    let far_end = node();
    let (arrived, answer) = send(
        &mut node(),
        &far_end,
        "dns://127.0.0.1:5353/n.?zone=other.example.",
        b"x",
    )
    .expect("sending");
    assert_eq!(arrived, None);
    let refused = answer.expect_err("refused");
    assert!(!refused.retryable());
    assert!(refused.message().contains("rcode 5"));
    let too_big = node()
        .prepare("127.0.0.1:1", &vec![0; UDP_EDNS])
        .expect_err("too big for UDP");
    assert!(!too_big.retryable());
    assert_eq!(too_big, DnsError::LongDatagram);
    let too_big = node()
        .over(Carrier::Tcp)
        .prepare("127.0.0.1:1", &vec![0; MAX_MESSAGE])
        .expect_err("too big at all");
    assert!(!too_big.retryable());
}

#[test]
fn a_target_is_an_address_or_a_whole_uri() {
    let node = node();
    let all = |target: &str| {
        let (address, name, zone) = node.resolve(target);
        (address.to_string(), name.to_string(), zone.to_string())
    };
    let is = |target: &str, address: &str, name: &str, zone: &str| {
        assert_eq!(
            all(target),
            (address.to_string(), name.to_string(), zone.to_string()),
            "{target}"
        );
    };
    is("h:53", "h:53", "probe.xmip.example.", "xmip.example.");
    is("dns://h:53", "h:53", "probe.xmip.example.", "xmip.example.");
    is("dns://h:53/", "h:53", "probe.xmip.example.", "xmip.example.");
    is("dns://h:53/n.z.", "h:53", "n.z.", "xmip.example.");
    is("dns://h:53/n.z.?zone=z.", "h:53", "n.z.", "z.");
    is("dns://h:53/?zone=z.", "h:53", "probe.xmip.example.", "z.");
    is("dns://h/n.?a=b&zone=z.&zone=y.", "h", "n.", "z.");
    is("dns://h/n.?xzone=z.&b", "h", "n.", "xmip.example.");
    is("dns://h/n.?zone=", "h", "n.", "");
    is("dns://h/n.?zone=a?b/c", "h", "n.", "a?b/c");
    is("dns:/h/n.", "dns:/h/n.", "probe.xmip.example.", "xmip.example.");
}

#[test]
fn the_zone_is_compared_without_case_and_no_zone_takes_all() {
    let update = encode(&Message::update_adding_txt(1, "XMIP.example", "n.", b"x")).expect("encode");
    let taken = node().answer(PEER, &update).expect("answer");
    assert_eq!(
        taken.arrived.expect("taken").origin_uri,
        "dns://127.0.0.1:40000/n.?zone=XMIP.example.&id=1"
    );
    let anywhere = DnsTransport::new("0.0.0.0:53", "", "n.");
    let other = encode(&Message::update_adding_txt(4660, "other.", "n.", b"x")).expect("encode");
    assert!(anywhere.answer(PEER, &other).expect("answer").arrived.is_some());
    let (rcode, arrived) = node().judge(PEER, &decode(&other).expect("decode"));
    assert_eq!((rcode, arrived), (RCODE_REFUSED, None));
    let mut bare = decode(&other).expect("decode");
    bare.questions.clear();
    bare.authority.clear();
    let (rcode, arrived) = anywhere.judge(PEER, &bare);
    assert_eq!(rcode, RCODE_NOERROR);
    assert_eq!(
        arrived,
        Some(Arrived {
            origin_uri: "dns://127.0.0.1:40000/?zone=&id=4660".into(),
            bytes: Vec::new()
        })
    );
    assert_eq!(node().judge(PEER, &bare).0, RCODE_REFUSED);
}

#[test]
fn ids_follow_each_other_even_past_an_error() {
    let mut near = node();
    assert_eq!(near.prepare("h:1", b"a").expect("first").id, 1);
    assert!(near.prepare("h:1", &[0; 9000]).is_err());
    let third = near.prepare("h:1", b"c").expect("third");
    assert_eq!(third.id, 3);
    assert_eq!(third.address, "h:1");
    for _ in 3..65_534u16 {
        near.prepare("h:1", b"").expect("more");
    }
    assert_eq!(near.prepare("h:1", b"").expect("last").id, 65_535);
    assert_eq!(near.prepare("h:1", b"").expect("round").id, 0);
    assert_eq!(near.prepare("h:1", b"").expect("again").id, 1);
}

#[test]
fn an_answer_is_settled_by_its_id_and_its_rcode() {
    let update = Message::update_adding_txt(5, "z.", "n.", b"x");
    let with = |rcode: u16| settle(5, update.response(rcode));
    assert_eq!(with(RCODE_NOERROR), Ok(update.response(RCODE_NOERROR)));
    assert_eq!(with(RCODE_SERVFAIL), Err(DnsError::ServerFailure));
    assert!(DnsError::ServerFailure.retryable());
    assert_eq!(with(9), Err(DnsError::Refused { rcode: 9 }));
    assert_eq!(
        settle(6, update.response(RCODE_NOERROR)),
        Err(DnsError::OtherAnswer)
    );
    assert_eq!(accept(5, &[1, 2, 3]), Err(DnsError::ShortHeader));
}

#[test]
fn an_answer_under_another_id_is_refused() {
    let outgoing = node().prepare("h:1", b"x").expect("prepare");
    let answer = node().answer(PEER, &outgoing.bytes).expect("answer");
    assert!(answer.bytes.len() <= outgoing.bytes.len());
    assert!(accept(outgoing.id, &answer.bytes).is_ok());
    assert_eq!(
        accept(outgoing.id + 1, &answer.bytes),
        Err(DnsError::OtherAnswer)
    );
}

#[test]
fn what_is_not_dns_is_not_answered() {
    assert_eq!(node().answer(PEER, &[0]), Err(DnsError::ShortHeader));
}

#[test]
fn a_framed_message_has_its_length_before_it() {
    assert_eq!(framed(&[7, 8, 9]), [0, 3, 7, 8, 9]);
    let long = framed(&vec![1; 40_000]);
    assert_eq!(frame_length([long[0], long[1]]), 40_000);
    assert_eq!(long.len(), 40_002);
    let past = framed(&vec![1; 70_000]);
    assert_eq!(frame_length([past[0], past[1]]), 65_535);
    assert_eq!(past.len(), 70_002);
}

#[test]
fn an_end_is_what_it_was_made_with() {
    let end = node().over(Carrier::Tcp);
    assert_eq!(end.bind(), "127.0.0.1:0");
    assert_eq!(end.carrier(), Carrier::Tcp);
    assert_eq!(end.timeout(), Some(Duration::from_secs(2)));
    let plain = DnsTransport::new("a", "b", "c");
    assert_eq!(plain.carrier(), Carrier::Udp);
    assert_eq!(plain.timeout(), None);
}

#[test]
fn every_error_has_its_words() {
    let all = [
        (DnsError::ShortHeader, "a message shorter than its header"),
        (DnsError::ShortSection, "a section shorter than its count"),
        (DnsError::LongSection, "a section too long"),
        (DnsError::ShortName, "a name that runs past the message"),
        (DnsError::LongLabel, "a label over 63 bytes"),
        (DnsError::LongName, "a name over 255 bytes"),
        (DnsError::PointerForward, "a compression pointer that points forward"),
        (DnsError::PointerLoop, "a compression pointer that loops"),
        (DnsError::LongString, "a TXT string over 255 bytes"),
        (DnsError::ShortString, "a TXT string shorter than its length"),
        (DnsError::NameLength, "a name that does not end with its rdata"),
        (DnsError::AddressLength, "an A record that is not four bytes"),
        (DnsError::LongAddressLength, "an AAAA record that is not sixteen bytes"),
        (DnsError::LongRdata, "rdata over what a record carries"),
        (DnsError::LongMessage, "a message over what DNS can frame"),
        (
            DnsError::LongDatagram,
            "an update over what a UDP datagram carries; use TCP",
        ),
        (
            DnsError::OverCeiling { bytes: 70_000, ceiling: 65_219 },
            "70000 bytes is over the 65219 one update carries in a message",
        ),
        (DnsError::OtherAnswer, "an answer to another message"),
        (DnsError::ServerFailure, "the server answered SERVFAIL"),
        (DnsError::Refused { rcode: 5 }, "the server answered rcode 5"),
    ];
    for (error, words) in all {
        assert_eq!(error.message(), words);
        assert_eq!(error.retryable(), error == DnsError::ServerFailure);
    }
}
