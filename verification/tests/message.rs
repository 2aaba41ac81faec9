use dns::error::DnsError;
use dns::message::{
    decode, encode, Message, Question, FLAG_AUTHORITATIVE, FLAG_RESPONSE, MAX_MESSAGE,
    OPCODE_UPDATE, RCODE_NOERROR, RCODE_REFUSED, UDP_EDNS,
};
use dns::record::{
    rdata, Record, RecordData, BIT_UNICAST, CLASS_ANY, CLASS_IN, TYPE_A, TYPE_AAAA, TYPE_OPT,
    TYPE_PTR, TYPE_SOA, TYPE_SRV, TYPE_TXT,
};

fn record(name: &str, kind: u16, data: RecordData) -> Record {
    Record {
        name: name.to_string(),
        kind,
        class: CLASS_IN | BIT_UNICAST,
        ttl: 120,
        data,
    }
}

#[test]
fn an_update_round_trips_and_its_payload_reads_back() {
    let payload: Vec<u8> = (0..600)
        .map(|i| u8::try_from(i % 256).unwrap_or(0))
        .collect();
    let update =
        Message::update_adding_txt(0x1234, "xmip.example.", "probe.", &payload).with_edns();
    let bytes = encode(&update).expect("encode");
    let back = decode(&bytes).expect("decode");
    assert_eq!(back, update);
    assert_eq!(back.opcode(), OPCODE_UPDATE);
    assert!(!back.is_response());
    assert_eq!(back.txt_payload(), payload);
    assert_eq!(back.questions[0].name, "xmip.example.");
    let RecordData::Txt(strings) = &back.authority[0].data else {
        panic!("a TXT record");
    };
    assert_eq!(
        strings.iter().map(Vec::len).collect::<Vec<_>>(),
        [255, 255, 90]
    );
    let empty = Message::update_adding_txt(1, "z.", "n.", &[]);
    let back = decode(&encode(&empty).expect("encode")).expect("decode");
    assert_eq!(back, empty, "one empty string, as RFC 6763 6.1 writes it");
    assert!(back.txt_payload().is_empty());
    let response = update.response(RCODE_REFUSED);
    assert!(response.is_response());
    assert_eq!(response.rcode(), RCODE_REFUSED);
    assert_eq!(response.opcode(), OPCODE_UPDATE);
    assert_eq!(response.id, 0x1234);
}

#[test]
fn a_service_response_round_trips() {
    let mut localhost = [0u8; 16];
    localhost[15] = 1;
    let response = Message::authoritative(
        0,
        vec![
            record(
                "_ipp._tcp.local.",
                TYPE_PTR,
                RecordData::Ptr("Printer._ipp._tcp.local.".into()),
            ),
            record(
                "Printer._ipp._tcp.local.",
                TYPE_SRV,
                RecordData::Srv {
                    priority: 0,
                    weight: 0,
                    port: 631,
                    target: "printer.local.".into(),
                },
            ),
            record(
                "Printer._ipp._tcp.local.",
                TYPE_TXT,
                RecordData::Txt(vec![b"txtvers=1".to_vec(), Vec::new(), vec![0xff]]),
            ),
            record("printer.local.", TYPE_A, RecordData::A([10, 0, 0, 5])),
            record("printer.local.", TYPE_AAAA, RecordData::Aaaa(localhost)),
            record("printer.local.", 47, RecordData::Other(vec![1, 2, 3])),
        ],
    );
    let back = decode(&encode(&response).expect("encode")).expect("decode");
    assert_eq!(back, response, "every string kept, the empty one and bytes");
    assert!(back.is_response());
    assert_eq!(back.records().len(), 6);
    let query = Message::query("_ipp._tcp.local.", TYPE_PTR);
    let back = decode(&encode(&query).expect("encode")).expect("decode");
    assert_eq!(back, query);
    assert!(!back.is_response());
}

#[test]
fn rdata_outside_class_in_keeps_its_bytes() {
    // RFC 2136 2.5.2: delete an RRset, class ANY, type A, no rdata.
    let mut update = Message::update_adding_txt(1, "z.", "n.", b"x");
    update.authority.push(Record {
        name: "n.".into(),
        kind: TYPE_A,
        class: CLASS_ANY,
        ttl: 0,
        data: RecordData::Other(Vec::new()),
    });
    let back = decode(&encode(&update).expect("encode")).expect("decode");
    assert_eq!(back, update);
    assert_eq!(back.txt_payload(), b"x");
}

#[test]
fn compression_is_followed_in_names_and_rdata_and_bad_shapes_refused() {
    // A question for a.b., a PTR answer whose name and target point at it.
    let mut bytes = vec![0, 0, 0x84, 0, 0, 1, 0, 1, 0, 0, 0, 0];
    bytes.extend_from_slice(&[1, b'a', 1, b'b', 0, 0, 12, 0, 1]);
    bytes.extend_from_slice(&[0xc0, 12, 0, 12, 0, 1, 0, 0, 0, 5, 0, 4, 1, b'x', 0xc0, 12]);
    let message = decode(&bytes).expect("decode");
    assert_eq!(message.answers[0].name, "a.b.");
    assert_eq!(message.answers[0].ttl, 5);
    assert_eq!(message.answers[0].data, RecordData::Ptr("x.a.b.".into()));
    let mut looping = bytes.clone();
    looping[21] = 21; // points at itself
    assert!(decode(&looping).is_err(), "pointer at itself");
    assert!(decode(&bytes[..11]).is_err(), "short header");
    assert!(decode(&bytes[..25]).is_err(), "short section");
    let short_a = Message::authoritative(0, vec![record("n.", TYPE_A, RecordData::Other(vec![1]))]);
    assert!(
        decode(&encode(&short_a).expect("encode")).is_err(),
        "A of one byte"
    );
    // A TXT string cut short.
    let bad_txt = Message::authoritative(
        0,
        vec![record("n.", TYPE_TXT, RecordData::Other(vec![5, b'a']))],
    );
    assert!(
        decode(&encode(&bad_txt).expect("encode")).is_err(),
        "TXT string cut"
    );
    let long_label = "x".repeat(64);
    assert!(encode(&Message::query(&long_label, TYPE_PTR)).is_err());
    let long_txt = RecordData::Txt(vec![vec![b'y'; 256]]);
    assert!(encode(&Message::authoritative(
        0,
        vec![record("n.", TYPE_TXT, long_txt)]
    ))
    .is_err());
    let too_big = Message::update_adding_txt(1, "z.", "n", &vec![0; 70_000]);
    assert!(encode(&too_big).is_err());
}

#[test]
fn an_update_is_these_bytes() {
    let update = Message::update_adding_txt(0x0102, "z.", "n.z.", b"hi").with_edns();
    let mut expected = vec![1, 2, 0x28, 0, 0, 1, 0, 0, 0, 1, 0, 1];
    expected.extend_from_slice(&[1, b'z', 0, 0, 6, 0, 1]);
    expected.extend_from_slice(&[1, b'n', 1, b'z', 0, 0, 16, 0, 1, 0, 0, 0, 0, 0, 3, 2, b'h', b'i']);
    expected.extend_from_slice(&[0, 0, 41, 0x10, 0, 0, 0, 0, 0, 0, 0]);
    assert_eq!(encode(&update).expect("encode"), expected);
    assert_eq!(update.additional[0].kind, TYPE_OPT);
    assert_eq!(usize::from(update.additional[0].class), UDP_EDNS);
    assert_eq!(
        update.questions[0],
        Question { name: "z.".into(), kind: TYPE_SOA, class: CLASS_IN }
    );
}

#[test]
fn a_message_with_nothing_in_it_is_its_header() {
    let bare = Message::default();
    assert_eq!(encode(&bare).expect("encode"), vec![0; 12]);
    assert_eq!(decode(&[0; 12]).expect("decode"), bare);
    assert_eq!(decode(&[0; 11]), Err(DnsError::ShortHeader));
    assert_eq!(decode(&[]), Err(DnsError::ShortHeader));
}

#[test]
fn bytes_behind_a_message_are_ignored() {
    let update = Message::update_adding_txt(7, "z.", "n.", b"payload");
    let mut bytes = encode(&update).expect("encode");
    bytes.extend_from_slice(&[0xc0, 0xff, 3, 3, 3]);
    assert_eq!(decode(&bytes).expect("decode"), update);
}

#[test]
fn an_authoritative_response_has_both_bits() {
    let message = Message::authoritative(9, Vec::new());
    assert_eq!(message.flags, FLAG_RESPONSE | FLAG_AUTHORITATIVE);
    assert_eq!(message.id, 9);
    assert_eq!(message.rcode(), RCODE_NOERROR);
}

#[test]
fn a_response_keeps_the_opcode_and_drops_the_other_flags() {
    let mut message = Message::update_adding_txt(3, "z.", "n.", b"x");
    message.flags |= 0x07f0;
    let response = message.response(0xfff3);
    assert_eq!(response.flags, 0x8000 | 0x2800 | 3);
    assert_eq!(response.questions, message.questions);
    assert!(response.records().is_empty());
}

#[test]
fn every_section_is_read_in_order() {
    let mut message = Message::query("q.", TYPE_A);
    message.answers.push(record("a.", TYPE_A, RecordData::A([1, 2, 3, 4])));
    message.authority.push(record("b.", TYPE_TXT, RecordData::Txt(vec![b"one".to_vec()])));
    message.authority.push(record("c.", 99, RecordData::Other(b"skip".to_vec())));
    message.authority.push(record(
        "d.",
        TYPE_TXT,
        RecordData::Txt(vec![b"two".to_vec(), Vec::new(), b"three".to_vec()]),
    ));
    message.additional.push(record("e.", TYPE_TXT, RecordData::Txt(vec![b"not".to_vec()])));
    let back = decode(&encode(&message).expect("encode")).expect("decode");
    assert_eq!(back, message);
    let names: Vec<&str> = back.records().iter().map(|r| r.name.as_str()).collect();
    assert_eq!(names, ["a.", "b.", "c.", "d.", "e."]);
    assert_eq!(back.txt_payload(), b"onetwothree");
}

#[test]
fn each_writing_error_has_its_input() {
    let named = |name: &str| encode(&Message::query(name, TYPE_A));
    assert_eq!(named(&"x".repeat(64)), Err(DnsError::LongLabel));
    assert!(named(&"x".repeat(63)).is_ok());
    let long = format!("{}.", "x".repeat(63)).repeat(4);
    assert_eq!(named(&long), Err(DnsError::LongName));
    let brim = format!("{}{}.", format!("{}.", "x".repeat(63)).repeat(3), "x".repeat(61));
    assert_eq!(named(&brim).expect("255 bytes").len(), 12 + 255 + 4);
    let over = format!("{}{}.", format!("{}.", "x".repeat(63)).repeat(3), "x".repeat(62));
    assert_eq!(named(&over), Err(DnsError::LongName));
    let with = |data: RecordData| encode(&Message::authoritative(0, vec![record("n.", 99, data)]));
    assert_eq!(
        with(RecordData::Txt(vec![vec![0; 256]])),
        Err(DnsError::LongString)
    );
    assert_eq!(
        with(RecordData::Other(vec![0; 65_536])),
        Err(DnsError::LongRdata)
    );
    assert_eq!(
        with(RecordData::Other(vec![0; 65_535])),
        Err(DnsError::LongMessage)
    );
    assert_eq!(
        with(RecordData::Other(vec![0; MAX_MESSAGE - 25])).expect("brim").len(),
        MAX_MESSAGE
    );
    assert_eq!(
        with(RecordData::Other(vec![0; MAX_MESSAGE - 24])),
        Err(DnsError::LongMessage)
    );
    assert_eq!(
        with(RecordData::Ptr("y".repeat(64))),
        Err(DnsError::LongLabel)
    );
    let mut crowded = Message::default();
    for _ in 0..65_536 {
        crowded.questions.push(Question { name: "y".repeat(64), kind: 1, class: 1 });
    }
    assert_eq!(encode(&crowded), Err(DnsError::LongSection));
}

#[test]
fn each_reading_error_has_its_input() {
    let answer = |kind: u16, rdata: &[u8]| {
        let mut bytes = vec![0, 0, 0x84, 0, 0, 0, 0, 1, 0, 0, 0, 0, 0];
        bytes.extend_from_slice(&kind.to_be_bytes());
        bytes.extend_from_slice(&[0, 1, 0, 0, 0, 0]);
        bytes.extend_from_slice(&u16::try_from(rdata.len()).unwrap_or(0).to_be_bytes());
        bytes.extend_from_slice(rdata);
        decode(&bytes)
    };
    assert_eq!(answer(TYPE_A, &[1, 2, 3]), Err(DnsError::AddressLength));
    assert_eq!(answer(TYPE_AAAA, &[0; 15]), Err(DnsError::LongAddressLength));
    assert_eq!(answer(TYPE_TXT, &[2, b'a']), Err(DnsError::ShortString));
    assert_eq!(answer(TYPE_SRV, &[0, 0, 0, 0, 0]), Err(DnsError::ShortSection));
    assert_eq!(answer(TYPE_PTR, &[3, b'a']), Err(DnsError::ShortName));
    assert_eq!(answer(TYPE_PTR, &[0x40, 0]), Err(DnsError::LongLabel));
    assert_eq!(answer(TYPE_PTR, &[0x80, 0]), Err(DnsError::LongLabel));
    assert_eq!(answer(TYPE_PTR, &[0xc0, 23]), Err(DnsError::PointerForward));
    assert_eq!(answer(TYPE_PTR, &[0xc0]), Err(DnsError::ShortName));
    assert_eq!(answer(TYPE_PTR, &[1, b'a', 0xc0, 23]), Err(DnsError::PointerLoop));
    assert_eq!(decode(&[0, 0, 0, 0, 0, 1, 0, 0, 0, 0, 0, 0]), Err(DnsError::ShortName));
    assert_eq!(
        decode(&[0, 0, 0, 0, 0, 1, 0, 0, 0, 0, 0, 0, 0, 0, 1]),
        Err(DnsError::ShortSection)
    );
    assert_eq!(answer(TYPE_PTR, &[1]), Err(DnsError::ShortName));
    assert_eq!(answer(TYPE_PTR, &[1, b'a', 0, 0]), Err(DnsError::NameLength));
    assert_eq!(
        answer(TYPE_SRV, &[0, 1, 0, 2, 0, 3, 1, b'a', 0, 0]),
        Err(DnsError::NameLength)
    );
    let read = answer(TYPE_A, &[9, 8, 7, 6]).expect("an address");
    assert_eq!(read.answers[0].data, RecordData::A([9, 8, 7, 6]));
    let read = answer(TYPE_TXT, &[]).expect("no string");
    assert_eq!(read.answers[0].data, RecordData::Txt(Vec::new()));
}

#[test]
fn a_name_ends_where_its_rdata_does() {
    // One class IN answer at the root whose length says `length`, and `rest`
    // from where its rdata begins.
    let answer = |kind: u8, length: u8, rest: &[u8]| {
        let mut bytes = vec![0, 0, 0x84, 0, 0, 0, 0, 1, 0, 0, 0, 0];
        bytes.extend_from_slice(&[0, 0, kind, 0, 1, 0, 0, 0, 0, 0, length]);
        bytes.extend_from_slice(rest);
        decode(&bytes).map(|mut message| message.answers.remove(0).data)
    };
    let name = [1, b'a', 0];
    assert_eq!(answer(12, 3, &name), Ok(RecordData::Ptr("a.".into())));
    assert_eq!(answer(12, 1, &name), Err(DnsError::NameLength), "too short");
    assert_eq!(answer(12, 0, &name), Err(DnsError::NameLength), "none");
    assert_eq!(
        answer(12, 4, &[1, b'a', 0, 7]),
        Err(DnsError::NameLength),
        "too long"
    );
    let service = [0, 1, 0, 2, 0, 3, 1, b'a', 0];
    assert_eq!(
        answer(33, 9, &service),
        Ok(RecordData::Srv { priority: 1, weight: 2, port: 3, target: "a.".into() })
    );
    assert_eq!(answer(33, 5, &service), Err(DnsError::ShortSection), "no port");
    assert_eq!(answer(33, 6, &service), Err(DnsError::NameLength), "no name");
    assert_eq!(answer(33, 8, &service), Err(DnsError::NameLength), "too short");
    assert_eq!(
        answer(33, 10, &[0, 1, 0, 2, 0, 3, 1, b'a', 0, 7]),
        Err(DnsError::NameLength),
        "too long"
    );
    // A pointer ends the rdata too: here to the root name of the answer.
    assert_eq!(answer(12, 4, &[1, b'a', 0xc0, 12]), Ok(RecordData::Ptr("a.".into())));
    assert_eq!(
        answer(12, 5, &[1, b'a', 0xc0, 12, 0]),
        Err(DnsError::NameLength)
    );
}

#[test]
fn txt_rdata_is_its_strings_and_nothing_else() {
    let strings = |rdata: &[u8]| {
        let mut bytes = vec![0, 0, 0x84, 0, 0, 0, 0, 1, 0, 0, 0, 0, 0, 0, 16, 0, 1, 0, 0, 0, 0];
        bytes.extend_from_slice(&u16::try_from(rdata.len()).unwrap_or(0).to_be_bytes());
        bytes.extend_from_slice(rdata);
        decode(&bytes).map(|mut message| message.answers.remove(0).data)
    };
    for whole in [&[][..], &[0], &[0, 0], &[2, 7, 8], &[1, 9, 0, 1, 0]] {
        let data = strings(whole).expect("strings");
        assert_eq!(rdata(&data).expect("rdata"), whole);
    }
    assert_eq!(strings(&[]), Ok(RecordData::Txt(Vec::new())));
    assert_eq!(strings(&[0]), Ok(RecordData::Txt(vec![Vec::new()])));
    assert_eq!(strings(&[1]), Err(DnsError::ShortString));
    assert_eq!(strings(&[1, 9, 2, 9]), Err(DnsError::ShortString));
}
