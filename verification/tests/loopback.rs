use std::time::Duration;

use dns::error::DnsError;
use dns::loopback::{carrier_for, datagram_ceiling, largest_fitting, message_ceiling};
use dns::message::{MAX_MESSAGE, UDP_EDNS};
use dns::transport::{accept, Arrived, Carrier, DnsTransport};

fn loopback() -> DnsTransport {
    DnsTransport::loopback(Duration::from_secs(2))
}

/// `length` bytes that do not repeat with the string length.
fn patterned(length: usize) -> Vec<u8> {
    (0..length)
        .map(|i| u8::try_from(i % 251).unwrap_or(0))
        .collect()
}

/// One payload through the loopback, both ends in this process.
fn round(payload: &[u8]) -> Result<Arrived, DnsError> {
    let carrier = carrier_for(payload.len())?;
    let far = loopback();
    let outgoing = loopback().over(carrier).prepare("127.0.0.1:5353", payload)?;
    let answer = far.answer("127.0.0.1:40000", &outgoing.bytes)?;
    accept(outgoing.id, &answer.bytes)?;
    Ok(answer.arrived.expect("arrived"))
}

#[test]
fn the_loopback_sends_one_update_and_takes_its_payload() {
    let arrived = round(b"txt").expect("round");
    assert_eq!(arrived.bytes, b"txt");
    assert!(arrived.origin_uri.starts_with("dns://127.0.0.1:"));
    assert!(arrived
        .origin_uri
        .contains("/probe.xmip.example.?zone=xmip.example.&id="));
    let long = patterned(40_000);
    assert_eq!(round(&long).expect("long").bytes, long);
}

#[test]
fn the_loopback_returns_the_edge_payloads_whole_up_to_the_message() {
    let transport = loopback();
    assert_eq!(transport.ceiling(), Some(message_ceiling()));
    let every_byte: Vec<u8> = (0..=255).collect();
    for bytes in [
        Vec::new(),
        vec![0],
        b"\r\n".to_vec(),
        vec![0xff; 255],
        vec![0xff; 256],
        every_byte,
    ] {
        assert_eq!(round(&bytes).expect("edge").bytes, bytes);
    }
    // The datagram's brim goes as UDP, one byte more as TCP, and past the
    // message's own length nothing goes.
    assert!(
        (3_000..UDP_EDNS).contains(&datagram_ceiling()),
        "{}",
        datagram_ceiling()
    );
    let brim = patterned(datagram_ceiling());
    assert_eq!(carrier_for(brim.len()), Ok(Carrier::Udp));
    assert_eq!(round(&brim).expect("datagram brim").bytes, brim);
    let over = patterned(datagram_ceiling() + 1);
    assert_eq!(carrier_for(over.len()), Ok(Carrier::Tcp));
    assert_eq!(round(&over).expect("as tcp").bytes, over);
    let brim = patterned(message_ceiling());
    assert_eq!(round(&brim).expect("message brim").bytes, brim);
    let past = vec![0u8; message_ceiling() + 1];
    let refused = round(&past).expect_err("past the message");
    assert_eq!(
        refused.message(),
        "65220 bytes is over the 65219 one update carries in a message"
    );
}

#[test]
fn the_ceilings_are_what_the_encoder_says() {
    assert_eq!(datagram_ceiling(), 4009);
    assert_eq!(message_ceiling(), 65_219);
    assert_eq!(largest_fitting(UDP_EDNS, true), datagram_ceiling());
    assert_eq!(largest_fitting(MAX_MESSAGE, false), message_ceiling());
    let brim = loopback().prepare("h:1", &patterned(4009)).expect("brim");
    assert_eq!(brim.bytes.len(), UDP_EDNS);
    assert_eq!(
        loopback().prepare("h:1", &patterned(4010)),
        Err(DnsError::LongDatagram)
    );
    let over = |length: usize| loopback().over(Carrier::Tcp).prepare("h:1", &patterned(length));
    assert_eq!(over(65_219).expect("brim").bytes.len(), MAX_MESSAGE);
    assert_eq!(over(65_220), Err(DnsError::LongMessage));
    assert_eq!(largest_fitting(10, false), 0);
    assert_eq!(largest_fitting(61, false), 0);
    assert_eq!(largest_fitting(62, false), 1);
    assert_eq!(largest_fitting(62, true), 0);
}
