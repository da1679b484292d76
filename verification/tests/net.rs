use ov6::net::dns::{decode_qname, dns_rep, dns_req, encode_qname, Answer, Dns, ReplyError};

fn reply(answers: &[u8], count: u8) -> Vec<u8> {
    let mut m = dns_req(6828, b"pdos.csail.mit.edu.");
    m[2] = 0x81;
    m[3] = 0x80;
    m[7] = count;
    m.extend_from_slice(answers);
    m
}

#[test]
fn names_are_encoded() {
    assert_eq!(encode_qname(b"a.bc."), b"\x01a\x02bc\x00");
    assert_eq!(encode_qname(b"a.bc"), b"\x01a\x02bc\x00");
    assert_eq!(encode_qname(b""), b"\x00");
    assert_eq!(encode_qname(b"a..b"), b"\x01a\x00");
}

#[test]
fn names_are_decoded() {
    let wire = encode_qname(b"pdos.csail.mit.edu");
    let (name, end) = decode_qname(&wire, 0).unwrap();
    assert_eq!(name, b"pdos.csail.mit.edu");
    assert_eq!(end, wire.len());
    assert_eq!(decode_qname(b"\x05ab", 0), None);
    assert_eq!(decode_qname(&[], 0), None);
    assert_eq!(decode_qname(&[200; 300], 0), None);
}

#[test]
fn a_request_asks_for_an_address() {
    let req = dns_req(6828, b"pdos.csail.mit.edu.");
    assert_eq!(&req[..12], &[0x1a, 0xac, 1, 0, 0, 1, 0, 0, 0, 0, 0, 0]);
    assert_eq!(&req[12..32], b"\x04pdos\x05csail\x03mit\x03edu\x00");
    assert_eq!(&req[32..], &[0, 1, 0, 1]);
}

#[test]
fn a_reply_gives_the_address() {
    let answer = b"\xc0\x0c\x00\x01\x00\x01\x00\x00\x00\x00\x00\x04\x80\x34\x81\x7e";
    let expected = Answer {
        name: b"pdos.csail.mit.edu".to_vec(),
        ip: [128, 52, 129, 126],
    };
    assert_eq!(dns_rep(&reply(answer, 1), 6828), Ok(vec![expected]));
}

#[test]
fn other_answers_are_skipped() {
    let mut answers = b"\x01x\x00\x00\x05\x00\x01\x00\x00\x00\x00\x00\x02zz".to_vec();
    answers.extend_from_slice(b"\x01y\x00\x00\x01\x00\x01\x00\x00\x00\x00\x00\x04\x01\x02\x03\x04");
    let list = dns_rep(&reply(&answers, 2), 6828).unwrap();
    assert_eq!(list.len(), 1);
    assert_eq!((list[0].name.as_slice(), list[0].ip), (&b"y"[..], [1, 2, 3, 4]));
}

#[test]
fn bad_replies_are_refused() {
    assert_eq!(dns_rep(&[0; 4], 6828), Err(ReplyError::Malformed));
    assert_eq!(
        dns_rep(&dns_req(6828, b"a"), 6828),
        Err(ReplyError::NotReply)
    );
    assert_eq!(dns_rep(&reply(b"", 0), 1), Err(ReplyError::WrongId(6828)));
    let mut failed = reply(b"", 0);
    failed[3] = 0x83;
    assert_eq!(dns_rep(&failed, 6828), Err(ReplyError::Failed(3)));
    assert_eq!(dns_rep(&reply(b"", 1), 6828), Err(ReplyError::Malformed));
    assert_eq!(dns_rep(&reply(b"", 0), 6828), Ok(vec![]));
}

#[test]
fn the_header_has_its_fields() {
    let mut hdr = Dns::zeroed();
    hdr.set_id(0x1234);
    hdr.set_qr(true);
    hdr.set_opcode(5);
    hdr.set_aa(true);
    hdr.set_rd(true);
    hdr.set_ra(true);
    hdr.set_rcode(9);
    hdr.set_qdcount(2);
    hdr.set_ancount(0x0304);
    assert_eq!(hdr.flags, [0b1010_1101, 0b1000_1001]);
    assert_eq!((hdr.id(), hdr.qdcount(), hdr.ancount()), (0x1234, 2, 0x0304));
    assert!(hdr.qr() && hdr.aa() && hdr.rd() && hdr.ra());
    assert_eq!((hdr.opcode(), hdr.rcode()), (5, 9));
    hdr.set_qr(false);
    hdr.set_opcode(0);
    hdr.set_aa(false);
    hdr.set_rd(false);
    hdr.set_ra(false);
    hdr.set_rcode(0);
    assert_eq!(hdr.flags, [0, 0]);
    let mut message = [0xee; 13];
    hdr.write(&mut message);
    assert_eq!(message, [0x12, 0x34, 0, 0, 0, 2, 3, 4, 0, 0, 0, 0, 0xee]);
    assert_eq!(Dns::read(&message), hdr);
}
