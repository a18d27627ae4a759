use dns_codec::answer::DnsAnswer;
use dns_codec::error::DecodeError;
use dns_codec::header::DnsHeader;
use dns_codec::message::DNSMessage;
use dns_codec::name::decode_name;
use dns_codec::question::DnsQuestion;

fn query_header(id: u16, flags: u8, qdcount: u16) -> Vec<u8> {
    let mut b = vec![(id >> 8) as u8, (id & 0xff) as u8, flags, 0];
    b.extend_from_slice(&qdcount.to_be_bytes());
    b.extend_from_slice(&[0, 0, 0, 0, 0, 0]);
    b
}

fn codecrafters_name() -> Vec<u8> {
    let mut n = vec![12];
    n.extend_from_slice(b"codecrafters");
    n.push(2);
    n.extend_from_slice(b"io");
    n.push(0);
    n
}

#[test]
fn test() {
    let mut buf = vec![232, 226, 1, 0, 0, 2, 0, 0, 0, 0, 0, 0];
    buf.extend_from_slice(b"\x03abc\x11longassdomainname\x03com\x00\x00\x01\x00\x01");
    buf.extend_from_slice(b"\x03def\xc0\x10\x00\x01\x00\x01");
    buf.resize(512, 0);
    let dns_message = DNSMessage::new();
    let dns_message = dns_message.parse(&buf).unwrap();

    assert_eq!(dns_message.questions.len(), 2);
    assert_eq!(dns_message.answers.len(), 2);
}

#[test]
fn header_round_trip_every_field() {
    let h = DnsHeader {
        id: 0xBEEF,
        qr: 1,
        op_code: 9,
        aa: 1,
        tc: 0,
        rd: 1,
        ra: 1,
        z: 5,
        rcode: 3,
        qdcount: 2,
        ancount: 3,
        nscount: 4,
        arcount: 0x1234,
    };
    let bytes = h.to_bytes();
    assert_eq!(bytes, vec![0xBE, 0xEF, 0b1100_1101, 0b1101_0011, 0, 2, 0, 3, 0, 4, 0x12, 0x34]);
    assert_eq!(DnsHeader::from_bytes(&bytes), Ok(h));
}

#[test]
fn header_round_trip_response() {
    let h = DnsHeader {
        id: 0x1234,
        qr: 1,
        op_code: 0,
        aa: 0,
        tc: 0,
        rd: 1,
        ra: 0,
        z: 0,
        rcode: 0,
        qdcount: 0,
        ancount: 0,
        nscount: 0,
        arcount: 0,
    };
    assert_eq!(DnsHeader::new(&h.to_bytes()), Ok(h));
}

#[test]
fn header_new_echoes_query_fields() {
    // QR=0, OPCODE=2, AA=1, TC=1, RD=0; RA=1, Z=7, RCODE=15; counts 9 each.
    let q = vec![0xAB, 0xCD, 0b0001_0110, 0xFF, 0, 9, 0, 9, 0, 9, 0, 9];
    let h = DnsHeader::new(&q).unwrap();
    assert_eq!(h.id, 0xABCD);
    assert_eq!(h.qr, 1);
    assert_eq!(h.op_code, 2);
    assert_eq!(h.aa, 0);
    assert_eq!(h.tc, 0);
    assert_eq!(h.rd, 0);
    assert_eq!(h.ra, 0);
    assert_eq!(h.z, 0);
    assert_eq!(h.rcode, 4);
    assert_eq!((h.qdcount, h.ancount, h.nscount, h.arcount), (0, 0, 0, 0));
}

#[test]
fn header_too_short() {
    assert_eq!(DnsHeader::new(&[0u8; 11]), Err(DecodeError::TruncatedInput));
    assert_eq!(DnsHeader::from_bytes(&[]), Err(DecodeError::TruncatedInput));
    assert_eq!(DNSMessage::new().parse(&[1, 2, 3]).unwrap_err(), DecodeError::TruncatedInput);
}

#[test]
fn compressed_name_resolves_like_its_target() {
    let mut buf = query_header(1, 0, 1);
    let name = b"\x03abc\x07example\x03com\x00".to_vec();
    buf.extend_from_slice(&name);
    let second = buf.len();
    buf.extend_from_slice(&[0xC0, 12]);
    let (first_name, first_end) = decode_name(&buf, 12).unwrap();
    assert_eq!(first_name, name);
    assert_eq!(first_end, 12 + name.len());
    assert_eq!(decode_name(&buf, second), Ok((name, second + 2)));
}

#[test]
fn labels_then_pointer() {
    let mut buf = query_header(1, 0, 1);
    buf.extend_from_slice(b"\x07example\x03com\x00");
    let at = buf.len();
    buf.extend_from_slice(b"\x03www\xC0\x0C");
    let (n, end) = decode_name(&buf, at).unwrap();
    assert_eq!(n, b"\x03www\x07example\x03com\x00".to_vec());
    assert_eq!(end, buf.len());
}

#[test]
fn root_name() {
    let mut buf = query_header(1, 0, 1);
    buf.push(0);
    assert_eq!(decode_name(&buf, 12), Ok((vec![0], 13)));
}

#[test]
fn pointer_to_itself_is_a_cycle() {
    let mut buf = query_header(1, 0, 1);
    buf.extend_from_slice(&[0xC0, 12]);
    assert_eq!(decode_name(&buf, 12), Err(DecodeError::PointerCycle));
}

#[test]
fn forward_pointer_is_a_cycle() {
    let mut buf = query_header(1, 0, 1);
    buf.extend_from_slice(&[0xC0, 14, 1, b'a', 0]);
    assert_eq!(decode_name(&buf, 12), Err(DecodeError::PointerCycle));
}

#[test]
fn pointer_back_into_own_labels_is_a_cycle() {
    let mut buf = query_header(1, 0, 1);
    buf.extend_from_slice(&[1, b'a', 0xC0, 12]);
    assert_eq!(decode_name(&buf, 12), Err(DecodeError::PointerCycle));
}

#[test]
fn label_longer_than_63() {
    let mut buf = query_header(1, 0, 1);
    buf.push(64);
    buf.extend_from_slice(&[b'x'; 64]);
    buf.push(0);
    assert_eq!(decode_name(&buf, 12), Err(DecodeError::InvalidLabelLength));
}

#[test]
fn label_past_end_of_buffer() {
    let mut buf = query_header(1, 0, 1);
    buf.extend_from_slice(&[5, b'a', b'b']);
    assert_eq!(decode_name(&buf, 12), Err(DecodeError::InvalidLabelLength));
}

#[test]
fn name_without_terminator() {
    let mut buf = query_header(1, 0, 1);
    buf.extend_from_slice(&[2, b'a', b'b']);
    assert_eq!(decode_name(&buf, 12), Err(DecodeError::UnterminatedName));
    assert_eq!(DNSMessage::new().parse(&buf).unwrap_err(), DecodeError::UnterminatedName);
}

#[test]
fn pointer_cut_short() {
    let mut buf = query_header(1, 0, 1);
    buf.push(0xC0);
    assert_eq!(decode_name(&buf, 12), Err(DecodeError::UnterminatedName));
}

#[test]
fn question_missing_class() {
    let mut buf = query_header(1, 0, 1);
    buf.extend_from_slice(&[1, b'a', 0, 0, 1, 0]);
    assert_eq!(DnsQuestion::parse(&buf, 12).unwrap_err(), DecodeError::TruncatedInput);
    assert_eq!(DNSMessage::new().parse(&buf).unwrap_err(), DecodeError::TruncatedInput);
}

#[test]
fn question_reads_type_and_class() {
    let mut buf = query_header(1, 0, 1);
    buf.extend_from_slice(&[1, b'a', 0, 0, 28, 0, 3]);
    let (q, end) = DnsQuestion::parse(&buf, 12).unwrap();
    assert_eq!(q.name, vec![1, b'a', 0]);
    assert_eq!(q.qtype, 28);
    assert_eq!(q.class, 3);
    assert_eq!(end, buf.len());
    assert_eq!(q.to_bytes(), vec![1, b'a', 0, 0, 28, 0, 3]);
}

#[test]
fn answer_wire_format() {
    let a = DnsAnswer {
        name: vec![1, b'a', 0],
        rtype: 1,
        class: 1,
        ttl: 0x0102_0304,
        rdlength: 2,
        rdata: vec![9, 8],
    };
    assert_eq!(a.to_bytes(), vec![1, b'a', 0, 0, 1, 0, 1, 1, 2, 3, 4, 0, 2, 9, 8]);
}

#[test]
fn single_question_response() {
    let mut buf = query_header(0x1234, 0b0000_0001, 1);
    buf.extend_from_slice(&codecrafters_name());
    buf.extend_from_slice(&[0, 1, 0, 1]);
    let m = DNSMessage::new().parse(&buf).unwrap();
    let out = m.to_bytes();

    let mut want = vec![0x12, 0x34, 0b1000_0001, 0, 0, 1, 0, 1, 0, 0, 0, 0];
    want.extend_from_slice(&codecrafters_name());
    want.extend_from_slice(&[0, 1, 0, 1]);
    want.extend_from_slice(&codecrafters_name());
    want.extend_from_slice(&[0, 1, 0, 1, 0, 0, 0, 60, 0, 4, 8, 8, 8, 8]);
    assert_eq!(out, want);

    let h = m.header.unwrap();
    assert_eq!((h.id, h.qr, h.op_code, h.rcode, h.qdcount, h.ancount), (0x1234, 1, 0, 0, 1, 1));
    assert_eq!(m.answers[0].ttl, 60);
    assert_eq!(m.answers[0].rdlength, 4);
    assert_eq!(m.answers[0].rdata, vec![8, 8, 8, 8]);
}

#[test]
fn two_questions_second_compressed() {
    let mut buf = query_header(7, 1, 2);
    buf.extend_from_slice(b"\x03abc\x07example\x03com\x00");
    buf.extend_from_slice(&[0, 1, 0, 1]);
    buf.extend_from_slice(b"\x03def\xC0\x10");
    buf.extend_from_slice(&[0, 1, 0, 1]);
    buf.resize(512, 0);
    let m = DNSMessage::new().parse(&buf).unwrap();
    assert_eq!(m.questions.len(), 2);
    assert_eq!(m.answers.len(), 2);
    assert_eq!(m.questions[0].name, b"\x03abc\x07example\x03com\x00".to_vec());
    assert_eq!(m.questions[1].name, b"\x03def\x07example\x03com\x00".to_vec());
    assert_eq!(m.answers[0].name, m.questions[0].name);
    assert_eq!(m.answers[1].name, m.questions[1].name);
}

#[test]
fn response_counts_match_records() {
    let mut buf = query_header(9, 0, 0);
    for label in [&b"a"[..], b"bb", b"ccc"] {
        buf.push(label.len() as u8);
        buf.extend_from_slice(label);
        buf.push(0);
        buf.extend_from_slice(&[0, 1, 0, 1]);
    }
    let m = DNSMessage::new().parse(&buf).unwrap();
    let out = m.to_bytes();
    assert_eq!(&out[4..8], &[0, 3, 0, 3]);
    let questions: usize = [3usize, 4, 5].iter().map(|n| n + 4).sum();
    let answers: usize = [3usize, 4, 5].iter().map(|n| n + 14).sum();
    assert_eq!(out.len(), 12 + questions + answers);
    assert_eq!(&out[12..19], &[1, b'a', 0, 0, 1, 0, 1]);
    assert_eq!(&out[12 + questions..12 + questions + 3], &[1, b'a', 0]);
}

#[test]
fn unsupported_opcode_sets_rcode_4() {
    let mut buf = query_header(0x4242, (5 << 3) | 1, 1);
    buf.extend_from_slice(&[1, b'x', 0, 0, 1, 0, 1]);
    let m = DNSMessage::new().parse(&buf).unwrap();
    let out = m.to_bytes();
    assert_eq!(&out[0..12], &[0x42, 0x42, 0b1010_1001, 4, 0, 1, 0, 1, 0, 0, 0, 0]);

    let mut std_query = buf.clone();
    std_query[2] = 1;
    let std_out = DNSMessage::new().parse(&std_query).unwrap().to_bytes();
    assert_eq!(std_out[3], 0);
    assert_eq!(&out[12..], &std_out[12..]);
}

#[test]
fn padding_only_gives_no_questions() {
    let mut buf = query_header(3, 0, 0);
    buf.resize(40, 0);
    let m = DNSMessage::new().parse(&buf).unwrap();
    assert_eq!(m.questions.len(), 0);
    assert_eq!(m.to_bytes().len(), 12);
}

#[test]
fn pointer_into_own_label_content() {
    let mut buf = query_header(1, 0, 1);
    buf.extend_from_slice(&[3, 1, b'x', 0, 0xC0, 13]);
    assert_eq!(decode_name(&buf, 12), Ok((vec![3, 1, b'x', 0, 1, b'x', 0], 18)));
    buf.extend_from_slice(&[0, 1, 0, 1]);
    let m = DNSMessage::new().parse(&buf).unwrap();
    assert_eq!(m.questions[0].name, vec![3, 1, b'x', 0, 1, b'x', 0]);
}

#[test]
fn pointer_chain_with_decreasing_targets() {
    let mut buf = query_header(1, 0, 1);
    buf.extend_from_slice(b"\x03com\x00");
    buf.extend_from_slice(b"\x07example\xC0\x0C");
    let at = buf.len();
    buf.extend_from_slice(b"\x03www\xC0\x11");
    assert_eq!(decode_name(&buf, at), Ok((b"\x03www\x07example\x03com\x00".to_vec(), at + 6)));
}

#[test]
fn later_pointer_not_below_previous_target() {
    let mut buf = query_header(1, 0, 1);
    // 16 points to 14, 14 points to 12; after the label at 12 the walk meets
    // the pointer at 14 again, whose target 12 is not below the last target.
    buf.extend_from_slice(&[1, b'a', 0xC0, 12]);
    let at = buf.len();
    buf.extend_from_slice(&[0xC0, 14]);
    assert_eq!(decode_name(&buf, at), Err(DecodeError::PointerCycle));
}
