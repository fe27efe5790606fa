use dns_resolver::answer::DnsAnswer;
use dns_resolver::header::{DnsHeader, ResourceType, ResponseCode};
use dns_resolver::packet::DnsPacket;
use dns_resolver::query::DnsQuery;
use dns_resolver::serialization::{
    deserialize_domain_from_bytes, deserialize_ipv4_from_str, expand_pointers,
    serialize_domain_to_bytes, FromBytes, ToBytes,
};

#[test]
fn test_serialize_domain_to_bytes() {
    let expected_bytes = [
        0x03u8, 0x66, 0x6f, 0x6f, // foo
        0x03, 0x63, 0x6f, 0x6d, 0x00, // com
    ];
    let actual_bytes = serialize_domain_to_bytes("foo.com").unwrap();
    assert_eq!(expected_bytes.to_vec(), actual_bytes);
}

#[test]
fn test_serialize_domain_to_bytes_with_subdomain() {
    let expected_bytes = [
        0x03u8, 0x66, 0x6f, 0x6f, // foo
        0x03, 0x62, 0x61, 0x72, // bar
        0x03, 0x63, 0x6f, 0x6d, 0x00, // com
    ];
    let actual_bytes = serialize_domain_to_bytes("foo.bar.com").unwrap();
    assert_eq!(expected_bytes.to_vec(), actual_bytes);
}

#[test]
fn test_serialize_domain_rejects_long_labels() {
    let long_label = "a".repeat(64) + ".com";
    assert!(serialize_domain_to_bytes(&long_label).is_err());
    let ok_label = "a".repeat(63) + ".com";
    assert!(serialize_domain_to_bytes(&ok_label).is_ok());
}

#[test]
fn test_serialize_domain_rejects_long_names() {
    // four labels of 63 octets need 4 * 64 + 1 = 257 octets on the wire
    let name = [
        "a".repeat(63),
        "b".repeat(63),
        "c".repeat(63),
        "d".repeat(63),
    ]
    .join(".");
    assert!(serialize_domain_to_bytes(&name).is_err());
}

#[test]
fn test_high_octet_label_round_trips() {
    // a label octet past the ASCII range decodes to its character and the
    // codec writes it back as the same single octet
    let bytes = [0x02u8, 0xe9, 0x74, 0x00];
    let (name, consumed) = deserialize_domain_from_bytes(&[], &bytes).unwrap();
    assert_eq!(name, "\u{e9}t");
    assert_eq!(consumed, 4);
    assert_eq!(serialize_domain_to_bytes(&name).unwrap(), bytes.to_vec());
}

#[test]
fn test_serialize_domain_rejects_wide_characters() {
    // a character past the octet range cannot be written as one octet
    assert!(serialize_domain_to_bytes("sch\u{1f600}n.com").is_err());
}

#[test]
fn test_serialize_domain_empty_name_is_root() {
    assert_eq!(serialize_domain_to_bytes("").unwrap(), vec![0u8]);
}

#[test]
fn test_deserialize_domain_from_bytes() {
    let bytes = [
        0x03u8, 0x66, 0x6f, 0x6f, // foo
        0x03, 0x63, 0x6f, 0x6d, 0x00, // com
    ];
    let (actual_bytes, bytes_read) = deserialize_domain_from_bytes(&[], &bytes).unwrap();
    assert_eq!("foo.com", actual_bytes);
    assert_eq!(9, bytes_read);
}

#[test]
fn test_deserialize_domain_from_bytes_with_subdomain() {
    let bytes = [
        0x03u8, 0x66, 0x6f, 0x6f, // foo
        0x03, 0x62, 0x61, 0x72, // bar
        0x03, 0x63, 0x6f, 0x6d, 0x00, // com
    ];
    let (actual_bytes, bytes_read) = deserialize_domain_from_bytes(&[], &bytes).unwrap();
    assert_eq!("foo.bar.com", actual_bytes);
    assert_eq!(13, bytes_read);
}

#[test]
fn test_deserialize_domain_from_bytes_with_pointer() {
    let bytes = [
        0x00u8, 0x00, 0xde, 0xad, 0xbe, 0xef, 0x03, 0x66, 0x6f, 0x6f, // foo
        0x03, 0x62, 0x61, 0x72, // bar
        0x03, 0x63, 0x6f, 0x6d, 0x00, // com
        0x03u8, 0x62, 0x61, 0x7a, // baz
        0xc0, 0x06,
    ];
    let (actual_bytes, bytes_read) = deserialize_domain_from_bytes(&bytes, &bytes[19..]).unwrap();
    assert_eq!(6, bytes_read);
    assert_eq!("baz.foo.bar.com", actual_bytes);

    let (actual_bytes, bytes_read) = deserialize_domain_from_bytes(&bytes, &bytes[23..]).unwrap();
    assert_eq!(2, bytes_read);
    assert_eq!("foo.bar.com", actual_bytes);
}

#[test]
fn test_name_compression_decode_at_message_offset() {
    // `foo.bar.com` encoded at offset 12, then a two-octet pointer to it:
    // decoding the pointer yields the same name and consumes two octets.
    let mut bytes = vec![0u8; 12];
    bytes.extend_from_slice(&[
        0x03, 0x66, 0x6f, 0x6f, // foo
        0x03, 0x62, 0x61, 0x72, // bar
        0x03, 0x63, 0x6f, 0x6d, 0x00, // com
    ]);
    bytes.extend_from_slice(&[0xc0, 0x0c]);
    let (name, consumed) = deserialize_domain_from_bytes(&bytes, &bytes[25..]).unwrap();
    assert_eq!("foo.bar.com", name);
    assert_eq!(2, consumed);
}

#[test]
fn test_chained_pointers_decode() {
    // a pointer to a pointer: each hop goes strictly backwards, so the
    // decoder follows both and yields the spelled name
    let mut bytes = vec![0u8; 12];
    bytes.extend_from_slice(&[
        0x03, 0x66, 0x6f, 0x6f, // foo
        0x03, 0x63, 0x6f, 0x6d, 0x00, // com
    ]);
    bytes.extend_from_slice(&[0xc0, 0x0c]); // at 21: points to 12
    bytes.extend_from_slice(&[0xc0, 0x15]); // at 23: points to 21
    let (name, consumed) = deserialize_domain_from_bytes(&bytes, &bytes[23..]).unwrap();
    assert_eq!("foo.com", name);
    assert_eq!(2, consumed);
}

#[test]
fn test_forward_pointer_fails() {
    // the pointer at offset 2 points at itself and beyond: format error
    let bytes = [0x00u8, 0x00, 0xc0, 0x02];
    assert!(deserialize_domain_from_bytes(&bytes, &bytes[2..]).is_err());
    // a pointer past its own position fails too
    let bytes = [0x00u8, 0x00, 0xc0, 0x03, 0x00];
    assert!(deserialize_domain_from_bytes(&bytes, &bytes[2..]).is_err());
}

#[test]
fn test_expand_pointers() {
    let first_bytes = [
        0x00u8, 0x00, // transaction id
        0x80, 0x00, // flags (standard query response)
        0x00, 0x00, // 0 questions
        0x00, 0x02, // 2 answers
        0x00, 0x00, 0x00, 0x00, // answers
    ];
    let second_bytes = [
        //foo.com
        0x03u8, 0x66, 0x6f, 0x6f, 0x03, 0x63, 0x6f, 0x6d, 0x00,
        // extra pointers for fluff
        0x00, 0x1c, 0x01, 0x23, 0x45,
    ];
    let third_bytes = [0xc0u8, 0x0c, 0x04, 0xde, 0xca, 0xfb, 0xad];
    let mut bytes = first_bytes.to_vec();
    bytes.append(&mut second_bytes.to_vec());
    bytes.append(&mut third_bytes.to_vec());
    let res = expand_pointers(&bytes, &third_bytes).unwrap();
    assert_eq!(second_bytes[..9].to_vec(), res);
}

#[test]
fn test_deserialize_ipv4_from_str() {
    let mut actual = deserialize_ipv4_from_str("1.2.3.4").unwrap();
    assert_eq!(actual, vec![0x1, 0x2, 0x3, 0x4]);
    actual = deserialize_ipv4_from_str("12.34.56.78").unwrap();
    assert_eq!(actual, vec![12, 34, 56, 78]);
}

#[test]
fn test_deserialize_ipv4_rejects_bad_quads() {
    assert!(deserialize_ipv4_from_str("1.2.3").is_err());
    assert!(deserialize_ipv4_from_str("1.2.3.4.5").is_err());
    assert!(deserialize_ipv4_from_str("1.2.3.256").is_err());
    assert!(deserialize_ipv4_from_str("1.2.3.x").is_err());
    assert!(deserialize_ipv4_from_str("").is_err());
}

#[test]
fn test_header_from_bytes() {
    let bytes = [
        0xffu8, 0xff, // transaction id
        0x00, 0x00, // flags (standard query request)
        0x00, 0x01, // 1 question
        0x00, 0x00, // dns request, so no answer rr's here of course
        0x00, 0x00, // neither authority rr's
        0x00, 0x00, // nor additional rr's
    ];
    let (actual_header, _) = DnsHeader::from_bytes(&bytes).unwrap();
    let mut expected_header = DnsHeader::new();
    expected_header.tx_id = 0xffff;
    expected_header.questions_count = 1;

    assert_eq!(expected_header, actual_header);
}

#[test]
fn test_header_from_bytes_with_more_nonzero_flags() {
    let bytes = [
        0xffu8, 0xff, // transaction id
        0x81, 0x85, // flags (standard query request)
        0x00, 0x01, // 1 question
        0x00, 0x00, // dns request, so no answer rr's here of course
        0x00, 0x00, // neither authority rr's
        0x00, 0x00, // nor additional rr's
    ];
    let (actual_header, _) = DnsHeader::from_bytes(&bytes).unwrap();
    let mut expected_header = DnsHeader::new();
    expected_header.tx_id = 0xffff;
    expected_header.is_response = true;
    expected_header.recursion_desired = true;
    expected_header.recursion_available = true;
    expected_header.questions_count = 1;
    expected_header.response_code = ResponseCode::Refused;

    assert_eq!(expected_header, actual_header);
}

#[test]
fn test_header_from_bytes_with_more_nonzero_flags_and_opcode() {
    let bytes = [
        0xffu8, 0xff, // transaction id
        0xf9, 0x85, // flags (standard query request)
        0x00, 0x01, // 1 question
        0x00, 0x00, // dns request, so no answer rr's here of course
        0x00, 0x00, // neither authority rr's
        0x00, 0x00, // nor additional rr's
    ];
    let (actual_header, _) = DnsHeader::from_bytes(&bytes).unwrap();
    let mut expected_header = DnsHeader::new();
    expected_header.tx_id = 0xffff;
    expected_header.opcode = 0x0f;
    expected_header.is_response = true;
    expected_header.recursion_desired = true;
    expected_header.recursion_available = true;
    expected_header.questions_count = 1;
    expected_header.response_code = ResponseCode::Refused;

    assert_eq!(expected_header, actual_header);
}

/// mostly testing for endianness
#[test]
fn test_header_from_bytes_with_nonzero_counts() {
    let bytes = [
        0x00u8, 0x00, // transaction id
        0x00, 0x00, // flags (standard query request)
        0x00, 0x00, // 0 questions
        0x00, 0x01, // 1 answer rr
        0x01, 0x00, // 256 authority rr's
        0x00, 0x00, // additional rr's
    ];
    let (actual_header, _) = DnsHeader::from_bytes(&bytes).unwrap();
    let mut expected_header = DnsHeader::new();
    expected_header.answers_count = 1;
    expected_header.authority_count = 256;

    assert_eq!(expected_header, actual_header);
}

#[test]
fn test_header_to_bytes_all_zero() {
    let header = DnsHeader::new();
    let actual_bytes = header.to_bytes();
    let expected_bytes = [0u8; 12];
    assert_eq!(expected_bytes.to_vec(), actual_bytes);
}

#[test]
fn test_response_header_to_bytes() {
    let mut header = DnsHeader::new();
    header.tx_id = 0xbeef;
    header.is_response = true;
    header.authoritative = true;
    header.truncated = true;
    header.recursion_desired = true;
    header.recursion_available = true;
    header.response_code = ResponseCode::Refused;
    header.questions_count = 0xabcd;
    header.answers_count = 0xabcd;
    header.authority_count = 0xabcd;
    header.additional_count = 0xabcd;
    let actual_bytes = header.to_bytes();
    let expected_bytes = [
        0xbeu8, 0xef, 0x87, 0x85, 0xab, 0xcd, 0xab, 0xcd, 0xab, 0xcd, 0xab, 0xcd,
    ];
    assert_eq!(expected_bytes.to_vec(), actual_bytes);
}

#[test]
fn test_z_in_bounds() {
    let mut header = DnsHeader::new();
    header.tx_id = 0xbeef;
    header.z = 7;
    let actual_bytes = header.to_bytes();
    let expected_bytes = [
        0xbeu8, 0xef, 0x00, 0x70, 0x00, 0x00, 0x00, 0x00, 0x00, 0x00, 0x00, 0x00,
    ];
    assert_eq!(expected_bytes.to_vec(), actual_bytes);
}

#[test]
fn test_z_out_of_bounds() {
    let mut header = DnsHeader::new();
    header.tx_id = 0xbeef;
    header.z = 32;
    let actual_bytes = header.to_bytes();
    let expected_bytes = [
        0xbeu8, 0xef, 0x00, 0x00, 0x00, 0x00, 0x00, 0x00, 0x00, 0x00, 0x00, 0x00,
    ];
    assert_eq!(expected_bytes.to_vec(), actual_bytes);
}

#[test]
fn test_opcode_out_of_width_is_masked() {
    let mut header = DnsHeader::new();
    header.opcode = 0x12;
    // 0x12 masked to four bits is 2, written as .0010 0... in the flags
    let actual_bytes = header.to_bytes();
    let mut masked = DnsHeader::new();
    masked.opcode = 0x02;
    assert_eq!(masked.to_bytes(), actual_bytes);
}

#[test]
fn test_multibit_from_bytes_and_bounds() {
    let bytes = [
        0xffu8, 0xff, // transaction id
        0x48, 0x79, // flags (standard query request)
        0x00, 0x00, // 1 question
        0x00, 0x00, // dns request, so no answer rr's here of course
        0x00, 0x00, // neither authority rr's
        0x00, 0x00, // nor additional rr's
    ];
    let (actual_header, _) = DnsHeader::from_bytes(&bytes).unwrap();
    let mut expected_header = DnsHeader::new();
    expected_header.tx_id = 0xffff;
    expected_header.opcode = 9;
    expected_header.z = 7;
    // the response-code value 9 has no enumerant and reads as the catch-all
    expected_header.response_code = ResponseCode::FormatError;

    assert_eq!(expected_header, actual_header);
}

#[test]
fn test_query_from_bytes() {
    let bytes = [
        0x03, // length of 'foo'
        0x66u8, 0x6f, 0x6f, 0x03, 0x63, 0x6f, 0x6d, 0x00, // foo.com
        0x00, 0x01, // a record
        0x00, 0x01, // class
    ];
    let (actual_query, _) = DnsQuery::from_bytes(&[], &bytes).unwrap();
    let mut expected_query = DnsQuery::new();
    expected_query.name = "foo.com".to_owned();
    expected_query.qtype = ResourceType::A;
    expected_query.class = 1;

    assert_eq!(expected_query, actual_query);
}

#[test]
fn test_query_from_bytes_multiple_queries() {
    let bytes = [
        0x03, // length of 'foo'
        0x66u8, 0x6f, 0x6f, 0x03, 0x63, 0x6f, 0x6d, 0x00, // foo.com
        0x00, 0x01, // a record
        0x00, 0x01, // class
    ];
    let (actual_query, _) = DnsQuery::from_bytes(&[], &bytes).unwrap();
    let mut expected_query = DnsQuery::new();
    expected_query.name = "foo.com".to_owned();
    expected_query.qtype = ResourceType::A;
    expected_query.class = 1;

    assert_eq!(expected_query, actual_query);
}

#[test]
fn test_query_from_bytes_with_subdomain() {
    let bytes = [
        0x03u8, // length of 'foo'
        0x66, 0x6f, 0x6f, 0x03, // length of 'bar'
        0x62, 0x61, 0x72, 0x03, 0x63, 0x6f, 0x6d, 0x00, // foo.bar.com
        0x00, 0x01, // a record
        0x00, 0x01, // class
    ];
    let (actual_query, _) = DnsQuery::from_bytes(&[], &bytes).unwrap();
    let mut expected_query = DnsQuery::new();
    expected_query.name = "foo.bar.com".to_owned();
    expected_query.qtype = ResourceType::A;
    expected_query.class = 1;

    assert_eq!(expected_query, actual_query);
}

#[test]
fn test_dns_query_to_bytes() {
    let mut query = DnsQuery::new();
    query.name = "foo.bar.com".to_owned();
    query.qtype = ResourceType::AAAA;
    query.class = 0x0123;
    let actual_bytes = query.to_bytes().unwrap();
    let expected_bytes = [
        0x03u8, 0x66u8, 0x6f, 0x6f, // foo
        0x03, 0x62, 0x61, 0x72, // bar
        0x03, 0x63, 0x6f, 0x6d, 0x00, // com
        0x00, 0x1c, 0x01, 0x23,
    ]
    .to_vec();
    assert_eq!(expected_bytes, actual_bytes);
}

#[test]
fn test_dns_answer_to_bytes() {
    let mut ans = DnsAnswer::new();
    ans.name = "foo.bar.com".to_owned();
    ans.qtype = ResourceType::A;
    ans.class = 0x0123;
    ans.ttl = 0x456789ab;
    ans.data_length = 4;
    ans.rdata = vec![0xde, 0xca, 0xfb, 0xad];
    let actual_bytes = ans.to_bytes().unwrap();
    let expected_bytes = [
        0x03u8, 0x66, 0x6f, 0x6f, 0x03, 0x62, 0x61, 0x72, 0x03, 0x63, 0x6f, 0x6d, 0x00, 0x00,
        0x01, 0x01, 0x23, 0x45, 0x67, 0x89, 0xab, 0x00, 0x04, 0xde, 0xca, 0xfb, 0xad,
    ]
    .to_vec();
    assert_eq!(expected_bytes, actual_bytes);
}

#[test]
fn test_dns_answer_from_bytes() {
    let bytes = [
        0x03u8, 0x66, 0x6f, 0x6f, 0x03, 0x62, 0x61, 0x72, 0x03, 0x63, 0x6f, 0x6d, 0x00, 0x00,
        0x01, 0x01, 0x23, 0x45, 0x67, 0x89, 0xab, 0x00, 0x04, 0xde, 0xca, 0xfb, 0xad,
    ];
    let mut expected_answer = DnsAnswer::new();
    expected_answer.name = "foo.bar.com".to_owned();
    expected_answer.qtype = ResourceType::A;
    expected_answer.class = 0x0123;
    expected_answer.ttl = 0x456789ab;
    expected_answer.data_length = 4;
    expected_answer.rdata = vec![0xde, 0xca, 0xfb, 0xad];
    let (actual_answer, _) = DnsAnswer::from_bytes(&[], &bytes).unwrap();
    assert_eq!(expected_answer, actual_answer);
}

#[test]
fn test_from_bytes_and_to_bytes() {
    let expected_bytes = [
        0x03u8, 0x66, 0x6f, 0x6f, 0x03, 0x62, 0x61, 0x72, 0x03, 0x63, 0x6f, 0x6d, 0x00, 0x00,
        0x01, 0x01, 0x23, 0x45, 0x67, 0x89, 0xab, 0x00, 0x04, 0xde, 0xca, 0xfb, 0xad,
    ];
    let (answer, num_read) = DnsAnswer::from_bytes(&[], &expected_bytes).unwrap();
    assert_eq!(expected_bytes.len(), num_read);
    assert_eq!(expected_bytes.to_vec(), answer.to_bytes().unwrap());
}

#[test]
fn test_request_from_bytes_zero_questions() {
    let bytes = [
        0x00u8, 0x00, // transaction id
        0x00, 0x00, // flags (standard query request)
        0x00, 0x00, // 0 questions
        0x00, 0x00, // dns request, so no answer rr's here of course
        0x00, 0x00, // neither authority rr's
        0x00, 0x00, // nor additional rr's
    ];
    let (actual_packet, _) = DnsPacket::from_bytes(&bytes).unwrap();
    let mut expected_packet = DnsPacket::new();
    expected_packet.header = DnsHeader::new();

    assert_eq!(expected_packet, actual_packet);
}

#[test]
fn test_request_from_bytes_with_one_question() {
    let bytes = [
        0x00u8, 0x00, // transaction id
        0x00, 0x00, // flags (standard query request)
        0x00, 0x01, // 1 question
        0x00, 0x00, // dns request, so no answer rr's here of course
        0x00, 0x00, // neither authority rr's
        0x00, 0x00, // nor additional rr's
        0x03, // length of 'foo'
        0x66, 0x6f, 0x6f, 0x03, 0x63, 0x6f, 0x6d, 0x00, // foo.com
        0x00, 0x01, // a record
        0x00, 0x01, // class
    ];
    let (actual_packet, _) = DnsPacket::from_bytes(&bytes).unwrap();
    let mut expected_packet = DnsPacket::new();
    expected_packet.header.questions_count = 1;
    let mut query = DnsQuery::new();
    query.name = "foo.com".to_owned();
    query.qtype = ResourceType::A;
    query.class = 1;
    expected_packet.queries = vec![query];
    expected_packet.answers = Vec::new();

    assert_eq!(expected_packet, actual_packet);
}

#[test]
fn test_request_from_bytes_with_many_questions() {
    let bytes = [
        0x00u8, 0x00, // transaction id
        0x00, 0x00, // flags (standard query request)
        0x00, 0x02, // 2 questions
        0x00, 0x00, // dns request, so no answer rr's here of course
        0x00, 0x00, // neither authority rr's
        0x00, 0x00, // nor additional rr's
        // queries
        0x03, // length of 'foo'
        0x66, 0x6f, 0x6f, 0x03, 0x63, 0x6f, 0x6d, 0x00, // foo.com
        0x00, 0x01, // a record
        0x00, 0x01, // class
        0x06, // length of 'purdue'
        0x70, 0x75, 0x72, 0x64, 0x75, 0x65, 0x03, 0x65, 0x64, 0x75, 0x00, // purdue.edu
        0x00, 0x01, // a record
        0x00, 0x01, // class
    ];
    let (actual_packet, _) = DnsPacket::from_bytes(&bytes).unwrap();
    let mut expected_packet = DnsPacket::new();
    expected_packet.header.questions_count = 2;
    let mut foo_query = DnsQuery::new();
    foo_query.name = "foo.com".to_owned();
    foo_query.qtype = ResourceType::A;
    foo_query.class = 1;
    let mut purdue_query = DnsQuery::new();
    purdue_query.name = "purdue.edu".to_owned();
    purdue_query.qtype = ResourceType::A;
    purdue_query.class = 1;
    expected_packet.queries = vec![foo_query, purdue_query];
    expected_packet.answers = Vec::new();

    assert_eq!(expected_packet, actual_packet);
}

#[test]
fn test_packet_to_bytes_and_from_bytes() {
    let bytes = [
        0x00u8, 0x00, // transaction id
        0x00, 0x00, // flags (standard query request)
        0x00, 0x02, // 2 questions
        0x00, 0x00, // dns request, so no answer rr's here of course
        0x00, 0x00, // neither authority rr's
        0x00, 0x00, // nor additional rr's
        // queries
        0x03, // length of 'foo'
        0x66, 0x6f, 0x6f, 0x03, 0x63, 0x6f, 0x6d, 0x00, // foo.com
        0x00, 0x01, // a record
        0x00, 0x01, // class
        0x06, // length of 'purdue'
        0x70, 0x75, 0x72, 0x64, 0x75, 0x65, 0x03, 0x65, 0x66, 0x75, 0x00, // purdue.edu
        0x00, 0x01, // a record
        0x00, 0x01, // class
    ]
    .to_vec();
    let (packet, _) = DnsPacket::from_bytes(&bytes).unwrap();
    assert_eq!(packet.to_bytes().unwrap(), bytes);
}

#[test]
fn test_packet_from_bytes_with_one_answer() {
    let bytes = [
        0x00u8, 0x00, // transaction id
        0x80, 0x00, // flags (standard query response)
        0x00, 0x00, // 0 questions
        0x00, 0x01, // 1 answer
        0x00, 0x00, 0x00, 0x00, // answer
        0x03u8, 0x66, 0x6f, 0x6f, 0x03, 0x63, 0x6f, 0x6d, 0x00, // foo.com
        0x00, 0x01, // a record
        0x01, 0x23, // class
        0x45, 0x67, 0x89, 0xab, // ttl
        0x00, 0x04, // data length
        0xde, 0xca, 0xfb, 0xad, // rdata
    ];
    let (packet, num_read) = DnsPacket::from_bytes(&bytes).unwrap();
    assert_eq!(bytes.len(), num_read);
    let mut answer = DnsAnswer::new();
    answer.name = "foo.com".to_owned();
    answer.qtype = ResourceType::A;
    answer.class = 0x0123;
    answer.ttl = 0x456789ab;
    answer.data_length = 4;
    answer.rdata = vec![0xde, 0xca, 0xfb, 0xad];
    assert_eq!(vec![answer], packet.answers);
}

#[test]
fn test_packet_from_bytes_with_many_answers() {
    let bytes = [
        0x00u8, 0x00, // transaction id
        0x80, 0x00, // flags (standard query response)
        0x00, 0x00, // 0 questions
        0x00, 0x02, // 2 answers
        0x00, 0x00, 0x00, 0x00,
        // answers
        //foo.com
        0x03u8, 0x66, 0x6f, 0x6f, 0x03, 0x63, 0x6f, 0x6d, 0x00, 0x00, 0x01, 0x01, 0x23, 0x45,
        0x67, 0x89, 0xab, 0x00, 0x04, 0xde, 0xca, 0xfb, 0xad, // bar.com
        0x03, 0x62, 0x61, 0x72, 0x03, 0x63, 0x6f, 0x6d, 0x00, 0x00, 0x01, 0x01, 0x23, 0x45, 0x67,
        0x89, 0xab, 0x00, 0x04, 0xde, 0xca, 0xfb, 0xad,
    ];
    let (packet, num_read) = DnsPacket::from_bytes(&bytes).unwrap();
    assert_eq!(bytes.len(), num_read);
    let mut foo_answer = DnsAnswer::new();
    foo_answer.name = "foo.com".to_owned();
    foo_answer.qtype = ResourceType::A;
    foo_answer.class = 0x0123;
    foo_answer.ttl = 0x456789ab;
    foo_answer.data_length = 4;
    foo_answer.rdata = vec![0xde, 0xca, 0xfb, 0xad];
    let mut bar_answer = DnsAnswer::new();
    bar_answer.name = "bar.com".to_owned();
    bar_answer.qtype = ResourceType::A;
    bar_answer.class = 0x0123;
    bar_answer.ttl = 0x456789ab;
    bar_answer.data_length = 4;
    bar_answer.rdata = vec![0xde, 0xca, 0xfb, 0xad];
    assert_eq!(vec![foo_answer, bar_answer], packet.answers);
}

#[test]
fn test_packet_additional_and_authority() {
    let bytes = [
        0x00u8, 0x00, // transaction id
        0x80, 0x00, // flags (standard query response)
        0x00, 0x00, // 0 questions
        0x00, 0x00, // 0 answers
        0x00, 0x01, // 1 authority
        0x00, 0x01, // 1 additional
        // authority
        //foo.com
        0x03u8, 0x66, 0x6f, 0x6f, 0x03, 0x63, 0x6f, 0x6d, 0x00, 0x00, 0x01, 0x01, 0x23, 0x45,
        0x67, 0x89, 0xab, 0x00, 0x04, 0xde, 0xca, 0xfb, 0xad, // additional: bar.com
        0x03, 0x62, 0x61, 0x72, 0x03, 0x63, 0x6f, 0x6d, 0x00, 0x00, 0x01, 0x01, 0x23, 0x45, 0x67,
        0x89, 0xab, 0x00, 0x04, 0xde, 0xca, 0xfb, 0xad,
    ];
    let (packet, num_read) = DnsPacket::from_bytes(&bytes).unwrap();
    assert_eq!(bytes.len(), num_read);
    assert_eq!(packet.to_bytes().unwrap(), bytes.to_vec());
}

#[test]
fn test_truncated_packet_fails() {
    // eleven octets cannot hold a header
    let bytes = [0u8; 11];
    assert!(DnsPacket::from_bytes(&bytes).is_err());
    // a question count of one with no question following
    let bytes = [
        0x00u8, 0x00, 0x00, 0x00, 0x00, 0x01, 0x00, 0x00, 0x00, 0x00, 0x00, 0x00,
    ];
    assert!(DnsPacket::from_bytes(&bytes).is_err());
}

#[test]
fn test_format_error_response_echoes_txid() {
    let bytes = [0xbeu8, 0xef, 0xff];
    let packet = DnsPacket::format_error_response(&bytes);
    assert_eq!(packet.header.tx_id, 0xbeef);
    assert_eq!(packet.header.response_code, ResponseCode::FormatError);
    assert!(packet.header.is_response);
    let packet = DnsPacket::format_error_response(&[]);
    assert_eq!(packet.header.tx_id, 0);
}
