use dns_resolver::answer::DnsAnswer;
use dns_resolver::authority::Authority;
use dns_resolver::blocklist::{is_blocked, validate_blocklist_entry};
use dns_resolver::client::{DnsClient, Resolution};
use dns_resolver::header::{ResourceType, ResponseCode};
use dns_resolver::packet::DnsPacket;
use dns_resolver::query::DnsQuery;
use dns_resolver::record::{MxInformation, Record, RecordInformation, SoaInformation};
use dns_resolver::resolvers::{resolver_step, stub_resolver, ResolverStep};
use dns_resolver::serialization::{serialize_domain_to_bytes, FromBytes};

fn soa_record(owner: &str) -> Record {
    Record {
        name: owner.to_owned(),
        ttl: 60,
        rec_type: ResourceType::StartOfAuthority,
        rec_class: "IN".to_owned(),
        data: RecordInformation::Soa(SoaInformation {
            domain_name: "foo".to_owned(),
            fqdn: "soa.foo.com.".to_owned(),
            email: "foo@foo.com".to_owned(),
            serial: 42,
            refresh: 43,
            retry: 44,
            expire: 45,
            minimum: 46,
        }),
    }
}

fn test_zone() -> Authority {
    Authority {
        default_ttl: 60,
        origin: "foo.com".to_owned(),
        records: vec![
            soa_record("baz"),
            Record {
                name: "baz".to_owned(),
                ttl: 30,
                rec_type: ResourceType::A,
                rec_class: "IN".to_owned(),
                data: RecordInformation::A("12.34.56.78".to_owned()),
            },
            Record {
                name: "baz".to_owned(),
                ttl: 30,
                rec_type: ResourceType::AAAA,
                rec_class: "IN".to_owned(),
                data: RecordInformation::AAAA(vec![
                    0x26, 0x07, 0xf8, 0xb0, 0x40, 0x09, 0x08, 0x11, 0x00, 0x00, 0x00, 0x00, 0x00,
                    0x00, 0x20, 0x0e,
                ]),
            },
            Record {
                name: "baz".to_owned(),
                ttl: 30,
                rec_type: ResourceType::CName,
                rec_class: "IN".to_owned(),
                data: RecordInformation::CName("bla.com".to_owned()),
            },
            Record {
                name: "baz".to_owned(),
                ttl: 30,
                rec_type: ResourceType::MX,
                rec_class: "IN".to_owned(),
                data: RecordInformation::MX(MxInformation {
                    preference: 42,
                    exchange: "mail.foo.com".to_owned(),
                }),
            },
            Record {
                name: "baz".to_owned(),
                ttl: 30,
                rec_type: ResourceType::NS,
                rec_class: "IN".to_owned(),
                data: RecordInformation::NS("ns.foo.com".to_owned()),
            },
        ],
    }
}

fn answered(r: Result<Resolution, ()>) -> DnsPacket {
    match r.unwrap() {
        Resolution::Answer(p) => p,
        Resolution::Recurse(_) => panic!("expected an answer, got a recursion"),
    }
}

#[test]
fn test_validate_blocklist_entry() {
    validate_blocklist_entry("fdsa*.fdsa*.").unwrap_err();
    validate_blocklist_entry("abcd.*efgh").unwrap_err();
    validate_blocklist_entry("abcd*.").unwrap_err();
    assert_eq!(
        ("foo.com".to_owned(), true),
        validate_blocklist_entry("*.foo.com").unwrap()
    );
}

#[test]
fn test_validate_blocklist_plain_entry() {
    assert_eq!(
        ("ads.example.com".to_owned(), false),
        validate_blocklist_entry("ads.example.com").unwrap()
    );
}

#[test]
fn test_wildcard_blocks_subdomains_only() {
    // a wildcard entry blocks strict subdomains, not the suffix itself
    let blocklist = vec![validate_blocklist_entry("*.ads.com").unwrap()];
    assert!(is_blocked(&blocklist, &"x.ads.com".to_owned()));
    assert!(is_blocked(&blocklist, &"y.x.ads.com".to_owned()));
    assert!(!is_blocked(&blocklist, &"ads.com".to_owned()));
    assert!(!is_blocked(&blocklist, &"notads.com".to_owned()));
}

#[test]
fn test_plain_entry_blocks_exactly() {
    // a plain entry blocks only the name itself
    let blocklist = vec![validate_blocklist_entry("a.com").unwrap()];
    assert!(is_blocked(&blocklist, &"a.com".to_owned()));
    assert!(!is_blocked(&blocklist, &"x.a.com".to_owned()));
}

#[test]
fn accepts_single_question_only() {
    let client = DnsClient::new(0, Vec::new(), Vec::new()).unwrap();
    let mut req = DnsPacket::new();
    req.header.questions_count = 2;
    let res = answered(client.results(req));
    assert_eq!(res.header.response_code, ResponseCode::NotImplemented);
    assert!(res.header.is_response);
}

#[test]
fn test_query_hits_cache() {
    let query = DnsQuery::new();
    let mut answer = DnsAnswer::new();
    answer.name = "12.34.56.78".to_owned();
    let mut client = DnsClient::new(1, Vec::new(), Vec::new()).unwrap();
    client.cache_put(query.clone(), answer.clone(), 10);
    let mut req = DnsPacket::new();
    req.header.questions_count = 1;
    req.queries = vec![query];
    let res = answered(client.results(req));
    assert_eq!(res.answers, vec![answer]);
    assert!(res.header.is_response);
}

#[test]
fn test_cache_miss_goes_to_recursion() {
    let client = DnsClient::new(1, Vec::new(), Vec::new()).unwrap();
    let mut query = DnsQuery::new();
    query.name = "fresh.example.com".to_owned();
    query.qtype = ResourceType::A;
    let mut req = DnsPacket::new();
    req.header.questions_count = 1;
    req.queries = vec![query];
    match client.results(req.clone()).unwrap() {
        Resolution::Recurse(p) => assert_eq!(p, req),
        Resolution::Answer(_) => panic!("an empty cache and no zones cannot answer"),
    }
}

#[test]
fn test_gives_error_for_invalid_domain() {
    let mut query = DnsQuery::new();
    query.name = "invalid domain".to_owned();
    let client = DnsClient::new(1, Vec::new(), Vec::new()).unwrap();
    let mut req = DnsPacket::new();
    req.header.questions_count = 1;
    req.queries = vec![query];
    let res = answered(client.results(req));
    assert_eq!(res.header.response_code, ResponseCode::NameError);
    assert!(res.header.is_response);
}

#[test]
fn test_inverse_query() {
    let client = DnsClient::new(1, Vec::new(), Vec::new()).unwrap();
    let mut req = DnsPacket::new();
    req.header.opcode = 1;
    let actual = answered(client.results(req));
    let mut expected = DnsPacket::new_response();
    expected.header.response_code = ResponseCode::NotImplemented;
    assert_eq!(actual, expected);
    assert!(actual.queries.is_empty());
    assert!(actual.answers.is_empty());
    assert!(actual.authority.is_empty());
    assert!(actual.additional.is_empty());
}

#[test]
fn test_unknown_opcode_not_implemented() {
    let client = DnsClient::new(1, Vec::new(), Vec::new()).unwrap();
    let mut req = DnsPacket::new();
    req.header.opcode = 2;
    let actual = answered(client.results(req));
    assert_eq!(actual.header.response_code, ResponseCode::NotImplemented);
}

#[test]
fn test_authoritative_query() {
    let client = DnsClient::new(1, Vec::new(), vec![test_zone()]).unwrap();

    // test A
    let mut query = DnsQuery::new();
    query.name = "baz.foo.com".to_owned();
    query.qtype = ResourceType::A;
    let mut req = DnsPacket::new();
    req.queries = vec![query.clone()];
    req.header.questions_count = 1;
    req.header.tx_id = 0xbeef;

    let actual_packet = answered(client.results(req));

    let mut expected_packet = DnsPacket::new_response();
    expected_packet.header.questions_count = 1;
    expected_packet.header.answers_count = 1;
    expected_packet.header.authoritative = true;
    expected_packet.header.tx_id = 0xbeef;
    let mut expected_answer = DnsAnswer::new();
    expected_answer.name = "baz.foo.com".to_owned();
    expected_answer.qtype = ResourceType::A;
    expected_answer.ttl = 30;
    expected_answer.data_length = 4;
    expected_answer.rdata = vec![0x0c, 0x22, 0x38, 0x4e];
    expected_packet.queries = vec![query];
    expected_packet.answers = vec![expected_answer];

    assert_eq!(expected_packet, actual_packet);

    // test AAAA
    let mut query = DnsQuery::new();
    query.name = "baz.foo.com".to_owned();
    query.qtype = ResourceType::AAAA;
    let mut req = DnsPacket::new();
    req.queries = vec![query.clone()];
    req.header.questions_count = 1;
    req.header.tx_id = 0xbeef;

    let actual_packet = answered(client.results(req));

    let mut expected_packet = DnsPacket::new_response();
    expected_packet.header.questions_count = 1;
    expected_packet.header.answers_count = 1;
    expected_packet.header.authoritative = true;
    expected_packet.header.tx_id = 0xbeef;
    let mut expected_answer = DnsAnswer::new();
    expected_answer.name = "baz.foo.com".to_owned();
    expected_answer.qtype = ResourceType::AAAA;
    expected_answer.ttl = 30;
    expected_answer.data_length = 16;
    expected_answer.rdata = vec![
        0x26, 0x07, 0xf8, 0xb0, 0x40, 0x09, 0x08, 0x11, 0x00, 0x00, 0x00, 0x00, 0x00, 0x00, 0x20,
        0x0e,
    ];
    expected_packet.queries = vec![query];
    expected_packet.answers = vec![expected_answer];

    assert_eq!(expected_packet, actual_packet);

    // test cname
    let mut query = DnsQuery::new();
    query.name = "baz.foo.com".to_owned();
    query.qtype = ResourceType::CName;
    let mut req = DnsPacket::new();
    req.queries = vec![query.clone()];
    req.header.questions_count = 1;
    req.header.tx_id = 0xbeef;

    let actual_packet = answered(client.results(req));

    let mut expected_packet = DnsPacket::new_response();
    expected_packet.header.questions_count = 1;
    expected_packet.header.answers_count = 1;
    expected_packet.header.authoritative = true;
    expected_packet.header.tx_id = 0xbeef;
    let mut expected_answer = DnsAnswer::new();
    expected_answer.name = "baz.foo.com".to_owned();
    expected_answer.qtype = ResourceType::CName;
    expected_answer.ttl = 30;
    expected_answer.rdata = serialize_domain_to_bytes("bla.com").unwrap();
    expected_answer.data_length = expected_answer.rdata.len() as u16;
    expected_packet.queries = vec![query];
    expected_packet.answers = vec![expected_answer];

    assert_eq!(expected_packet, actual_packet);

    // test mx
    let mut query = DnsQuery::new();
    query.name = "baz.foo.com".to_owned();
    query.qtype = ResourceType::MX;
    let mut req = DnsPacket::new();
    req.queries = vec![query.clone()];
    req.header.questions_count = 1;
    req.header.tx_id = 0xbeef;

    let actual_packet = answered(client.results(req));

    let mut expected_packet = DnsPacket::new_response();
    expected_packet.header.questions_count = 1;
    expected_packet.header.answers_count = 1;
    expected_packet.header.authoritative = true;
    expected_packet.header.tx_id = 0xbeef;
    let mut expected_answer = DnsAnswer::new();
    expected_answer.name = "baz.foo.com".to_owned();
    expected_answer.qtype = ResourceType::MX;
    expected_answer.ttl = 30;
    expected_answer.rdata = vec![0x00, 42];
    expected_answer
        .rdata
        .extend(serialize_domain_to_bytes("mail.foo.com").unwrap());
    expected_answer.data_length = expected_answer.rdata.len() as u16;
    expected_packet.queries = vec![query];
    expected_packet.answers = vec![expected_answer];

    assert_eq!(expected_packet, actual_packet);

    // test soa
    let mut query = DnsQuery::new();
    query.name = "baz.foo.com".to_owned();
    query.qtype = ResourceType::StartOfAuthority;
    let mut req = DnsPacket::new();
    req.queries = vec![query.clone()];
    req.header.questions_count = 1;
    req.header.tx_id = 0xbeef;

    let actual_packet = answered(client.results(req));

    let soa_information = SoaInformation {
        domain_name: "foo".to_owned(),
        fqdn: "soa.foo.com.".to_owned(),
        email: "foo@foo.com".to_owned(),
        serial: 42,
        refresh: 43,
        retry: 44,
        expire: 45,
        minimum: 46,
    };
    let mut expected_packet = DnsPacket::new_response();
    expected_packet.header.questions_count = 1;
    expected_packet.header.answers_count = 1;
    expected_packet.header.authoritative = true;
    expected_packet.header.tx_id = 0xbeef;
    let mut expected_answer = DnsAnswer::new();
    expected_answer.name = "baz.foo.com".to_owned();
    expected_answer.qtype = ResourceType::StartOfAuthority;
    expected_answer.ttl = 60;
    expected_answer.rdata = soa_information.rdata_bytes().unwrap();
    expected_answer.data_length = expected_answer.rdata.len() as u16;
    expected_packet.queries = vec![query];
    expected_packet.answers = vec![expected_answer];

    assert_eq!(expected_packet, actual_packet);

    // test ns
    let mut query = DnsQuery::new();
    query.name = "baz.foo.com".to_owned();
    query.qtype = ResourceType::NS;
    let mut req = DnsPacket::new();
    req.queries = vec![query.clone()];
    req.header.questions_count = 1;
    req.header.tx_id = 0xbeef;

    let actual_packet = answered(client.results(req));

    let mut expected_packet = DnsPacket::new_response();
    expected_packet.header.questions_count = 1;
    expected_packet.header.answers_count = 1;
    expected_packet.header.authoritative = true;
    expected_packet.header.tx_id = 0xbeef;
    let mut expected_answer = DnsAnswer::new();
    expected_answer.name = "baz.foo.com".to_owned();
    expected_answer.qtype = ResourceType::NS;
    expected_answer.ttl = 30;
    expected_answer.rdata = serialize_domain_to_bytes("ns.foo.com").unwrap();
    expected_answer.data_length = expected_answer.rdata.len() as u16;
    expected_packet.queries = vec![query];
    expected_packet.answers = vec![expected_answer];

    assert_eq!(expected_packet, actual_packet);
}

#[test]
fn test_client_blocklist() {
    let mut query = DnsQuery::new();
    query.name = "bar.foo.com".to_owned();
    query.qtype = ResourceType::A;
    let mut req = DnsPacket::new();
    req.queries = vec![query.clone()];
    req.header.questions_count = 1;
    req.header.tx_id = 0xbeef;

    let blocklist = vec![("foo.com".to_owned(), true)];
    let client = DnsClient::new(1, blocklist, Vec::new()).unwrap();
    client.results(req).unwrap_err();
}

#[test]
fn test_zone_with_two_soa_records_is_rejected() {
    let mut zone = test_zone();
    zone.records.push(soa_record("other"));
    assert!(!zone.check_has_one_authority_record());
    assert!(DnsClient::new(1, Vec::new(), vec![zone]).is_err());
}

#[test]
fn test_zone_with_zero_soa_records_is_rejected() {
    let zone = Authority {
        default_ttl: 60,
        origin: "foo.com".to_owned(),
        records: Vec::new(),
    };
    assert!(!zone.check_has_one_authority_record());
    assert!(DnsClient::new(1, Vec::new(), vec![zone]).is_err());
}

#[test]
fn test_stub_resolver_answers_question() {
    let mut query = DnsQuery::new();
    query.name = "foo.com".to_owned();
    query.qtype = ResourceType::A;
    let mut req = DnsPacket::new();
    req.header.questions_count = 1;
    req.queries = vec![query];
    let res = stub_resolver("0.0.0.0", req);
    assert!(res.header.is_response);
    assert_eq!(res.header.answers_count, 1);
    assert_eq!(res.answers.len(), 1);
    assert_eq!(res.answers[0].name, "foo.com");
    assert_eq!(res.answers[0].rdata, vec![0xde, 0xca, 0xfb, 0xad]);
}

#[test]
fn test_resolver_step_terminal_answer() {
    let mut question = DnsQuery::new();
    question.name = "foo.com".to_owned();
    question.qtype = ResourceType::A;
    let mut res = DnsPacket::new_response();
    let mut ans = DnsAnswer::new();
    ans.name = "foo.com".to_owned();
    ans.qtype = ResourceType::A;
    res.answers = vec![ans];
    assert_eq!(resolver_step(&res, &question), ResolverStep::Answer);
}

#[test]
fn test_resolver_step_follows_glue() {
    let mut question = DnsQuery::new();
    question.name = "foo.com".to_owned();
    question.qtype = ResourceType::A;
    let mut res = DnsPacket::new_response();
    let mut ns = DnsAnswer::new();
    ns.name = "com".to_owned();
    ns.qtype = ResourceType::NS;
    ns.rdata = serialize_domain_to_bytes("a.gtld-servers.net").unwrap();
    ns.data_length = ns.rdata.len() as u16;
    res.authority = vec![ns];
    let mut glue = DnsAnswer::new();
    glue.name = "a.gtld-servers.net".to_owned();
    glue.qtype = ResourceType::A;
    glue.rdata = vec![192, 5, 6, 30];
    res.additional = vec![glue];
    assert_eq!(
        resolver_step(&res, &question),
        ResolverStep::Referral(vec![192, 5, 6, 30])
    );
}

#[test]
fn test_resolver_step_follows_quad_a_glue() {
    let mut question = DnsQuery::new();
    question.name = "foo.com".to_owned();
    question.qtype = ResourceType::A;
    let mut res = DnsPacket::new_response();
    let mut ns = DnsAnswer::new();
    ns.name = "com".to_owned();
    ns.qtype = ResourceType::NS;
    ns.rdata = serialize_domain_to_bytes("a.gtld-servers.net").unwrap();
    ns.data_length = ns.rdata.len() as u16;
    res.authority = vec![ns];
    let v6 = vec![
        0x20u8, 0x01, 0x05, 0x03, 0xa8, 0x3e, 0x00, 0x00, 0x00, 0x00, 0x00, 0x00, 0x00, 0x02,
        0x00, 0x30,
    ];
    let mut glue = DnsAnswer::new();
    glue.name = "a.gtld-servers.net".to_owned();
    glue.qtype = ResourceType::AAAA;
    glue.rdata = v6.clone();
    res.additional = vec![glue];
    assert_eq!(resolver_step(&res, &question), ResolverStep::Referral(v6));
}

#[test]
fn test_resolver_step_ignores_unrelated_glue() {
    // an address record whose owner is not any NS record's target is no glue
    let mut question = DnsQuery::new();
    question.name = "foo.com".to_owned();
    question.qtype = ResourceType::A;
    let mut res = DnsPacket::new_response();
    let mut ns = DnsAnswer::new();
    ns.name = "com".to_owned();
    ns.qtype = ResourceType::NS;
    ns.rdata = serialize_domain_to_bytes("a.gtld-servers.net").unwrap();
    ns.data_length = ns.rdata.len() as u16;
    res.authority = vec![ns];
    let mut stray = DnsAnswer::new();
    stray.name = "unrelated.example".to_owned();
    stray.qtype = ResourceType::A;
    stray.rdata = vec![10, 0, 0, 1];
    res.additional = vec![stray];
    assert_eq!(resolver_step(&res, &question), ResolverStep::Fail);
}

#[test]
fn test_resolver_step_fails_without_glue() {
    let mut question = DnsQuery::new();
    question.name = "foo.com".to_owned();
    question.qtype = ResourceType::A;
    let mut res = DnsPacket::new_response();
    let mut ns = DnsAnswer::new();
    ns.name = "com".to_owned();
    ns.qtype = ResourceType::NS;
    ns.rdata = serialize_domain_to_bytes("a.gtld-servers.net").unwrap();
    ns.data_length = ns.rdata.len() as u16;
    res.authority = vec![ns];
    assert_eq!(resolver_step(&res, &question), ResolverStep::Fail);
}

#[test]
fn test_soa_info_to_bytes() {
    let soa = SoaInformation {
        domain_name: "foo".to_owned(),
        fqdn: "soa.foo.com.".to_owned(),
        email: "mail.foo.com".to_owned(),
        serial: 42,
        refresh: 43,
        retry: 44,
        expire: 45,
        minimum: 46,
    };
    let mut expected_bytes = serialize_domain_to_bytes("soa.foo.com").unwrap();
    expected_bytes.extend(serialize_domain_to_bytes("mail.foo.com").unwrap());
    for timer in [42u32, 43, 44, 45, 46] {
        expected_bytes.extend(timer.to_be_bytes());
    }
    assert_eq!(expected_bytes, soa.rdata_bytes().unwrap());
}

#[test]
fn test_unknown_record_type_kept_verbatim() {
    // a record with an unsupported type code decodes with its raw rdata
    let bytes = [
        0x00u8, 0x00, // transaction id
        0x80, 0x00, // flags
        0x00, 0x00, // 0 questions
        0x00, 0x01, // 1 answer
        0x00, 0x00, 0x00, 0x00, // answer with type code 0xabcd
        0x03, 0x66, 0x6f, 0x6f, 0x03, 0x63, 0x6f, 0x6d, 0x00, // foo.com
        0xab, 0xcd, // unknown type
        0x00, 0x01, // class
        0x00, 0x00, 0x00, 0x3c, // ttl
        0x00, 0x03, // data length
        0x01, 0x02, 0x03, // rdata kept verbatim
    ];
    let (packet, num_read) = DnsPacket::from_bytes(&bytes).unwrap();
    assert_eq!(bytes.len(), num_read);
    assert_eq!(packet.answers[0].qtype, ResourceType::Unused(0xabcd));
    assert_eq!(packet.answers[0].rdata, vec![1, 2, 3]);
    // re-encoding writes the code the record arrived with
    assert_eq!(packet.to_bytes().unwrap(), bytes.to_vec());
}

#[test]
fn test_response_codes_map_to_wire_values() {
    for (code, value) in [
        (ResponseCode::NoError, 0u8),
        (ResponseCode::FormatError, 1),
        (ResponseCode::ServerError, 2),
        (ResponseCode::NameError, 3),
        (ResponseCode::NotImplemented, 4),
        (ResponseCode::Refused, 5),
    ] {
        assert_eq!(code.to_u8(), value);
        assert_eq!(ResponseCode::from_u8(value), code);
    }
}

#[test]
fn test_resource_type_codes() {
    for (t, value) in [
        (ResourceType::A, 1u16),
        (ResourceType::NS, 2),
        (ResourceType::CName, 5),
        (ResourceType::StartOfAuthority, 6),
        (ResourceType::MX, 15),
        (ResourceType::AAAA, 28),
        (ResourceType::Unused(0), 0),
    ] {
        assert_eq!(t.as_u16(), value);
        assert_eq!(ResourceType::from_u16(value), t);
    }
    assert_eq!(ResourceType::from_u16(0x1234), ResourceType::Unused(0x1234));
}
