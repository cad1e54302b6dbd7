//! Round-trip and exchange-step behaviour of the protocol layer.
use content_tracker::codec::{
    decode_request, decode_response, encode_request, encode_response, read_varint, write_varint,
};
use content_tracker::exchange::{announce_finish, query_finish, REQUEST_SIZE_LIMIT, TRACKER_ALPN};
use content_tracker::{
    insert_addr, Announce, AnnounceKind, BlobFormat, ContentHash, HashAndFormat, NodeId, Query,
    QueryFlags, QueryResponse, Request, Response, TrackerError,
};

fn hash(byte: u8) -> ContentHash {
    ContentHash { bytes: vec![byte; 32] }
}

fn node(byte: u8) -> NodeId {
    NodeId { bytes: vec![byte; 32] }
}

fn addr(byte: u8, format: BlobFormat) -> HashAndFormat {
    HashAndFormat { hash: hash(byte), format }
}

fn sample_announce(kind: AnnounceKind) -> Announce {
    Announce {
        host: node(9),
        content: vec![addr(1, BlobFormat::Raw), addr(2, BlobFormat::HashSeq)],
        kind,
    }
}

#[test]
fn request_round_trip_announce() {
    let req = Request::Announce(sample_announce(AnnounceKind::Complete));
    let bytes = encode_request(&req);
    assert_eq!(decode_request(&bytes), Some(req));
}

#[test]
fn request_round_trip_query() {
    let req = Request::Query(Query {
        content: addr(3, BlobFormat::HashSeq),
        flags: QueryFlags { complete: false, verified: true },
    });
    let bytes = encode_request(&req);
    assert_eq!(decode_request(&bytes), Some(req));
}

#[test]
fn response_round_trip() {
    let resp = Response::QueryResponse(QueryResponse {
        content: addr(4, BlobFormat::Raw),
        hosts: vec![node(1), node(2), node(1)],
    });
    let bytes = encode_response(&resp);
    assert_eq!(decode_response(&bytes), Some(resp));
}

#[test]
fn request_round_trip_empty_content() {
    let req = Request::Announce(Announce {
        host: node(7),
        content: vec![],
        kind: AnnounceKind::Partial,
    });
    let bytes = encode_request(&req);
    assert_eq!(decode_request(&bytes), Some(req));
}

#[test]
fn announce_kind_fidelity() {
    for kind in [AnnounceKind::Partial, AnnounceKind::Complete] {
        let req = Request::Announce(sample_announce(kind));
        let bytes = encode_request(&req);
        match decode_request(&bytes) {
            Some(Request::Announce(a)) => assert_eq!(a.kind, kind),
            other => panic!("unexpected decode result: {:?}", other),
        }
    }
}

#[test]
fn response_preserves_host_order() {
    let hosts = vec![node(5), node(3), node(8), node(3)];
    let resp = Response::QueryResponse(QueryResponse {
        content: addr(1, BlobFormat::Raw),
        hosts: hosts.clone(),
    });
    let bytes = encode_response(&resp);
    match decode_response(&bytes) {
        Some(Response::QueryResponse(q)) => assert_eq!(q.hosts, hosts),
        other => panic!("unexpected decode result: {:?}", other),
    }
}

#[test]
fn exact_announce_encoding() {
    let req = Request::Announce(Announce {
        host: node(0xaa),
        content: vec![addr(0xbb, BlobFormat::HashSeq)],
        kind: AnnounceKind::Partial,
    });
    let bytes = encode_request(&req);
    let mut expected = vec![0u8];
    expected.extend(vec![0xaa; 32]);
    expected.push(1);
    expected.extend(vec![0xbb; 32]);
    expected.push(1);
    expected.push(0);
    assert_eq!(bytes, expected);
}

#[test]
fn exact_query_encoding() {
    let req = Request::Query(Query {
        content: addr(0xcc, BlobFormat::Raw),
        flags: QueryFlags { complete: true, verified: false },
    });
    let bytes = encode_request(&req);
    let mut expected = vec![1u8];
    expected.extend(vec![0xcc; 32]);
    expected.push(0);
    expected.push(1);
    expected.push(0);
    assert_eq!(bytes, expected);
}

#[test]
fn decode_rejects_unknown_variant_tag() {
    let resp = Response::QueryResponse(QueryResponse {
        content: addr(4, BlobFormat::Raw),
        hosts: vec![],
    });
    let mut bytes = encode_response(&resp);
    bytes[0] = 7;
    assert_eq!(decode_response(&bytes), None);
    let req = Request::Query(Query {
        content: addr(4, BlobFormat::Raw),
        flags: QueryFlags { complete: false, verified: false },
    });
    let mut rbytes = encode_request(&req);
    rbytes[0] = 2;
    assert_eq!(decode_request(&rbytes), None);
}

#[test]
fn decode_rejects_trailing_bytes() {
    let req = Request::Announce(sample_announce(AnnounceKind::Partial));
    let mut bytes = encode_request(&req);
    bytes.push(0);
    assert_eq!(decode_request(&bytes), None);
}

#[test]
fn decode_rejects_truncated_input() {
    let req = Request::Announce(sample_announce(AnnounceKind::Partial));
    let mut bytes = encode_request(&req);
    bytes.pop();
    assert_eq!(decode_request(&bytes), None);
    assert_eq!(decode_request(&vec![]), None);
}

#[test]
fn varint_round_trip() {
    for n in [0u64, 1, 127, 128, 129, 255, 300, 16383, 16384, 1 << 32, u64::MAX] {
        let mut out: Vec<u8> = Vec::new();
        write_varint(&mut out, n);
        let decoded = read_varint(&out, 0);
        assert_eq!(decoded, Some((n, out.len())));
    }
}

#[test]
fn varint_minimal_lengths() {
    let mut out: Vec<u8> = Vec::new();
    write_varint(&mut out, 127);
    assert_eq!(out, vec![127]);
    out.clear();
    write_varint(&mut out, 128);
    assert_eq!(out, vec![0x80, 0x01]);
    out.clear();
    write_varint(&mut out, 300);
    assert_eq!(out, vec![0xac, 0x02]);
}

#[test]
fn varint_rejects_non_minimal_encoding() {
    // 1 encoded with a useless continuation byte
    assert_eq!(read_varint(&vec![0x81, 0x00], 0), None);
}

#[test]
fn response_too_large_is_an_error() {
    let big = vec![0u8; REQUEST_SIZE_LIMIT + 1];
    assert_eq!(query_finish(&big), Err(TrackerError::ResponseTooLarge));
    assert_eq!(announce_finish(&big), Err(TrackerError::ResponseTooLarge));
}

#[test]
fn response_at_the_cap_is_accepted_for_announce() {
    let at_cap = vec![0u8; REQUEST_SIZE_LIMIT];
    assert_eq!(announce_finish(&at_cap), Ok(()));
    assert_eq!(announce_finish(&vec![]), Ok(()));
}

#[test]
fn garbage_response_is_a_decoding_error() {
    let garbage = vec![0xffu8; 40];
    assert_eq!(query_finish(&garbage), Err(TrackerError::Decoding));
    assert_eq!(query_finish(&vec![]), Err(TrackerError::Decoding));
}

#[test]
fn query_scenario_returns_hosts_in_order() {
    // A query with complete = true, verified = false against a tracker
    // that replies with two hosts yields those hosts in that order.
    let content = addr(0xd1, BlobFormat::Raw);
    let query = Query {
        content: content.clone(),
        flags: QueryFlags { complete: true, verified: false },
    };
    let request_bytes =
        content_tracker::exchange::query_request_bytes(query);
    // the tracker's side: decode the request, answer with two hosts
    let decoded = decode_request(&request_bytes).expect("tracker decodes the query");
    let queried = match decoded {
        Request::Query(q) => q,
        other => panic!("unexpected request: {:?}", other),
    };
    assert!(queried.flags.complete);
    assert!(!queried.flags.verified);
    let h1 = node(0xe1);
    let h2 = node(0xe2);
    let reply = Response::QueryResponse(QueryResponse {
        content: queried.content,
        hosts: vec![h1.clone(), h2.clone()],
    });
    let reply_bytes = encode_response(&reply);
    let got = query_finish(&reply_bytes).expect("client decodes the reply");
    assert_eq!(got.content, content);
    assert_eq!(got.hosts, vec![h1, h2]);
}

#[test]
fn from_complete_maps_both_ways() {
    assert_eq!(AnnounceKind::from_complete(true), AnnounceKind::Complete);
    assert_eq!(AnnounceKind::from_complete(false), AnnounceKind::Partial);
}

#[test]
fn error_kinds_are_distinct() {
    let all = [
        TrackerError::SpecifierParse,
        TrackerError::Connection,
        TrackerError::Encoding,
        TrackerError::Decoding,
        TrackerError::ResponseTooLarge,
    ];
    for (i, a) in all.iter().enumerate() {
        for (j, b) in all.iter().enumerate() {
            assert_eq!(i == j, a == b);
        }
    }
}

#[test]
fn protocol_identifier_is_fixed() {
    assert_eq!(TRACKER_ALPN.as_bytes(), b"n0/tracker/1");
    assert_eq!(REQUEST_SIZE_LIMIT, 16384);
}

#[test]
fn insert_addr_keeps_content_canonical() {
    let mut content: Vec<HashAndFormat> = Vec::new();
    insert_addr(&mut content, addr(2, BlobFormat::Raw));
    insert_addr(&mut content, addr(1, BlobFormat::HashSeq));
    insert_addr(&mut content, addr(1, BlobFormat::Raw));
    insert_addr(&mut content, addr(2, BlobFormat::Raw));
    assert_eq!(
        content,
        vec![
            addr(1, BlobFormat::Raw),
            addr(1, BlobFormat::HashSeq),
            addr(2, BlobFormat::Raw),
        ]
    );
}

#[test]
fn equal_content_sets_encode_identically() {
    // the same set of addresses, given in two different orders and
    // once with a duplicate, encodes to the same bytes
    let given_one = [
        addr(3, BlobFormat::HashSeq),
        addr(1, BlobFormat::Raw),
        addr(2, BlobFormat::Raw),
    ];
    let given_two = [
        addr(2, BlobFormat::Raw),
        addr(3, BlobFormat::HashSeq),
        addr(1, BlobFormat::Raw),
        addr(3, BlobFormat::HashSeq),
    ];
    let mut content_one: Vec<HashAndFormat> = Vec::new();
    for a in given_one {
        insert_addr(&mut content_one, a);
    }
    let mut content_two: Vec<HashAndFormat> = Vec::new();
    for a in given_two {
        insert_addr(&mut content_two, a);
    }
    let encode = |content: Vec<HashAndFormat>| {
        encode_request(&Request::Announce(Announce {
            host: node(9),
            content,
            kind: AnnounceKind::Complete,
        }))
    };
    assert_eq!(encode(content_one), encode(content_two));
}

#[test]
fn decode_rejects_non_canonical_content() {
    let announce_bytes = |first: u8, second: u8| {
        let mut bytes = vec![0u8];
        bytes.extend(vec![0xaa; 32]);
        bytes.push(2);
        bytes.extend(vec![first; 32]);
        bytes.push(0);
        bytes.extend(vec![second; 32]);
        bytes.push(0);
        bytes.push(0);
        bytes
    };
    // ascending content decodes
    assert!(decode_request(&announce_bytes(1, 2)).is_some());
    // out-of-order content is rejected
    assert_eq!(decode_request(&announce_bytes(2, 1)), None);
    // duplicated content is rejected
    assert_eq!(decode_request(&announce_bytes(1, 1)), None);
}
