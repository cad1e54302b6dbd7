//! Content specifier resolution against the real parsers.
use std::str::FromStr;

use content_tracker::{BlobFormat, ContentArg, TrackerError};

const HEX: &str = "deadbeefdeadbeefdeadbeefdeadbeefdeadbeefdeadbeefdeadbeefdeadbeef";

fn deadbeef_bytes() -> Vec<u8> {
    let mut v = Vec::new();
    for _ in 0..8 {
        v.extend([0xde, 0xad, 0xbe, 0xef]);
    }
    v
}

#[test]
fn bare_hash_resolves_raw_with_no_host() {
    let arg = ContentArg::from_str(HEX).expect("a 64-digit hex string is a hash");
    let haf = arg.hash_and_format();
    assert_eq!(haf.format, BlobFormat::Raw);
    assert_eq!(haf.hash.bytes, deadbeef_bytes());
    assert_eq!(arg.host(), None);
}

#[test]
fn hash_takes_precedence_over_hash_and_format() {
    // a 64-digit hex string is valid both as a bare hash and as a
    // hash-and-format in the raw form; the hash reading must win
    assert!(iroh_bytes::Hash::from_str(HEX).is_ok());
    assert!(iroh_bytes::HashAndFormat::from_str(HEX).is_ok());
    let arg = ContentArg::from_str(HEX).unwrap();
    assert!(matches!(arg, ContentArg::Hash(_)));
}

#[test]
fn explicit_hash_seq_format_is_kept() {
    let spec = format!("s{}", HEX);
    let arg = ContentArg::from_str(&spec).expect("s plus hex digits is an address");
    assert!(matches!(arg, ContentArg::HashAndFormat(_)));
    let haf = arg.hash_and_format();
    assert_eq!(haf.format, BlobFormat::HashSeq);
    assert_eq!(haf.hash.bytes, deadbeef_bytes());
    assert_eq!(arg.host(), None);
}

#[test]
fn ticket_resolves_to_its_address_and_host() {
    let secret = iroh_base::key::SecretKey::from_bytes(&[7u8; 32]);
    let peer = secret.public();
    let relay: iroh_base::node_addr::RelayUrl = "https://relay.example".parse().unwrap();
    let node_addr = iroh_base::node_addr::NodeAddr::new(peer).with_relay_url(relay);
    let hash = iroh_bytes::Hash::from(&[5u8; 32]);
    let ticket =
        iroh_base::ticket::BlobTicket::new(node_addr, hash, iroh_bytes::BlobFormat::HashSeq)
            .unwrap();
    let spec = ticket.to_string();
    assert!(spec.starts_with("blob"));
    let arg = ContentArg::from_str(&spec).expect("a ticket string parses");
    assert!(matches!(arg, ContentArg::Ticket(_)));
    let haf = arg.hash_and_format();
    assert_eq!(haf.format, BlobFormat::HashSeq);
    assert_eq!(haf.hash.bytes, vec![5u8; 32]);
    let host = arg.host().expect("a ticket names its host");
    assert_eq!(host.bytes, peer.as_bytes().to_vec());
}

#[test]
fn unparsable_specifier_is_a_parse_error() {
    assert_eq!(
        ContentArg::from_str("not a specifier"),
        Err(TrackerError::SpecifierParse)
    );
    assert_eq!(ContentArg::from_str(""), Err(TrackerError::SpecifierParse));
}
