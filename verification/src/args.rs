//! Content specifiers: the forms a caller may write a piece of content
//! in, and their normalization to a canonical content address.
//!
//! A specifier string is tried as a bare hash, then as a hash with an
//! explicit format, then as a ticket; the first form that parses wins.
//! This precedence is a deliberate, user-visible disambiguation rule:
//! a string that happens to parse as more than one form always
//! resolves to the earliest matching form.
use std::str::FromStr;

use vstd::prelude::*;

use crate::exchange::TrackerError;
use crate::model::{AddrV, BlobFormat, ContentHash, HashAndFormat, NodeId, Ticket};

verus! {

/// What `iroh_bytes::Hash::from_str` yields on a string: the digest
/// bytes when the string is a valid hash, nothing otherwise.
pub uninterp spec fn hash_of_str(s: Seq<char>) -> Option<Seq<u8>>;

/// What `iroh_bytes::HashAndFormat::from_str` yields on a string: the
/// digest bytes and whether the format is the hash-sequence one.
pub uninterp spec fn haf_of_str(s: Seq<char>) -> Option<(Seq<u8>, bool)>;

/// What `iroh_base::ticket::BlobTicket::from_str` yields on a string:
/// the hosting peer's identity bytes, the digest bytes, and whether
/// the format is the hash-sequence one.
pub uninterp spec fn ticket_of_str(s: Seq<char>) -> Option<(Seq<u8>, Seq<u8>, bool)>;

/// Relies on `iroh_bytes::Hash::from_str`: parses a digest written as
/// 64 hex digits or as unpadded base32, a function of the string
/// alone; a parsed digest always has full length.
#[verifier::external_body]
fn parse_hash(s: &str) -> (r: Option<ContentHash>)
    ensures
        (r is Some) == (hash_of_str(s@) is Some),
        r matches Some(h) ==> hash_of_str(s@) matches Some(v) && h@ == v && h.wf(),
{
    match iroh_bytes::Hash::from_str(s) {
        Ok(h) => Some(ContentHash { bytes: h.as_bytes().to_vec() }),
        Err(_) => None,
    }
}

/// Relies on `iroh_bytes::HashAndFormat::from_str`: parses 64 hex
/// digits as a raw address and an `s` followed by 64 hex digits as a
/// hash-sequence address, a function of the string alone; a parsed
/// digest always has full length.
#[verifier::external_body]
fn parse_hash_and_format(s: &str) -> (r: Option<HashAndFormat>)
    ensures
        (r is Some) == (haf_of_str(s@) is Some),
        r matches Some(a) ==> haf_of_str(s@) matches Some(v) && a.hash@ == v.0 && a.wf() && (
        (a.format is HashSeq) <==> v.1),
{
    let a = match iroh_bytes::HashAndFormat::from_str(s) {
        Ok(a) => a,
        Err(_) => return None,
    };
    let format = match a.format {
        iroh_bytes::BlobFormat::Raw => BlobFormat::Raw,
        iroh_bytes::BlobFormat::HashSeq => BlobFormat::HashSeq,
    };
    Some(HashAndFormat { hash: ContentHash { bytes: a.hash.as_bytes().to_vec() }, format })
}

/// Relies on `iroh_base::ticket::BlobTicket::from_str`: parses a
/// ticket string into the hosting peer's identity and the content it
/// hosts, a function of the string alone; a parsed identity and digest
/// always have full length.
#[verifier::external_body]
fn parse_ticket(s: &str) -> (r: Option<Ticket>)
    ensures
        (r is Some) == (ticket_of_str(s@) is Some),
        r matches Some(t) ==> ticket_of_str(s@) matches Some(v) && t.node@ == v.0 && t.hash@
            == v.1 && t.wf() && ((t.format is HashSeq) <==> v.2),
{
    let t = match iroh_base::ticket::BlobTicket::from_str(s) {
        Ok(t) => t,
        Err(_) => return None,
    };
    let format = match t.format() {
        iroh_bytes::BlobFormat::Raw => BlobFormat::Raw,
        iroh_bytes::BlobFormat::HashSeq => BlobFormat::HashSeq,
    };
    Some(Ticket {
        node: NodeId { bytes: t.node_addr().node_id.as_bytes().to_vec() },
        hash: ContentHash { bytes: t.hash().as_bytes().to_vec() },
        format,
    })
}

/// The ways a caller can specify content: a bare hash, a hash with an
/// explicit format, or a self-contained ticket.
#[derive(Debug, Clone, PartialEq, Eq)]
pub enum ContentArg {
    /// A bare hash; resolves with the raw format.
    Hash(ContentHash),
    /// A hash with an explicit format.
    HashAndFormat(HashAndFormat),
    /// A ticket carrying an address and a hosting peer.
    Ticket(Ticket),
}

impl ContentArg {
    /// Every digest and identity carried has full length.
    pub open spec fn wf(&self) -> bool {
        match *self {
            ContentArg::Hash(h) => h.wf(),
            ContentArg::HashAndFormat(a) => a.wf(),
            ContentArg::Ticket(t) => t.wf(),
        }
    }

    /// The address a specifier resolves to: a bare hash is raw, an
    /// explicit pair is itself, and a ticket contributes its own hash
    /// and format.
    pub open spec fn spec_hash_and_format(&self) -> AddrV {
        match *self {
            ContentArg::Hash(h) => AddrV { hash: h@, format: BlobFormat::Raw },
            ContentArg::HashAndFormat(a) => a@,
            ContentArg::Ticket(t) => AddrV { hash: t.hash@, format: t.format },
        }
    }

    /// The hosting peer a specifier names: only a ticket names one.
    pub open spec fn spec_host(&self) -> Option<Seq<u8>> {
        match *self {
            ContentArg::Ticket(t) => Some(t.node@),
            _ => None,
        }
    }

    /// Get the hash and format of the content.
    pub fn hash_and_format(&self) -> (r: HashAndFormat)
        ensures
            r@ == self.spec_hash_and_format(),
    {
        match self {
            ContentArg::Hash(h) => HashAndFormat {
                hash: h.duplicate(),
                format: BlobFormat::Raw,
            },
            ContentArg::HashAndFormat(a) => HashAndFormat {
                hash: a.hash.duplicate(),
                format: a.format,
            },
            ContentArg::Ticket(t) => HashAndFormat { hash: t.hash.duplicate(), format: t.format },
        }
    }

    /// Get the host of the content. Only defined for tickets.
    pub fn host(&self) -> (r: Option<NodeId>)
        ensures
            match self.spec_host() {
                Some(v) => r matches Some(n) && n@ == v,
                None => r is None,
            },
    {
        match self {
            ContentArg::Hash(_) => None,
            ContentArg::HashAndFormat(_) => None,
            ContentArg::Ticket(t) => Some(t.node.duplicate()),
        }
    }

    /// Parse a specifier string, trying the bare hash form first, then
    /// the hash-with-format form, then the ticket form, and resolving
    /// to the first form that parses.
    pub fn from_str(s: &str) -> (r: Result<ContentArg, TrackerError>)
        ensures
            match hash_of_str(s@) {
                Some(v) => r matches Ok(a) && a matches ContentArg::Hash(h) && h@ == v,
                None => match haf_of_str(s@) {
                    Some(v) => r matches Ok(a) && a matches ContentArg::HashAndFormat(x) && x.hash@
                        == v.0 && ((x.format is HashSeq) <==> v.1),
                    None => match ticket_of_str(s@) {
                        Some(v) => r matches Ok(a) && a matches ContentArg::Ticket(t) && t.node@
                            == v.0 && t.hash@ == v.1 && ((t.format is HashSeq) <==> v.2),
                        None => r matches Err(e) && e is SpecifierParse,
                    },
                },
            },
            r matches Ok(a) ==> a.wf(),
    {
        if let Some(h) = parse_hash(s) {
            Ok(ContentArg::Hash(h))
        } else if let Some(a) = parse_hash_and_format(s) {
            Ok(ContentArg::HashAndFormat(a))
        } else if let Some(t) = parse_ticket(s) {
            Ok(ContentArg::Ticket(t))
        } else {
            Err(TrackerError::SpecifierParse)
        }
    }
}

/// Ticket derivation: a ticket resolves to exactly the address it
/// carries, and its host is exactly the peer identity it embeds.
pub proof fn lemma_ticket_resolution(t: Ticket)
    ensures
        ContentArg::Ticket(t).spec_hash_and_format() == (AddrV {
            hash: t.hash@,
            format: t.format,
        }),
        ContentArg::Ticket(t).spec_host() == Some(t.node@),
{
}

} // verus!
