//! The protocol message model: the Announce/Query/Response schema that
//! client and tracker exchange, and the views the encoding contract is
//! stated over.
use vstd::prelude::*;

use crate::model::{
    addr_equal, addr_less, addr_lt, lemma_addr_lt_total, lemma_addr_lt_trans, strictly_sorted,
    AddrV, HashAndFormat, NodeId,
};

verus! {

/// Whether an announcing host claims to hold all bytes reachable from
/// an address or only some of them.
#[derive(Debug, Clone, Copy, PartialEq, Eq, Structural)]
pub enum AnnounceKind {
    /// The host claims to hold only part of the data.
    Partial,
    /// The host claims to hold the complete data.
    Complete,
}

impl AnnounceKind {
    /// Map a completeness flag to the announce kind it stands for.
    pub fn from_complete(complete: bool) -> (r: Self)
        ensures
            r == (if complete { AnnounceKind::Complete } else { AnnounceKind::Partial }),
    {
        if complete {
            Self::Complete
        } else {
            Self::Partial
        }
    }
}

/// The mathematical value of an announce message.
#[verifier::ext_equal]
pub struct AnnounceV {
    /// The identity bytes of the host the claim is about.
    pub host: Seq<u8>,
    /// The addresses the claim covers, in wire order.
    pub content: Seq<AddrV>,
    /// The kind of the claim.
    pub kind: AnnounceKind,
}

impl AnnounceV {
    /// Every identity and digest has full length, the address count
    /// fits the wire's length field, and the addresses form a
    /// canonical set: strictly ascending in the address order, hence
    /// duplicate-free, so equal sets have equal encodings.
    pub open spec fn wf(&self) -> bool {
        &&& self.host.len() == crate::model::ID_LEN
        &&& self.content.len() <= u64::MAX
        &&& forall|i: int| 0 <= i < self.content.len() ==> (#[trigger] self.content[i]).wf()
        &&& strictly_sorted(self.content)
    }
}

/// One host's claim to hold one or more content addresses, all with the
/// same kind. The claim may be made on behalf of another peer, which is
/// why the host travels in the message. The addresses form an ordered
/// set: well-formed content is strictly ascending in the canonical
/// address order and duplicate-free (build it with [`insert_addr`]), so
/// equal sets encode to identical bytes. An empty set is accepted but
/// carries no information.
#[derive(Debug, Clone, PartialEq, Eq)]
pub struct Announce {
    /// The peer that supposedly has the data.
    pub host: NodeId,
    /// The addresses the peer claims to have.
    pub content: Vec<HashAndFormat>,
    /// The kind of the announcement.
    pub kind: AnnounceKind,
}

impl View for Announce {
    type V = AnnounceV;

    open spec fn view(&self) -> AnnounceV {
        AnnounceV {
            host: self.host@,
            content: self.content@.map_values(|a: HashAndFormat| a@),
            kind: self.kind,
        }
    }
}

impl Announce {
    /// Well-formed when the host identity and every address are.
    pub open spec fn wf(&self) -> bool {
        self@.wf()
    }
}

/// Restrictions a query puts on the hosts the tracker may return.
#[derive(Debug, Clone, Copy, PartialEq, Eq, Structural)]
pub struct QueryFlags {
    /// Only return hosts that claim to have the complete data.
    pub complete: bool,
    /// Only return hosts the tracker has actively verified, under the
    /// tracker's own verification policy.
    pub verified: bool,
}

/// The mathematical value of a query message.
#[verifier::ext_equal]
pub struct QueryV {
    /// The address being asked about.
    pub content: AddrV,
    /// The restrictions on returned hosts.
    pub flags: QueryFlags,
}

impl QueryV {
    /// The digest has full length.
    pub open spec fn wf(&self) -> bool {
        self.content.wf()
    }
}

/// Ask a tracker which hosts claim to hold one content address.
#[derive(Debug, Clone, PartialEq, Eq)]
pub struct Query {
    /// The content to find hosts for; exactly one address per query.
    pub content: HashAndFormat,
    /// The mode of the query.
    pub flags: QueryFlags,
}

impl View for Query {
    type V = QueryV;

    open spec fn view(&self) -> QueryV {
        QueryV { content: self.content@, flags: self.flags }
    }
}

impl Query {
    /// Well-formed when the queried address is.
    pub open spec fn wf(&self) -> bool {
        self@.wf()
    }
}

/// The mathematical value of a query response.
#[verifier::ext_equal]
pub struct QueryResponseV {
    /// The address that was queried.
    pub content: AddrV,
    /// The identity bytes of the returned hosts, in tracker order.
    pub hosts: Seq<Seq<u8>>,
}

impl QueryResponseV {
    /// Every digest and identity has full length, and the host count
    /// fits the wire's length field.
    pub open spec fn wf(&self) -> bool {
        &&& self.content.wf()
        &&& self.hosts.len() <= u64::MAX
        &&& forall|i: int| 0 <= i < self.hosts.len() ==> (#[trigger] self.hosts[i]).len()
            == crate::model::ID_LEN
    }
}

/// The tracker's answer to a query: the hosts that claim the content,
/// in the exact order the tracker produced; this layer neither sorts
/// nor deduplicates them.
#[derive(Debug, Clone, PartialEq, Eq)]
pub struct QueryResponse {
    /// The content that was queried.
    pub content: HashAndFormat,
    /// The hosts that supposedly have the content.
    pub hosts: Vec<NodeId>,
}

impl View for QueryResponse {
    type V = QueryResponseV;

    open spec fn view(&self) -> QueryResponseV {
        QueryResponseV {
            content: self.content@,
            hosts: self.hosts@.map_values(|n: NodeId| n@),
        }
    }
}

impl QueryResponse {
    /// Well-formed when the address and every host identity are.
    pub open spec fn wf(&self) -> bool {
        self@.wf()
    }
}

/// The mathematical value of a request.
#[verifier::ext_equal]
pub enum RequestV {
    /// An announce message.
    Announce(AnnounceV),
    /// A query message.
    Query(QueryV),
}

impl RequestV {
    /// Well-formedness of the carried message.
    pub open spec fn wf(&self) -> bool {
        match *self {
            RequestV::Announce(a) => a.wf(),
            RequestV::Query(q) => q.wf(),
        }
    }
}

/// A request to the tracker.
#[derive(Debug, Clone, PartialEq, Eq)]
pub enum Request {
    /// Announce info.
    Announce(Announce),
    /// Query info.
    Query(Query),
}

impl View for Request {
    type V = RequestV;

    open spec fn view(&self) -> RequestV {
        match *self {
            Request::Announce(a) => RequestV::Announce(a@),
            Request::Query(q) => RequestV::Query(q@),
        }
    }
}

impl Request {
    /// Well-formedness of the carried message.
    pub open spec fn wf(&self) -> bool {
        self@.wf()
    }
}

/// The mathematical value of a response.
#[verifier::ext_equal]
pub enum ResponseV {
    /// An answer to a query.
    QueryResponse(QueryResponseV),
}

impl ResponseV {
    /// Well-formedness of the carried message.
    pub open spec fn wf(&self) -> bool {
        match *self {
            ResponseV::QueryResponse(q) => q.wf(),
        }
    }
}

/// A response from the tracker. A single variant today; decoders match
/// on the tag so that future variants fail loudly instead of being
/// misread.
#[derive(Debug, Clone, PartialEq, Eq)]
pub enum Response {
    /// Response to a query.
    QueryResponse(QueryResponse),
}

impl View for Response {
    type V = ResponseV;

    open spec fn view(&self) -> ResponseV {
        match *self {
            Response::QueryResponse(q) => ResponseV::QueryResponse(q@),
        }
    }
}

impl Response {
    /// Well-formedness of the carried message.
    pub open spec fn wf(&self) -> bool {
        self@.wf()
    }
}

/// The mathematical value of an address list.
pub open spec fn content_view(s: Seq<HashAndFormat>) -> Seq<AddrV> {
    s.map_values(|x: HashAndFormat| x@)
}

/// A canonically placed element between its neighbours makes the
/// whole list canonical again, and adds exactly itself to the set of
/// elements.
proof fn lemma_insert_canonical(oldv: Seq<AddrV>, a: AddrV, i: int, newv: Seq<AddrV>)
    requires
        strictly_sorted(oldv),
        0 <= i <= oldv.len(),
        forall|j: int| 0 <= j < i ==> addr_lt(#[trigger] oldv[j], a),
        forall|j: int| i <= j < oldv.len() ==> addr_lt(a, #[trigger] oldv[j]),
        newv == oldv.insert(i, a),
    ensures
        strictly_sorted(newv),
        forall|x: AddrV| newv.contains(x) <==> (oldv.contains(x) || x == a),
{
    oldv.insert_ensures(i, a);
    assert forall|p: int, q: int| 0 <= p < q < newv.len() implies addr_lt(newv[p], newv[q]) by {
        if q < i {
            assert(newv[p] == oldv[p] && newv[q] == oldv[q]);
        } else if q == i {
            assert(newv[p] == oldv[p] && newv[q] == a);
        } else if p < i {
            assert(newv[p] == oldv[p] && newv[q] == oldv[q - 1]);
            assert(p < q - 1 && addr_lt(oldv[p], oldv[q - 1]));
        } else if p == i {
            assert(newv[p] == a && newv[q] == oldv[q - 1]);
        } else {
            assert(newv[p] == oldv[p - 1] && newv[q] == oldv[q - 1]);
            assert(addr_lt(oldv[p - 1], oldv[q - 1]));
        }
    };
    assert forall|x: AddrV| newv.contains(x) implies (oldv.contains(x) || x == a) by {
        let k = choose|k: int| 0 <= k < newv.len() && newv[k] == x;
        if k < i {
            assert(oldv[k] == x);
        } else if k > i {
            assert(oldv[k - 1] == x);
        }
    };
    assert forall|x: AddrV| oldv.contains(x) || x == a implies newv.contains(x) by {
        if oldv.contains(x) {
            let k = choose|k: int| 0 <= k < oldv.len() && oldv[k] == x;
            if k < i {
                assert(newv[k] == x);
            } else {
                assert(newv[k + 1] == x);
            }
        } else {
            assert(newv[i] == x);
        }
    };
}

/// Insert an address into a canonical content list, keeping it
/// strictly ascending and duplicate-free: afterwards the list holds
/// exactly the old addresses and the new one, and inserting an
/// address already present changes nothing. Announce content built
/// through this function gives equal address sets equal lists, and so
/// identical wire encodings.
pub fn insert_addr(content: &mut Vec<HashAndFormat>, a: HashAndFormat)
    requires
        strictly_sorted(content_view(old(content)@)),
        forall|i: int| 0 <= i < old(content)@.len() ==> (#[trigger] old(content)@[i])@.wf(),
        a.wf(),
    ensures
        strictly_sorted(content_view(final(content)@)),
        forall|i: int| 0 <= i < final(content)@.len() ==> (#[trigger] final(content)@[i])@.wf(),
        forall|x: AddrV| #![trigger content_view(final(content)@).contains(x)]
            content_view(final(content)@).contains(x) <==> (content_view(
                old(content)@,
            ).contains(x) || x == a@),
        content_view(old(content)@).contains(a@) ==> final(content)@ == old(content)@,
{
    let ghost oldv = content_view(content@);
    let n = content.len();
    let mut i: usize = 0;
    while i < n
        invariant
            i <= n,
            n == content@.len(),
            content@ == old(content)@,
            oldv == content_view(content@),
            a.wf(),
            strictly_sorted(oldv),
            forall|k: int| 0 <= k < old(content)@.len() ==> (#[trigger] old(content)@[k])@.wf(),
            forall|j: int| 0 <= j < i ==> addr_lt(#[trigger] oldv[j], a@),
        decreases n - i,
    {
        if !addr_less(&content[i], &a) {
            if addr_equal(&content[i], &a) {
                proof {
                    assert(oldv[i as int] == a@);
                    assert(oldv.contains(a@));
                }
                return;
            }
            proof {
                lemma_addr_lt_total(oldv[i as int], a@);
                assert(addr_lt(a@, oldv[i as int]));
                assert forall|j: int| i <= j < oldv.len() implies addr_lt(
                    a@,
                    #[trigger] oldv[j],
                ) by {
                    if j > i {
                        assert(addr_lt(oldv[i as int], oldv[j]));
                        lemma_addr_lt_trans(a@, oldv[i as int], oldv[j]);
                    }
                };
            }
            let ghost pos = i as int;
            content.insert(i, a);
            proof {
                lemma_insert_after(oldv, old(content)@, content@, a, pos);
            }
            return;
        }
        i = i + 1;
    }
    let ghost pos = n as int;
    content.insert(n, a);
    proof {
        lemma_insert_after(oldv, old(content)@, content@, a, pos);
    }
}

/// After the vector insertion, the view is the ghost insertion, and
/// the canonical-set conclusions follow.
proof fn lemma_insert_after(
    oldv: Seq<AddrV>,
    oldc: Seq<HashAndFormat>,
    newc: Seq<HashAndFormat>,
    a: HashAndFormat,
    i: int,
)
    requires
        strictly_sorted(oldv),
        oldv == content_view(oldc),
        0 <= i <= oldc.len(),
        a.wf(),
        forall|k: int| 0 <= k < oldc.len() ==> (#[trigger] oldc[k])@.wf(),
        forall|j: int| 0 <= j < i ==> addr_lt(#[trigger] oldv[j], a@),
        forall|j: int| i <= j < oldv.len() ==> addr_lt(a@, #[trigger] oldv[j]),
        newc == oldc.insert(i, a),
    ensures
        strictly_sorted(content_view(newc)),
        forall|k: int| 0 <= k < newc.len() ==> (#[trigger] newc[k])@.wf(),
        forall|x: AddrV| #![trigger content_view(newc).contains(x)]
            content_view(newc).contains(x) <==> (oldv.contains(x) || x == a@),
        !oldv.contains(a@),
{
    assert forall|k: int| 0 <= k < oldv.len() implies oldv[k] != a@ by {
        if k < i {
            lemma_addr_lt_total(oldv[k], a@);
        } else {
            lemma_addr_lt_total(a@, oldv[k]);
        }
    };
    let newv = content_view(newc);
    oldc.insert_ensures(i, a);
    oldv.insert_ensures(i, a@);
    assert forall|k: int| 0 <= k < newv.len() implies newv[k] == oldv.insert(i, a@)[k] by {
        if k < i {
            assert(newc[k] == oldc[k]);
        } else if k == i {
            assert(newc[k] == a);
        } else {
            assert(newc[k] == oldc[k - 1]);
        }
    };
    assert(newv =~= oldv.insert(i, a@));
    lemma_insert_canonical(oldv, a@, i, oldv.insert(i, a@));
    assert forall|k: int| 0 <= k < newc.len() implies (#[trigger] newc[k])@.wf() by {
        if k < i {
            assert(newc[k] == oldc[k]);
        } else if k > i {
            assert(newc[k] == oldc[k - 1]);
        }
    };
}

} // verus!
