//! The content address model: a content hash, a format, and the peer
//! identities that announcements and queries speak about.
use vstd::prelude::*;

verus! {

/// Number of bytes in a content hash and in a peer identity.
pub const ID_LEN: usize = 32;

/// A format identifier: does an address name a single blob, or a
/// sequence of blobs reachable from a root hash?
#[derive(Debug, Clone, Copy, PartialEq, Eq, Structural)]
pub enum BlobFormat {
    /// A raw blob.
    Raw,
    /// A sequence of hashes referencing further blobs.
    HashSeq,
}

/// A fixed-size cryptographic digest identifying a blob's bytes.
#[derive(Debug, Clone, PartialEq, Eq)]
pub struct ContentHash {
    /// The digest bytes; a well-formed hash holds exactly `ID_LEN` of them.
    pub bytes: Vec<u8>,
}

impl View for ContentHash {
    type V = Seq<u8>;

    open spec fn view(&self) -> Seq<u8> {
        self.bytes@
    }
}

impl ContentHash {
    /// A content hash is exactly `ID_LEN` bytes.
    pub open spec fn wf(&self) -> bool {
        self@.len() == ID_LEN
    }
}

/// The identity of a network participant: a tracker, an announcing
/// host, or a queried host. Opaque; only equality matters here.
#[derive(Debug, Clone, PartialEq, Eq)]
pub struct NodeId {
    /// The identity bytes; a well-formed identity holds exactly `ID_LEN` of them.
    pub bytes: Vec<u8>,
}

impl View for NodeId {
    type V = Seq<u8>;

    open spec fn view(&self) -> Seq<u8> {
        self.bytes@
    }
}

impl NodeId {
    /// A peer identity is exactly `ID_LEN` bytes.
    pub open spec fn wf(&self) -> bool {
        self@.len() == ID_LEN
    }
}

/// The mathematical value of a content address: digest bytes plus format.
#[verifier::ext_equal]
pub struct AddrV {
    /// The digest bytes.
    pub hash: Seq<u8>,
    /// The format.
    pub format: BlobFormat,
}

impl AddrV {
    /// A well-formed address carries a full-length digest.
    pub open spec fn wf(&self) -> bool {
        self.hash.len() == ID_LEN
    }
}

/// A content address: a (hash, format) pair identifying either a single
/// blob or a set of blobs reachable from a root hash sequence.
#[derive(Debug, Clone, PartialEq, Eq)]
pub struct HashAndFormat {
    /// The content hash.
    pub hash: ContentHash,
    /// The format the hash is to be interpreted under.
    pub format: BlobFormat,
}

impl View for HashAndFormat {
    type V = AddrV;

    open spec fn view(&self) -> AddrV {
        AddrV { hash: self.hash@, format: self.format }
    }
}

impl HashAndFormat {
    /// Well-formed when the digest has full length.
    pub open spec fn wf(&self) -> bool {
        self@.wf()
    }
}

/// The mathematical value of a ticket.
#[verifier::ext_equal]
pub struct TicketV {
    /// The hosting peer's identity bytes.
    pub node: Seq<u8>,
    /// The digest bytes of the content.
    pub hash: Seq<u8>,
    /// The format of the content.
    pub format: BlobFormat,
}

/// A self-contained content specifier: a content address together with
/// the identity of a peer that hosts the content. The peer's transport
/// addresses travel with the ticket on the wire but play no part in the
/// logic here, so they are not modelled.
#[derive(Debug, Clone, PartialEq, Eq)]
pub struct Ticket {
    /// The hosting peer.
    pub node: NodeId,
    /// The content hash.
    pub hash: ContentHash,
    /// The format of the content.
    pub format: BlobFormat,
}

impl View for Ticket {
    type V = TicketV;

    open spec fn view(&self) -> TicketV {
        TicketV { node: self.node@, hash: self.hash@, format: self.format }
    }
}

impl Ticket {
    /// Well-formed when both the digest and the identity have full length.
    pub open spec fn wf(&self) -> bool {
        self.hash.wf() && self.node.wf()
    }
}

impl ContentHash {
    /// An equal copy of the digest.
    pub fn duplicate(&self) -> (r: ContentHash)
        ensures
            r@ == self@,
    {
        let mut bytes: Vec<u8> = Vec::new();
        let mut i: usize = 0;
        while i < self.bytes.len()
            invariant
                i <= self.bytes@.len(),
                bytes@ == self.bytes@.subrange(0, i as int),
            decreases self.bytes@.len() - i,
        {
            bytes.push(self.bytes[i]);
            assert(bytes@ =~= self.bytes@.subrange(0, i + 1));
            i = i + 1;
        }
        assert(bytes@ =~= self.bytes@);
        ContentHash { bytes }
    }
}

impl NodeId {
    /// An equal copy of the identity.
    pub fn duplicate(&self) -> (r: NodeId)
        ensures
            r@ == self@,
    {
        let mut bytes: Vec<u8> = Vec::new();
        let mut i: usize = 0;
        while i < self.bytes.len()
            invariant
                i <= self.bytes@.len(),
                bytes@ == self.bytes@.subrange(0, i as int),
            decreases self.bytes@.len() - i,
        {
            bytes.push(self.bytes[i]);
            assert(bytes@ =~= self.bytes@.subrange(0, i + 1));
            i = i + 1;
        }
        assert(bytes@ =~= self.bytes@);
        NodeId { bytes }
    }
}

// ---------------------------------------------------------------------
// The canonical order on addresses. The tracker protocol carries an
// announce's addresses as an ordered set: strictly ascending by digest
// bytes, then raw before hash-sequence, so equal sets have equal wire
// encodings.
// ---------------------------------------------------------------------

/// Lexicographic comparison of byte strings from position `i` on: the
/// first differing byte decides, and a strict prefix comes first.
pub open spec fn bytes_lt_from(a: Seq<u8>, b: Seq<u8>, i: int) -> bool
    decreases b.len() - i,
{
    if i >= b.len() {
        false
    } else if i >= a.len() {
        true
    } else if a[i] < b[i] {
        true
    } else if a[i] > b[i] {
        false
    } else {
        bytes_lt_from(a, b, i + 1)
    }
}

/// Lexicographic order on byte strings.
pub open spec fn bytes_lt(a: Seq<u8>, b: Seq<u8>) -> bool {
    bytes_lt_from(a, b, 0)
}

/// The canonical strict order on addresses: digest bytes first, then
/// raw before hash-sequence.
pub open spec fn addr_lt(x: AddrV, y: AddrV) -> bool {
    bytes_lt(x.hash, y.hash) || (x.hash == y.hash && x.format is Raw && y.format is HashSeq)
}

/// A canonical address list: strictly ascending, hence duplicate-free.
pub open spec fn strictly_sorted(s: Seq<AddrV>) -> bool {
    forall|i: int, j: int| 0 <= i < j < s.len() ==> addr_lt(s[i], s[j])
}

/// From any position within both strings, they compare one way or the
/// other, or their tails agree; and the comparison is asymmetric.
proof fn lemma_bytes_lt_from_total(a: Seq<u8>, b: Seq<u8>, i: int)
    requires
        0 <= i,
    ensures
        bytes_lt_from(a, b, i) ==> !bytes_lt_from(b, a, i),
        !bytes_lt_from(a, b, i) && !bytes_lt_from(b, a, i) && i <= a.len() && i <= b.len()
            ==> a.skip(i) == b.skip(i),
    decreases b.len() - i,
{
    if i >= b.len() {
        if !bytes_lt_from(b, a, i) && i <= a.len() && i <= b.len() {
            assert(i == a.len() && i == b.len());
            assert(a.skip(i) =~= b.skip(i));
        }
    } else if i >= a.len() {
    } else if a[i] == b[i] {
        lemma_bytes_lt_from_total(a, b, i + 1);
        if !bytes_lt_from(a, b, i) && !bytes_lt_from(b, a, i) {
            assert(a.skip(i + 1) == b.skip(i + 1));
            assert forall|k: int| 0 <= k < a.len() - i implies a.skip(i)[k] == b.skip(i)[k] by {
                if k > 0 {
                    assert(a.skip(i + 1)[k - 1] == b.skip(i + 1)[k - 1]);
                }
            };
            assert(a.skip(i) =~= b.skip(i));
        }
    }
}

/// The lexicographic order is transitive.
proof fn lemma_bytes_lt_from_trans(a: Seq<u8>, b: Seq<u8>, c: Seq<u8>, i: int)
    requires
        0 <= i,
        bytes_lt_from(a, b, i),
        bytes_lt_from(b, c, i),
    ensures
        bytes_lt_from(a, c, i),
    decreases c.len() - i,
{
    assert(i < c.len());
    assert(i < b.len());
    if i < a.len() {
        if a[i] == b[i] && b[i] == c[i] {
            lemma_bytes_lt_from_trans(a, b, c, i + 1);
        }
    }
}

/// The address order is a strict total order: any two addresses
/// compare one way, the other way, or are equal, and never two of
/// these at once.
pub proof fn lemma_addr_lt_total(x: AddrV, y: AddrV)
    ensures
        addr_lt(x, y) || addr_lt(y, x) || x == y,
        addr_lt(x, y) ==> !addr_lt(y, x) && x != y,
{
    lemma_bytes_lt_from_total(x.hash, y.hash, 0);
    assert(x.hash.skip(0) =~= x.hash);
    assert(y.hash.skip(0) =~= y.hash);
    if !bytes_lt(x.hash, y.hash) && !bytes_lt(y.hash, x.hash) {
        if x.format == y.format {
            assert(x =~= y);
        }
    }
}

/// The address order is transitive.
pub proof fn lemma_addr_lt_trans(x: AddrV, y: AddrV, z: AddrV)
    requires
        addr_lt(x, y),
        addr_lt(y, z),
    ensures
        addr_lt(x, z),
{
    if bytes_lt(x.hash, y.hash) && bytes_lt(y.hash, z.hash) {
        lemma_bytes_lt_from_trans(x.hash, y.hash, z.hash, 0);
    }
}

/// In a list whose neighbours ascend, any two positions ascend.
pub proof fn lemma_adjacent_sorted(s: Seq<AddrV>, p: int, q: int)
    requires
        forall|j: int| 0 <= j < s.len() - 1 ==> addr_lt(#[trigger] s[j], s[j + 1]),
        0 <= p < q < s.len(),
    ensures
        addr_lt(s[p], s[q]),
    decreases q - p,
{
    if q > p + 1 {
        lemma_adjacent_sorted(s, p, q - 1);
        lemma_addr_lt_trans(s[p], s[q - 1], s[q]);
    }
}

/// Compare byte strings from `i` on, exactly as the specification
/// order does.
fn bytes_less_from(a: &Vec<u8>, b: &Vec<u8>, i: usize) -> (r: bool)
    ensures
        r == bytes_lt_from(a@, b@, i as int),
    decreases b@.len() - i as int,
{
    if i >= b.len() {
        false
    } else if i >= a.len() {
        true
    } else if a[i] < b[i] {
        true
    } else if a[i] > b[i] {
        false
    } else {
        bytes_less_from(a, b, i + 1)
    }
}

/// Compare byte strings lexicographically.
fn bytes_less(a: &Vec<u8>, b: &Vec<u8>) -> (r: bool)
    ensures
        r == bytes_lt(a@, b@),
{
    bytes_less_from(a, b, 0)
}

/// Decide equality of byte strings.
fn bytes_equal(a: &Vec<u8>, b: &Vec<u8>) -> (r: bool)
    ensures
        r == (a@ == b@),
{
    if a.len() != b.len() {
        return false;
    }
    let mut i: usize = 0;
    while i < a.len()
        invariant
            i <= a@.len(),
            a@.len() == b@.len(),
            forall|j: int| 0 <= j < i ==> a@[j] == b@[j],
        decreases a@.len() - i,
    {
        if a[i] != b[i] {
            assert(a@[i as int] != b@[i as int]);
            return false;
        }
        i = i + 1;
    }
    assert(a@ =~= b@);
    true
}

/// Decide the canonical order between two addresses.
pub fn addr_less(x: &HashAndFormat, y: &HashAndFormat) -> (r: bool)
    ensures
        r == addr_lt(x@, y@),
{
    if bytes_less(&x.hash.bytes, &y.hash.bytes) {
        true
    } else if bytes_equal(&x.hash.bytes, &y.hash.bytes) {
        let xr: bool = match x.format {
            BlobFormat::Raw => true,
            BlobFormat::HashSeq => false,
        };
        let yh: bool = match y.format {
            BlobFormat::Raw => false,
            BlobFormat::HashSeq => true,
        };
        xr && yh
    } else {
        false
    }
}

/// Decide equality of two addresses.
pub fn addr_equal(x: &HashAndFormat, y: &HashAndFormat) -> (r: bool)
    ensures
        r == (x@ == y@),
{
    let same_format: bool = match x.format {
        BlobFormat::Raw => match y.format {
            BlobFormat::Raw => true,
            BlobFormat::HashSeq => false,
        },
        BlobFormat::HashSeq => match y.format {
            BlobFormat::Raw => false,
            BlobFormat::HashSeq => true,
        },
    };
    let r = same_format && bytes_equal(&x.hash.bytes, &y.hash.bytes);
    proof {
        if r {
            assert(x@ =~= y@);
        }
    }
    r
}

/// Decide whether an address list is canonical: strictly ascending in
/// the address order, hence duplicate-free.
pub fn is_canonical(content: &Vec<HashAndFormat>) -> (r: bool)
    ensures
        r == strictly_sorted(content@.map_values(|a: HashAndFormat| a@)),
{
    let ghost cv = content@.map_values(|a: HashAndFormat| a@);
    let n = content.len();
    let mut i: usize = 0;
    while i + 1 < n
        invariant
            i < n || i == 0,
            n == content@.len(),
            cv == content@.map_values(|a: HashAndFormat| a@),
            forall|j: int| 0 <= j < i ==> addr_lt(#[trigger] cv[j], cv[j + 1]),
        decreases n - i,
    {
        if !addr_less(&content[i], &content[i + 1]) {
            assert(!strictly_sorted(cv)) by {
                assert(strictly_sorted(cv) ==> addr_lt(cv[i as int], cv[i as int + 1]));
            };
            return false;
        }
        i = i + 1;
    }
    proof {
        assert(forall|j: int| 0 <= j < cv.len() - 1 ==> addr_lt(#[trigger] cv[j], cv[j + 1]));
        assert forall|p: int, q: int| 0 <= p < q < cv.len() implies addr_lt(cv[p], cv[q]) by {
            lemma_adjacent_sorted(cv, p, q);
        };
    }
    true
}

/// Two canonical lists with the same members are the same list: the
/// canonical order makes the wire encoding of a content set unique.
pub proof fn lemma_canonical_unique(s1: Seq<AddrV>, s2: Seq<AddrV>)
    requires
        strictly_sorted(s1),
        strictly_sorted(s2),
        forall|x: AddrV| #![trigger s1.contains(x)] s1.contains(x) <==> s2.contains(x),
    ensures
        s1 == s2,
    decreases s1.len(),
{
    if s1.len() == 0 {
        if s2.len() > 0 {
            assert(s2.contains(s2[0]));
            assert(s1.contains(s2[0]));
        }
        assert(s1 =~= s2);
    } else if s2.len() == 0 {
        assert(s1.contains(s1[0]));
        assert(s2.contains(s1[0]));
        assert(s1 =~= s2);
    } else {
        assert(s1.contains(s1[0]));
        assert(s2.contains(s2[0]));
        assert(s2.contains(s1[0]));
        assert(s1.contains(s2[0]));
        let k = choose|k: int| 0 <= k < s1.len() && s1[k] == s2[0];
        let m = choose|m: int| 0 <= m < s2.len() && s2[m] == s1[0];
        if k > 0 && m > 0 {
            assert(addr_lt(s1[0], s1[k]));
            assert(addr_lt(s2[0], s2[m]));
            lemma_addr_lt_total(s1[0], s2[0]);
        }
        assert(s1[0] == s2[0]);
        let t1 = s1.drop_first();
        let t2 = s2.drop_first();
        assert forall|i: int, j: int| 0 <= i < j < t1.len() implies addr_lt(t1[i], t1[j]) by {
            assert(t1[i] == s1[i + 1] && t1[j] == s1[j + 1]);
        };
        assert forall|i: int, j: int| 0 <= i < j < t2.len() implies addr_lt(t2[i], t2[j]) by {
            assert(t2[i] == s2[i + 1] && t2[j] == s2[j + 1]);
        };
        assert forall|x: AddrV| #[trigger] t1.contains(x) implies t2.contains(x) by {
            let i = choose|i: int| 0 <= i < t1.len() && t1[i] == x;
            assert(s1[i + 1] == x);
            assert(s1.contains(x));
            assert(addr_lt(s1[0], x));
            lemma_addr_lt_total(s2[0], x);
            assert(s2.contains(x));
            let j = choose|j: int| 0 <= j < s2.len() && s2[j] == x;
            assert(j > 0);
            assert(t2[j - 1] == x);
            assert(t2.contains(x));
        };
        assert forall|x: AddrV| #[trigger] t2.contains(x) implies t1.contains(x) by {
            let i = choose|i: int| 0 <= i < t2.len() && t2[i] == x;
            assert(s2[i + 1] == x);
            assert(s2.contains(x));
            assert(addr_lt(s2[0], x));
            lemma_addr_lt_total(s1[0], x);
            assert(s1.contains(x));
            let j = choose|j: int| 0 <= j < s1.len() && s1[j] == x;
            assert(j > 0);
            assert(t1[j - 1] == x);
            assert(t1.contains(x));
        };
        lemma_canonical_unique(t1, t2);
        assert forall|i: int| 0 <= i < s1.len() implies s1[i] == s2[i] by {
            if i > 0 {
                assert(t1[i - 1] == t2[i - 1]);
            }
        };
        assert(s1 =~= s2);
    }
}

} // verus!
