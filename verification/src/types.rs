//! The data model: identities, profiles, addresses, actions and records, and
//! the error taxonomy of the directory.

use vstd::prelude::*;

verus! {

/// An opaque, globally unique value identifying a participant (a
/// public-key-like value, externally supplied).
pub type Identity = u64;

/// A participant's profile: a nickname (UTF-8 bytes) plus an opaque blob
/// standing for the remaining application fields.
pub struct Profile {
    pub nickname: Vec<u8>,
    pub fields: Vec<u8>,
}

/// The typed-edge kinds of this domain.  `Unrecognized` stands for an edge
/// type belonging to some other domain that shares the same log.
#[derive(PartialEq, Eq, Structural, Clone, Copy, Debug)]
pub enum LinkTypes {
    /// Root index node to bucket index node.
    PrefixPath,
    /// Bucket index node to a participant, tagged with the lowercased nickname.
    PathToAgent,
    /// Participant to the root version of their profile entry.
    AgentToProfile,
    /// An edge type of a foreign domain.
    Unrecognized,
}

/// The application entry kinds this domain recognizes.
pub enum EntryTypes {
    Profile(Profile),
}

/// What a record carries as its entry payload: a recognized application
/// entry, or an entry belonging to some other domain.
pub enum StoredEntry {
    App(EntryTypes),
    Foreign,
}

/// A content-derived address: a participant's key, a record in the arena, a
/// deterministically derived index node for a bucket key, or the root of the
/// index namespace.
pub enum Address {
    Agent(Identity),
    Rec(usize),
    Index(Vec<u8>),
    IndexRoot,
}

/// The tagged operation a record represents.  `Update` and `Delete` name the
/// record address they supersede or remove; `DeleteLink` names the
/// `CreateLink` record it tombstones.  `Other` stands for any action kind
/// outside this domain.
pub enum Action {
    Create,
    Update { original: usize },
    Delete { deletes: usize },
    CreateLink { base: Address, target: Address, link_type: LinkTypes, tag: Vec<u8> },
    DeleteLink { link_add: usize },
    Other,
}

/// An immutable, content-addressed log record: an action plus, for
/// `Create`/`Update`, an attached entry payload.
pub struct Record {
    pub action: Action,
    pub entry: Option<StoredEntry>,
}

/// The directory's error taxonomy.  Every operation reports exactly which
/// precondition or structural fault occurred; there is no catch-all.
#[derive(PartialEq, Eq, Structural, Clone, Copy, Debug)]
pub enum Error {
    /// A search prefix under 3 bytes, rejected before any store access.
    InvalidPrefix,
    /// A registration for an identity that already has a live profile edge.
    AlreadyRegistered,
    /// An update for an identity with no live profile edge.
    NotRegistered,
    /// Version-chain resolution hit an address or record of invalid shape.
    MalformedChain,
    /// A `DeleteLink` whose referenced `CreateLink` cannot be fetched.
    DanglingDeleteLink,
}

/// Equivalence of addresses: same variant, with byte-for-byte equal bucket
/// keys for index nodes.
pub open spec fn addr_eqv(a: Address, b: Address) -> bool {
    match (a, b) {
        (Address::Agent(x), Address::Agent(y)) => x == y,
        (Address::Rec(x), Address::Rec(y)) => x == y,
        (Address::Index(x), Address::Index(y)) => x@ == y@,
        (Address::IndexRoot, Address::IndexRoot) => true,
        _ => false,
    }
}

/// Equivalence of profiles: equal nickname bytes and equal field bytes.
pub open spec fn profile_eqv(a: Profile, b: Profile) -> bool {
    a.nickname@ == b.nickname@ && a.fields@ == b.fields@
}

/// Equivalence of recognized entries.
pub open spec fn entry_eqv(a: EntryTypes, b: EntryTypes) -> bool {
    match (a, b) {
        (EntryTypes::Profile(p), EntryTypes::Profile(q)) => profile_eqv(p, q),
    }
}

/// `p` is a byte-prefix of `w`.
pub open spec fn prefix_of(p: Seq<u8>, w: Seq<u8>) -> bool {
    p.len() <= w.len() && w.take(p.len() as int) == p
}

pub fn bytes_eq(a: &Vec<u8>, b: &Vec<u8>) -> (r: bool)
    ensures
        r == (a@ == b@),
{
    if a.len() != b.len() {
        assert(a@ != b@);
        return false;
    }
    let n = a.len();
    let mut i: usize = 0;
    while i < n
        invariant
            i <= n,
            n == a@.len() && n == b@.len(),
            forall|k: int| 0 <= k < i ==> a@[k] == b@[k],
        decreases n - i,
    {
        if a[i] != b[i] {
            return false;
        }
        i = i + 1;
    }
    assert(a@ =~= b@);
    true
}

pub fn copy_bytes(v: &Vec<u8>) -> (r: Vec<u8>)
    ensures
        r@ == v@,
{
    let n = v.len();
    let mut r: Vec<u8> = Vec::new();
    let mut i: usize = 0;
    while i < n
        invariant
            i <= n,
            n == v@.len(),
            r@ == v@.take(i as int),
        decreases n - i,
    {
        r.push(v[i]);
        assert(r@ =~= v@.take(i + 1 as int));
        i = i + 1;
    }
    assert(v@.take(n as int) =~= v@);
    r
}

/// Whether `p` is a byte-prefix of `w`.
pub fn is_prefix(p: &Vec<u8>, w: &Vec<u8>) -> (r: bool)
    ensures
        r == prefix_of(p@, w@),
{
    if p.len() > w.len() {
        return false;
    }
    let n = p.len();
    let mut i: usize = 0;
    while i < n
        invariant
            i <= n,
            n == p@.len(),
            n <= w@.len(),
            forall|k: int| 0 <= k < i ==> p@[k] == w@[k],
        decreases n - i,
    {
        if p[i] != w[i] {
            assert(w@.take(n as int)[i as int] != p@[i as int]);
            return false;
        }
        i = i + 1;
    }
    assert(w@.take(n as int) =~= p@);
    true
}

pub fn addr_eq(a: &Address, b: &Address) -> (r: bool)
    ensures
        r == addr_eqv(*a, *b),
{
    match (a, b) {
        (Address::Agent(x), Address::Agent(y)) => *x == *y,
        (Address::Rec(x), Address::Rec(y)) => *x == *y,
        (Address::Index(x), Address::Index(y)) => bytes_eq(x, y),
        (Address::IndexRoot, Address::IndexRoot) => true,
        _ => false,
    }
}

pub fn clone_profile(p: &Profile) -> (r: Profile)
    ensures
        profile_eqv(r, *p),
{
    Profile { nickname: copy_bytes(&p.nickname), fields: copy_bytes(&p.fields) }
}

pub fn clone_entry(e: &EntryTypes) -> (r: EntryTypes)
    ensures
        entry_eqv(r, *e),
{
    match e {
        EntryTypes::Profile(p) => EntryTypes::Profile(clone_profile(p)),
    }
}

} // verus!
