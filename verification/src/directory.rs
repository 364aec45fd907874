//! The directory service: register a profile, update it, look one up by
//! identity, search identities by nickname prefix, and enumerate everyone.
//!
//! An identity's profile is found through its live `AgentToProfile` edge and
//! the latest-version resolver; the prefix search reads the live
//! `PathToAgent` edges of the prefix bucket, whose tags are the full
//! lowercased nicknames.

use vstd::prelude::*;

use crate::index::{bucket_key_of, bucket_of, locate_or_create, lower_bytes, lowercase};
use crate::resolver::{get_latest, lemma_push_update_extends_chain};
use crate::store::{
    bucket_present, edge_live, edge_target, extends, is_superseder, is_tombstone_of, latest_of,
    lemma_extend_liveness, lemma_extend_live_tagged, lemma_extend_preserves_dead,
    lemma_extend_preserves_latest, lemma_latest_of_props, lemma_no_superseders,
    lemma_push_new_edge_live, lemma_push_preserves_tombstones_backward, live_tagged_edge, rec_wf,
    records_wf, superseders, tombstones_backward, Store,
};
use crate::types::{
    addr_eqv, bytes_eq, copy_bytes, prefix_of, profile_eqv, Action, Address, EntryTypes, Error,
    Identity, LinkTypes, Profile, Record, StoredEntry,
};

verus! {

/// Record `i` is a live `AgentToProfile` edge hanging off `agent`.
pub open spec fn agent_edge(s: Seq<Record>, agent: Identity, i: int) -> bool {
    live_tagged_edge(s, Address::Agent(agent), LinkTypes::AgentToProfile, Seq::empty(), i)
}

/// `agent` has a live profile edge: it is registered in the directory.
pub open spec fn registered(s: Seq<Record>, agent: Identity) -> bool {
    exists|i: int| #[trigger] agent_edge(s, agent, i)
}

/// The least live profile-edge address of `agent` at or above `k`.
pub open spec fn first_agent_edge_from(s: Seq<Record>, agent: Identity, k: int) -> Option<int>
    decreases s.len() - k,
        when k >= 0
{
    if k >= s.len() {
        None
    } else if agent_edge(s, agent, k) {
        Some(k)
    } else {
        first_agent_edge_from(s, agent, k + 1)
    }
}

/// The profile edge `get` follows: the least live one, by store order.
pub open spec fn first_agent_edge(s: Seq<Record>, agent: Identity) -> Option<int> {
    first_agent_edge_from(s, agent, 0)
}

pub proof fn lemma_first_agent_edge_from_props(s: Seq<Record>, agent: Identity, k: int)
    requires
        k >= 0,
    ensures
        match first_agent_edge_from(s, agent, k) {
            Some(i) => k <= i < s.len() && agent_edge(s, agent, i) && (forall|j: int|
                k <= j < i ==> !agent_edge(s, agent, j)),
            None => forall|j: int| k <= j < s.len() ==> !agent_edge(s, agent, j),
        },
    decreases s.len() - k,
{
    if k < s.len() && !agent_edge(s, agent, k) {
        lemma_first_agent_edge_from_props(s, agent, k + 1);
    }
}

/// What a point lookup resolves to: absent when no live profile edge exists;
/// the latest version of the referenced chain when the first live edge
/// targets a resolvable record; `MalformedChain` otherwise.
pub open spec fn spec_get(s: Seq<Record>, agent: Identity) -> Result<Option<int>, Error> {
    match first_agent_edge(s, agent) {
        None => Ok(None),
        Some(i) => match edge_target(s, i) {
            Address::Rec(a) => if (a as int) < s.len() {
                Ok(Some(latest_of(s, a as int)))
            } else {
                Err(Error::MalformedChain)
            },
            _ => Err(Error::MalformedChain),
        },
    }
}

/// The profile a point lookup yields, when it yields one.
pub open spec fn spec_profile_of(s: Seq<Record>, agent: Identity) -> Option<Profile> {
    match spec_get(s, agent) {
        Ok(Some(l)) => match s[l].entry {
            Some(StoredEntry::App(EntryTypes::Profile(p))) => Some(p),
            _ => None,
        },
        _ => None,
    }
}

/// A lookup result agrees with its specification.
pub open spec fn lookup_matches(r: Result<Option<usize>, Error>, m: Result<Option<int>, Error>) -> bool {
    match (r, m) {
        (Ok(None), Ok(None)) => true,
        (Ok(Some(l)), Ok(Some(li))) => l as int == li,
        (Err(e1), Err(e2)) => e1 == e2,
        _ => false,
    }
}

/// Record `i` is a live `PathToAgent` edge under the bucket node for
/// `bucket`, tagged with a byte string starting with `tagp`, targeting
/// `agent`.
pub open spec fn path_edge(
    s: Seq<Record>,
    bucket: Seq<u8>,
    tagp: Seq<u8>,
    agent: Identity,
    i: int,
) -> bool {
    &&& edge_live(s, i)
    &&& s[i].action matches Action::CreateLink { base, target, link_type, tag } && (
    base matches Address::Index(b) && b@ == bucket) && link_type == LinkTypes::PathToAgent
        && prefix_of(tagp, tag@) && target == Address::Agent(agent)
}

/// `agent` is a hit for a prefix search with `prefix`: a live `PathToAgent`
/// edge under `prefix`'s bucket, whose tag (the full lowercased nickname)
/// starts with the lowercased prefix, targets `agent`.
pub open spec fn spec_search_hit(s: Seq<Record>, prefix: Seq<u8>, agent: Identity) -> bool {
    exists|i: int| #[trigger] path_edge(s, bucket_of(prefix), lower_bytes(prefix), agent, i)
}

fn contains_u64(v: &Vec<u64>, x: u64) -> (r: bool)
    ensures
        r == v@.contains(x),
{
    let n = v.len();
    let mut i: usize = 0;
    while i < n
        invariant
            i <= n,
            n == v@.len(),
            forall|k: int| 0 <= k < i ==> v@[k] != x,
        decreases n - i,
    {
        if v[i] == x {
            return true;
        }
        i = i + 1;
    }
    false
}

/// Returns the profile record for `agent`, if one is registered: follows
/// `agent`'s first live `AgentToProfile` edge (by store order) and resolves
/// it through the latest-version resolver.  Absent exactly when no live edge
/// exists; `MalformedChain` when the edge's target is not a resolvable
/// record address.
pub fn get_profile(store: &Store, agent: Identity) -> (r: Result<Option<usize>, Error>)
    requires
        store.wf(),
    ensures
        lookup_matches(r, spec_get(store.records@, agent)),
        r matches Ok(l) && l is None <==> !registered(store.records@, agent),
{
    let ghost s = store.records@;
    let total = store.len();
    let empty: Vec<u8> = Vec::new();
    let links = store.live_edges(&Address::Agent(agent), LinkTypes::AgentToProfile, &empty);
    proof {
        lemma_first_agent_edge_from_props(s, agent, 0);
    }
    if links.len() == 0 {
        proof {
            assert(!registered(s, agent)) by {
                if registered(s, agent) {
                    let i = choose|i: int| #[trigger] agent_edge(s, agent, i);
                    assert(0 <= i < s.len());
                    assert(links@.contains(i as usize));
                }
            }
        }
        return Ok(None);
    }
    let first = links[0];
    proof {
        assert(agent_edge(s, agent, first as int));
        assert(registered(s, agent));
        let fi = first_agent_edge(s, agent);
        match fi {
            Some(i) => {
                assert(agent_edge(s, agent, i));
                assert(0 <= i < s.len());
                assert((i as usize) as int == i);
                assert(links@.contains(i as usize));
                let m = choose|m: int|
                    0 <= m < links@.len() && (#[trigger] links@[m]) == i as usize;
                if m > 0 {
                    assert(links@[0] < links@[m]);
                    assert(!agent_edge(s, agent, links@[0] as int));
                }
                assert(i == first as int);
            },
            None => {
                assert(!agent_edge(s, agent, first as int));
                assert(false);
            },
        }
        assert(fi == Some(first as int));
    }
    match &store.records[first].action {
        Action::CreateLink { target, .. } => match target {
            Address::Rec(a) => match get_latest(store, *a) {
                Ok(l) => Ok(Some(l)),
                Err(e) => Err(e),
            },
            _ => Err(Error::MalformedChain),
        },
        _ => {
            proof {
                assert(s[first as int].action is CreateLink);
                assert(false);
            }
            Err(Error::MalformedChain)
        },
    }
}

/// From a nickname prefix of at least 3 bytes, returns the identities whose
/// live index edge matches: the edge hangs under the prefix's bucket and its
/// tag (the full lowercased nickname) starts with the lowercased prefix.
/// Case-insensitive by construction, with no duplicates.  Fails with
/// `InvalidPrefix` exactly on prefixes under 3 bytes, before any store
/// access.
pub fn search_agents(store: &Store, nickname_filter: &Vec<u8>) -> (r: Result<Vec<Identity>, Error>)
    requires
        store.wf(),
    ensures
        r is Err <==> nickname_filter@.len() < 3,
        r matches Err(e) ==> e == Error::InvalidPrefix,
        r matches Ok(v) ==> v@.no_duplicates() && (forall|id: Identity|
            v@.contains(id) <==> spec_search_hit(store.records@, nickname_filter@, id)),
{
    let ghost s = store.records@;
    if nickname_filter.len() < 3 {
        return Err(Error::InvalidPrefix);
    }
    let total = store.len();
    let bucket = bucket_key_of(nickname_filter);
    let needle = lowercase(nickname_filter);
    let base = Address::Index(bucket);
    let edges = store.live_edges(&base, LinkTypes::PathToAgent, &needle);
    let ghost bkt = bucket_of(nickname_filter@);
    let ghost tagp = lower_bytes(nickname_filter@);
    let mut out: Vec<Identity> = Vec::new();
    let n = edges.len();
    let mut k: usize = 0;
    while k < n
        invariant
            k <= n,
            n == edges@.len(),
            s == store.records@,
            total as int == s.len(),
            base matches Address::Index(b) && b@ == bkt,
            tagp == needle@,
            forall|m: int|
                0 <= m < edges@.len() ==> live_tagged_edge(
                    s,
                    base,
                    LinkTypes::PathToAgent,
                    needle@,
                    #[trigger] edges@[m] as int,
                ),
            out@.no_duplicates(),
            forall|id: Identity|
                out@.contains(id) <==> exists|m: int|
                    0 <= m < k && edge_target(s, #[trigger] edges@[m] as int) == Address::Agent(
                        id,
                    ),
        decreases n - k,
    {
        proof {
            assert(live_tagged_edge(s, base, LinkTypes::PathToAgent, needle@, edges@[
                k as int] as int));
        }
        let e = edges[k];
        let mut hit_id: Option<Identity> = None;
        match &store.records[e].action {
            Action::CreateLink { target, .. } => match target {
                Address::Agent(id) => {
                    hit_id = Some(*id);
                },
                _ => {},
            },
            _ => {},
        }
        let ghost oldout = out@;
        match hit_id {
            Some(id) => {
                if !contains_u64(&out, id) {
                    out.push(id);
                }
            },
            None => {},
        }
        proof {
            assert forall|id: Identity| out@.contains(id) implies exists|m: int|
                0 <= m < k + 1 && edge_target(s, #[trigger] edges@[m] as int) == Address::Agent(
                    id,
                ) by {
                if oldout.contains(id) {
                    let m = choose|m: int|
                        0 <= m < k && edge_target(s, (#[trigger] edges@[m]) as int)
                            == Address::Agent(id);
                    assert(edge_target(s, edges@[m] as int) == Address::Agent(id));
                } else {
                    assert(edge_target(s, edges@[k as int] as int) == Address::Agent(id));
                }
            }
            assert forall|id: Identity|
                (exists|m: int|
                    0 <= m < k + 1 && edge_target(s, #[trigger] edges@[m] as int)
                        == Address::Agent(id)) implies out@.contains(id) by {
                let m = choose|m: int|
                    0 <= m < k + 1 && edge_target(s, (#[trigger] edges@[m]) as int)
                        == Address::Agent(id);
                if m < k {
                    assert(oldout.contains(id));
                    if oldout != out@ {
                        let idx = choose|idx: int|
                            0 <= idx < oldout.len() && (#[trigger] oldout[idx]) == id;
                        assert(out@[idx] == id);
                    }
                } else {
                    assert(edge_target(s, edges@[k as int] as int) == Address::Agent(id));
                    assert(hit_id == Some(id));
                    if oldout.contains(id) {
                        assert(out@ == oldout);
                    } else {
                        assert(out@.last() == id);
                    }
                }
            }
        }
        k = k + 1;
    }
    proof {
        assert forall|id: Identity| out@.contains(id) implies spec_search_hit(s, nickname_filter@,
            id) by {
            let m = choose|m: int|
                0 <= m < edges@.len() && edge_target(s, (#[trigger] edges@[m]) as int)
                    == Address::Agent(id);
            let i = edges@[m] as int;
            assert(live_tagged_edge(s, base, LinkTypes::PathToAgent, needle@, i));
            assert(path_edge(s, bkt, tagp, id, i));
        }
        assert forall|id: Identity| spec_search_hit(s, nickname_filter@, id) implies out@.contains(
            id,
        ) by {
            let i = choose|i: int| #[trigger] path_edge(s, bkt, tagp, id, i);
            assert(live_tagged_edge(s, base, LinkTypes::PathToAgent, needle@, i));
            assert(0 <= i < s.len());
            assert((i as usize) as int == i);
            assert(edges@.contains(i as usize));
            let m = choose|m: int| 0 <= m < edges@.len() && (#[trigger] edges@[m]) == i as usize;
            assert(edge_target(s, edges@[m] as int) == Address::Agent(id));
        }
    }
    Ok(out)
}

/// Registers `profile` for `agent`.  Fails with `AlreadyRegistered` exactly
/// when a live `AgentToProfile` edge already exists for `agent` (check then
/// act; the store is untouched on failure).  On success: writes the profile
/// entry, materializes the nickname's bucket node, hangs a `PathToAgent`
/// edge tagged with the full lowercased nickname under it, hangs the
/// `AgentToProfile` edge, and returns the new entry record's address.
#[verifier::rlimit(50)]
pub fn create_profile(store: &mut Store, agent: Identity, profile: Profile) -> (r: Result<
    usize,
    Error,
>)
    requires
        old(store).wf(),
        tombstones_backward(old(store).records@),
    ensures
        final(store).wf(),
        tombstones_backward(final(store).records@),
        extends(final(store).records@, old(store).records@),
        r is Err <==> registered(old(store).records@, agent),
        r matches Err(e) ==> e == Error::AlreadyRegistered && *final(store) == *old(store),
        r matches Ok(ah) ==> ({
            &&& ah == old(store).records@.len()
            &&& registered(final(store).records@, agent)
            &&& spec_get(final(store).records@, agent) == Ok::<Option<int>, Error>(
                Some(ah as int),
            )
            &&& (spec_profile_of(final(store).records@, agent) matches Some(p) && profile_eqv(
                p,
                profile,
            ))
            &&& bucket_present(final(store).records@, bucket_of(profile.nickname@))
            &&& spec_listed(final(store).records@, agent)
            &&& (forall|p: Seq<u8>|
                bucket_of(p) == bucket_of(profile.nickname@) && prefix_of(
                    lower_bytes(p),
                    lower_bytes(profile.nickname@),
                ) ==> #[trigger] spec_search_hit(final(store).records@, p, agent))
            &&& (forall|p: Seq<u8>, id: Identity|
                id != agent ==> (#[trigger] spec_search_hit(final(store).records@, p, id)
                    <==> spec_search_hit(old(store).records@, p, id)))
            &&& (forall|i: int|
                #[trigger] edge_live(old(store).records@, i) ==> edge_live(
                    final(store).records@,
                    i,
                ))
        }),
{
    let ghost s0 = store.records@;
    let total = store.len();
    let empty: Vec<u8> = Vec::new();
    let links = store.live_edges(&Address::Agent(agent), LinkTypes::AgentToProfile, &empty);
    if links.len() > 0 {
        proof {
            assert(agent_edge(s0, agent, links@[0] as int));
            assert(s0.take(s0.len() as int) =~= s0);
        }
        return Err(Error::AlreadyRegistered);
    }
    proof {
        assert(!registered(s0, agent)) by {
            if registered(s0, agent) {
                let i = choose|i: int| #[trigger] agent_edge(s0, agent, i);
                assert(0 <= i < s0.len());
                assert((i as usize) as int == i);
                assert(links@.contains(i as usize));
            }
        }
    }
    let nickname = copy_bytes(&profile.nickname);
    let lower = lowercase(&nickname);
    let bucket = bucket_key_of(&nickname);
    let ghost nick = profile.nickname@;
    let ah = store.write_entry(StoredEntry::App(EntryTypes::Profile(profile)));
    let ghost s1 = store.records@;
    proof {
        lemma_push_preserves_tombstones_backward(s0, s1.last());
    }
    locate_or_create(store, &bucket);
    let ghost s2 = store.records@;
    store.create_edge(Address::Index(bucket), Address::Agent(agent), LinkTypes::PathToAgent, lower);
    let ghost s3 = store.records@;
    proof {
        lemma_push_new_edge_live(s2, s3.last());
        lemma_push_preserves_tombstones_backward(s2, s3.last());
    }
    let tag2: Vec<u8> = Vec::new();
    store.create_edge(Address::Agent(agent), Address::Rec(ah), LinkTypes::AgentToProfile, tag2);
    let ghost s4 = store.records@;
    proof {
        lemma_push_new_edge_live(s3, s4.last());
        lemma_push_preserves_tombstones_backward(s3, s4.last());
        let n0 = s0.len() as int;
        let n4 = s4.len() as int;
        // The records already stored are untouched.
        assert forall|j: int| 0 <= j < n0 implies s4[j] == s0[j] by {
            assert(s2.take(s1.len() as int)[j] == s2[j]);
        }
        assert(extends(s4, s0)) by {
            assert(s4.take(n0) =~= s0);
        }
        assert(extends(s4, s2)) by {
            assert(s4.take(s2.len() as int) =~= s2);
        }
        assert(extends(s4, s3)) by {
            assert(s4.take(s3.len() as int) =~= s3);
        }
        // The appended records: one entry, at most one bucket edge, the path
        // edge, the agent edge.  None supersedes and none tombstones.
        assert forall|j: int| n0 <= j < n4 implies !((#[trigger] s4[j]).action is Update) && !(
        s4[j].action is DeleteLink) by {
            if j == n0 {
                assert(s4[j] == s1[j]);
            } else if j < s2.len() {
                assert(s4[j] == s2[j]);
                assert(s2[j] == s2.last());
            } else if j < s3.len() {
                assert(s4[j] == s3.last());
            } else {
                assert(s4[j] == s4.last());
            }
        }
        // Liveness of what was already stored is exactly preserved.
        assert forall|i: int| 0 <= i < n0 implies edge_live(s4, i) == edge_live(s0, i) by {
            lemma_extend_liveness(s0, s4, i);
        }
        // No live agent edge below the new one.
        let na = n4 - 1;
        assert(agent_edge(s4, agent, na)) by {
            assert(s4[na] == s4.last());
            assert(prefix_of(Seq::<u8>::empty(), s4.last().action->tag@)) by {
                assert(s4.last().action->tag@.take(0) =~= Seq::<u8>::empty());
            }
        }
        assert forall|j: int| 0 <= j < na implies !agent_edge(s4, agent, j) by {
            if j < n0 {
                if agent_edge(s4, agent, j) {
                    assert(edge_live(s0, j));
                    assert(agent_edge(s0, agent, j));
                }
            } else {
                if j == n0 {
                    assert(s4[j] == s1[j]);
                    assert(!(s4[j].action is CreateLink));
                } else if j < s2.len() {
                    assert(s4[j] == s2[j]);
                    assert(s2[j] == s2.last());
                    assert(s4[j].action->link_type == LinkTypes::PrefixPath);
                } else {
                    assert(s4[j] == s3.last());
                    assert(s4[j].action->link_type == LinkTypes::PathToAgent);
                }
            }
        }
        lemma_first_agent_edge_from_props(s4, agent, 0);
        match first_agent_edge(s4, agent) {
            Some(i) => {
                assert(i == na);
            },
            None => {
                assert(!agent_edge(s4, agent, na));
            },
        }
        assert(first_agent_edge(s4, agent) == Some(na));
        // The new edge targets the fresh entry record, which nothing
        // supersedes, so the lookup resolves to it.
        assert(edge_target(s4, na) == Address::Rec(ah));
        assert forall|j: int| 0 <= j < n4 implies !is_superseder(s4, ah as int, j) by {
            if j < n0 {
                assert(rec_wf(s0[j], j));
                assert(s4[j] == s0[j]);
            }
        }
        lemma_no_superseders(s4, ah as int);
        assert(superseders(s4, ah as int).len() == 0);
        assert(records_wf(s4));
        assert(latest_of(s4, ah as int) == ah as int);
        assert(spec_get(s4, agent) == Ok::<Option<int>, Error>(Some(ah as int)));
        assert(s4[ah as int] == s1[ah as int]);
        assert(spec_profile_of(s4, agent) matches Some(p) && profile_eqv(p, profile));
        // The bucket node stays materialized.
        assert(bucket_present(s4, bucket_of(nick))) by {
            assert(bucket_present(s2, bucket@));
            let i = choose|i: int|
                #[trigger] live_tagged_edge(
                    s2,
                    Address::IndexRoot,
                    LinkTypes::PrefixPath,
                    Seq::empty(),
                    i,
                ) && (edge_target(s2, i) matches Address::Index(b) && b@ == bucket@);
            lemma_extend_live_tagged(
                s2,
                s4,
                Address::IndexRoot,
                LinkTypes::PrefixPath,
                Seq::empty(),
                i,
            );
        }
        // Every prefix matching the nickname now hits this agent.
        let pi = s2.len() as int;
        assert(s4[pi] == s3.last());
        assert(edge_live(s4, pi)) by {
            lemma_extend_liveness(s3, s4, pi);
        }
        assert forall|p: Seq<u8>|
            bucket_of(p) == bucket_of(nick) && prefix_of(lower_bytes(p), lower_bytes(nick))
                implies #[trigger] spec_search_hit(s4, p, agent) by {
            assert(path_edge(s4, bucket_of(p), lower_bytes(p), agent, pi));
        }
        // The agent is listed under its (present) bucket node.
        assert(spec_listed(s4, agent)) by {
            let i = choose|i: int|
                #[trigger] live_tagged_edge(
                    s4,
                    Address::IndexRoot,
                    LinkTypes::PrefixPath,
                    Seq::empty(),
                    i,
                ) && (edge_target(s4, i) matches Address::Index(b) && b@ == bucket_of(nick));
            assert(live_tagged_edge(s4, edge_target(s4, i), LinkTypes::PathToAgent,
                Seq::<u8>::empty(), pi)) by {
                assert(prefix_of(Seq::<u8>::empty(), s4[pi].action->tag@)) by {
                    assert(s4[pi].action->tag@.take(0) =~= Seq::<u8>::empty());
                }
            }
            assert(agents_under(s4, edge_target(s4, i), agent));
        }
        // Hits of everyone else are untouched.
        assert forall|p: Seq<u8>, id: Identity| id != agent implies (#[trigger] spec_search_hit(
            s4,
            p,
            id,
        ) <==> spec_search_hit(s0, p, id)) by {
            if spec_search_hit(s4, p, id) {
                let i = choose|i: int| #[trigger] path_edge(s4, bucket_of(p), lower_bytes(p), id, i);
                if i < n0 {
                    assert(edge_live(s0, i));
                    assert(path_edge(s0, bucket_of(p), lower_bytes(p), id, i));
                } else {
                    if i == n0 {
                        assert(s4[i] == s1[i]);
                        assert(!(s4[i].action is CreateLink));
                    } else if i < s2.len() {
                        assert(s4[i] == s2[i]);
                        assert(s2[i] == s2.last());
                    } else if i < s3.len() {
                        assert(s4[i] == s3.last());
                        assert(s4[i].action->target == Address::Agent(agent));
                    } else {
                        assert(s4[i] == s4.last());
                        assert(s4[i].action->link_type == LinkTypes::AgentToProfile);
                    }
                    assert(false);
                }
            }
            if spec_search_hit(s0, p, id) {
                let i = choose|i: int| #[trigger] path_edge(s0, bucket_of(p), lower_bytes(p), id, i);
                assert(edge_live(s4, i));
                assert(path_edge(s4, bucket_of(p), lower_bytes(p), id, i));
            }
        }
    }
    Ok(ah)
}

/// The chain root a lookup for `agent` resolves through: the record address
/// targeted by the first live profile edge.
spec fn chain_root(s: Seq<Record>, agent: Identity) -> int {
    match first_agent_edge(s, agent) {
        Some(i) => match edge_target(s, i) {
            Address::Rec(a) => a as int,
            _ => -1,
        },
        None => -1,
    }
}

/// A record appended while renaming: a tombstone for one of the agent's own
/// `PathToAgent` edges.
spec fn kills_agent_path(sbase: Seq<Record>, agent: Identity, r: Record) -> bool {
    r.action matches Action::DeleteLink { link_add } && (link_add as int) < sbase.len() && (
    sbase[link_add as int].action matches Action::CreateLink { target, link_type, .. } && target
        == Address::Agent(agent) && link_type == LinkTypes::PathToAgent)
}

/// The first live profile edge is unchanged when the judgment is unchanged
/// position by position and no new position carries one.
proof fn lemma_faef_ext(s1: Seq<Record>, s2: Seq<Record>, agent: Identity, k: int)
    requires
        0 <= k,
        s1.len() <= s2.len(),
        forall|j: int| 0 <= j < s1.len() ==> agent_edge(s2, agent, j) == agent_edge(s1, agent, j),
        forall|j: int| s1.len() <= j < s2.len() ==> !agent_edge(s2, agent, j),
    ensures
        first_agent_edge_from(s2, agent, k) == first_agent_edge_from(s1, agent, k),
    decreases s2.len() - k,
{
    if k < s2.len() {
        if k < s1.len() && agent_edge(s1, agent, k) {
        } else {
            lemma_faef_ext(s1, s2, agent, k + 1);
        }
    }
}

/// Updates `agent`'s profile to `profile`.  Fails with `NotRegistered`
/// exactly when no live profile edge exists, and with `MalformedChain` when
/// the registration is structurally broken (an unresolvable edge target or a
/// previous version that carries no profile entry); the store is untouched
/// on failure.  On success, appends an `Update` record superseding the
/// previous latest version and returns its address.  When the lowercased
/// nickname changed, the agent's `PathToAgent` edges under the old bucket
/// are tombstoned and one new edge, tagged with the new lowercased nickname,
/// is hung under the new bucket; otherwise the index is left untouched.
#[verifier::rlimit(100)]
pub fn update_profile(store: &mut Store, agent: Identity, profile: Profile) -> (r: Result<
    usize,
    Error,
>)
    requires
        old(store).wf(),
        tombstones_backward(old(store).records@),
    ensures
        final(store).wf(),
        tombstones_backward(final(store).records@),
        extends(final(store).records@, old(store).records@),
        r is Err ==> *final(store) == *old(store),
        (r matches Err(e) && e == Error::NotRegistered) <==> !registered(
            old(store).records@,
            agent,
        ),
        r matches Err(e) ==> (e == Error::NotRegistered || e == Error::MalformedChain),
        r is Ok <==> spec_profile_of(old(store).records@, agent) is Some,
        r matches Ok(ah) ==> ({
            &&& ah == old(store).records@.len()
            &&& spec_get(final(store).records@, agent) == Ok::<Option<int>, Error>(
                Some(ah as int),
            )
            &&& (spec_profile_of(final(store).records@, agent) matches Some(p) && profile_eqv(
                p,
                profile,
            ))
            &&& (spec_profile_of(old(store).records@, agent) matches Some(q) ==> ({
                &&& (lower_bytes(profile.nickname@) == lower_bytes(q.nickname@) ==> ({
                    &&& final(store).records@.len() == old(store).records@.len() + 1
                    &&& (forall|p: Seq<u8>, id: Identity|
                        #[trigger] spec_search_hit(final(store).records@, p, id)
                            <==> spec_search_hit(old(store).records@, p, id))
                }))
                &&& (lower_bytes(profile.nickname@) != lower_bytes(q.nickname@) ==> ({
                    &&& (bucket_of(q.nickname@) != bucket_of(profile.nickname@) ==> (forall|
                        p: Seq<u8>,
                    |
                        bucket_of(p) == bucket_of(q.nickname@) ==> !(#[trigger] spec_search_hit(
                            final(store).records@,
                            p,
                            agent,
                        ))))
                    &&& (forall|p: Seq<u8>|
                        bucket_of(p) == bucket_of(profile.nickname@) && prefix_of(
                            lower_bytes(p),
                            lower_bytes(profile.nickname@),
                        ) ==> #[trigger] spec_search_hit(final(store).records@, p, agent))
                    &&& (forall|p: Seq<u8>, id: Identity|
                        id != agent ==> (#[trigger] spec_search_hit(final(store).records@, p, id)
                            <==> spec_search_hit(old(store).records@, p, id)))
                    &&& bucket_present(final(store).records@, bucket_of(profile.nickname@))
                    &&& spec_listed(final(store).records@, agent)
                }))
            }))
        }),
{
    let ghost s0 = store.records@;
    proof {
        assert(s0.take(s0.len() as int) =~= s0);
    }
    let prev = match get_profile(store, agent) {
        Ok(Some(l)) => l,
        Ok(None) => {
            return Err(Error::NotRegistered);
        },
        Err(e) => {
            return Err(e);
        },
    };
    let ghost root = chain_root(s0, agent);
    proof {
        match first_agent_edge(s0, agent) {
            Some(i) => {
                match edge_target(s0, i) {
                    Address::Rec(ar) => {
                        lemma_latest_of_props(s0, ar as int);
                        assert(root == ar as int);
                    },
                    _ => {
                        assert(false);
                    },
                }
            },
            None => {
                assert(false);
            },
        }
        assert(0 <= root < s0.len());
        assert(latest_of(s0, root) == prev as int);
    }
    let old_nick = match &store.records[prev].entry {
        Some(StoredEntry::App(EntryTypes::Profile(p))) => copy_bytes(&p.nickname),
        _ => {
            return Err(Error::MalformedChain);
        },
    };
    let ghost oldq = spec_profile_of(s0, agent)->Some_0;
    proof {
        assert(spec_profile_of(s0, agent) matches Some(q) && q.nickname@ == old_nick@);
    }
    let new_nick = copy_bytes(&profile.nickname);
    let new_lower = lowercase(&new_nick);
    let old_lower = lowercase(&old_nick);
    let ghost nick = profile.nickname@;
    let ah = store.write_update(prev, StoredEntry::App(EntryTypes::Profile(profile)));
    let ghost su = store.records@;
    proof {
        lemma_push_preserves_tombstones_backward(s0, su.last());
        lemma_push_update_extends_chain(s0, su, root);
        assert(latest_of(su, root) == s0.len() as int);
        assert(extends(su, s0)) by {
            assert(su.take(s0.len() as int) =~= s0);
        }
        // The one appended record changes no edge.
        assert forall|j: int| 0 <= j < s0.len() implies agent_edge(su, agent, j) == agent_edge(
            s0,
            agent,
            j,
        ) by {
            lemma_extend_live_tagged(
                s0,
                su,
                Address::Agent(agent),
                LinkTypes::AgentToProfile,
                Seq::empty(),
                j,
            );
        }
        assert(!agent_edge(su, agent, s0.len() as int));
        lemma_faef_ext(s0, su, agent, 0);
        lemma_first_agent_edge_from_props(s0, agent, 0);
        match first_agent_edge(s0, agent) {
            Some(i) => {
                assert(su[i] == s0[i]);
                assert(edge_target(su, i) == edge_target(s0, i));
            },
            None => {
                assert(false);
            },
        }
        assert(spec_get(su, agent) == Ok::<Option<int>, Error>(Some(ah as int)));
        assert(su.take(su.len() as int) =~= su);
    }
    let same = bytes_eq(&old_lower, &new_lower);
    if same {
        proof {
            assert forall|p: Seq<u8>, id: Identity| #![trigger spec_search_hit(su, p, id)]
                spec_search_hit(su, p, id) == spec_search_hit(s0, p, id) by {
                if spec_search_hit(su, p, id) {
                    let i = choose|i: int|
                        #[trigger] path_edge(su, bucket_of(p), lower_bytes(p), id, i);
                    assert(i < s0.len());
                    lemma_extend_liveness(s0, su, i);
                    assert(path_edge(s0, bucket_of(p), lower_bytes(p), id, i));
                }
                if spec_search_hit(s0, p, id) {
                    let i = choose|i: int|
                        #[trigger] path_edge(s0, bucket_of(p), lower_bytes(p), id, i);
                    lemma_extend_liveness(s0, su, i);
                    assert(path_edge(su, bucket_of(p), lower_bytes(p), id, i));
                }
            }
        }
        return Ok(ah);
    }
    let empty: Vec<u8> = Vec::new();
    let old_bucket = bucket_key_of(&old_nick);
    let base_old = Address::Index(old_bucket);
    let links = store.live_edges(&base_old, LinkTypes::PathToAgent, &empty);
    let n = links.len();
    let mut k: usize = 0;
    while k < n
        invariant
            k <= n,
            n == links@.len(),
            records_wf(store.records@),
            tombstones_backward(store.records@),
            extends(store.records@, su),
            su.len() == s0.len() + 1,
            base_old matches Address::Index(b) && b@ == bucket_of(oldq.nickname@),
            forall|m: int|
                0 <= m < links@.len() ==> live_tagged_edge(
                    su,
                    base_old,
                    LinkTypes::PathToAgent,
                    Seq::<u8>::empty(),
                    #[trigger] links@[m] as int,
                ),
            forall|i: usize|
                live_tagged_edge(su, base_old, LinkTypes::PathToAgent, Seq::<u8>::empty(), i as int)
                    ==> links@.contains(i),
            forall|j: int|
                su.len() <= j < store.records@.len() ==> kills_agent_path(
                    su,
                    agent,
                    #[trigger] store.records@[j],
                ),
            forall|m: int|
                0 <= m < k && edge_target(su, #[trigger] links@[m] as int) == Address::Agent(agent)
                    ==> !edge_live(store.records@, links@[m] as int),
        decreases n - k,
    {
        proof {
            assert(live_tagged_edge(
                su,
                base_old,
                LinkTypes::PathToAgent,
                Seq::<u8>::empty(),
                links@[k as int] as int,
            ));
            assert(store.records@.take(su.len() as int)[links@[k as int] as int]
                == store.records@[links@[k as int] as int]);
        }
        let e = links[k];
        let hit = match &store.records[e].action {
            Action::CreateLink { target, .. } => match target {
                Address::Agent(id) => *id == agent,
                _ => false,
            },
            _ => false,
        };
        let ghost pre = store.records@;
        if hit {
            store.delete_edge(e);
            proof {
                lemma_push_preserves_tombstones_backward(pre, store.records@.last());
                assert(extends(store.records@, su)) by {
                    assert(store.records@.take(su.len() as int) =~= su);
                }
                assert(kills_agent_path(su, agent, store.records@.last()));
                assert(is_tombstone_of(store.records@, e as int, pre.len() as int));
                assert forall|m: int|
                    0 <= m < k + 1 && edge_target(su, #[trigger] links@[m] as int)
                        == Address::Agent(agent) implies !edge_live(
                    store.records@,
                    links@[m] as int,
                ) by {
                    if m < k {
                        assert(!edge_live(pre, links@[m] as int));
                        assert(extends(store.records@, pre)) by {
                            assert(store.records@.take(pre.len() as int) =~= pre);
                        }
                        lemma_extend_preserves_dead(pre, store.records@, links@[m] as int);
                    }
                }
            }
        } else {
            proof {
                assert(edge_target(su, e as int) != Address::Agent(agent));
            }
        }
        k = k + 1;
    }
    let ghost sl = store.records@;
    let new_bucket = bucket_key_of(&new_nick);
    locate_or_create(store, &new_bucket);
    let ghost s2p = store.records@;
    store.create_edge(
        Address::Index(new_bucket),
        Address::Agent(agent),
        LinkTypes::PathToAgent,
        new_lower,
    );
    let ghost sf = store.records@;
    proof {
        let n0 = s0.len() as int;
        let nf = sf.len() as int;
        let pi = s2p.len() as int;
        lemma_push_new_edge_live(s2p, sf.last());
        lemma_push_preserves_tombstones_backward(s2p, sf.last());
        assert(sf[pi] == sf.last());
        assert forall|j: int| 0 <= j < sl.len() implies sf[j] == sl[j] by {
            assert(s2p.take(sl.len() as int)[j] == s2p[j]);
        }
        assert(extends(sf, s0)) by {
            assert(sf.take(n0) =~= s0);
        }
        assert(extends(sf, su)) by {
            assert(sf.take(su.len() as int) =~= su);
        }
        assert(extends(sf, sl)) by {
            assert(sf.take(sl.len() as int) =~= sl);
        }
        // Classify everything appended since the call began.
        assert forall|j: int| n0 <= j < nf implies !((#[trigger] sf[j]).action is Update) || j
            == n0 by {
            if j > n0 {
                if j < sl.len() {
                    assert(sf[j] == sl[j]);
                    assert(kills_agent_path(su, agent, sl[j]));
                } else if j < pi {
                    assert(sf[j] == s2p[j]);
                    assert(s2p[j] == s2p.last());
                } else {
                    assert(sf[j] == sf.last());
                }
            }
        }
        assert forall|j: int|
            n0 <= j < nf && (#[trigger] sf[j]).action matches Action::DeleteLink { link_add }
                implies kills_agent_path(su, agent, sf[j]) by {
            if j < sl.len() {
                assert(sf[j] == sl[j]);
                if j >= su.len() {
                    assert(kills_agent_path(su, agent, sl[j]));
                } else {
                    assert(sf[j] == su.last());
                    assert(false);
                }
            } else if j < pi {
                assert(sf[j] == s2p[j]);
                assert(s2p[j] == s2p.last());
                assert(false);
            } else {
                assert(sf[j] == sf.last());
                assert(false);
            }
        }
        // Profile edges are untouched, so the lookup follows the same edge
        // into the freshly extended chain.
        assert forall|j: int| 0 <= j < s0.len() implies agent_edge(sf, agent, j) == agent_edge(
            s0,
            agent,
            j,
        ) by {
            assert(sf.take(n0)[j] == sf[j]);
            if s0[j].action matches Action::CreateLink { base, link_type, .. } && addr_eqv(
                base,
                Address::Agent(agent),
            ) && link_type == LinkTypes::AgentToProfile {
                assert forall|jj: int|
                    n0 <= jj < nf implies !(#[trigger] sf[jj].action matches Action::DeleteLink {
                    link_add,
                } && link_add as int == j) by {
                    match sf[jj].action {
                        Action::DeleteLink { link_add } => {
                            assert(kills_agent_path(su, agent, sf[jj]));
                            if link_add as int == j {
                                assert(su[j] == s0[j]);
                            }
                        },
                        _ => {},
                    }
                }
                lemma_extend_liveness(s0, sf, j);
            } else {
                if agent_edge(sf, agent, j) {
                    assert(false);
                }
                if agent_edge(s0, agent, j) {
                    assert(false);
                }
            }
        }
        assert forall|j: int| n0 <= j < nf implies !agent_edge(sf, agent, j) by {
            if j == n0 {
                assert(sf[j] == su.last());
            } else if j < sl.len() {
                assert(sf[j] == sl[j]);
                assert(kills_agent_path(su, agent, sl[j]));
            } else if j < pi {
                assert(sf[j] == s2p[j]);
                assert(s2p[j] == s2p.last());
                assert(sf[j].action->link_type == LinkTypes::PrefixPath);
            } else {
                assert(sf[j] == sf.last());
                assert(sf[j].action->link_type == LinkTypes::PathToAgent);
            }
        }
        lemma_faef_ext(s0, sf, agent, 0);
        assert(edge_target(sf, first_agent_edge(sf, agent)->Some_0) == edge_target(
            s0,
            first_agent_edge(s0, agent)->Some_0,
        )) by {
            let i = first_agent_edge(s0, agent)->Some_0;
            lemma_first_agent_edge_from_props(s0, agent, 0);
            assert(sf.take(n0)[i] == sf[i]);
        }
        assert(latest_of(sf, root) == ah as int) by {
            lemma_extend_preserves_latest(su, sf, root);
        }
        assert(spec_get(sf, agent) == Ok::<Option<int>, Error>(Some(ah as int)));
        assert(sf[ah as int] == su[ah as int]) by {
            assert(sf.take(su.len() as int)[ah as int] == sf[ah as int]);
        }
        assert(spec_profile_of(sf, agent) matches Some(p) && profile_eqv(p, profile));
        // The agent is gone from the old bucket (when the bucket changed).
        if bucket_of(oldq.nickname@) != bucket_of(nick) {
            assert forall|p: Seq<u8>| bucket_of(p) == bucket_of(oldq.nickname@) implies !(
            #[trigger] spec_search_hit(sf, p, agent)) by {
                if spec_search_hit(sf, p, agent) {
                    let i = choose|i: int|
                        #[trigger] path_edge(sf, bucket_of(p), lower_bytes(p), agent, i);
                    if i < su.len() {
                        assert(sf.take(su.len() as int)[i] == sf[i]);
                        assert(edge_live(su, i)) by {
                            if !edge_live(su, i) {
                                lemma_extend_preserves_dead(su, sf, i);
                            }
                        }
                        assert(live_tagged_edge(
                            su,
                            base_old,
                            LinkTypes::PathToAgent,
                            Seq::<u8>::empty(),
                            i,
                        )) by {
                            assert(prefix_of(Seq::<u8>::empty(), su[i].action->tag@)) by {
                                assert(su[i].action->tag@.take(0) =~= Seq::<u8>::empty());
                            }
                        }
                        assert((i as usize) as int == i);
                        assert(links@.contains(i as usize));
                        let m = choose|m: int|
                            0 <= m < links@.len() && (#[trigger] links@[m]) == i as usize;
                        assert(edge_target(su, links@[m] as int) == Address::Agent(agent));
                        assert(!edge_live(sl, i));
                        lemma_extend_preserves_dead(sl, sf, i);
                        assert(false);
                    } else if i < sl.len() {
                        assert(sf[i] == sl[i]);
                        assert(kills_agent_path(su, agent, sl[i]));
                        assert(false);
                    } else if i < pi {
                        assert(sf[i] == s2p[i]);
                        assert(s2p[i] == s2p.last());
                        assert(false);
                    } else {
                        assert(sf[i] == sf.last());
                        assert(false);
                    }
                }
            }
        }
        // The new nickname is searchable.
        assert(extends(sf, s2p)) by {
            assert(sf.take(s2p.len() as int) =~= s2p);
        }
        assert(prefix_of(lower_bytes(nick), sf[pi].action->tag@)) by {
            assert(sf[pi].action->tag@.take(lower_bytes(nick).len() as int) =~= lower_bytes(nick));
        }
        assert forall|p: Seq<u8>|
            bucket_of(p) == bucket_of(nick) && prefix_of(lower_bytes(p), lower_bytes(nick))
                implies #[trigger] spec_search_hit(sf, p, agent) by {
            assert(path_edge(sf, bucket_of(p), lower_bytes(p), agent, pi));
        }
        // Hits of everyone else are untouched.
        assert forall|p: Seq<u8>, id: Identity| id != agent implies (#[trigger] spec_search_hit(
            sf,
            p,
            id,
        ) <==> spec_search_hit(s0, p, id)) by {
            if spec_search_hit(sf, p, id) {
                let i = choose|i: int| #[trigger] path_edge(sf, bucket_of(p), lower_bytes(p), id, i);
                if i < n0 {
                    assert(sf.take(n0)[i] == sf[i]);
                    assert(edge_live(s0, i)) by {
                        if !edge_live(s0, i) {
                            lemma_extend_preserves_dead(s0, sf, i);
                        }
                    }
                    assert(path_edge(s0, bucket_of(p), lower_bytes(p), id, i));
                } else {
                    if i == n0 {
                        assert(sf[i] == su.last());
                    } else if i < sl.len() {
                        assert(sf[i] == sl[i]);
                        assert(kills_agent_path(su, agent, sl[i]));
                    } else if i < pi {
                        assert(sf[i] == s2p[i]);
                        assert(s2p[i] == s2p.last());
                        assert(sf[i].action->link_type == LinkTypes::PrefixPath);
                    } else {
                        assert(sf[i] == sf.last());
                        assert(sf[i].action->target == Address::Agent(agent));
                    }
                    assert(false);
                }
            }
            if spec_search_hit(s0, p, id) {
                let i = choose|i: int| #[trigger] path_edge(s0, bucket_of(p), lower_bytes(p), id, i);
                assert forall|jj: int|
                    n0 <= jj < nf implies !(#[trigger] sf[jj].action matches Action::DeleteLink {
                    link_add,
                } && link_add as int == i) by {
                    match sf[jj].action {
                        Action::DeleteLink { link_add } => {
                            assert(kills_agent_path(su, agent, sf[jj]));
                            if link_add as int == i {
                                assert(su[i] == s0[i]);
                            }
                        },
                        _ => {},
                    }
                }
                lemma_extend_liveness(s0, sf, i);
                assert(sf.take(n0)[i] == sf[i]);
                assert(path_edge(sf, bucket_of(p), lower_bytes(p), id, i));
            }
        }
        // The new bucket node stays materialized, and the agent is listed
        // under it.
        assert(bucket_present(sf, bucket_of(nick)) && spec_listed(sf, agent)) by {
            let i = choose|i: int|
                #[trigger] live_tagged_edge(
                    s2p,
                    Address::IndexRoot,
                    LinkTypes::PrefixPath,
                    Seq::empty(),
                    i,
                ) && (edge_target(s2p, i) matches Address::Index(b) && b@ == new_bucket@);
            lemma_extend_live_tagged(
                s2p,
                sf,
                Address::IndexRoot,
                LinkTypes::PrefixPath,
                Seq::empty(),
                i,
            );
            assert(live_tagged_edge(sf, edge_target(sf, i), LinkTypes::PathToAgent,
                Seq::<u8>::empty(), pi)) by {
                assert(prefix_of(Seq::<u8>::empty(), sf[pi].action->tag@)) by {
                    assert(sf[pi].action->tag@.take(0) =~= Seq::<u8>::empty());
                }
            }
            assert(agents_under(sf, edge_target(sf, i), agent));
        }
    }
    Ok(ah)
}

/// A live `PathToAgent` edge hanging off `base` targets `id`.
pub open spec fn agents_under(s: Seq<Record>, base: Address, id: Identity) -> bool {
    exists|j: int|
        #[trigger] live_tagged_edge(s, base, LinkTypes::PathToAgent, Seq::empty(), j)
            && edge_target(s, j) == Address::Agent(id)
}

/// `id` is listed in the directory: a live `PathToAgent` edge under some
/// materialized bucket node targets it.
pub open spec fn spec_listed(s: Seq<Record>, id: Identity) -> bool {
    exists|i: int|
        #[trigger] live_tagged_edge(s, Address::IndexRoot, LinkTypes::PrefixPath, Seq::empty(), i)
            && agents_under(s, edge_target(s, i), id)
}

/// Adds to `out` (without duplicates) every identity targeted by a live
/// `PathToAgent` edge hanging off `base`.
fn collect_agents_under(store: &Store, base: &Address, acc: Vec<Identity>) -> (out: Vec<
    Identity,
>)
    requires
        store.wf(),
        acc@.no_duplicates(),
    ensures
        out@.no_duplicates(),
        forall|id: Identity|
            out@.contains(id) <==> (acc@.contains(id) || agents_under(store.records@, *base, id)),
{
    let ghost s = store.records@;
    let ghost out0 = acc@;
    let mut out = acc;
    let total = store.len();
    let empty: Vec<u8> = Vec::new();
    let edges = store.live_edges(base, LinkTypes::PathToAgent, &empty);
    let n = edges.len();
    let mut k: usize = 0;
    while k < n
        invariant
            k <= n,
            n == edges@.len(),
            s == store.records@,
            total as int == s.len(),
            out0.no_duplicates(),
            forall|m: int|
                0 <= m < edges@.len() ==> live_tagged_edge(
                    s,
                    *base,
                    LinkTypes::PathToAgent,
                    Seq::<u8>::empty(),
                    #[trigger] edges@[m] as int,
                ),
            out@.no_duplicates(),
            forall|id: Identity|
                #![trigger out@.contains(id)]
                out@.contains(id) <==> (out0.contains(id) || exists|m: int|
                    0 <= m < k && edge_target(s, #[trigger] edges@[m] as int) == Address::Agent(
                        id,
                    )),
        decreases n - k,
    {
        proof {
            assert(live_tagged_edge(s, *base, LinkTypes::PathToAgent, Seq::<u8>::empty(), edges@[
                k as int] as int));
        }
        let e = edges[k];
        let mut hit_id: Option<Identity> = None;
        match &store.records[e].action {
            Action::CreateLink { target, .. } => match target {
                Address::Agent(id) => {
                    hit_id = Some(*id);
                },
                _ => {},
            },
            _ => {},
        }
        let ghost oldout = out@;
        match hit_id {
            Some(id) => {
                if !contains_u64(&out, id) {
                    out.push(id);
                }
            },
            None => {},
        }
        proof {
            assert forall|id: Identity|
                #![trigger out@.contains(id)]
                out@.contains(id) implies (out0.contains(id) || exists|m: int|
                0 <= m < k + 1 && edge_target(s, #[trigger] edges@[m] as int) == Address::Agent(
                    id,
                )) by {
                if oldout.contains(id) {
                    if !out0.contains(id) {
                        let m = choose|m: int|
                            0 <= m < k && edge_target(s, (#[trigger] edges@[m]) as int)
                                == Address::Agent(id);
                        assert(edge_target(s, edges@[m] as int) == Address::Agent(id));
                    }
                } else {
                    let idx = choose|idx: int|
                        0 <= idx < out@.len() && (#[trigger] out@[idx]) == id;
                    assert(idx == oldout.len());
                    assert(out@.last() == id);
                    assert(hit_id == Some(id));
                    assert(edge_target(s, edges@[k as int] as int) == Address::Agent(id));
                }
            }
            assert forall|id: Identity|
                #![trigger out@.contains(id)]
                (out0.contains(id) || exists|m: int|
                    0 <= m < k + 1 && edge_target(s, #[trigger] edges@[m] as int)
                        == Address::Agent(id)) implies out@.contains(id) by {
                if out0.contains(id) {
                    assert(oldout.contains(id));
                    if oldout != out@ {
                        let idx = choose|idx: int|
                            0 <= idx < oldout.len() && (#[trigger] oldout[idx]) == id;
                        assert(out@[idx] == id);
                    }
                } else {
                    let m = choose|m: int|
                        0 <= m < k + 1 && edge_target(s, (#[trigger] edges@[m]) as int)
                            == Address::Agent(id);
                    if m < k {
                        assert(oldout.contains(id));
                        if oldout != out@ {
                            let idx = choose|idx: int|
                                0 <= idx < oldout.len() && (#[trigger] oldout[idx]) == id;
                            assert(out@[idx] == id);
                        }
                    } else {
                        assert(edge_target(s, edges@[k as int] as int) == Address::Agent(id));
                        assert(hit_id == Some(id));
                        if oldout.contains(id) {
                            assert(out@ == oldout);
                        } else {
                            assert(out@.last() == id);
                        }
                    }
                }
            }
        }
        k = k + 1;
    }
    proof {
        assert forall|id: Identity| out@.contains(id) implies (out0.contains(id) || agents_under(
            s,
            *base,
            id,
        )) by {
            if !out0.contains(id) {
                let m = choose|m: int|
                    0 <= m < edges@.len() && edge_target(s, (#[trigger] edges@[m]) as int)
                        == Address::Agent(id);
                assert(live_tagged_edge(s, *base, LinkTypes::PathToAgent, Seq::<u8>::empty(),
                    edges@[m] as int));
            }
        }
        assert forall|id: Identity| agents_under(s, *base, id) implies out@.contains(id) by {
            let j = choose|j: int|
                #[trigger] live_tagged_edge(s, *base, LinkTypes::PathToAgent, Seq::<u8>::empty(), j)
                    && edge_target(s, j) == Address::Agent(id);
            assert(0 <= j < s.len());
            assert((j as usize) as int == j);
            assert(edges@.contains(j as usize));
            let m = choose|m: int| 0 <= m < edges@.len() && (#[trigger] edges@[m]) == j as usize;
            assert(edge_target(s, edges@[m] as int) == Address::Agent(id));
        }
    }
    out
}

/// Returns every identity with a live index edge under any materialized
/// bucket: the whole directory, with no duplicates, gathered by walking all
/// bucket nodes under the root namespace.
pub fn get_agents_with_profile(store: &Store) -> (r: Vec<Identity>)
    requires
        store.wf(),
    ensures
        r@.no_duplicates(),
        forall|id: Identity| r@.contains(id) <==> spec_listed(store.records@, id),
{
    let ghost s = store.records@;
    let total = store.len();
    let empty: Vec<u8> = Vec::new();
    let buckets = store.live_edges(&Address::IndexRoot, LinkTypes::PrefixPath, &empty);
    let mut out: Vec<Identity> = Vec::new();
    let n = buckets.len();
    let mut k: usize = 0;
    while k < n
        invariant
            k <= n,
            n == buckets@.len(),
            s == store.records@,
            store.wf(),
            total as int == s.len(),
            forall|m: int|
                0 <= m < buckets@.len() ==> live_tagged_edge(
                    s,
                    Address::IndexRoot,
                    LinkTypes::PrefixPath,
                    Seq::<u8>::empty(),
                    #[trigger] buckets@[m] as int,
                ),
            out@.no_duplicates(),
            forall|id: Identity|
                out@.contains(id) <==> exists|m: int|
                    0 <= m < k && agents_under(
                        s,
                        edge_target(s, #[trigger] buckets@[m] as int),
                        id,
                    ),
        decreases n - k,
    {
        proof {
            assert(live_tagged_edge(
                s,
                Address::IndexRoot,
                LinkTypes::PrefixPath,
                Seq::<u8>::empty(),
                buckets@[k as int] as int,
            ));
        }
        let e = buckets[k];
        let ghost oldout = out@;
        match &store.records[e].action {
            Action::CreateLink { target, .. } => {
                out = collect_agents_under(store, target, out);
            },
            _ => {
                proof {
                    assert(false);
                }
            },
        }
        proof {
            assert forall|id: Identity| out@.contains(id) implies exists|m: int|
                0 <= m < k + 1 && agents_under(s, edge_target(s, #[trigger] buckets@[m] as int), id) by {
                if oldout.contains(id) {
                    let m = choose|m: int|
                        0 <= m < k && agents_under(
                            s,
                            edge_target(s, (#[trigger] buckets@[m]) as int),
                            id,
                        );
                    assert(agents_under(s, edge_target(s, buckets@[m] as int), id));
                } else {
                    assert(agents_under(s, edge_target(s, buckets@[k as int] as int), id));
                }
            }
            assert forall|id: Identity|
                (exists|m: int|
                    0 <= m < k + 1 && agents_under(
                        s,
                        edge_target(s, #[trigger] buckets@[m] as int),
                        id,
                    )) implies out@.contains(id) by {
                let m = choose|m: int|
                    0 <= m < k + 1 && agents_under(
                        s,
                        edge_target(s, (#[trigger] buckets@[m]) as int),
                        id,
                    );
                if m < k {
                    assert(oldout.contains(id));
                }
            }
        }
        k = k + 1;
    }
    proof {
        assert forall|id: Identity| out@.contains(id) implies spec_listed(s, id) by {
            let m = choose|m: int|
                0 <= m < buckets@.len() && agents_under(
                    s,
                    edge_target(s, (#[trigger] buckets@[m]) as int),
                    id,
                );
            assert(live_tagged_edge(s, Address::IndexRoot, LinkTypes::PrefixPath,
                Seq::<u8>::empty(), buckets@[m] as int));
        }
        assert forall|id: Identity| spec_listed(s, id) implies out@.contains(id) by {
            let i = choose|i: int|
                #[trigger] live_tagged_edge(
                    s,
                    Address::IndexRoot,
                    LinkTypes::PrefixPath,
                    Seq::<u8>::empty(),
                    i,
                ) && agents_under(s, edge_target(s, i), id);
            assert(0 <= i < s.len());
            assert((i as usize) as int == i);
            assert(buckets@.contains(i as usize));
            let m = choose|m: int| 0 <= m < buckets@.len() && (#[trigger] buckets@[m]) == i as usize;
            assert(agents_under(s, edge_target(s, buckets@[m] as int), id));
        }
    }
    out
}

} // verus!

