//! The prefix index: a stable bucket key derived from a nickname, and the
//! deterministically derived index node that anchors the bucket's edges.
//!
//! A bucket key is the first 3 bytes of the lowercased nickname (fewer when
//! the nickname is shorter).  Lowercasing maps the ASCII letters `A`..`Z` to
//! `a`..`z` and leaves every other byte unchanged, so the key is a pure
//! function of the nickname bytes and the same on every machine.

use vstd::prelude::*;

use crate::store::{
    bucket_present, edge_target, extends, lemma_push_new_edge_live,
    lemma_push_preserves_tombstones_backward, live_tagged_edge, tombstones_backward, Store,
};
use crate::types::{addr_eqv, bytes_eq, copy_bytes, prefix_of, Action, Address, LinkTypes, Record};

verus! {

/// The ASCII-lowercased image of one byte.
pub open spec fn lower_byte_spec(b: u8) -> u8 {
    if 65 <= b && b <= 90 {
        (b + 32) as u8
    } else {
        b
    }
}

/// The bytewise lowercasing of a nickname.
pub open spec fn lower_bytes(s: Seq<u8>) -> Seq<u8> {
    s.map_values(|b: u8| lower_byte_spec(b))
}

/// The bucket key of a nickname: the first 3 bytes of its lowercasing.
pub open spec fn bucket_of(n: Seq<u8>) -> Seq<u8> {
    if n.len() <= 3 {
        lower_bytes(n)
    } else {
        lower_bytes(n).take(3)
    }
}

/// Lowercasing is idempotent.
pub proof fn lemma_lower_idempotent(n: Seq<u8>)
    ensures
        lower_bytes(lower_bytes(n)) == lower_bytes(n),
{
    assert(lower_bytes(lower_bytes(n)) =~= lower_bytes(n)) by {
        assert forall|i: int| 0 <= i < n.len() implies lower_bytes(lower_bytes(n))[i]
            == lower_bytes(n)[i] by {
            assert(lower_byte_spec(lower_byte_spec(n[i])) == lower_byte_spec(n[i]));
        }
    }
}

/// The bucket key does not depend on the case of the nickname, and is at
/// most 3 bytes long.
pub proof fn lemma_bucket_key_case_insensitive(n: Seq<u8>)
    ensures
        bucket_of(n) == bucket_of(lower_bytes(n)),
        bucket_of(n).len() <= 3,
{
    lemma_lower_idempotent(n);
}

pub fn lower_byte(b: u8) -> (r: u8)
    ensures
        r == lower_byte_spec(b),
{
    if 65 <= b && b <= 90 {
        b + 32
    } else {
        b
    }
}

/// The bytewise lowercasing of a nickname.
pub fn lowercase(v: &Vec<u8>) -> (r: Vec<u8>)
    ensures
        r@ == lower_bytes(v@),
{
    let n = v.len();
    let mut r: Vec<u8> = Vec::new();
    let mut i: usize = 0;
    while i < n
        invariant
            i <= n,
            n == v@.len(),
            r@.len() == i,
            forall|k: int| 0 <= k < i ==> r@[k] == lower_byte_spec(v@[k]),
        decreases n - i,
    {
        r.push(lower_byte(v[i]));
        i = i + 1;
    }
    assert(r@ =~= lower_bytes(v@));
    r
}

/// The bucket key of a nickname: the first 3 bytes of its lowercasing.
pub fn bucket_key_of(nickname: &Vec<u8>) -> (r: Vec<u8>)
    ensures
        r@ == bucket_of(nickname@),
{
    let mut r = lowercase(nickname);
    if r.len() > 3 {
        r.truncate(3);
        assert(r@ =~= bucket_of(nickname@));
    }
    r
}

/// The deterministically derived address of the index node for a nickname's
/// bucket.  Pure: no store access, so an existing node is found again by
/// recomputing the same derivation.
pub fn prefix_path(nickname: &Vec<u8>) -> (a: Address)
    ensures
        (a matches Address::Index(b) && b@ == bucket_of(nickname@)),
{
    Address::Index(bucket_key_of(nickname))
}

/// Idempotently materializes the index node for `bucket` under the root
/// namespace: after the call a live `PrefixPath` edge from the root to the
/// node exists; when one already does, the store is left untouched, and
/// otherwise exactly one edge record is appended.
pub fn locate_or_create(store: &mut Store, bucket: &Vec<u8>)
    requires
        old(store).wf(),
        tombstones_backward(old(store).records@),
    ensures
        final(store).wf(),
        tombstones_backward(final(store).records@),
        extends(final(store).records@, old(store).records@),
        bucket_present(final(store).records@, bucket@),
        bucket_present(old(store).records@, bucket@) ==> *final(store) == *old(store),
        !bucket_present(old(store).records@, bucket@) ==> {
            &&& final(store).records@.len() == old(store).records@.len() + 1
            &&& final(store).records@.last().action matches Action::CreateLink {
                base,
                target,
                link_type,
                tag,
            } && addr_eqv(base, Address::IndexRoot) && link_type == LinkTypes::PrefixPath && (
            target matches Address::Index(b) && b@ == bucket@) && tag@ == Seq::<u8>::empty()
        },
{
    let ghost olds = store.records@;
    let total = store.len();
    let empty: Vec<u8> = Vec::new();
    let edges = store.live_edges(&Address::IndexRoot, LinkTypes::PrefixPath, &empty);
    let n = edges.len();
    let mut found = false;
    let mut k: usize = 0;
    while k < n
        invariant
            k <= n,
            n == edges@.len(),
            store.records@ == olds,
            forall|m: int|
                0 <= m < edges@.len() ==> live_tagged_edge(
                    olds,
                    Address::IndexRoot,
                    LinkTypes::PrefixPath,
                    Seq::<u8>::empty(),
                    #[trigger] edges@[m] as int,
                ),
            found ==> bucket_present(olds, bucket@),
            !found ==> forall|m: int|
                0 <= m < k ==> !(edge_target(olds, #[trigger] edges@[m] as int)
                    matches Address::Index(b) && b@ == bucket@),
        decreases n - k,
    {
        proof {
            assert(live_tagged_edge(
                olds,
                Address::IndexRoot,
                LinkTypes::PrefixPath,
                Seq::<u8>::empty(),
                edges@[k as int] as int,
            ));
        }
        let e = edges[k];
        let hit = match &store.records[e].action {
            Action::CreateLink { target, .. } => match target {
                Address::Index(b) => bytes_eq(b, bucket),
                _ => false,
            },
            _ => false,
        };
        if hit {
            found = true;
            proof {
                assert(edge_target(olds, e as int) matches Address::Index(b) && b@ == bucket@);
                assert(bucket_present(olds, bucket@));
            }
        }
        k = k + 1;
    }
    if found {
        proof {
            assert(olds.take(olds.len() as int) =~= olds);
        }
        return ;
    }
    proof {
        assert(!bucket_present(olds, bucket@)) by {
            if bucket_present(olds, bucket@) {
                let i = choose|i: int|
                    live_tagged_edge(
                        olds,
                        Address::IndexRoot,
                        LinkTypes::PrefixPath,
                        Seq::<u8>::empty(),
                        i,
                    ) && (edge_target(olds, i) matches Address::Index(b) && b@ == bucket@);
                assert(0 <= i < olds.len());
                assert(olds.len() == total as int);
                assert((i as usize) as int == i);
                assert(edges@.contains(i as usize));
                let m = choose|m: int|
                    0 <= m < edges@.len() && (#[trigger] edges@[m]) == i as usize;
                assert(!(edge_target(olds, edges@[m] as int) matches Address::Index(b) && b@
                    == bucket@));
            }
        }
    }
    let node = Address::Index(copy_bytes(bucket));
    let tag: Vec<u8> = Vec::new();
    let ghost rec = Record {
        action: Action::CreateLink {
            base: Address::IndexRoot,
            target: node,
            link_type: LinkTypes::PrefixPath,
            tag: tag,
        },
        entry: None,
    };
    store.create_edge(Address::IndexRoot, node, LinkTypes::PrefixPath, tag);
    proof {
        assert(store.records@ == olds.push(rec));
        lemma_push_new_edge_live(olds, rec);
        lemma_push_preserves_tombstones_backward(olds, rec);
        assert(store.records@.take(olds.len() as int) =~= olds);
        let ni = olds.len() as int;
        assert(store.records@[ni] == rec);
        assert(rec.action->tag@ =~= Seq::<u8>::empty());
        assert(prefix_of(Seq::<u8>::empty(), rec.action->tag@)) by {
            assert(rec.action->tag@.take(0) =~= Seq::<u8>::empty());
        }
        assert(live_tagged_edge(
            store.records@,
            Address::IndexRoot,
            LinkTypes::PrefixPath,
            Seq::<u8>::empty(),
            ni,
        ));
        assert(edge_target(store.records@, ni) matches Address::Index(b) && b@ == bucket@);
        assert(bucket_present(store.records@, bucket@));
    }
}

} // verus!
