//! The record store: an append-only arena of immutable, content-addressed
//! records.  A record's address is its position in the arena; a record can
//! only reference records written before it, which is what content
//! addressing guarantees (a record names others by their content hash, so
//! only already-existing ones) and what makes update chains acyclic.
//!
//! Edges are records too: a `CreateLink` record is a typed, tagged edge
//! between two addresses, and it is "removed" only by appending a
//! `DeleteLink` record that references it.  An edge is *live* when no such
//! tombstone exists; every listing operation filters tombstoned edges out.

use vstd::prelude::*;

use crate::types::{addr_eqv, prefix_of, Action, Address, LinkTypes, Record, StoredEntry};
use crate::types::{addr_eq, is_prefix};

verus! {

/// Chain well-formedness of one record at position `i`: superseding and
/// shadowing actions reference records written before them.
pub open spec fn rec_wf(r: Record, i: int) -> bool {
    match r.action {
        Action::Update { original } => (original as int) < i,
        Action::Delete { deletes } => (deletes as int) < i,
        _ => true,
    }
}

/// Chain well-formedness of a whole arena.
pub open spec fn records_wf(s: Seq<Record>) -> bool {
    forall|i: int| 0 <= i < s.len() ==> #[trigger] rec_wf(s[i], i)
}

/// Tombstone sanity of one record at position `j`: a `DeleteLink` references
/// a record written before it.
pub open spec fn tombstone_ok(r: Record, j: int) -> bool {
    r.action matches Action::DeleteLink { link_add } ==> (link_add as int) < j
}

/// Every tombstone in the arena references a record written before it.  True
/// of every arena the directory writes; a violation models a tombstone whose
/// referenced edge this store cannot resolve (partial visibility), which the
/// classifier reports as [`crate::types::Error::DanglingDeleteLink`].
pub open spec fn tombstones_backward(s: Seq<Record>) -> bool {
    forall|j: int| 0 <= j < s.len() ==> #[trigger] tombstone_ok(s[j], j)
}

/// Record `i` of `s` is an `Update` superseding address `a`.
pub open spec fn is_superseder(s: Seq<Record>, a: int, i: int) -> bool {
    0 <= i < s.len() && (s[i].action matches Action::Update { original } && original as int == a)
}

/// Record `j` of `s` is a `DeleteLink` tombstoning the edge at address `i`.
pub open spec fn is_tombstone_of(s: Seq<Record>, i: int, j: int) -> bool {
    0 <= j < s.len() && (s[j].action matches Action::DeleteLink { link_add } && link_add as int
        == i)
}

/// The edge record at address `i` is live: it is a `CreateLink` and no
/// tombstone references it.
pub open spec fn edge_live(s: Seq<Record>, i: int) -> bool {
    &&& 0 <= i < s.len()
    &&& s[i].action is CreateLink
    &&& !exists|j: int| is_tombstone_of(s, i, j)
}

/// The edge record at address `i` is live, hangs off `base` with type `lt`,
/// and its tag starts with `pfx`.
pub open spec fn live_tagged_edge(
    s: Seq<Record>,
    base: Address,
    lt: LinkTypes,
    pfx: Seq<u8>,
    i: int,
) -> bool {
    &&& edge_live(s, i)
    &&& s[i].action matches Action::CreateLink { base: b, link_type, tag, .. }
        && addr_eqv(b, base) && link_type == lt && prefix_of(pfx, tag@)
}

/// The target of the edge record at address `i`.
pub open spec fn edge_target(s: Seq<Record>, i: int) -> Address
    recommends
        0 <= i < s.len(),
        s[i].action is CreateLink,
{
    s[i].action->target
}

/// The superseders of address `a` among the first `n` records, in ascending
/// order of address.
pub open spec fn superseders_upto(s: Seq<Record>, a: int, n: int) -> Seq<int>
    decreases n,
{
    if n <= 0 {
        Seq::empty()
    } else if is_superseder(s, a, n - 1) {
        superseders_upto(s, a, n - 1).push(n - 1)
    } else {
        superseders_upto(s, a, n - 1)
    }
}

/// All superseders of address `a`, in ascending order of address.
pub open spec fn superseders(s: Seq<Record>, a: int) -> Seq<int> {
    superseders_upto(s, a, s.len() as int)
}

/// Every listed superseder is one, lies below `n`, and the list is sorted
/// ascending and complete.
pub proof fn lemma_superseders_upto_props(s: Seq<Record>, a: int, n: int)
    ensures
        forall|k: int|
            0 <= k < superseders_upto(s, a, n).len() ==> is_superseder(
                s,
                a,
                #[trigger] superseders_upto(s, a, n)[k],
            ) && superseders_upto(s, a, n)[k] < n,
        forall|k1: int, k2: int|
            #![trigger superseders_upto(s, a, n)[k1], superseders_upto(s, a, n)[k2]]
            0 <= k1 < k2 < superseders_upto(s, a, n).len() ==> superseders_upto(s, a, n)[k1]
                < superseders_upto(s, a, n)[k2],
        forall|i: int| 0 <= i < n && is_superseder(s, a, i) ==> superseders_upto(
            s,
            a,
            n,
        ).contains(i),
    decreases n,
{
    if n > 0 {
        lemma_superseders_upto_props(s, a, n - 1);
        let pre = superseders_upto(s, a, n - 1);
        let cur = superseders_upto(s, a, n);
        assert forall|k: int| 0 <= k < cur.len() implies is_superseder(s, a, #[trigger] cur[k])
            && cur[k] < n by {
            if k < pre.len() {
                assert(cur[k] == pre[k]);
            } else {
                assert(cur[k] == n - 1);
            }
        }
        assert forall|k1: int, k2: int|
            #![trigger cur[k1], cur[k2]]
            0 <= k1 < k2 < cur.len() implies cur[k1] < cur[k2] by {
            if k2 < pre.len() {
                assert(cur[k1] == pre[k1] && cur[k2] == pre[k2]);
            } else if k2 == pre.len() && cur.len() == pre.len() + 1 {
                assert(cur[k2] == n - 1);
                assert(cur[k1] == pre[k1]);
                assert(pre[k1] < n - 1);
            }
        }
        assert forall|i: int| 0 <= i < n && is_superseder(s, a, i) implies superseders_upto(
            s,
            a,
            n,
        ).contains(i) by {
            if i < n - 1 {
                let k = choose|k: int|
                    0 <= k < superseders_upto(s, a, n - 1).len() && (#[trigger] superseders_upto(
                        s,
                        a,
                        n - 1,
                    )[k]) == i;
                assert(superseders_upto(s, a, n)[k] == i);
            } else {
                assert(superseders_upto(s, a, n).last() == i);
            }
        }
    }
}

/// `superseders_upto` reads only the first `n` records.
pub proof fn lemma_superseders_upto_depends_on_prefix(s1: Seq<Record>, s2: Seq<Record>, a: int, n: int)
    requires
        n <= s1.len(),
        n <= s2.len(),
        forall|i: int| 0 <= i < n ==> s1[i] == s2[i],
    ensures
        superseders_upto(s1, a, n) == superseders_upto(s2, a, n),
    decreases n,
{
    if n > 0 {
        lemma_superseders_upto_depends_on_prefix(s1, s2, a, n - 1);
    }
}

/// If chains are well formed, a superseder of `a` lies strictly above `a`.
pub proof fn lemma_superseder_above(s: Seq<Record>, a: int, i: int)
    requires
        records_wf(s),
        is_superseder(s, a, i),
    ensures
        a < i < s.len(),
{
    assert(rec_wf(s[i], i));
}

/// The current version at the end of the update chain rooted at `a`: follow
/// the most recently appended superseder until none is left.
pub open spec fn latest_of(s: Seq<Record>, a: int) -> int
    decreases s.len() - a,
        when records_wf(s) && 0 <= a < s.len()
        via latest_of_decreases
{
    if superseders(s, a).len() > 0 {
        latest_of(s, superseders(s, a).last())
    } else {
        a
    }
}

#[via_fn]
proof fn latest_of_decreases(s: Seq<Record>, a: int) {
    if superseders(s, a).len() > 0 {
        lemma_superseders_upto_props(s, a, s.len() as int);
        let i = superseders(s, a).last();
        lemma_superseder_above(s, a, i);
    }
}

/// The latest version lies at or above its root, within the arena, and has
/// no superseder of its own.
pub proof fn lemma_latest_of_props(s: Seq<Record>, a: int)
    requires
        records_wf(s),
        0 <= a < s.len(),
    ensures
        a <= latest_of(s, a) < s.len(),
        superseders(s, latest_of(s, a)).len() == 0,
    decreases s.len() - a,
{
    if superseders(s, a).len() > 0 {
        lemma_superseders_upto_props(s, a, s.len() as int);
        let i = superseders(s, a).last();
        lemma_superseder_above(s, a, i);
        lemma_latest_of_props(s, i);
    }
}

/// The Record Store Adapter: the append-only arena itself.
pub struct Store {
    pub records: Vec<Record>,
}

impl Store {
    /// Chain well-formedness of the whole arena.
    pub open spec fn wf(self) -> bool {
        records_wf(self.records@)
    }

    pub fn new() -> (s: Store)
        ensures
            s.records@ =~= Seq::<Record>::empty(),
            s.wf(),
            tombstones_backward(s.records@),
    {
        Store { records: Vec::new() }
    }

    pub fn len(&self) -> (n: usize)
        ensures
            n == self.records@.len(),
    {
        self.records.len()
    }

    /// Resolves an address to its record, or absent when this store cannot
    /// resolve it.
    pub fn read(&self, a: usize) -> (r: Option<&Record>)
        ensures
            a < self.records@.len() ==> (r matches Some(rec) && *rec == self.records@[a as int]),
            a >= self.records@.len() ==> r is None,
    {
        if a < self.records.len() {
            Some(&self.records[a])
        } else {
            None
        }
    }

    /// Appends one record; the new record's address is returned.
    fn append(&mut self, r: Record) -> (a: usize)
        requires
            rec_wf(r, old(self).records@.len() as int),
        ensures
            a == old(self).records@.len(),
            final(self).records@ == old(self).records@.push(r),
            old(self).wf() ==> final(self).wf(),
    {
        let a = self.records.len();
        let ghost olds = self.records@;
        self.records.push(r);
        proof {
            if records_wf(olds) {
                assert forall|i: int| 0 <= i < self.records@.len() implies #[trigger] rec_wf(
                    self.records@[i],
                    i,
                ) by {
                    if i < olds.len() {
                        assert(rec_wf(olds[i], i));
                    }
                }
            }
        }
        a
    }

    /// Writes a new entry record (a `Create` action carrying `entry`).
    pub fn write_entry(&mut self, entry: StoredEntry) -> (a: usize)
        ensures
            a == old(self).records@.len(),
            final(self).records@ == old(self).records@.push(
                (Record { action: Action::Create, entry: Some(entry) }),
            ),
            old(self).wf() ==> final(self).wf(),
    {
        self.append(Record { action: Action::Create, entry: Some(entry) })
    }

    /// Writes an `Update` record superseding the record at `original`.
    pub fn write_update(&mut self, original: usize, entry: StoredEntry) -> (a: usize)
        requires
            original < old(self).records@.len(),
        ensures
            a == old(self).records@.len(),
            final(self).records@ == old(self).records@.push(
                (Record { action: Action::Update { original }, entry: Some(entry) }),
            ),
            old(self).wf() ==> final(self).wf(),
    {
        self.append(Record { action: Action::Update { original }, entry: Some(entry) })
    }

    /// Writes a `Delete` record shadowing the record at `deletes`.
    pub fn write_delete(&mut self, deletes: usize) -> (a: usize)
        requires
            deletes < old(self).records@.len(),
        ensures
            a == old(self).records@.len(),
            final(self).records@ == old(self).records@.push(
                (Record { action: Action::Delete { deletes }, entry: None }),
            ),
            old(self).wf() ==> final(self).wf(),
    {
        self.append(Record { action: Action::Delete { deletes }, entry: None })
    }

    /// Writes an edge: a `CreateLink` record from `base` to `target`.
    pub fn create_edge(&mut self, base: Address, target: Address, link_type: LinkTypes, tag: Vec<u8>) -> (a: usize)
        ensures
            a == old(self).records@.len(),
            final(self).records@ == old(self).records@.push(
                (Record { action: Action::CreateLink { base, target, link_type, tag }, entry: None }),
            ),
            old(self).wf() ==> final(self).wf(),
    {
        self.append(Record { action: Action::CreateLink { base, target, link_type, tag }, entry: None })
    }

    /// Writes a tombstone: a `DeleteLink` record referencing the `CreateLink`
    /// record at `link_add`.  The address is accepted unresolved, as the
    /// substrate accepts any content hash; a tombstone whose edge this store
    /// never resolves is the dangling case the classifier reports.
    pub fn delete_edge(&mut self, link_add: usize) -> (a: usize)
        ensures
            a == old(self).records@.len(),
            final(self).records@ == old(self).records@.push(
                (Record { action: Action::DeleteLink { link_add }, entry: None }),
            ),
            old(self).wf() ==> final(self).wf(),
    {
        self.append(Record { action: Action::DeleteLink { link_add }, entry: None })
    }

    /// Writes a record of a kind outside this domain (the substrate's log
    /// holds system records too).
    pub fn write_other(&mut self) -> (a: usize)
        ensures
            a == old(self).records@.len(),
            final(self).records@ == old(self).records@.push(
                (Record { action: Action::Other, entry: None }),
            ),
            old(self).wf() ==> final(self).wf(),
    {
        self.append(Record { action: Action::Other, entry: None })
    }

    /// All superseding updates of the record at `a`, in ascending order of
    /// address (the order the store appended them).
    pub fn updates_of(&self, a: usize) -> (r: Vec<usize>)
        ensures
            r@.map_values(|x: usize| x as int) == superseders(self.records@, a as int),
    {
        let n = self.records.len();
        let mut r: Vec<usize> = Vec::new();
        let mut i: usize = 0;
        while i < n
            invariant
                i <= n,
                n == self.records@.len(),
                r@.map_values(|x: usize| x as int) == superseders_upto(
                    self.records@,
                    a as int,
                    i as int,
                ),
            decreases n - i,
        {
            let is_sup = match &self.records[i].action {
                Action::Update { original } => *original == a,
                _ => false,
            };
            if is_sup {
                let ghost oldr = r@;
                r.push(i);
                assert(r@.map_values(|x: usize| x as int) =~= oldr.map_values(
                    |x: usize| x as int,
                ).push(i as int));
            }
            i = i + 1;
        }
        r
    }

    /// Whether the edge record at `i` is live (no tombstone references it).
    pub fn edge_is_live(&self, i: usize) -> (r: bool)
        requires
            i < self.records@.len(),
        ensures
            r == edge_live(self.records@, i as int),
    {
        let is_cl = match &self.records[i].action {
            Action::CreateLink { .. } => true,
            _ => false,
        };
        if !is_cl {
            return false;
        }
        let n = self.records.len();
        let mut j: usize = 0;
        while j < n
            invariant
                j <= n,
                n == self.records@.len(),
                i < n,
                forall|k: int| 0 <= k < j ==> !is_tombstone_of(self.records@, i as int, k),
            decreases n - j,
        {
            let hit = match &self.records[j].action {
                Action::DeleteLink { link_add } => *link_add == i,
                _ => false,
            };
            if hit {
                assert(is_tombstone_of(self.records@, i as int, j as int));
                return false;
            }
            j = j + 1;
        }
        assert(!exists|k: int| is_tombstone_of(self.records@, i as int, k)) by {
            assert forall|k: int| !is_tombstone_of(self.records@, i as int, k) by {
                if 0 <= k < n {
                    assert(!is_tombstone_of(self.records@, i as int, k));
                }
            }
        }
        true
    }

    /// The addresses of the live edges hanging off `base` with type
    /// `link_type` whose tag starts with `tag_prefix`, in ascending order of
    /// address.  Only logically live edges are returned: every tombstoned
    /// edge is filtered out.
    pub fn live_edges(&self, base: &Address, link_type: LinkTypes, tag_prefix: &Vec<u8>) -> (r:
        Vec<usize>)
        ensures
            forall|k: int|
                0 <= k < r@.len() ==> live_tagged_edge(
                    self.records@,
                    *base,
                    link_type,
                    tag_prefix@,
                    #[trigger] r@[k] as int,
                ),
            forall|i: usize|
                live_tagged_edge(self.records@, *base, link_type, tag_prefix@, i as int)
                    ==> r@.contains(i),
            forall|k1: int, k2: int|
                #![trigger r@[k1], r@[k2]]
                0 <= k1 < k2 < r@.len() ==> r@[k1] < r@[k2],
    {
        let n = self.records.len();
        let mut r: Vec<usize> = Vec::new();
        let mut i: usize = 0;
        while i < n
            invariant
                i <= n,
                n == self.records@.len(),
                forall|k: int|
                    0 <= k < r@.len() ==> live_tagged_edge(
                        self.records@,
                        *base,
                        link_type,
                        tag_prefix@,
                        #[trigger] r@[k] as int,
                    ),
                forall|k: int| 0 <= k < r@.len() ==> #[trigger] r@[k] < i,
                forall|m: usize|
                    m < i && live_tagged_edge(
                        self.records@,
                        *base,
                        link_type,
                        tag_prefix@,
                        m as int,
                    ) ==> r@.contains(m),
                forall|k1: int, k2: int|
                    #![trigger r@[k1], r@[k2]]
                    0 <= k1 < k2 < r@.len() ==> r@[k1] < r@[k2],
            decreases n - i,
        {
            let sel = match &self.records[i].action {
                Action::CreateLink { base: b, target: _, link_type: lt, tag } => addr_eq(b, base)
                    && *lt == link_type && is_prefix(tag_prefix, tag),
                _ => false,
            };
            let ghost oldr = r@;
            let mut pushed = false;
            if sel {
                if self.edge_is_live(i) {
                    r.push(i);
                    pushed = true;
                }
            }
            proof {
                if !pushed {
                    assert(!live_tagged_edge(
                        self.records@,
                        *base,
                        link_type,
                        tag_prefix@,
                        i as int,
                    ));
                }
                assert forall|m: usize|
                    m < i + 1 && live_tagged_edge(
                        self.records@,
                        *base,
                        link_type,
                        tag_prefix@,
                        m as int,
                    ) implies r@.contains(m) by {
                    if m < i {
                        assert(oldr.contains(m));
                        let idx = choose|idx: int|
                            0 <= idx < oldr.len() && (#[trigger] oldr[idx]) == m;
                        assert(r@[idx] == m);
                    } else {
                        assert(pushed);
                        assert(r@.last() == i);
                    }
                }
            }
            i = i + 1;
        }
        r
    }
}

/// A live `PrefixPath` edge from the namespace root to the index node for
/// `bucket` exists: the bucket has been materialized.
pub open spec fn bucket_present(s: Seq<Record>, bucket: Seq<u8>) -> bool {
    exists|i: int|
        #[trigger] live_tagged_edge(s, Address::IndexRoot, LinkTypes::PrefixPath, Seq::empty(), i)
            && (edge_target(s, i) matches Address::Index(b) && b@ == bucket)
}

/// `s2` extends `s1`: the arena only ever grows, records already written
/// never change.
pub open spec fn extends(s2: Seq<Record>, s1: Seq<Record>) -> bool {
    s1.len() <= s2.len() && s2.take(s1.len() as int) == s1
}

/// An extension whose new records do not tombstone `i` leaves the liveness
/// of the edge at `i` unchanged.
pub proof fn lemma_extend_liveness(s1: Seq<Record>, s2: Seq<Record>, i: int)
    requires
        extends(s2, s1),
        0 <= i < s1.len(),
        forall|j: int|
            s1.len() <= j < s2.len() ==> !(#[trigger] s2[j].action matches Action::DeleteLink {
                link_add,
            } && link_add as int == i),
    ensures
        edge_live(s2, i) == edge_live(s1, i),
{
    assert forall|k: int| 0 <= k < s1.len() implies s2[k] == s1[k] by {
        assert(s2.take(s1.len() as int)[k] == s2[k]);
    }
    if edge_live(s1, i) {
        assert forall|j: int| !is_tombstone_of(s2, i, j) by {
            if 0 <= j < s1.len() {
                assert(!is_tombstone_of(s1, i, j));
            }
        }
    } else {
        if 0 <= i < s1.len() && s1[i].action is CreateLink {
            let j = choose|j: int| is_tombstone_of(s1, i, j);
            assert(is_tombstone_of(s2, i, j));
        }
    }
}

/// An extension whose new records do not tombstone `i` leaves the whole
/// live-tagged-edge judgment at `i` unchanged.
pub proof fn lemma_extend_live_tagged(
    s1: Seq<Record>,
    s2: Seq<Record>,
    base: Address,
    lt: LinkTypes,
    pfx: Seq<u8>,
    i: int,
)
    requires
        extends(s2, s1),
        0 <= i < s1.len(),
        forall|j: int|
            s1.len() <= j < s2.len() ==> !(#[trigger] s2[j].action matches Action::DeleteLink {
                link_add,
            } && link_add as int == i),
    ensures
        live_tagged_edge(s2, base, lt, pfx, i) == live_tagged_edge(s1, base, lt, pfx, i),
        edge_live(s1, i) ==> edge_target(s2, i) == edge_target(s1, i),
{
    lemma_extend_liveness(s1, s2, i);
    assert(s2.take(s1.len() as int)[i] == s2[i]);
}

/// A tombstoned edge never becomes live again: tombstones are never removed.
pub proof fn lemma_extend_preserves_dead(s1: Seq<Record>, s2: Seq<Record>, i: int)
    requires
        extends(s2, s1),
        0 <= i < s1.len(),
        !edge_live(s1, i),
    ensures
        !edge_live(s2, i),
{
    assert(s2.take(s1.len() as int)[i] == s2[i]);
    if s1[i].action is CreateLink {
        let j = choose|j: int| is_tombstone_of(s1, i, j);
        assert(s2.take(s1.len() as int)[j] == s2[j]);
        assert(is_tombstone_of(s2, i, j));
    }
}

/// A fresh `CreateLink` appended to an arena whose tombstones all point
/// backward is live.
pub proof fn lemma_push_new_edge_live(s: Seq<Record>, r: Record)
    requires
        tombstones_backward(s),
        r.action is CreateLink,
    ensures
        edge_live(s.push(r), s.len() as int),
{
    let s2 = s.push(r);
    let n = s.len() as int;
    assert forall|j: int| !is_tombstone_of(s2, n, j) by {
        if 0 <= j < n {
            assert(tombstone_ok(s[j], j));
            assert(s2[j] == s[j]);
        }
    }
}

/// Appending a record whose tombstone (if any) points backward keeps all
/// tombstones pointing backward.
pub proof fn lemma_push_preserves_tombstones_backward(s: Seq<Record>, r: Record)
    requires
        tombstones_backward(s),
        tombstone_ok(r, s.len() as int),
    ensures
        tombstones_backward(s.push(r)),
{
    let s2 = s.push(r);
    assert forall|j: int| 0 <= j < s2.len() implies #[trigger] tombstone_ok(s2[j], j) by {
        if j < s.len() {
            assert(tombstone_ok(s[j], j));
            assert(s2[j] == s[j]);
        }
    }
}

/// `superseders_upto` skips a span that holds no superseder of `a`.
pub proof fn lemma_upto_skip(s: Seq<Record>, a: int, lo: int, hi: int)
    requires
        0 <= lo <= hi,
        forall|j: int| lo <= j < hi ==> !is_superseder(s, a, j),
    ensures
        superseders_upto(s, a, hi) == superseders_upto(s, a, lo),
    decreases hi - lo,
{
    if lo < hi {
        lemma_upto_skip(s, a, lo, hi - 1);
    }
}

/// No position supersedes `a`, so its superseder list is empty.
pub proof fn lemma_no_superseders(s: Seq<Record>, a: int)
    requires
        forall|j: int| 0 <= j < s.len() ==> !is_superseder(s, a, j),
    ensures
        superseders(s, a).len() == 0,
{
    lemma_upto_skip(s, a, 0, s.len() as int);
}

/// An extension that appends no `Update` leaves every superseder list
/// unchanged.
pub proof fn lemma_extend_preserves_superseders(s1: Seq<Record>, s2: Seq<Record>, a: int)
    requires
        extends(s2, s1),
        forall|j: int| s1.len() <= j < s2.len() ==> !(#[trigger] s2[j].action is Update),
    ensures
        superseders(s2, a) == superseders(s1, a),
{
    assert forall|k: int| 0 <= k < s1.len() implies s2[k] == s1[k] by {
        assert(s2.take(s1.len() as int)[k] == s2[k]);
    }
    lemma_superseders_upto_depends_on_prefix(s2, s1, a, s1.len() as int);
    assert forall|j: int| s1.len() as int <= j < s2.len() implies !is_superseder(s2, a, j) by {
        assert(!(s2[j].action is Update));
    }
    lemma_upto_skip(s2, a, s1.len() as int, s2.len() as int);
}

/// An extension that appends no `Update` leaves every latest-version
/// resolution unchanged.
pub proof fn lemma_extend_preserves_latest(s1: Seq<Record>, s2: Seq<Record>, a: int)
    requires
        extends(s2, s1),
        records_wf(s1),
        records_wf(s2),
        0 <= a < s1.len(),
        forall|j: int| s1.len() <= j < s2.len() ==> !(#[trigger] s2[j].action is Update),
    ensures
        latest_of(s2, a) == latest_of(s1, a),
    decreases s1.len() - a,
{
    lemma_extend_preserves_superseders(s1, s2, a);
    if superseders(s1, a).len() > 0 {
        let i = superseders(s1, a).last();
        lemma_superseders_upto_props(s1, a, s1.len() as int);
        lemma_superseder_above(s1, a, i);
        lemma_extend_preserves_latest(s1, s2, i);
    }
}

} // verus!
