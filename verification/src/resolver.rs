//! The latest-version resolver: a logically mutable entry is a chain of
//! immutable records, each superseding update naming the address it
//! replaces.  The current version is found by repeatedly following the most
//! recently appended superseder; chains are acyclic because a record can
//! only reference records written before it.

use vstd::prelude::*;

use crate::store::{
    is_superseder, latest_of, lemma_latest_of_props, lemma_superseder_above,
    lemma_no_superseders, lemma_superseders_upto_props, lemma_superseders_upto_depends_on_prefix,
    lemma_upto_skip, rec_wf, records_wf, superseders, superseders_upto, Store,
};
use crate::types::{Action, Error, Record};

verus! {

/// Appending one update that supersedes the current latest version of the
/// chain rooted at `a` makes the appended record the chain's new latest
/// version.
pub proof fn lemma_push_update_extends_chain(s1: Seq<Record>, s2: Seq<Record>, a: int)
    requires
        records_wf(s1),
        records_wf(s2),
        s2.len() == s1.len() + 1,
        forall|i: int| 0 <= i < s1.len() ==> s2[i] == s1[i],
        s2.last().action matches Action::Update { original } && original as int == latest_of(
            s1,
            a,
        ),
        0 <= a < s1.len(),
    ensures
        latest_of(s2, a) == s1.len(),
    decreases s1.len() - a,
{
    let u = s1.len() as int;
    let l1 = latest_of(s1, a);
    lemma_latest_of_props(s1, a);
    lemma_superseders_upto_depends_on_prefix(s2, s1, a, u);
    if superseders(s1, a).len() > 0 {
        lemma_superseders_upto_props(s1, a, u);
        let nxt = superseders(s1, a).last();
        lemma_superseder_above(s1, a, nxt);
        // The chain's latest lies above `a`, so the new update does not
        // supersede `a` itself and `a`'s superseder list is unchanged.
        lemma_latest_of_props(s1, nxt);
        assert(l1 == latest_of(s1, nxt));
        assert(!is_superseder(s2, a, u));
        lemma_upto_skip(s2, a, u, u + 1);
        assert(superseders(s2, a) == superseders(s1, a));
        lemma_push_update_extends_chain(s1, s2, nxt);
    } else {
        // `a` is its own latest; the new update is its only superseder.
        assert(l1 == a);
        assert(is_superseder(s2, a, u));
        assert(superseders_upto(s2, a, u + 1) == superseders_upto(s2, a, u).push(u));
        assert(superseders(s2, a) == superseders_upto(s2, a, u + 1));
        assert(superseders(s2, a).last() == u);
        assert(latest_of(s2, a) == latest_of(s2, u));
        // Nothing supersedes the new record: older records reference older
        // addresses, and the record itself supersedes an older one.
        assert forall|j: int| 0 <= j < s2.len() implies !is_superseder(s2, u, j) by {
            if 0 <= j < s1.len() {
                assert(rec_wf(s1[j], j));
            }
        }
        lemma_no_superseders(s2, u);
        assert(superseders(s2, u).len() == 0);
        assert(latest_of(s2, u) == u);
    }
}

/// Resolves the current version at the end of the update chain rooted at
/// `addr`.  Fails with `MalformedChain` exactly when `addr` does not resolve
/// to a record of this store; otherwise the result is the chain's latest
/// version, which no update supersedes.
pub fn get_latest(store: &Store, addr: usize) -> (r: Result<usize, Error>)
    requires
        store.wf(),
    ensures
        r matches Ok(l) ==> addr < store.records@.len() && l as int == latest_of(
            store.records@,
            addr as int,
        ) && superseders(store.records@, l as int).len() == 0,
        r is Err <==> addr >= store.records@.len(),
        r matches Err(e) ==> e == Error::MalformedChain,
{
    let n = store.len();
    if addr >= n {
        return Err(Error::MalformedChain);
    }
    let mut cur = addr;
    loop
        invariant
            store.wf(),
            addr < n,
            cur < n,
            n == store.records@.len(),
            latest_of(store.records@, cur as int) == latest_of(store.records@, addr as int),
        decreases n - cur,
    {
        let ups = store.updates_of(cur);
        if ups.len() == 0 {
            proof {
                assert(superseders(store.records@, cur as int).len() == 0);
            }
            return Ok(cur);
        }
        let nxt = ups[ups.len() - 1];
        proof {
            let sup = superseders(store.records@, cur as int);
            assert(sup.last() == ups@.map_values(|x: usize| x as int).last());
            assert(sup.last() == nxt as int);
            lemma_superseders_upto_props(store.records@, cur as int, store.records@.len() as int);
            assert(is_superseder(store.records@, cur as int, nxt as int));
            lemma_superseder_above(store.records@, cur as int, nxt as int);
        }
        cur = nxt;
    }
}

} // verus!
