//! The change classifier / notifier: runs once per record appended to the
//! local participant's own log and turns it into a typed domain event for
//! subscribers.  Classification of a whole batch is best-effort: a record
//! whose classification fails is skipped (the caller logs it) and the
//! remaining records are still processed — notification must never block or
//! fail the commit it describes.

use vstd::prelude::*;

use crate::store::Store;
use crate::types::{clone_entry, entry_eqv, Action, EntryTypes, Error, LinkTypes, Record, StoredEntry};

verus! {

/// A typed event describing one committed record, identified by its address.
pub enum Signal {
    LinkCreated { action: usize, link_type: LinkTypes },
    LinkDeleted { action: usize, create_link_action: usize, link_type: LinkTypes },
    EntryCreated { action: usize, app_entry: EntryTypes },
    EntryUpdated { action: usize, app_entry: EntryTypes, original_app_entry: EntryTypes },
    EntryDeleted { action: usize, original_app_entry: EntryTypes },
}

/// Equivalence of signals: same event shape, addresses equal, entries equal
/// byte for byte.
pub open spec fn signal_eqv(a: Signal, b: Signal) -> bool {
    match (a, b) {
        (
            Signal::LinkCreated { action: x, link_type: t },
            Signal::LinkCreated { action: y, link_type: u },
        ) => x == y && t == u,
        (
            Signal::LinkDeleted { action: x, create_link_action: cx, link_type: t },
            Signal::LinkDeleted { action: y, create_link_action: cy, link_type: u },
        ) => x == y && cx == cy && t == u,
        (
            Signal::EntryCreated { action: x, app_entry: e },
            Signal::EntryCreated { action: y, app_entry: f },
        ) => x == y && entry_eqv(e, f),
        (
            Signal::EntryUpdated { action: x, app_entry: e, original_app_entry: oe },
            Signal::EntryUpdated { action: y, app_entry: f, original_app_entry: of },
        ) => x == y && entry_eqv(e, f) && entry_eqv(oe, of),
        (
            Signal::EntryDeleted { action: x, original_app_entry: oe },
            Signal::EntryDeleted { action: y, original_app_entry: of },
        ) => x == y && entry_eqv(oe, of),
        _ => false,
    }
}

/// Equivalence of event sequences, signal by signal.
pub open spec fn signals_eqv(a: Seq<Signal>, b: Seq<Signal>) -> bool {
    a.len() == b.len() && forall|k: int| 0 <= k < a.len() ==> signal_eqv(#[trigger] a[k], b[k])
}

/// The recognized application entry carried by the record at `a`, if any.
pub open spec fn entry_of(s: Seq<Record>, a: usize) -> Option<EntryTypes> {
    if (a as int) < s.len() {
        match s[a as int].entry {
            Some(StoredEntry::App(e)) => Some(e),
            _ => None,
        }
    } else {
        None
    }
}

/// How one committed record is classified.  An unrecognized link type or
/// entry type, partial visibility of an update's original, and actions
/// outside the domain all yield no event; a `DeleteLink` whose `CreateLink`
/// cannot be fetched is an error, as is one whose referenced record is no
/// `CreateLink`.
pub open spec fn spec_signal(s: Seq<Record>, a: usize) -> Result<Option<Signal>, Error>
    recommends
        (a as int) < s.len(),
{
    match s[a as int].action {
        Action::CreateLink { link_type, .. } => if link_type != LinkTypes::Unrecognized {
            Ok(Some(Signal::LinkCreated { action: a, link_type }))
        } else {
            Ok(None)
        },
        Action::DeleteLink { link_add } => if (link_add as int) >= s.len() {
            Err(Error::DanglingDeleteLink)
        } else {
            match s[link_add as int].action {
                Action::CreateLink { link_type, .. } => if link_type != LinkTypes::Unrecognized {
                    Ok(
                        Some(
                            Signal::LinkDeleted {
                                action: a,
                                create_link_action: link_add,
                                link_type,
                            },
                        ),
                    )
                } else {
                    Ok(None)
                },
                _ => Err(Error::MalformedChain),
            }
        },
        Action::Create => match entry_of(s, a) {
            Some(e) => Ok(Some(Signal::EntryCreated { action: a, app_entry: e })),
            None => Ok(None),
        },
        Action::Update { original } => match (entry_of(s, a), entry_of(s, original)) {
            (Some(e), Some(o)) => Ok(
                Some(Signal::EntryUpdated { action: a, app_entry: e, original_app_entry: o }),
            ),
            _ => Ok(None),
        },
        Action::Delete { deletes } => match entry_of(s, deletes) {
            Some(o) => Ok(Some(Signal::EntryDeleted { action: a, original_app_entry: o })),
            None => Ok(None),
        },
        Action::Other => Ok(None),
    }
}

/// The events a batch of committed records emits, in batch order; records
/// whose classification fails or yields nothing are skipped.
pub open spec fn spec_emitted(s: Seq<Record>, addrs: Seq<usize>) -> Seq<Signal>
    decreases addrs.len(),
{
    if addrs.len() == 0 {
        Seq::empty()
    } else {
        let rest = spec_emitted(s, addrs.drop_last());
        match spec_signal(s, addrs.last()) {
            Ok(Some(sig)) => rest.push(sig),
            _ => rest,
        }
    }
}

/// An exec classification outcome agrees with its specification.
pub open spec fn outcome_matches(
    r: Result<Option<Signal>, Error>,
    m: Result<Option<Signal>, Error>,
) -> bool {
    match (r, m) {
        (Ok(Some(x)), Ok(Some(y))) => signal_eqv(x, y),
        (Ok(None), Ok(None)) => true,
        (Err(a), Err(b)) => a == b,
        _ => false,
    }
}

/// The recognized application entry attached to the record at
/// `action_addr`: absent when the address does not resolve, the record
/// carries no entry, or the entry belongs to another domain.
pub fn get_entry_for_action(store: &Store, action_addr: usize) -> (r: Option<EntryTypes>)
    ensures
        r is Some <==> entry_of(store.records@, action_addr) is Some,
        r matches Some(e) ==> entry_eqv(e, entry_of(store.records@, action_addr)->Some_0),
{
    match store.read(action_addr) {
        Some(rec) => match &rec.entry {
            Some(StoredEntry::App(e)) => Some(clone_entry(e)),
            _ => None,
        },
        None => None,
    }
}

/// Classifies one committed record into at most one typed event, as
/// [`spec_signal`] says.
pub fn signal_action(store: &Store, action_addr: usize) -> (r: Result<Option<Signal>, Error>)
    requires
        action_addr < store.records@.len(),
    ensures
        outcome_matches(r, spec_signal(store.records@, action_addr)),
{
    match &store.records[action_addr].action {
        Action::CreateLink { link_type, .. } => {
            if *link_type != LinkTypes::Unrecognized {
                Ok(Some(Signal::LinkCreated { action: action_addr, link_type: *link_type }))
            } else {
                Ok(None)
            }
        },
        Action::DeleteLink { link_add } => {
            match store.read(*link_add) {
                None => Err(Error::DanglingDeleteLink),
                Some(rec) => match &rec.action {
                    Action::CreateLink { link_type, .. } => {
                        if *link_type != LinkTypes::Unrecognized {
                            Ok(
                                Some(
                                    Signal::LinkDeleted {
                                        action: action_addr,
                                        create_link_action: *link_add,
                                        link_type: *link_type,
                                    },
                                ),
                            )
                        } else {
                            Ok(None)
                        }
                    },
                    _ => Err(Error::MalformedChain),
                },
            }
        },
        Action::Create => match get_entry_for_action(store, action_addr) {
            Some(e) => Ok(Some(Signal::EntryCreated { action: action_addr, app_entry: e })),
            None => Ok(None),
        },
        Action::Update { original } => match get_entry_for_action(store, action_addr) {
            Some(e) => match get_entry_for_action(store, *original) {
                Some(o) => Ok(
                    Some(
                        Signal::EntryUpdated {
                            action: action_addr,
                            app_entry: e,
                            original_app_entry: o,
                        },
                    ),
                ),
                None => Ok(None),
            },
            None => Ok(None),
        },
        Action::Delete { deletes } => match get_entry_for_action(store, *deletes) {
            Some(o) => Ok(
                Some(Signal::EntryDeleted { action: action_addr, original_app_entry: o }),
            ),
            None => Ok(None),
        },
        Action::Other => Ok(None),
    }
}

/// Classifies a whole batch of freshly committed records, in order.  A
/// record whose classification fails is skipped — the caller logs it — and
/// every remaining record is still processed; the events of the successes
/// are returned for delivery.
pub fn post_commit(store: &Store, committed: &Vec<usize>) -> (events: Vec<Signal>)
    requires
        forall|k: int| 0 <= k < committed@.len() ==> #[trigger] committed@[k]
            < store.records@.len(),
    ensures
        signals_eqv(events@, spec_emitted(store.records@, committed@)),
{
    let ghost s = store.records@;
    let mut events: Vec<Signal> = Vec::new();
    let n = committed.len();
    let mut k: usize = 0;
    while k < n
        invariant
            k <= n,
            n == committed@.len(),
            s == store.records@,
            forall|m: int| 0 <= m < committed@.len() ==> #[trigger] committed@[m] < s.len(),
            signals_eqv(events@, spec_emitted(s, committed@.take(k as int))),
        decreases n - k,
    {
        let ghost olde = events@;
        match signal_action(store, committed[k]) {
            Ok(Some(sig)) => {
                events.push(sig);
            },
            Ok(None) => {},
            Err(_) => {},
        }
        proof {
            assert(committed@.take(k + 1 as int).drop_last() =~= committed@.take(k as int));
            assert(committed@.take(k + 1 as int).last() == committed@[k as int]);
            let pre = spec_emitted(s, committed@.take(k as int));
            let cur = spec_emitted(s, committed@.take(k + 1 as int));
            match spec_signal(s, committed@[k as int]) {
                Ok(opt) => match opt {
                    Some(sig) => {
                        assert(cur == pre.push(sig));
                        assert forall|j: int| 0 <= j < events@.len() implies signal_eqv(
                            #[trigger] events@[j],
                            cur[j],
                        ) by {
                            if j < olde.len() {
                                assert(signal_eqv(olde[j], pre[j]));
                            }
                        }
                    },
                    None => {
                        assert(cur == pre);
                    },
                },
                Err(_) => {
                    assert(cur == pre);
                },
            }
        }
        k = k + 1;
    }
    proof {
        assert(committed@.take(n as int) =~= committed@);
    }
    events
}

} // verus!
