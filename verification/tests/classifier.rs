use profile_directory::signals::{post_commit, signal_action, Signal};
use profile_directory::store::Store;
use profile_directory::types::{Address, EntryTypes, Error, LinkTypes, Profile, StoredEntry};

fn profile(nickname: &[u8]) -> Profile {
    Profile { nickname: nickname.to_vec(), fields: Vec::new() }
}

fn app_entry(nickname: &[u8]) -> StoredEntry {
    StoredEntry::App(EntryTypes::Profile(profile(nickname)))
}

#[test]
fn recognized_create_link_emits_link_created() {
    let mut store = Store::new();
    let a = store.create_edge(Address::Agent(1), Address::Rec(0), LinkTypes::AgentToProfile, Vec::new());
    let events = post_commit(&store, &vec![a]);
    assert_eq!(events.len(), 1);
    match &events[0] {
        Signal::LinkCreated { action, link_type } => {
            assert_eq!(*action, a);
            assert_eq!(*link_type, LinkTypes::AgentToProfile);
        },
        _ => panic!("expected a LinkCreated event"),
    }
}

#[test]
fn unrecognized_create_link_emits_nothing() {
    let mut store = Store::new();
    let a = store.create_edge(Address::Agent(1), Address::Agent(2), LinkTypes::Unrecognized, Vec::new());
    let events = post_commit(&store, &vec![a]);
    assert_eq!(events.len(), 0);
}

#[test]
fn delete_link_emits_link_deleted_with_the_original() {
    let mut store = Store::new();
    let c = store.create_edge(Address::Agent(1), Address::Rec(0), LinkTypes::PathToAgent, Vec::new());
    let d = store.delete_edge(c);
    let events = post_commit(&store, &vec![d]);
    assert_eq!(events.len(), 1);
    match &events[0] {
        Signal::LinkDeleted { action, create_link_action, link_type } => {
            assert_eq!(*action, d);
            assert_eq!(*create_link_action, c);
            assert_eq!(*link_type, LinkTypes::PathToAgent);
        },
        _ => panic!("expected a LinkDeleted event"),
    }
}

#[test]
fn dangling_delete_link_is_an_error_for_that_record_alone() {
    let mut store = Store::new();
    let dangling = store.delete_edge(99);
    let entry = store.write_entry(app_entry(b"carol"));
    assert!(matches!(signal_action(&store, dangling), Err(Error::DanglingDeleteLink)));
    // The batch still completes: the bad record is skipped, the rest emit.
    let events = post_commit(&store, &vec![dangling, entry]);
    assert_eq!(events.len(), 1);
    match &events[0] {
        Signal::EntryCreated { action, app_entry: EntryTypes::Profile(p) } => {
            assert_eq!(*action, entry);
            assert_eq!(p.nickname, b"carol".to_vec());
        },
        _ => panic!("expected an EntryCreated event"),
    }
}

#[test]
fn delete_link_of_a_non_link_record_is_malformed() {
    let mut store = Store::new();
    let e = store.write_entry(app_entry(b"carol"));
    let d = store.delete_edge(e);
    assert!(matches!(signal_action(&store, d), Err(Error::MalformedChain)));
    assert_eq!(post_commit(&store, &vec![d]).len(), 0);
}

#[test]
fn create_of_foreign_entry_emits_nothing() {
    let mut store = Store::new();
    let a = store.write_entry(StoredEntry::Foreign);
    assert_eq!(post_commit(&store, &vec![a]).len(), 0);
}

#[test]
fn update_emits_both_entries() {
    let mut store = Store::new();
    let root = store.write_entry(app_entry(b"carol"));
    let upd = store.write_update(root, app_entry(b"carin"));
    let events = post_commit(&store, &vec![upd]);
    assert_eq!(events.len(), 1);
    match &events[0] {
        Signal::EntryUpdated {
            action,
            app_entry: EntryTypes::Profile(p),
            original_app_entry: EntryTypes::Profile(q),
        } => {
            assert_eq!(*action, upd);
            assert_eq!(p.nickname, b"carin".to_vec());
            assert_eq!(q.nickname, b"carol".to_vec());
        },
        _ => panic!("expected an EntryUpdated event"),
    }
}

#[test]
fn update_of_foreign_original_is_skipped_silently() {
    let mut store = Store::new();
    let root = store.write_entry(StoredEntry::Foreign);
    let upd = store.write_update(root, app_entry(b"carol"));
    assert_eq!(post_commit(&store, &vec![upd]).len(), 0);
}

#[test]
fn delete_emits_the_shadowed_entry() {
    let mut store = Store::new();
    let root = store.write_entry(app_entry(b"carol"));
    let del = store.write_delete(root);
    let events = post_commit(&store, &vec![del]);
    assert_eq!(events.len(), 1);
    match &events[0] {
        Signal::EntryDeleted { action, original_app_entry: EntryTypes::Profile(p) } => {
            assert_eq!(*action, del);
            assert_eq!(p.nickname, b"carol".to_vec());
        },
        _ => panic!("expected an EntryDeleted event"),
    }
}

#[test]
fn actions_outside_the_domain_emit_nothing() {
    let mut store = Store::new();
    let a = store.write_other();
    assert_eq!(post_commit(&store, &vec![a]).len(), 0);
}

#[test]
fn a_batch_keeps_commit_order() {
    let mut store = Store::new();
    let e1 = store.write_entry(app_entry(b"carol"));
    let skipped = store.write_other();
    let e2 = store.write_entry(app_entry(b"carla"));
    let events = post_commit(&store, &vec![e1, skipped, e2]);
    assert_eq!(events.len(), 2);
    match (&events[0], &events[1]) {
        (
            Signal::EntryCreated { action: a1, .. },
            Signal::EntryCreated { action: a2, .. },
        ) => {
            assert_eq!(*a1, e1);
            assert_eq!(*a2, e2);
        },
        _ => panic!("expected two EntryCreated events in commit order"),
    }
}
