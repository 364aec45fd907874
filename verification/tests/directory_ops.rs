use profile_directory::directory::{
    create_profile, get_agents_with_profile, get_profile, search_agents, update_profile,
};
use profile_directory::index::{bucket_key_of, lowercase, prefix_path};
use profile_directory::resolver::get_latest;
use profile_directory::store::Store;
use profile_directory::types::{Address, EntryTypes, Error, LinkTypes, Profile, StoredEntry};

fn profile(nickname: &[u8], fields: &[u8]) -> Profile {
    Profile { nickname: nickname.to_vec(), fields: fields.to_vec() }
}

fn nickname_at(store: &Store, addr: usize) -> Vec<u8> {
    match store.read(addr) {
        Some(rec) => match &rec.entry {
            Some(StoredEntry::App(EntryTypes::Profile(p))) => p.nickname.clone(),
            _ => panic!("record {} carries no profile entry", addr),
        },
        None => panic!("address {} does not resolve", addr),
    }
}

#[test]
fn bucket_key_is_case_insensitive_and_short() {
    let upper = bucket_key_of(&b"Alice".to_vec());
    let lower = bucket_key_of(&lowercase(&b"Alice".to_vec()));
    assert_eq!(upper, b"ali".to_vec());
    assert_eq!(upper, lower);
    assert!(upper.len() <= 3);
    assert_eq!(bucket_key_of(&b"Ab".to_vec()), b"ab".to_vec());
    assert_eq!(bucket_key_of(&b"".to_vec()), b"".to_vec());
}

#[test]
fn prefix_path_is_deterministic() {
    let a = prefix_path(&b"Carol".to_vec());
    let b = prefix_path(&b"caroline".to_vec());
    match (a, b) {
        (Address::Index(x), Address::Index(y)) => {
            assert_eq!(x, b"car".to_vec());
            assert_eq!(x, y);
        },
        _ => panic!("prefix_path did not derive index addresses"),
    }
}

#[test]
fn register_then_get_returns_profile() {
    let mut store = Store::new();
    let ah = create_profile(&mut store, 1, profile(b"carol", b"likes chess")).unwrap();
    let got = get_profile(&store, 1).unwrap().expect("profile should be registered");
    assert_eq!(got, ah);
    assert_eq!(nickname_at(&store, got), b"carol".to_vec());
}

#[test]
fn register_twice_fails_with_already_registered() {
    let mut store = Store::new();
    create_profile(&mut store, 1, profile(b"carol", b"")).unwrap();
    let len_before = store.len();
    let second = create_profile(&mut store, 1, profile(b"carole", b""));
    assert_eq!(second, Err(Error::AlreadyRegistered));
    assert_eq!(store.len(), len_before);
}

#[test]
fn rename_moves_the_search_bucket() {
    let mut store = Store::new();
    create_profile(&mut store, 7, profile(b"Alice", b"")).unwrap();
    assert_eq!(search_agents(&store, &b"ali".to_vec()).unwrap(), vec![7]);
    update_profile(&mut store, 7, profile(b"Bob", b"")).unwrap();
    assert_eq!(search_agents(&store, &b"ali".to_vec()).unwrap(), Vec::<u64>::new());
    assert_eq!(search_agents(&store, &b"bob".to_vec()).unwrap(), vec![7]);
}

#[test]
fn update_with_unchanged_nickname_leaves_the_index_alone() {
    let mut store = Store::new();
    create_profile(&mut store, 3, profile(b"carol", b"first")).unwrap();
    let len_before = store.len();
    let ah = update_profile(&mut store, 3, profile(b"carol", b"second")).unwrap();
    // Exactly the update record was appended: no duplicate edges.
    assert_eq!(store.len(), len_before + 1);
    assert_eq!(search_agents(&store, &b"car".to_vec()).unwrap(), vec![3]);
    let got = get_profile(&store, 3).unwrap().unwrap();
    assert_eq!(got, ah);
}

#[test]
fn latest_version_resolves_to_the_final_update() {
    let mut store = Store::new();
    let root = store.write_entry(StoredEntry::App(EntryTypes::Profile(profile(b"carol", b"1"))));
    let mid = store.write_update(root, StoredEntry::App(EntryTypes::Profile(profile(b"carol", b"2"))));
    let last = store.write_update(mid, StoredEntry::App(EntryTypes::Profile(profile(b"carol", b"3"))));
    assert_eq!(get_latest(&store, root), Ok(last));
    assert_eq!(get_latest(&store, mid), Ok(last));
    assert_eq!(get_latest(&store, last), Ok(last));
}

#[test]
fn latest_version_follows_the_most_recent_of_concurrent_updates() {
    let mut store = Store::new();
    let root = store.write_entry(StoredEntry::App(EntryTypes::Profile(profile(b"carol", b"1"))));
    store.write_update(root, StoredEntry::App(EntryTypes::Profile(profile(b"carol", b"2"))));
    let newer = store.write_update(root, StoredEntry::App(EntryTypes::Profile(profile(b"carol", b"3"))));
    assert_eq!(get_latest(&store, root), Ok(newer));
}

#[test]
fn latest_version_of_unresolvable_address_is_malformed() {
    let store = Store::new();
    assert_eq!(get_latest(&store, 0), Err(Error::MalformedChain));
}

#[test]
fn short_prefixes_are_rejected_before_any_store_access() {
    let store = Store::new();
    assert_eq!(search_agents(&store, &b"".to_vec()), Err(Error::InvalidPrefix));
    assert_eq!(search_agents(&store, &b"a".to_vec()), Err(Error::InvalidPrefix));
    assert_eq!(search_agents(&store, &b"ab".to_vec()), Err(Error::InvalidPrefix));
    assert!(search_agents(&store, &b"abc".to_vec()).is_ok());
}

#[test]
fn carol_alone_is_found_everywhere() {
    let mut store = Store::new();
    let k1: u64 = 11;
    create_profile(&mut store, k1, profile(b"carol", b"")).unwrap();
    let got = get_profile(&store, k1).unwrap().unwrap();
    assert_eq!(nickname_at(&store, got), b"carol".to_vec());
    assert_eq!(search_agents(&store, &b"car".to_vec()).unwrap(), vec![k1]);
    assert_eq!(get_agents_with_profile(&store), vec![k1]);
}

#[test]
fn carol_and_carla_share_a_bucket() {
    let mut store = Store::new();
    let k1: u64 = 11;
    let k2: u64 = 22;
    create_profile(&mut store, k1, profile(b"carol", b"")).unwrap();
    create_profile(&mut store, k2, profile(b"carla", b"")).unwrap();
    let hits = search_agents(&store, &b"car".to_vec()).unwrap();
    assert_eq!(hits.len(), 2);
    assert!(hits.contains(&k1));
    assert!(hits.contains(&k2));
    let all = get_agents_with_profile(&store);
    assert_eq!(all.len(), 2);
    assert!(all.contains(&k1));
    assert!(all.contains(&k2));
}

#[test]
fn search_is_case_insensitive_in_both_directions() {
    let mut store = Store::new();
    create_profile(&mut store, 5, profile(b"CaRoL", b"")).unwrap();
    assert_eq!(search_agents(&store, &b"CAR".to_vec()).unwrap(), vec![5]);
    assert_eq!(search_agents(&store, &b"caro".to_vec()).unwrap(), vec![5]);
    assert_eq!(search_agents(&store, &b"carx".to_vec()).unwrap(), Vec::<u64>::new());
}

#[test]
fn update_of_unregistered_identity_fails() {
    let mut store = Store::new();
    let r = update_profile(&mut store, 9, profile(b"carol", b""));
    assert_eq!(r, Err(Error::NotRegistered));
}

#[test]
fn get_of_absent_identity_is_none() {
    let store = Store::new();
    assert_eq!(get_profile(&store, 4), Ok(None));
}

#[test]
fn profile_edge_with_bad_target_is_malformed() {
    let mut store = Store::new();
    store.create_edge(Address::Agent(5), Address::Agent(5), LinkTypes::AgentToProfile, Vec::new());
    assert_eq!(get_profile(&store, 5), Err(Error::MalformedChain));
}

#[test]
fn update_then_get_returns_the_new_profile() {
    let mut store = Store::new();
    create_profile(&mut store, 2, profile(b"carol", b"old")).unwrap();
    update_profile(&mut store, 2, profile(b"Carin", b"new")).unwrap();
    let got = get_profile(&store, 2).unwrap().unwrap();
    assert_eq!(nickname_at(&store, got), b"Carin".to_vec());
    assert_eq!(search_agents(&store, &b"cari".to_vec()).unwrap(), vec![2]);
}

#[test]
fn search_returns_each_identity_once_despite_duplicate_edges() {
    let mut store = Store::new();
    // Two concurrent replicas may leave duplicate live edges for one
    // identity; the search still reports the identity once.
    store.create_edge(
        Address::Index(b"car".to_vec()),
        Address::Agent(5),
        LinkTypes::PathToAgent,
        b"carol".to_vec(),
    );
    store.create_edge(
        Address::Index(b"car".to_vec()),
        Address::Agent(5),
        LinkTypes::PathToAgent,
        b"carol".to_vec(),
    );
    assert_eq!(search_agents(&store, &b"car".to_vec()).unwrap(), vec![5]);
}

#[test]
fn enumeration_follows_a_rename() {
    let mut store = Store::new();
    create_profile(&mut store, 7, profile(b"Alice", b"")).unwrap();
    update_profile(&mut store, 7, profile(b"Bob", b"")).unwrap();
    // The old bucket node still exists but holds no live edge; the agent is
    // enumerated exactly once, through the new bucket.
    assert_eq!(get_agents_with_profile(&store), vec![7]);
}
