use indexed_store::codec::{compose_entry_key, prefix_with_length, u64_from_be, u64_to_be};
use indexed_store::counter::IdAllocator;
use indexed_store::index::SecondaryIndex;
use indexed_store::members::{
    memberships, next_group_counter, save_group, GroupStore, NewGroup, NewMembership, NewPerson,
    Role,
};
use indexed_store::order::{bytes_eq, lex_lt_bytes, starts_with_bytes};
use indexed_store::records::{can_reset, increment_count, reset_count, State};
use indexed_store::table::Table;
use indexed_store::StoreError;

#[test]
fn u64_big_endian_bytes() {
    assert_eq!(
        u64_to_be(0x0102030405060708),
        vec![1u8, 2, 3, 4, 5, 6, 7, 8]
    );
    assert_eq!(u64_to_be(0), vec![0u8; 8]);
    assert_eq!(u64_to_be(1), vec![0u8, 0, 0, 0, 0, 0, 0, 1]);
    assert_eq!(u64_from_be(&[0, 0, 0, 0, 0, 0, 1, 0]), 256);
    assert_eq!(u64_from_be(&u64_to_be(u64::MAX)), u64::MAX);
}

#[test]
fn length_prefixed_parts() {
    assert_eq!(prefix_with_length(b"ab"), vec![0u8, 2, b'a', b'b']);
    assert_eq!(prefix_with_length(b""), vec![0u8, 0]);
    assert_eq!(
        compose_entry_key(b"a", b"xy"),
        vec![0u8, 1, b'a', 0, 2, b'x', b'y']
    );
}

#[test]
fn byte_order_relations() {
    assert!(lex_lt_bytes(b"", b"a"));
    assert!(lex_lt_bytes(b"a", b"ab"));
    assert!(lex_lt_bytes(b"ab", b"b"));
    assert!(!lex_lt_bytes(b"b", b"ab"));
    assert!(!lex_lt_bytes(b"a", b"a"));
    assert!(bytes_eq(b"abc", b"abc"));
    assert!(!bytes_eq(b"abc", b"abd"));
    assert!(starts_with_bytes(b"abc", b"ab"));
    assert!(!starts_with_bytes(b"ab", b"abc"));
}

#[test]
fn role_discriminants_are_stable() {
    assert_eq!(Role::User.key(), vec![0u8]);
    assert_eq!(Role::Admin.key(), vec![1u8]);
    assert_eq!(Role::SuperAdmin.key(), vec![2u8]);
}

#[test]
fn table_round_trip() {
    let mut t: Table<u32> = Table::new("numbers");
    assert!(t.get(b"k1").is_none());
    t.put(b"k1".to_vec(), 7);
    t.put(b"k2".to_vec(), 8);
    assert_eq!(t.get(b"k1"), Some(&7));
    assert_eq!(t.get(b"k2"), Some(&8));
    t.put(b"k1".to_vec(), 9);
    assert_eq!(t.get(b"k1"), Some(&9));
    assert!(t.delete(b"k1"));
    assert!(!t.delete(b"k1"));
    assert!(t.get(b"k1").is_none());
    assert_eq!(t.get(b"k2"), Some(&8));
}

#[test]
fn table_prefix_scan_is_exact_and_ordered() {
    let mut t: Table<u32> = Table::new("numbers");
    t.put(b"b".to_vec(), 1);
    t.put(b"ab".to_vec(), 2);
    t.put(b"a".to_vec(), 3);
    t.put(b"ac".to_vec(), 4);
    let keys = t.scan_prefix(b"a");
    assert_eq!(keys, vec![b"a".to_vec(), b"ab".to_vec(), b"ac".to_vec()]);
    let all = t.scan_prefix(b"");
    assert_eq!(
        all,
        vec![b"a".to_vec(), b"ab".to_vec(), b"ac".to_vec(), b"b".to_vec()]
    );
    assert_eq!(t.scan_prefix(b"zz"), Vec::<Vec<u8>>::new());
    let descending = t.scan_prefix_desc(b"a");
    assert_eq!(
        descending,
        vec![b"ac".to_vec(), b"ab".to_vec(), b"a".to_vec()]
    );
}

#[test]
fn secondary_index_entries() {
    let mut idx = SecondaryIndex::new("by_colour");
    idx.insert_entry(b"red", b"k1");
    idx.insert_entry(b"red", b"k2");
    idx.insert_entry(b"blue", b"k3");
    assert_eq!(idx.scan_by(b"red"), vec![b"k1".to_vec(), b"k2".to_vec()]);
    assert_eq!(idx.scan_by(b"blue"), vec![b"k3".to_vec()]);
    idx.remove_entry(b"red", b"k1");
    assert_eq!(idx.scan_by(b"red"), vec![b"k2".to_vec()]);
    assert_eq!(idx.scan_by(b"green"), Vec::<Vec<u8>>::new());
}

#[test]
fn id_allocator_is_strictly_increasing() {
    let mut a = IdAllocator::new();
    assert_eq!(a.next_id(), 1);
    assert_eq!(a.next_id(), 2);
    assert_eq!(a.next_id(), 3);
}

#[test]
fn group_counter_and_round_trip() {
    let mut store = GroupStore::new();
    assert_eq!(next_group_counter(&mut store), 1);
    let g = NewGroup {
        name: "g1".to_string(),
    };
    let id = save_group(&mut store, &g);
    assert_eq!(id, 2);
    assert_eq!(store.load(id), Some(&g));
    assert_eq!(store.load(99), None);
}

#[test]
fn membership_round_trip_and_not_found() {
    let mut ms = memberships();
    let m = NewMembership {
        person: "addr1".to_string(),
        group_id: 1,
        role: Role::User,
    };
    ms.save(5, m.clone());
    assert_eq!(ms.load(5), Some(&m));
    assert_eq!(ms.load(6), None);
    assert_eq!(ms.delete(6), Err(StoreError::NotFound));
    assert_eq!(ms.delete(5), Ok(()));
    assert_eq!(ms.load(5), None);
}

#[test]
fn membership_scenario() {
    let mut groups = GroupStore::new();
    let g1 = save_group(
        &mut groups,
        &NewGroup {
            name: "G1".to_string(),
        },
    );
    assert_eq!(g1, 1);

    let mut people: Table<NewPerson> = Table::new("new_people");
    people.put(
        b"addr1".to_vec(),
        NewPerson {
            name: "p1".to_string(),
            age: 30,
        },
    );
    people.put(
        b"addr2".to_vec(),
        NewPerson {
            name: "p2".to_string(),
            age: 31,
        },
    );

    let m1 = NewMembership {
        person: "addr1".to_string(),
        group_id: g1,
        role: Role::User,
    };
    let m2 = NewMembership {
        person: "addr2".to_string(),
        group_id: g1,
        role: Role::Admin,
    };
    let mut ms = memberships();
    ms.save(1, m1.clone());
    ms.save(2, m2.clone());

    assert_eq!(
        ms.query_by_group(g1),
        vec![(1, m1.clone()), (2, m2.clone())]
    );
    assert_eq!(ms.query_by_role(Role::Admin), vec![(2, m2.clone())]);
    assert_eq!(ms.query_by_person("addr1"), vec![(1, m1.clone())]);

    assert_eq!(ms.delete(2), Ok(()));
    assert_eq!(ms.query_by_role(Role::Admin), vec![]);
    assert_eq!(ms.query_by_group(g1), vec![(1, m1.clone())]);
}

#[test]
fn update_moves_index_entries() {
    let mut ms = memberships();
    let old = NewMembership {
        person: "addr1".to_string(),
        group_id: 1,
        role: Role::User,
    };
    ms.save(1, old);
    let new = NewMembership {
        person: "addr1".to_string(),
        group_id: 2,
        role: Role::Admin,
    };
    ms.save(1, new.clone());
    assert_eq!(ms.query_by_role(Role::User), vec![]);
    assert_eq!(ms.query_by_role(Role::Admin), vec![(1, new.clone())]);
    assert_eq!(ms.query_by_group(1), vec![]);
    assert_eq!(ms.query_by_group(2), vec![(1, new)]);
}

#[test]
fn union_query_has_no_duplicates() {
    let mut ms = memberships();
    let m1 = NewMembership {
        person: "a".to_string(),
        group_id: 1,
        role: Role::User,
    };
    let m2 = NewMembership {
        person: "b".to_string(),
        group_id: 1,
        role: Role::Admin,
    };
    let m3 = NewMembership {
        person: "c".to_string(),
        group_id: 1,
        role: Role::SuperAdmin,
    };
    ms.save(1, m1);
    ms.save(2, m2.clone());
    ms.save(3, m3.clone());
    let both = ms.query_any_roles(&vec![Role::Admin, Role::SuperAdmin]);
    assert_eq!(both, vec![(2, m2.clone()), (3, m3.clone())]);
    let admins = ms.query_by_role(Role::Admin);
    let supers = ms.query_by_role(Role::SuperAdmin);
    let mut unioned = admins.clone();
    unioned.extend(supers.clone());
    assert_eq!(both, unioned);
}

#[test]
fn proper_initialization() {
    let state = State {
        count: 17,
        owner: "creator".to_string(),
    };
    assert_eq!(state.count, 17);
    assert_eq!(state.owner, "creator");
}

#[test]
fn increment() {
    let state = State {
        count: 17,
        owner: "creator".to_string(),
    };
    let state = increment_count(state);
    assert_eq!(state.count, 18);
}

#[test]
fn reset() {
    let state = State {
        count: 17,
        owner: "creator".to_string(),
    };
    assert!(!can_reset(&state, "anyone"), "Must return unauthorized error");
    assert!(can_reset(&state, "creator"));
    let state = reset_count(state, 5);
    assert_eq!(state.count, 5);
}
