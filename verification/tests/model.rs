use indexed_store::members::{memberships, save_group, GroupStore, NewGroup, NewMembership, NewPerson, Role};
use indexed_store::records::{Group, Membership, MembershipStatus, Person};
use indexed_store::table::Table;

#[test]
fn test_groups() {
    let mut people: Table<Person> = Table::new("people");
    let mut groups: Table<Group> = Table::new("groups");
    let mut memberships_table: Table<Membership> = Table::new("memberships");
    let mut statuses: Table<MembershipStatus> = Table::new("membership_statuses");

    let person_id = "john".to_string();
    let group1_id = "dandelion".to_string();
    let group2_id = "autopia".to_string();
    let membership1_id = "membership1".to_string();
    let membership2_id = "membership2".to_string();

    let person = Person {
        name: "John".to_string(),
        age: 32,
        membership_ids: vec![membership1_id.clone(), membership2_id.clone()],
    };

    let group1 = Group {
        name: "Dandelion".to_string(),
        membership_ids: vec![membership1_id.clone()],
    };

    let group2 = Group {
        name: "Autopia".to_string(),
        membership_ids: vec![membership2_id.clone()],
    };

    let regular = MembershipStatus {
        status: "regular".to_string(),
        membership_ids: vec![membership1_id.clone()],
    };
    let admin = MembershipStatus {
        status: "admin".to_string(),
        membership_ids: vec![membership2_id.clone()],
    };
    statuses.put(b"regular".to_vec(), regular);
    statuses.put(b"admin".to_vec(), admin);

    let membership1 = Membership {
        person_id: person_id.clone(),
        group_id: group1_id.clone(),
        membership_status_id: "regular".to_string(),
    };

    let membership2 = Membership {
        person_id: person_id.clone(),
        group_id: group2_id.clone(),
        membership_status_id: "admin".to_string(),
    };

    people.put(person_id.as_bytes().to_vec(), person.clone());
    let loaded_person = people.get(person_id.as_bytes()).unwrap();
    assert_eq!(&person, loaded_person);

    groups.put(group1_id.as_bytes().to_vec(), group1.clone());
    let loaded_group1 = groups.get(group1_id.as_bytes()).unwrap();
    assert_eq!(&group1, loaded_group1);

    groups.put(group2_id.as_bytes().to_vec(), group2.clone());
    let loaded_group2 = groups.get(group2_id.as_bytes()).unwrap();
    assert_eq!(&group2, loaded_group2);

    memberships_table.put(membership1_id.as_bytes().to_vec(), membership1.clone());
    let loaded_membership1 = memberships_table.get(membership1_id.as_bytes()).unwrap();
    assert_eq!(&membership1, loaded_membership1);

    memberships_table.put(membership2_id.as_bytes().to_vec(), membership2.clone());
    let loaded_membership2 = memberships_table.get(membership2_id.as_bytes()).unwrap();
    assert_eq!(&membership2, loaded_membership2);

    // All the memberships of one person: first through the identifiers the
    // person record carries, then by filtering a full scan.
    let person_memberships: Vec<Membership> = person
        .membership_ids
        .iter()
        .map(|membership_id| memberships_table.get(membership_id.as_bytes()).unwrap().clone())
        .collect();

    let filtered_memberships: Vec<Membership> = memberships_table
        .scan_prefix(b"")
        .iter()
        .map(|key| memberships_table.get(key).unwrap().clone())
        .filter(|membership| membership.person_id == person_id)
        .collect();

    assert_eq!(person_memberships, filtered_memberships);

    // All memberships whose status is admin or superadmin.
    let admin_and_superadmin_memberships: Vec<Membership> = memberships_table
        .scan_prefix(b"")
        .iter()
        .map(|key| memberships_table.get(key).unwrap().clone())
        .filter(|membership| {
            membership.membership_status_id == "admin"
                || membership.membership_status_id == "superadmin"
        })
        .collect();

    assert_eq!(vec![membership2], admin_and_superadmin_memberships);
}

#[test]
fn test_memberships() {
    let mut people: Table<NewPerson> = Table::new("new_people");

    let addr1 = "addr1".to_string();
    let p1_name = "p1";
    let person1 = NewPerson {
        name: p1_name.into(),
        age: 12,
    };

    let addr2 = "addr2".to_string();
    let p2_name = "p2";
    let person2 = NewPerson {
        name: p2_name.into(),
        age: 12,
    };

    let addr3 = "addr3".to_string();
    let p3_name = "p3";
    let person3 = NewPerson {
        name: p3_name.into(),
        age: 12,
    };

    people.put(addr1.as_bytes().to_vec(), person1);
    people.put(addr2.as_bytes().to_vec(), person2);
    people.put(addr3.as_bytes().to_vec(), person3);

    let mut groups = GroupStore::new();
    let g1_name = "g1";
    let group1 = NewGroup {
        name: g1_name.into(),
    };
    let g2_name = "g2";
    let group2 = NewGroup {
        name: g2_name.into(),
    };

    let g1_id = save_group(&mut groups, &group1);
    let g2_id = save_group(&mut groups, &group2);
    assert_eq!(g1_id, 1);
    assert_eq!(g2_id, 2);

    let membership1 = NewMembership {
        person: addr1.clone(),
        group_id: g1_id,
        role: Role::User,
    };
    let mut ms_store = memberships();
    ms_store.save(1, membership1.clone());
    let person_memberships = ms_store.query_by_person(&addr1);
    assert_eq!(person_memberships, vec![(1, membership1)]);

    let membership2 = NewMembership {
        person: addr2.clone(),
        group_id: g1_id,
        role: Role::Admin,
    };
    ms_store.save(2, membership2.clone());
    let person_memberships = ms_store.query_by_person(&addr2);
    assert_eq!(person_memberships, vec![(2, membership2.clone())]);

    let group_memberships = ms_store.query_by_group(g1_id);
    assert_eq!(group_memberships.len(), 2);

    let all_admins = ms_store.query_by_role(Role::Admin);
    assert_eq!(all_admins, vec![(2, membership2)]);
}
