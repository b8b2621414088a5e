//! End-to-end behavior of the diff engine on concrete documents.

use x_diff_rs::diff;
use x_diff_rs::tree::{XNodeId, XTree};
use x_diff_rs::Edit;

fn s(v: &str) -> String {
    v.to_string()
}

/// The address block: ids are (root, street, pobox, street_text, bldg,
/// city, city_text, state, postal, state_text, country, country_text).
struct AddressIds {
    street_pobox: usize,
    city_text: usize,
}

fn build_address(pobox: &str, city: &str) -> (XTree, AddressIds) {
    let mut t = XTree::new(s(""), s("Address"));
    let street = t.add_element(0, s(""), s("StreetNmbr"));
    let street_pobox = t.add_attribute(street, s(""), s("POBox"), s(pobox));
    t.add_text(street, s("1200 Yakima St")).unwrap();
    let bldg = t.add_element(0, s(""), s("BldgRoom"));
    t.add_text(bldg, s("Suite 800")).unwrap();
    let city_el = t.add_element(0, s(""), s("CityName"));
    let city_text = t.add_text(city_el, s(city)).unwrap();
    let state = t.add_element(0, s(""), s("StateProv"));
    t.add_attribute(state, s(""), s("PostalCode"), s("98108"));
    t.add_text(state, s("WA")).unwrap();
    let country = t.add_element(0, s(""), s("CountryName"));
    t.add_text(country, s("USA")).unwrap();
    (t, AddressIds { street_pobox, city_text })
}

#[test]
fn identity_diff_is_empty() {
    let (t, _) = build_address("4321-01", "Seattle");
    let d = diff(&t, &t);
    assert!(d.is_empty());
}

#[test]
fn identical_documents_diff_is_empty() {
    let (t1, _) = build_address("4321-01", "Seattle");
    let (t2, _) = build_address("4321-01", "Seattle");
    let d = diff(&t1, &t2);
    assert!(d.is_empty());
}

#[test]
fn repeated_calls_agree() {
    let (t1, _) = build_address("4321-01", "Seattle");
    let (t2, _) = build_address("1234-01", "Paris");
    let d1 = diff(&t1, &t2);
    let d2 = diff(&t1, &t2);
    assert_eq!(d1, d2);
}

#[test]
fn root_mismatch_is_exactly_replace_root() {
    let t1 = XTree::new(s(""), s("Profile"));
    let t2 = XTree::new(s(""), s("Customer"));
    let d = diff(&t1, &t2);
    assert_eq!(d, vec![Edit::ReplaceRoot]);
}

#[test]
fn attribute_change_yields_one_update() {
    let (t1, ids1) = build_address("4321-01", "Seattle");
    let (t2, _) = build_address("1234-01", "Seattle");
    let d = diff(&t1, &t2);
    assert_eq!(
        d,
        vec![Edit::Update {
            node_id: XNodeId(ids1.street_pobox),
            old_value: s("4321-01"),
            new_value: s("1234-01"),
        }]
    );
}

#[test]
fn text_change_yields_one_update() {
    let (t1, ids1) = build_address("4321-01", "Seattle");
    let (t2, _) = build_address("4321-01", "Paris");
    let d = diff(&t1, &t2);
    assert_eq!(
        d,
        vec![Edit::Update {
            node_id: XNodeId(ids1.city_text),
            old_value: s("Seattle"),
            new_value: s("Paris"),
        }]
    );
}

#[test]
fn attribute_and_text_change_yield_two_updates() {
    let (t1, ids1) = build_address("4321-01", "Seattle");
    let (t2, _) = build_address("1234-01", "Paris");
    let d = diff(&t1, &t2);
    assert_eq!(d.len(), 2);
    assert!(d.contains(&Edit::Update {
        node_id: XNodeId(ids1.street_pobox),
        old_value: s("4321-01"),
        new_value: s("1234-01"),
    }));
    assert!(d.contains(&Edit::Update {
        node_id: XNodeId(ids1.city_text),
        old_value: s("Seattle"),
        new_value: s("Paris"),
    }));
    // No insert or delete for the unchanged siblings.
    for e in &d {
        assert!(matches!(e, Edit::Update { .. }));
    }
}

fn add_person(t: &mut XTree, customer: usize, name: &str) {
    let person = t.add_element(customer, s(""), s("PersonName"));
    let given = t.add_element(person, s(""), s("GivenName"));
    t.add_text(given, s(name)).unwrap();
}

#[test]
fn added_sibling_yields_one_insert() {
    let mut t1 = XTree::new(s(""), s("Profile"));
    let customer1 = t1.add_element(0, s(""), s("Customer"));
    add_person(&mut t1, customer1, "George");

    let mut t2 = XTree::new(s(""), s("Profile"));
    let customer2 = t2.add_element(0, s(""), s("Customer"));
    add_person(&mut t2, customer2, "George");
    let status = t2.add_element(customer2, s(""), s("Status"));
    t2.add_text(status, s("Single")).unwrap();

    let d = diff(&t1, &t2);
    assert_eq!(d.len(), 1);
    match &d[0] {
        Edit::Insert { child_node, to } => {
            assert_eq!(*to, XNodeId(customer1));
            let inserted = t2.get_node(*child_node).unwrap();
            assert_eq!(inserted.signature(&t2), ":Status");
        }
        other => panic!("expected an insert, got {:?}", other),
    }
}

#[test]
fn removed_sibling_yields_one_delete() {
    let mut t1 = XTree::new(s(""), s("Profile"));
    let customer1 = t1.add_element(0, s(""), s("Customer"));
    add_person(&mut t1, customer1, "George");
    let status = t1.add_element(customer1, s(""), s("Status"));
    t1.add_text(status, s("Single")).unwrap();

    let mut t2 = XTree::new(s(""), s("Profile"));
    let customer2 = t2.add_element(0, s(""), s("Customer"));
    add_person(&mut t2, customer2, "George");

    let d = diff(&t1, &t2);
    assert_eq!(d, vec![Edit::Delete(XNodeId(status))]);
}

fn build_customer_two_addresses(first_city: &str, second_city: &str, swapped: bool) -> XTree {
    let mut t = XTree::new(s(""), s("Customer"));
    let cities = if swapped {
        [second_city, first_city]
    } else {
        [first_city, second_city]
    };
    for city in cities {
        let addr = t.add_element(0, s(""), s("Address"));
        let street = t.add_element(addr, s(""), s("StreetNmbr"));
        t.add_attribute(street, s(""), s("POBox"), s("4321-01"));
        t.add_text(street, s("1200 Yakima St")).unwrap();
        let city_el = t.add_element(addr, s(""), s("CityName"));
        t.add_text(city_el, s(city)).unwrap();
    }
    t
}

#[test]
fn reordered_siblings_diff_is_empty() {
    let t1 = build_customer_two_addresses("Seattle", "Portland", false);
    let t2 = build_customer_two_addresses("Seattle", "Portland", true);
    let d = diff(&t1, &t2);
    assert!(d.is_empty());
}

#[test]
fn reorder_with_one_change_yields_only_the_update() {
    let t1 = build_customer_two_addresses("Seattle", "Portland", false);
    let t2 = build_customer_two_addresses("Seattle", "Paris", true);
    let d = diff(&t1, &t2);
    assert_eq!(d.len(), 1);
    match &d[0] {
        Edit::Update { old_value, new_value, .. } => {
            assert_eq!(old_value, "Portland");
            assert_eq!(new_value, "Paris");
        }
        other => panic!("expected an update, got {:?}", other),
    }
}

#[test]
fn reordering_at_every_depth_diff_is_empty() {
    // Permute the address blocks and, inside each, the order in which the
    // attribute and the children arrive: content decides, order never.
    let mut t1 = XTree::new(s(""), s("Customer"));
    let a1 = t1.add_element(0, s(""), s("Address"));
    let s1 = t1.add_element(a1, s(""), s("StreetNmbr"));
    t1.add_attribute(s1, s(""), s("POBox"), s("4321-01"));
    t1.add_text(s1, s("1200 Yakima St")).unwrap();
    let c1 = t1.add_element(a1, s(""), s("CityName"));
    t1.add_text(c1, s("Seattle")).unwrap();
    let b1 = t1.add_element(0, s(""), s("Address"));
    let u1 = t1.add_element(b1, s(""), s("CityName"));
    t1.add_text(u1, s("Portland")).unwrap();

    let mut t2 = XTree::new(s(""), s("Customer"));
    let b2 = t2.add_element(0, s(""), s("Address"));
    let u2 = t2.add_element(b2, s(""), s("CityName"));
    t2.add_text(u2, s("Portland")).unwrap();
    let a2 = t2.add_element(0, s(""), s("Address"));
    let c2 = t2.add_element(a2, s(""), s("CityName"));
    t2.add_text(c2, s("Seattle")).unwrap();
    let s2 = t2.add_element(a2, s(""), s("StreetNmbr"));
    t2.add_text(s2, s("1200 Yakima St")).unwrap();
    t2.add_attribute(s2, s(""), s("POBox"), s("4321-01"));

    assert!(diff(&t1, &t2).is_empty());
    assert!(diff(&t2, &t1).is_empty());
}

#[test]
fn duplicate_children_collapse_to_their_last_twin() {
    // Two content-identical siblings share one fingerprint; the last one
    // in document order stands for the group, so removing the pair is
    // reported as one delete of that representative.
    let mut t1 = XTree::new(s(""), s("Customer"));
    let first = t1.add_element(0, s(""), s("Status"));
    t1.add_text(first, s("Single")).unwrap();
    let second = t1.add_element(0, s(""), s("Status"));
    t1.add_text(second, s("Single")).unwrap();
    let keep = t1.add_element(0, s(""), s("CityName"));
    t1.add_text(keep, s("Seattle")).unwrap();

    let mut t2 = XTree::new(s(""), s("Customer"));
    let keep2 = t2.add_element(0, s(""), s("CityName"));
    t2.add_text(keep2, s("Seattle")).unwrap();

    let d = diff(&t1, &t2);
    assert_eq!(d, vec![Edit::Delete(XNodeId(second))]);
}

#[test]
fn text_is_trimmed_before_hashing() {
    let mut t1 = XTree::new(s(""), s("CityName"));
    t1.add_text(0, s("  Seattle  ")).unwrap();
    let mut t2 = XTree::new(s(""), s("CityName"));
    t2.add_text(0, s("Seattle")).unwrap();
    let d = diff(&t1, &t2);
    assert!(d.is_empty());
}

#[test]
fn attribute_values_are_hashed_raw_but_reported_trimmed() {
    let mut t1 = XTree::new(s(""), s("StreetNmbr"));
    let pobox = t1.add_attribute(0, s(""), s("POBox"), s("  4321-01  "));
    let mut t2 = XTree::new(s(""), s("StreetNmbr"));
    t2.add_attribute(0, s(""), s("POBox"), s("4321-01"));
    // The raw values differ, so the attribute is reported changed; the
    // reported values are the trimmed ones.
    let d = diff(&t1, &t2);
    assert_eq!(
        d,
        vec![Edit::Update {
            node_id: XNodeId(pobox),
            old_value: s("4321-01"),
            new_value: s("4321-01"),
        }]
    );
}

#[test]
fn changed_values_yield_different_digests() {
    let mut t1 = XTree::new(s(""), s("GivenName"));
    t1.add_text(0, s("George")).unwrap();
    let mut t2 = XTree::new(s(""), s("GivenName"));
    t2.add_text(0, s("Fred")).unwrap();
    let d = diff(&t1, &t2);
    assert_eq!(d.len(), 1);
    match &d[0] {
        Edit::Update { old_value, new_value, .. } => {
            assert_eq!(old_value, "George");
            assert_eq!(new_value, "Fred");
        }
        other => panic!("expected an update, got {:?}", other),
    }
}
