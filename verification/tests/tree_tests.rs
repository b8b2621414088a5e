//! The node model: builders, identities, and read-only queries.

use x_diff_rs::calculate_hash_table;
use x_diff_rs::tree::{XNodeId, XNodeName, XTree};

fn s(v: &str) -> String {
    v.to_string()
}

fn build_small() -> XTree {
    let mut t = XTree::new(s(""), s("Profile"));
    let customer = t.add_element(0, s(""), s("Customer"));
    t.add_attribute(customer, s(""), s("NameType"), s("Default"));
    let given = t.add_element(customer, s(""), s("GivenName"));
    t.add_text(given, s("George")).unwrap();
    t
}

#[test]
fn root_is_element_zero() {
    let t = build_small();
    let root = t.root();
    assert_eq!(root.id(), XNodeId(0));
    assert!(root.is_element(&t));
    assert!(!root.is_attribute(&t));
    assert!(!root.is_text(&t));
    assert!(root.parent(&t).is_none());
    assert!(root.value(&t).is_none());
}

#[test]
fn children_list_real_children_before_attributes() {
    let mut t = XTree::new(s(""), s("StreetNmbr"));
    // The attribute arrives first, yet the child list puts real children
    // ahead of attribute pseudo-children.
    let pobox = t.add_attribute(0, s(""), s("POBox"), s("4321-01"));
    let text = t.add_text(0, s("1200 Yakima St")).unwrap();
    let kids = t.root().children(&t);
    assert_eq!(kids.len(), 2);
    assert_eq!(kids[0].id(), XNodeId(text));
    assert_eq!(kids[1].id(), XNodeId(pobox));
    assert!(kids[0].is_text(&t));
    assert!(kids[1].is_attribute(&t));
}

#[test]
fn attribute_and_text_have_no_children() {
    let mut t = XTree::new(s(""), s("StreetNmbr"));
    let pobox = t.add_attribute(0, s(""), s("POBox"), s("4321-01"));
    let text = t.add_text(0, s("1200 Yakima St")).unwrap();
    let attr = t.get_node(XNodeId(pobox)).unwrap();
    let txt = t.get_node(XNodeId(text)).unwrap();
    assert!(attr.children(&t).is_empty());
    assert!(txt.children(&t).is_empty());
}

#[test]
fn parent_links() {
    let mut t = XTree::new(s(""), s("Profile"));
    let customer = t.add_element(0, s(""), s("Customer"));
    let name_type = t.add_attribute(customer, s(""), s("NameType"), s("Default"));
    let attr = t.get_node(XNodeId(name_type)).unwrap();
    let owner = attr.parent(&t).unwrap();
    assert_eq!(owner.id(), XNodeId(customer));
    let grandparent = owner.parent(&t).unwrap();
    assert_eq!(grandparent.id(), XNodeId(0));
}

#[test]
fn names_and_values() {
    let mut t = XTree::new(s(""), s("Profile"));
    let name_type = t.add_attribute(0, s(""), s("NameType"), s("Default"));
    let text = t.add_text(0, s("  hello  ")).unwrap();

    match t.root().name(&t) {
        XNodeName::TagName { namespace, name } => {
            assert_eq!(namespace, "");
            assert_eq!(name, "Profile");
        }
        _ => panic!("expected a tag name"),
    }
    let attr = t.get_node(XNodeId(name_type)).unwrap();
    match attr.name(&t) {
        XNodeName::AttributeName { namespace, name } => {
            assert_eq!(namespace, "");
            assert_eq!(name, "NameType");
        }
        _ => panic!("expected an attribute name"),
    }
    assert_eq!(attr.value(&t).unwrap(), "Default");
    let txt = t.get_node(XNodeId(text)).unwrap();
    assert!(matches!(txt.name(&t), XNodeName::Text));
    // The stored value stays raw, untrimmed.
    assert_eq!(txt.value(&t).unwrap(), "  hello  ");
}

#[test]
fn signatures() {
    let mut t = XTree::new(s("urn:x"), s("Profile"));
    let name_type = t.add_attribute(0, s(""), s("NameType"), s("Default"));
    let text = t.add_text(0, s("hello")).unwrap();
    assert_eq!(t.root().signature(&t), "urn:x:Profile");
    assert_eq!(t.get_node(XNodeId(name_type)).unwrap().signature(&t), "NameType");
    assert_eq!(t.get_node(XNodeId(text)).unwrap().signature(&t), "text");
}

#[test]
fn whitespace_only_text_is_not_materialized() {
    let mut t = XTree::new(s(""), s("Profile"));
    let before = t.node_count();
    assert!(t.add_text(0, s("   \n\t ")).is_none());
    assert!(t.add_text(0, s("")).is_none());
    assert_eq!(t.node_count(), before);
    assert!(t.root().children(&t).is_empty());
}

#[test]
fn get_node_rejects_foreign_identities() {
    let t = build_small();
    assert!(t.get_node(XNodeId(999)).is_none());
    let last = t.node_count() - 1;
    assert!(t.get_node(XNodeId(last)).is_some());
}

#[test]
fn same_content_same_root_digest() {
    let t1 = build_small();
    let t2 = build_small();
    let ht1 = calculate_hash_table(&t1);
    let ht2 = calculate_hash_table(&t2);
    assert_eq!(ht1.len(), t1.node_count());
    assert!(ht1[0].equals(&ht2[0]));
}

#[test]
fn different_content_different_root_digest() {
    let t1 = build_small();
    let mut t2 = XTree::new(s(""), s("Profile"));
    let customer = t2.add_element(0, s(""), s("Customer"));
    t2.add_attribute(customer, s(""), s("NameType"), s("Default"));
    let given = t2.add_element(customer, s(""), s("GivenName"));
    t2.add_text(given, s("Fred")).unwrap();
    let ht1 = calculate_hash_table(&t1);
    let ht2 = calculate_hash_table(&t2);
    assert!(!ht1[0].equals(&ht2[0]));
}

#[test]
fn sibling_order_does_not_change_digests() {
    let mut t1 = XTree::new(s(""), s("Customer"));
    let a1 = t1.add_element(0, s(""), s("GivenName"));
    t1.add_text(a1, s("George")).unwrap();
    let b1 = t1.add_element(0, s(""), s("SurName"));
    t1.add_text(b1, s("Smith")).unwrap();

    let mut t2 = XTree::new(s(""), s("Customer"));
    let b2 = t2.add_element(0, s(""), s("SurName"));
    t2.add_text(b2, s("Smith")).unwrap();
    let a2 = t2.add_element(0, s(""), s("GivenName"));
    t2.add_text(a2, s("George")).unwrap();

    let ht1 = calculate_hash_table(&t1);
    let ht2 = calculate_hash_table(&t2);
    assert!(ht1[0].equals(&ht2[0]));
}

#[test]
fn digest_combiner_is_commutative_on_samples() {
    let t = build_small();
    let a = t.shallow(0);
    let b = t.shallow(1);
    let ab = a.duplicate().concat(&b);
    let ba = b.duplicate().concat(&a);
    assert!(ab.equals(&ba));
    assert!(!a.equals(&b));
    assert!(a.equals(&a.duplicate()));
}
