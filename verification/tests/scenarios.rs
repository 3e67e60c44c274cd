// End-to-end walks through the taxonomy: ordering of children, cycle
// rejection, and shared nodes that survive the removal of one parent.

use kodiak_taxonomy::{Edge, Identity, Taxonomy, TaxonomyError};

#[derive(Clone, Debug, PartialEq)]
pub struct Item {
    name: String,
}

impl Item {
    pub fn new(name: &str) -> Item {
        Item { name: name.to_string() }
    }
}

impl Identity for Item {
    /// The identifier as a mathematical value exists only for the
    /// verifier; it is never executed.
    fn id_spec(&self) -> vstd::seq::Seq<char> {
        unreachable!()
    }

    fn id(&self) -> String {
        self.name.clone()
    }
}

fn id_of(name: &str) -> String {
    name.to_string()
}

/// A child attached at position zero is visited before its older sibling:
/// the pre-order walk gives the parent first, then the children in stored
/// order.
#[test]
fn insert_at_front_changes_walk_order() {
    let mut tax: Taxonomy<Item> = Taxonomy::new();
    assert!(tax.add(None, Item::new("A")).is_ok());
    assert!(tax.add(Some(id_of("A")), Item::new("B")).is_ok());
    assert!(tax.add(None, Item::new("C")).is_ok());
    // Make C the first child of A.
    assert!(tax.move_to(id_of("C"), None, Some(id_of("A")), 0).is_ok());

    let mut order: Vec<String> = Vec::new();
    while let Some(item) = tax.traverse() {
        order.push(item.name.clone());
    }
    assert_eq!(order, vec!["A".to_string(), "C".to_string(), "B".to_string()]);
}

/// Attaching a node under its own descendant is refused with
/// `LoopDetected`, and both nodes keep their prior relationships.
#[test]
fn attach_under_descendant_is_rejected() {
    let mut tax: Taxonomy<Item> = Taxonomy::new();
    assert!(tax.add(None, Item::new("X")).is_ok());
    assert!(tax.add(None, Item::new("Y")).is_ok());
    assert!(tax.append(Some(id_of("X")), id_of("Y")).is_ok());

    let result = tax.append(Some(id_of("Y")), id_of("X"));
    assert_eq!(result.err(), Some(TaxonomyError::LoopDetected(id_of("X"))));

    // Both keep their prior relationships.
    assert!(tax.get(id_of("X")).is_some());
    assert!(tax.get(id_of("Y")).is_some());
    assert_eq!(tax.count_roots(), 2);
    let mut order: Vec<String> = Vec::new();
    while let Some(item) = tax.traverse() {
        order.push(item.name.clone());
    }
    assert_eq!(
        order,
        vec!["X".to_string(), "Y".to_string(), "Y".to_string()],
    );
}

/// A node under two parents survives the removal of one edge and stays
/// retrievable; removing the second edge removes the node itself.
#[test]
fn shared_node_survives_first_edge_removal() {
    let mut tax: Taxonomy<Item> = Taxonomy::new();
    assert!(tax.add(None, Item::new("first")).is_ok());
    assert!(tax.add(None, Item::new("second")).is_ok());
    assert!(tax.add(Some(id_of("first")), Item::new("D")).is_ok());
    assert!(tax.append(Some(id_of("second")), id_of("D")).is_ok());

    assert!(tax.remove_from(Edge::new(Some(id_of("first")), id_of("D"))).is_ok());
    assert!(tax.get(id_of("D")).is_some());

    // Still a child of the second parent: it is visited below it.
    let mut order: Vec<String> = Vec::new();
    while let Some(item) = tax.traverse() {
        order.push(item.name.clone());
    }
    assert_eq!(
        order,
        vec!["first".to_string(), "second".to_string(), "D".to_string()],
    );

    assert!(tax.remove_from(Edge::new(Some(id_of("second")), id_of("D"))).is_ok());
    assert!(tax.get(id_of("D")).is_none());
}

/// An empty taxonomy has nothing to visit; asking again changes nothing.
#[test]
fn traverse_of_empty_taxonomy_ends_at_once() {
    let mut tax: Taxonomy<Item> = Taxonomy::new();
    assert!(tax.traverse().is_none());
    assert!(tax.traverse().is_none());
    assert_eq!(tax.cursor_depth(), 0);
}

/// After a pass is exhausted the position stack is empty again, and a
/// second full pass announces the identical sequence.
#[test]
fn second_full_pass_repeats_the_first() {
    let mut tax: Taxonomy<Item> = Taxonomy::new();
    assert!(tax.add(None, Item::new("r1")).is_ok());
    assert!(tax.add(Some(id_of("r1")), Item::new("a")).is_ok());
    assert!(tax.add(Some(id_of("a")), Item::new("b")).is_ok());
    assert!(tax.add(None, Item::new("r2")).is_ok());
    assert!(tax.append(Some(id_of("r2")), id_of("a")).is_ok());

    let mut pass1: Vec<String> = Vec::new();
    while let Some(item) = tax.traverse() {
        pass1.push(item.name.clone());
    }
    assert_eq!(tax.cursor_depth(), 0);

    let mut pass2: Vec<String> = Vec::new();
    while let Some(item) = tax.traverse() {
        pass2.push(item.name.clone());
    }
    assert_eq!(pass1, pass2);
    assert_eq!(
        pass1,
        vec![
            "r1".to_string(),
            "a".to_string(),
            "b".to_string(),
            "r2".to_string(),
            "a".to_string(),
            "b".to_string(),
        ],
    );
}

/// Changing an element through `get_mut` changes what `get` sees, and
/// nothing about the structure.
#[test]
fn get_mut_updates_the_element_in_place() {
    let mut tax: Taxonomy<Item> = Taxonomy::new();
    assert!(tax.add(None, Item::new("slot")).is_ok());
    {
        let item = tax.get_mut(id_of("slot")).unwrap();
        item.name = "renamed".to_string();
    }
    assert_eq!(tax.get(id_of("slot")).unwrap().name, "renamed".to_string());
    assert_eq!(tax.count_nodes(), 1);
    assert_eq!(tax.count_roots(), 1);
}

/// Edges compare by their two sides: same placement means equal, any
/// differing side means unequal.
#[test]
fn edges_compare_componentwise() {
    let a = Edge::new(Some(id_of("p")), id_of("c"));
    let b = Edge::new(Some(id_of("p")), id_of("c"));
    let c = Edge::new(Some(id_of("q")), id_of("c"));
    let d = Edge::new(None, id_of("c"));
    let e = Edge::new(Some(id_of("p")), id_of("d"));

    assert_eq!(a, b);
    assert_ne!(a, c);
    assert_ne!(a, d);
    assert_ne!(a, e);
    assert_eq!(Edge::new(None, id_of("c")), d);
}

/// Recursive removal of a subtree in which one node sits under two places
/// of the same subtree: the node is deleted at its first visit, skipped at
/// the second, and the whole operation succeeds.
#[test]
fn recursive_removal_handles_shared_subnodes() {
    let mut tax: Taxonomy<Item> = Taxonomy::new();
    assert!(tax.add(None, Item::new("top")).is_ok());
    assert!(tax.add(Some(id_of("top")), Item::new("left")).is_ok());
    assert!(tax.add(Some(id_of("top")), Item::new("shared")).is_ok());
    // "shared" also hangs under "left", deeper inside the same subtree.
    assert!(tax.append(Some(id_of("left")), id_of("shared")).is_ok());

    assert!(tax.remove_recursively(id_of("top")).is_ok());
    assert!(tax.get(id_of("top")).is_none());
    assert!(tax.get(id_of("left")).is_none());
    assert!(tax.get(id_of("shared")).is_none());
    assert_eq!(tax.count_nodes(), 0);
    assert_eq!(tax.count_roots(), 0);
    assert_eq!(tax.last_updated_node().unwrap(), id_of("top"));
}
