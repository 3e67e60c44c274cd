// The taxonomy operations, exercised on a shared animal-themed tree:
//
// Tiere
//   Haustiere { Fische, Hunde { Doggen, Schaeferhunde }, Katzen }
//   Nutztiere { Gefluegel { Huehner, Puten }, Rind }
//   Zootiere { Affen, Schlangen }
//   Saeugetiere { Affen*, Hunde*, Katzen*, Waale & Delfine }
//   Voegel { Huehner*, Puten* }
// Tierhalter
// Tierheime { Hunde*, Katzen* }
// Tierschutz
//
// Entries marked * are second placements of a node that already sits
// elsewhere in the tree.

use std::collections::HashMap;

use kodiak_taxonomy::{Edge, Identity, Taxonomy, TaxonomyError};

#[derive(Clone, Debug, PartialEq)]
pub struct Concept {
    name: String,
}

impl Concept {
    pub fn new(name: &str) -> Concept {
        Concept { name: name.to_string() }
    }
}

impl Identity for Concept {
    /// The identifier as a mathematical value exists only for the
    /// verifier; it is never executed.
    fn id_spec(&self) -> vstd::seq::Seq<char> {
        unreachable!()
    }

    fn id(&self) -> String {
        self.name.clone()
    }
}

fn setup_tax_empty() -> Taxonomy<Concept> {
    let tax: Taxonomy<Concept> = Taxonomy::new();
    tax
}

fn setup_tax_animals() -> (
    Taxonomy<Concept>,
    HashMap<&'static str, String>,
    Vec<(String, Concept)>,
) {
    let mut tax = setup_tax_empty();
    let mut ids = HashMap::new();
    let mut list = Vec::new();

    let names = [
        "Tiere",
        "Tierhalter",
        "Tierheime",
        "Tierschutz",
        "Haustiere",
        "Nutztiere",
        "Zootiere",
        "S\u{e4}ugetiere",
        "V\u{f6}gel",
        "Gefl\u{fc}gel",
        "Rind",
        "Fische",
        "Hunde",
        "Katzen",
        "Affen",
        "Schlangen",
        "Waale & Delfine",
        "H\u{fc}hner",
        "Puten",
        "Doggen",
        "Sch\u{e4}ferhunde",
    ];
    for name in names {
        ids.insert(name, name.to_string());
    }

    let c = |name: &str| Concept::new(name);
    let id = |name: &str| name.to_string();

    let _ = tax.add(None, c("Tiere"));

    let _ = tax.add(Some(id("Tiere")), c("Haustiere"));
    let _ = tax.add(Some(id("Haustiere")), c("Fische"));
    let _ = tax.add(Some(id("Haustiere")), c("Hunde"));
    let _ = tax.add(Some(id("Hunde")), c("Doggen"));
    let _ = tax.add(Some(id("Hunde")), c("Sch\u{e4}ferhunde"));
    let _ = tax.add(Some(id("Haustiere")), c("Katzen"));

    let _ = tax.add(Some(id("Tiere")), c("Nutztiere"));
    let _ = tax.add(Some(id("Nutztiere")), c("Gefl\u{fc}gel"));
    let _ = tax.add(Some(id("Gefl\u{fc}gel")), c("H\u{fc}hner"));
    let _ = tax.add(Some(id("Gefl\u{fc}gel")), c("Puten"));
    let _ = tax.add(Some(id("Nutztiere")), c("Rind"));

    let _ = tax.add(Some(id("Tiere")), c("Zootiere"));
    let _ = tax.add(Some(id("Zootiere")), c("Affen"));
    let _ = tax.add(Some(id("Zootiere")), c("Schlangen"));

    let _ = tax.add(Some(id("Tiere")), c("S\u{e4}ugetiere"));
    let _ = tax.append(Some(id("S\u{e4}ugetiere")), id("Affen"));
    let _ = tax.append(Some(id("S\u{e4}ugetiere")), id("Hunde"));
    let _ = tax.append(Some(id("S\u{e4}ugetiere")), id("Katzen"));
    let _ = tax.add(Some(id("S\u{e4}ugetiere")), c("Waale & Delfine"));

    let _ = tax.add(Some(id("Tiere")), c("V\u{f6}gel"));
    let _ = tax.append(Some(id("V\u{f6}gel")), id("H\u{fc}hner"));
    let _ = tax.append(Some(id("V\u{f6}gel")), id("Puten"));

    let _ = tax.add(None, c("Tierhalter"));
    let _ = tax.add(None, c("Tierheime"));
    let _ = tax.append(Some(id("Tierheime")), id("Hunde"));
    let _ = tax.append(Some(id("Tierheime")), id("Katzen"));

    let _ = tax.add(None, c("Tierschutz"));

    // The pre-order traversal, one entry per visit.
    let order = [
        "Tiere",
        "Haustiere",
        "Fische",
        "Hunde",
        "Doggen",
        "Sch\u{e4}ferhunde",
        "Katzen",
        "Nutztiere",
        "Gefl\u{fc}gel",
        "H\u{fc}hner",
        "Puten",
        "Rind",
        "Zootiere",
        "Affen",
        "Schlangen",
        "S\u{e4}ugetiere",
        "Affen",
        "Hunde",
        "Doggen",
        "Sch\u{e4}ferhunde",
        "Katzen",
        "Waale & Delfine",
        "V\u{f6}gel",
        "H\u{fc}hner",
        "Puten",
        "Tierhalter",
        "Tierheime",
        "Hunde",
        "Doggen",
        "Sch\u{e4}ferhunde",
        "Katzen",
        "Tierschutz",
    ];
    for name in order {
        list.push((name.to_string(), Concept::new(name)));
    }

    (tax, ids, list)
}

#[test]
fn default() {
    let tax: Taxonomy<Concept> = Taxonomy::default();

    assert_eq!(tax.count_nodes(), 0);
    assert_eq!(tax.count_roots(), 0);
    assert!(tax.last_updated_node().is_none());
    assert_eq!(tax.cursor_depth(), 0);
}

#[test]
fn test_new_taxonomy() {
    let tax = setup_tax_empty();

    assert_eq!(tax.count_nodes(), 0);
    assert!(tax.last_updated_node().is_none());
    assert_eq!(tax.count_roots(), 0);
}

#[test]
fn add() {
    let (mut tax, _, list) = setup_tax_animals();
    let counter = tax.count_nodes();

    // Test adding a new root-node
    let c_tierwohl = Concept::new("Tierwohl");
    let id_tierwohl = c_tierwohl.id();
    let super_id = None;

    let counter_node0_pre = tax.count_roots();

    let result = tax.add(super_id, c_tierwohl);
    assert!(result.is_ok());

    let counter_node0_post = tax.count_roots();

    assert_eq!(tax.count_nodes(), counter + 1);
    assert_eq!(counter_node0_post, counter_node0_pre + 1);
    assert_eq!(tax.last_updated_node().unwrap(), id_tierwohl);
    assert_eq!(tax._get_node_opt(&id_tierwohl).unwrap().supers().len(), 0);

    // Test adding a new sub-node
    let c_nagetiere = Concept::new("Nagetiere");
    let id_nagetiere = c_nagetiere.id();
    let super_id = list[1].0.clone();

    let counter_subs_pre = tax._get_node_opt(&super_id).unwrap().count_subs();

    let result = tax.add(Some(super_id.clone()), c_nagetiere.clone());
    assert!(result.is_ok());

    let counter_subs_post = tax._get_node_opt(&super_id).unwrap().count_subs();

    assert_eq!(tax.count_nodes(), counter + 2);
    assert_eq!(counter_subs_post, counter_subs_pre + 1);
    assert_eq!(tax.last_updated_node().unwrap(), id_nagetiere);
    assert_eq!(
        *tax._get_node_opt(&super_id).unwrap().subs().last().unwrap(),
        id_nagetiere
    );
    assert_eq!(tax._get_node_opt(&id_nagetiere).unwrap().supers().len(), 1);

    // Test adding a duplicate node
    let result = tax.add(Some(super_id.clone()), c_nagetiere).err();
    let expectation = TaxonomyError::DuplicateNode(id_nagetiere);
    assert_eq!(result, Some(expectation));
}

#[test]
fn append() {
    let (mut tax, ids, _) = setup_tax_animals();
    let last_updated_node = tax.last_updated_node().unwrap();

    // Append a non-existing node to a non-existing super-node
    let node_id = "Raumstation".to_string();
    let super_id = "Orbit".to_string();
    let result = tax.append(Some(super_id), node_id.clone()).err();
    let expectation = TaxonomyError::NodeNotFound(node_id);
    assert_eq!(result, Some(expectation));
    assert_eq!(tax.last_updated_node().unwrap(), last_updated_node);

    // Append an existing node to a non-existing super-node
    let id_affen = ids.get("Affen").unwrap().clone();
    let super_id = "Orbit".to_string();
    let result = tax.append_at(Some(super_id.clone()), id_affen.clone(), 0).err();
    let expectation = TaxonomyError::NodeNotFound(super_id);
    assert_eq!(result, Some(expectation));
    assert_eq!(tax.last_updated_node().unwrap(), last_updated_node);

    // Append an existing node to one of its own super-nodes
    let id_affen = ids.get("Affen").unwrap().clone();
    let id_zootiere = ids.get("Zootiere").unwrap().clone();
    let result = tax.append(Some(id_zootiere.clone()), id_affen.clone()).err();
    let expectation = TaxonomyError::DuplicateSubNode(id_zootiere, id_affen);
    assert_eq!(result, Some(expectation));
    assert_eq!(tax.last_updated_node().unwrap(), last_updated_node);

    // Append an existing node to one of its own sub-nodes (loop detection)
    let id_zootiere = ids.get("Zootiere").unwrap().clone();
    let id_schlangen = ids.get("Schlangen").unwrap().clone();
    let result = tax.append(Some(id_schlangen), id_zootiere.clone()).err();
    let expectation = TaxonomyError::LoopDetected(id_zootiere);
    assert_eq!(result, Some(expectation));
    assert_eq!(tax.last_updated_node().unwrap(), last_updated_node);

    // Append an existing root-node to root-nodes
    let id_tiere = ids.get("Tiere").unwrap().clone();
    let super_id = None;
    let result = tax.append(super_id, id_tiere.clone()).err();
    let expectation = TaxonomyError::DuplicateRootNode(id_tiere);
    assert_eq!(result, Some(expectation));
    assert_eq!(tax.last_updated_node().unwrap(), last_updated_node);

    // Append an existing node to root-nodes
    let id_nutztiere = ids.get("Nutztiere").unwrap().clone();
    let super_id = None;
    assert!(tax.append(super_id, id_nutztiere.clone()).is_ok());
    assert_eq!(
        tax._get_root_node_id_at(tax.count_roots() - 1).unwrap(),
        id_nutztiere
    );
    assert_eq!(tax.last_updated_node().unwrap(), id_nutztiere);

    // Append an existing node to another existing node
    let id_waale = ids.get("Waale & Delfine").unwrap().clone();
    let id_tierschutz = ids.get("Tierschutz").unwrap().clone();
    assert!(tax.append(Some(id_tierschutz.clone()), id_waale.clone()).is_ok());

    let tierschutz = tax._get_node_opt(&id_tierschutz).unwrap();
    assert_eq!(tierschutz.subs().contains(&id_waale), true);
    assert_eq!(tax.last_updated_node().unwrap(), id_waale);
}

#[test]
fn append_at() {
    let (mut tax, ids, _) = setup_tax_animals();
    let last_updated_node = tax.last_updated_node().unwrap();

    // Append a non-existing node to a non-existing super-node
    let node_id = "Raumstation".to_string();
    let super_id = "Orbit".to_string();
    let result = tax.append_at(Some(super_id), node_id.clone(), 0).err();
    let expectation = TaxonomyError::NodeNotFound(node_id);
    assert_eq!(result, Some(expectation));
    assert_eq!(tax.last_updated_node().unwrap(), last_updated_node);

    // Append an existing node to a non-existing super-node
    let id_affen = ids.get("Affen").unwrap().clone();
    let super_id = "Orbit".to_string();
    let result = tax.append_at(Some(super_id.clone()), id_affen.clone(), 0).err();
    let expectation = TaxonomyError::NodeNotFound(super_id);
    assert_eq!(result, Some(expectation));
    assert_eq!(tax.last_updated_node().unwrap(), last_updated_node);

    // Append an existing node to one of its own super-nodes
    let id_affen = ids.get("Affen").unwrap().clone();
    let id_zootiere = ids.get("Zootiere").unwrap().clone();
    let result = tax.append_at(Some(id_zootiere.clone()), id_affen.clone(), 0).err();
    let expectation = TaxonomyError::DuplicateSubNode(id_zootiere, id_affen);
    assert_eq!(result, Some(expectation));
    assert_eq!(tax.last_updated_node().unwrap(), last_updated_node);

    // Append an existing node to one of its own sub-nodes (loop detection)
    let id_zootiere = ids.get("Zootiere").unwrap().clone();
    let id_schlangen = ids.get("Schlangen").unwrap().clone();
    let result = tax.append_at(Some(id_schlangen), id_zootiere.clone(), 0).err();
    let expectation = TaxonomyError::LoopDetected(id_zootiere);
    assert_eq!(result, Some(expectation));
    assert_eq!(tax.last_updated_node().unwrap(), last_updated_node);

    // Append an existing root-node to root-nodes
    let id_tiere = ids.get("Tiere").unwrap().clone();
    let super_id = None;
    let middle = tax.count_roots() / 2;
    let result = tax.append_at(super_id, id_tiere.clone(), middle).err();
    let expectation = TaxonomyError::DuplicateRootNode(id_tiere);
    assert_eq!(result, Some(expectation));
    assert_eq!(tax.last_updated_node().unwrap(), last_updated_node);

    // Append an existing node to root-nodes
    let id_nutztiere = ids.get("Nutztiere").unwrap().clone();
    let super_id = None;
    let middle = tax.count_roots() / 2;
    assert!(tax.append_at(super_id, id_nutztiere.clone(), middle).is_ok());
    assert_eq!(tax._get_root_node_id_at(middle).unwrap(), id_nutztiere);
    assert_eq!(tax.last_updated_node().unwrap(), id_nutztiere);

    // Append an existing node to another existing node
    let id_waale = ids.get("Waale & Delfine").unwrap().clone();
    let id_tierschutz = ids.get("Tierschutz").unwrap().clone();
    assert!(tax.append_at(Some(id_tierschutz.clone()), id_waale.clone(), 5).is_ok());

    let tierschutz = tax._get_node_opt(&id_tierschutz).unwrap();
    assert_eq!(tierschutz.subs().contains(&id_waale), true);
    assert_eq!(tax.last_updated_node().unwrap(), id_waale);
}

#[test]
fn move_to() {
    let (mut tax, ids, _) = setup_tax_animals();
    let last_updated_node = tax.last_updated_node().unwrap();

    // Move a non-existing node to a non-existing node
    let node_id = "Raumstation".to_string();
    let to_super_id = "Orbit".to_string();
    let result = tax.move_to(node_id.clone(), None, Some(to_super_id), 0).err();
    let expectation = TaxonomyError::NodeNotFound(node_id);
    assert_eq!(result, Some(expectation));
    assert_eq!(tax.last_updated_node().unwrap(), last_updated_node);

    // Move an existing node from a non-existing node to an existing node
    let id_affen = ids.get("Affen").unwrap().clone();
    let from_super_id = "Orbit".to_string();
    let id_tierschutz = ids.get("Tierschutz").unwrap().clone();
    let result = tax
        .move_to(
            id_affen.clone(),
            Some(from_super_id.clone()),
            Some(id_tierschutz.clone()),
            0,
        )
        .err();
    let expectation = TaxonomyError::NodeNotFound(from_super_id);
    assert_eq!(result, Some(expectation));
    assert_eq!(tax.last_updated_node().unwrap(), last_updated_node);

    // Move an existing node to a non-existing node
    let id_affen = ids.get("Affen").unwrap().clone();
    let to_super_id = "Orbit".to_string();
    let result = tax.move_to(id_affen.clone(), None, Some(to_super_id.clone()), 0).err();
    let expectation = TaxonomyError::NodeNotFound(to_super_id);
    assert_eq!(result, Some(expectation));
    assert_eq!(tax.last_updated_node().unwrap(), last_updated_node);

    // Move with a non-existing source-edge, i.e. source super-node and node
    // exist but do not share a super/sub relationship.
    let id_affen = ids.get("Affen").unwrap().clone();
    let id_voegel = ids.get("V\u{f6}gel").unwrap().clone();
    let id_tierschutz = ids.get("Tierschutz").unwrap().clone();
    let result = tax
        .move_to(
            id_affen.clone(),
            Some(id_voegel.clone()),
            Some(id_tierschutz.clone()),
            0,
        )
        .err();
    let expectation = TaxonomyError::EdgeNotFound(Some(id_voegel), id_affen);
    assert_eq!(result, Some(expectation));
    assert_eq!(tax.last_updated_node().unwrap(), last_updated_node);

    // Move to an already existing edge.
    let id_affen = ids.get("Affen").unwrap().clone();
    let id_zootiere = ids.get("Zootiere").unwrap().clone();
    let id_saeugetiere = ids.get("S\u{e4}ugetiere").unwrap().clone();
    let result = tax
        .move_to(
            id_affen.clone(),
            Some(id_zootiere.clone()),
            Some(id_saeugetiere.clone()),
            0,
        )
        .err();
    let expectation = TaxonomyError::DuplicateEdge(Some(id_saeugetiere), id_affen);
    assert_eq!(result, Some(expectation));
    assert_eq!(tax.last_updated_node().unwrap(), last_updated_node);

    // Move node to become a new root-node
    let id_schlangen = ids.get("Schlangen").unwrap().clone();
    let id_zootiere = ids.get("Zootiere").unwrap().clone();
    assert!(tax.move_to(id_schlangen.clone(), Some(id_zootiere.clone()), None, 0).is_ok());

    let zootiere = tax._get_node_opt(&id_zootiere).unwrap();
    assert_eq!(zootiere.subs().contains(&id_schlangen), false);
    assert_eq!(tax.has_root(&id_schlangen), true);
    assert_eq!(tax.last_updated_node().unwrap(), id_schlangen);

    // Move to a new super-node (non-root)
    let id_affen = ids.get("Affen").unwrap().clone();
    let id_zootiere = ids.get("Zootiere").unwrap().clone();
    let id_tierschutz = ids.get("Tierschutz").unwrap().clone();
    assert!(tax
        .move_to(
            id_affen.clone(),
            Some(id_zootiere.clone()),
            Some(id_tierschutz.clone()),
            0,
        )
        .is_ok());

    let zootiere = tax._get_node_opt(&id_zootiere).unwrap();
    assert_eq!(zootiere.subs().contains(&id_affen), false);

    let tierschutz = tax._get_node_opt(&id_tierschutz).unwrap();
    assert_eq!(tierschutz.subs().contains(&id_affen), true);

    assert_eq!(tax.last_updated_node().unwrap(), id_affen);
}

#[test]
fn remove() {
    let (mut tax, ids, _) = setup_tax_animals();
    let last_updated_node = tax.last_updated_node().unwrap();

    // Remove a non-existing node.
    let node_id = "Raumstation".to_string();
    let result = tax.remove(node_id.clone()).err();
    let expectation = TaxonomyError::NodeNotFound(node_id);
    assert_eq!(result, Some(expectation));
    assert_eq!(tax.last_updated_node().unwrap(), last_updated_node);

    // Remove a node with sub-nodes
    let id_hunde = ids.get("Hunde").unwrap().clone();
    let result = tax.remove(id_hunde.clone()).err();
    let expectation = TaxonomyError::NodeHasSubNode(id_hunde.clone());
    assert_eq!(result, Some(expectation));
    assert_eq!(tax.last_updated_node().unwrap(), last_updated_node);

    // Remove nodes without sub-nodes and only one super-node
    let id_doggen = ids.get("Doggen").unwrap().clone();
    assert!(tax.remove(id_doggen.clone()).is_ok());
    assert_eq!(tax.contains_node(&id_doggen), false);
    assert_eq!(tax.last_updated_node().unwrap(), id_doggen);

    let id_schaeferhunde = ids.get("Sch\u{e4}ferhunde").unwrap().clone();
    assert!(tax.remove(id_schaeferhunde.clone()).is_ok());
    assert_eq!(tax.contains_node(&id_schaeferhunde), false);
    assert_eq!(tax.last_updated_node().unwrap(), id_schaeferhunde);

    assert_eq!(tax._get_node_opt(&id_hunde).unwrap().has_sub(), false);

    // Remove nodes without sub-nodes and only one super-node (non-root-node)
    assert!(tax.remove(id_hunde.clone()).is_ok());
    assert_eq!(tax.contains_node(&id_hunde), false);
    assert_eq!(tax.last_updated_node().unwrap(), id_hunde);

    // Remove node without sub-nodes and multiple super-nodes (non-root-node)
    let id_katzen = ids.get("Katzen").unwrap().clone();

    // Get a list of super-nodes of the to-be-removed node
    let supers = tax._get_node_opt(&id_katzen).unwrap().supers();

    assert!(tax.remove(id_katzen.clone()).is_ok());
    assert_eq!(tax.contains_node(&id_katzen), false);
    assert_eq!(tax.last_updated_node().unwrap(), id_katzen);

    for super_node in supers {
        assert_eq!(
            tax._get_node_opt(&super_node).unwrap().subs().contains(&id_katzen),
            false
        );
    }

    // Remove node without sub-nodes and one super-node (root-node)
    let id_tierheime = ids.get("Tierheime").unwrap().clone();
    assert!(tax.remove(id_tierheime.clone()).is_ok());
    assert_eq!(tax.contains_node(&id_tierheime), false);
    assert_eq!(tax.has_root(&id_tierheime), false);
}

#[test]
fn remove_from_edge_none_first_root_node() {
    let (mut tax, ids, _) = setup_tax_animals();

    // Remove an existing edge: Edge(None, first root-node)
    let super_id = None;
    let node_id = ids.get("Tiere").unwrap().clone();
    assert!(tax.remove_from(Edge::new(super_id, node_id.clone())).is_ok());
    assert_eq!(tax.has_root(&node_id), false);
    assert_eq!(tax.contains_node(&node_id), false);
    assert_eq!(tax.last_updated_node().unwrap(), node_id);
}

#[test]
fn remove_from() {
    let (mut tax, ids, _) = setup_tax_animals();

    // Remove a non-existing edge of non-existing nodes
    let super_id = "Orbit".to_string();
    let node_id = "Raumstation".to_string();
    let result = tax.remove_from(Edge::new(Some(super_id.clone()), node_id.clone())).err();
    let expectation = TaxonomyError::EdgeNotFound(Some(super_id), node_id);
    assert_eq!(result, Some(expectation));

    // Remove a non-existing edge of an existing super-node and a
    // non-existing sub-node
    let id_hunde = ids.get("Hunde").unwrap().clone();
    let node_id = "Raumstation".to_string();
    let result = tax.remove_from(Edge::new(Some(id_hunde.clone()), node_id.clone())).err();
    let expectation = TaxonomyError::EdgeNotFound(Some(id_hunde), node_id);
    assert_eq!(result, Some(expectation));

    // Remove a non-existing edge of a non-existing super-node and an
    // existing sub-node
    let super_id = "Orbit".to_string();
    let id_hunde = ids.get("Hunde").unwrap().clone();
    let result = tax.remove_from(Edge::new(Some(super_id.clone()), id_hunde.clone())).err();
    let expectation = TaxonomyError::EdgeNotFound(Some(super_id), id_hunde);
    assert_eq!(result, Some(expectation));

    // Remove a non-existing edge of two existing nodes which don't share a
    // super/sub relationship
    let id_hunde = ids.get("Hunde").unwrap().clone();
    let id_katzen = ids.get("Katzen").unwrap().clone();
    let result = tax.remove_from(Edge::new(Some(id_hunde.clone()), id_katzen.clone())).err();
    let expectation = TaxonomyError::EdgeNotFound(Some(id_hunde), id_katzen);
    assert_eq!(result, Some(expectation));

    // Remove an existing edge of a root-node with no other super-nodes and
    // no sub-nodes.
    let (mut tax, ids, _) = setup_tax_animals();
    let id_tierhalter = ids.get("Tierhalter").unwrap().clone();
    assert!(tax.remove_from(Edge::new(None, id_tierhalter.clone())).is_ok());
    assert_eq!(tax.has_root(&id_tierhalter), false);
    assert_eq!(tax.contains_node(&id_tierhalter), false);
    assert_eq!(tax.last_updated_node().unwrap(), id_tierhalter);

    // Remove an existing edge of a root-node with no other super-nodes but
    // with sub-nodes which have other super-nodes as well
    let id_tierheime = ids.get("Tierheime").unwrap().clone();
    let id_katzen = ids.get("Katzen").unwrap().clone();
    let id_hunde = ids.get("Hunde").unwrap().clone();
    assert!(tax.remove_from(Edge::new(None, id_tierheime.clone())).is_ok());
    assert_eq!(tax.has_root(&id_tierheime), false);
    assert_eq!(tax.contains_node(&id_tierheime), false);
    assert_eq!(tax.contains_node(&id_hunde), true);
    assert_eq!(tax.contains_node(&id_katzen), true);
    assert_eq!(tax.last_updated_node().unwrap(), id_tierheime);

    // Remove an existing edge of a non-root-node with no other super-nodes
    // but with sub-nodes which have and haven't other super-nodes as well
    let id_tiere = ids.get("Tiere").unwrap().clone();
    let id_saeugetiere = ids.get("S\u{e4}ugetiere").unwrap().clone();
    let id_affen = ids.get("Affen").unwrap().clone();
    let id_hunde = ids.get("Hunde").unwrap().clone();
    let id_katzen = ids.get("Katzen").unwrap().clone();
    let id_waale = ids.get("Waale & Delfine").unwrap().clone();
    assert!(tax
        .remove_from(Edge::new(Some(id_tiere.clone()), id_saeugetiere.clone()))
        .is_ok());
    assert_eq!(tax.has_root(&id_saeugetiere), false);
    assert_eq!(tax.contains_node(&id_saeugetiere), false);
    assert_eq!(tax.contains_node(&id_affen), true);
    assert_eq!(tax.contains_node(&id_hunde), true);
    assert_eq!(tax.contains_node(&id_katzen), true);
    assert_eq!(tax.contains_node(&id_waale), false);
    assert_eq!(tax.last_updated_node().unwrap(), id_saeugetiere);
}

#[test]
fn remove_recursively() {
    let (mut tax, ids, _) = setup_tax_animals();

    // Remove a non-existing node.
    let node_id = "Raumstation".to_string();
    let result = tax.remove_recursively(node_id.clone()).err();
    let expectation = TaxonomyError::NodeNotFound(node_id);
    assert_eq!(result, Some(expectation));

    // Remove a node with multiple super- and sub-nodes
    let id_hunde = ids.get("Hunde").unwrap().clone();
    let id_doggen = ids.get("Doggen").unwrap().clone();
    let id_schaeferhunde = ids.get("Sch\u{e4}ferhunde").unwrap().clone();

    // Get a list of super-nodes of the to-be-removed node
    let supers = tax._get_node_opt(&id_hunde).unwrap().supers();

    assert!(tax.remove_recursively(id_hunde.clone()).is_ok());
    for super_node in supers {
        assert_eq!(
            tax._get_node_opt(&super_node).unwrap().subs().contains(&id_hunde),
            false
        );
    }
    assert!(tax._get_node_opt(&id_hunde).is_none());
    assert!(tax._get_node_opt(&id_doggen).is_none());
    assert!(tax._get_node_opt(&id_schaeferhunde).is_none());
    assert_eq!(tax.last_updated_node().unwrap(), id_hunde);
}

#[test]
fn traverse() {
    let (mut tax, _, list) = setup_tax_animals();

    let mut i: usize = 0;
    while let Some(concept) = tax.traverse_mut() {
        let c = list[i].1.clone();
        assert_eq!(*concept, c);
        i += 1;
    }
}

#[test]
fn traverse_mut() {
    let (mut tax, _, list) = setup_tax_animals();

    let mut i: usize = 0;
    while let Some(concept) = tax.traverse_mut() {
        let c = list[i].1.clone();
        assert_eq!(*concept, c);
        i += 1;
    }
}

#[test]
fn _add_non_root_node() {
    let (mut tax, _, list) = setup_tax_animals();
    let counter = tax.count_nodes();

    let c_nagetiere = Concept::new("Nagetiere");
    let id_nagetiere = c_nagetiere.id();

    let super_id = list[1].0.clone();
    let counter_subs_pre = tax._get_node_opt(&super_id).unwrap().count_subs();

    tax._add_non_root_node(super_id.clone(), kodiak_taxonomy::Node::new(c_nagetiere));

    let counter_subs_post = tax._get_node_opt(&super_id).unwrap().count_subs();

    assert_eq!(tax.count_nodes(), counter + 1);
    assert_eq!(counter_subs_post, counter_subs_pre + 1);
    assert_eq!(tax.last_updated_node().unwrap(), id_nagetiere);
    assert_eq!(
        *tax._get_node_opt(&super_id).unwrap().subs().last().unwrap(),
        id_nagetiere
    );
}

#[test]
fn _add_root_node_to_empty_tax() {
    let mut tax = setup_tax_empty();
    let counter = 2;

    let c_animal = Concept::new("Animal");
    let id_animal = c_animal.id();

    let c_plant = Concept::new("Plant");
    let id_plant = c_plant.id();

    tax._add_root_node(kodiak_taxonomy::Node::new(c_animal));
    assert_eq!(tax.last_updated_node().unwrap(), id_animal);

    tax._add_root_node(kodiak_taxonomy::Node::new(c_plant));
    assert_eq!(tax.last_updated_node().unwrap(), id_plant);

    assert_eq!(tax.count_nodes(), counter);
    assert_eq!(tax._get_node_opt(&id_animal).unwrap().id(), id_animal);
    assert_eq!(tax._get_node_opt(&id_plant).unwrap().id(), id_plant);

    assert_eq!(tax.count_roots(), counter);
    assert_eq!(tax._get_root_node_id_at(0).unwrap(), id_animal);
    assert_eq!(tax._get_root_node_id_at(1).unwrap(), id_plant);
}

#[test]
fn _add_root_node_to_non_empty_tax() {
    let (mut tax, _, _) = setup_tax_animals();
    let counter_nodes = tax.count_nodes() + 1;
    let counter_node0 = tax.count_roots() + 1;

    let c_zoos = Concept::new("Zoos");
    let id_zoos = c_zoos.id();

    tax._add_root_node(kodiak_taxonomy::Node::new(c_zoos));

    assert_eq!(tax.count_nodes(), counter_nodes);
    assert_eq!(tax._get_node_opt(&id_zoos).unwrap().id(), id_zoos);

    assert_eq!(tax.count_roots(), counter_node0);
    assert_eq!(
        tax._get_root_node_id_at(tax.count_roots() - 1).unwrap(),
        id_zoos
    );
}

#[test]
fn _append_at() {
    // Append a node as 1st sub-node to super-node.
    let (mut tax, _, list) = setup_tax_animals();
    let super_id = list.first().unwrap().0.clone();
    let node_id = list.last().unwrap().0.clone();
    let index = 0;
    assert_eq!(
        tax._get_node_opt(&node_id).unwrap().supers().contains(&super_id),
        false
    );
    tax._append_at(super_id.clone(), node_id.clone(), index);
    assert_eq!(
        *tax._get_node_opt(&super_id).unwrap().subs().first().unwrap(),
        node_id
    );
    assert_eq!(
        tax._get_node_opt(&node_id).unwrap().supers().contains(&super_id),
        true
    );

    // Append a node in the middle of sub-nodes to super-node.
    let (mut tax, _, list) = setup_tax_animals();
    let super_id = list.first().unwrap().0.clone();
    let node_id = list.last().unwrap().0.clone();
    let index = tax._get_node_opt(&super_id).unwrap().subs().len() / 2;
    assert_eq!(
        tax._get_node_opt(&node_id).unwrap().supers().contains(&super_id),
        false
    );
    tax._append_at(super_id.clone(), node_id.clone(), index);
    assert_eq!(tax._get_node_opt(&super_id).unwrap().subs()[index], node_id);
    assert_eq!(
        tax._get_node_opt(&node_id).unwrap().supers().contains(&super_id),
        true
    );

    // Append a node as last sub-node to super-node.
    let (mut tax, _, list) = setup_tax_animals();
    let super_id = list.first().unwrap().0.clone();
    let node_id = list.last().unwrap().0.clone();
    let index = tax._get_node_opt(&super_id).unwrap().subs().len();
    assert_eq!(
        tax._get_node_opt(&node_id).unwrap().supers().contains(&super_id),
        false
    );
    tax._append_at(super_id.clone(), node_id.clone(), index);
    assert_eq!(
        *tax._get_node_opt(&super_id).unwrap().subs().last().unwrap(),
        node_id
    );
    assert_eq!(
        tax._get_node_opt(&node_id).unwrap().supers().contains(&super_id),
        true
    );

    // Append a node as last sub-node to super-node (index out of bounds)
    let (mut tax, _, list) = setup_tax_animals();
    let super_id = list.first().unwrap().0.clone();
    let node_id = list.last().unwrap().0.clone();
    let index = 1000;
    assert_eq!(
        tax._get_node_opt(&node_id).unwrap().supers().contains(&super_id),
        false
    );
    tax._append_at(super_id.clone(), node_id.clone(), index);
    assert_eq!(
        *tax._get_node_opt(&super_id).unwrap().subs().last().unwrap(),
        node_id
    );
    assert_eq!(
        tax._get_node_opt(&node_id).unwrap().supers().contains(&super_id),
        true
    );
}

#[test]
fn _append_root_at() {
    // Append a non-root node as 1st root-node to taxonomy.
    let (mut tax, ids, _) = setup_tax_animals();
    let node_id = ids.get("Haustiere").unwrap().clone();
    let index = 0;
    assert_eq!(tax._get_node_opt(&node_id).unwrap().is_root(), false);
    tax._append_root_at(node_id.clone(), index);
    assert_eq!(tax._get_root_node_id_at(0).unwrap(), node_id);
    assert_eq!(tax._get_node_opt(&node_id).unwrap().is_root(), true);

    // Append a non-root node in the middle of existing root-nodes.
    let (mut tax, ids, _) = setup_tax_animals();
    let node_id = ids.get("Haustiere").unwrap().clone();
    let index = tax.count_roots() / 2;
    assert_eq!(tax._get_node_opt(&node_id).unwrap().is_root(), false);
    tax._append_root_at(node_id.clone(), index);
    assert_eq!(tax._get_root_node_id_at(index).unwrap(), node_id);
    assert_eq!(tax._get_node_opt(&node_id).unwrap().is_root(), true);

    // Append a non-root node as last root-node to taxonomy.
    let (mut tax, ids, _) = setup_tax_animals();
    let node_id = ids.get("Haustiere").unwrap().clone();
    let index = tax.count_roots();
    assert_eq!(tax._get_node_opt(&node_id).unwrap().is_root(), false);
    tax._append_root_at(node_id.clone(), index);
    assert_eq!(
        tax._get_root_node_id_at(tax.count_roots() - 1).unwrap(),
        node_id
    );
    assert_eq!(tax._get_node_opt(&node_id).unwrap().is_root(), true);

    // Append a non-root node as last root-node to taxonomy (index out of
    // bounds).
    let (mut tax, ids, _) = setup_tax_animals();
    let node_id = ids.get("Haustiere").unwrap().clone();
    let index = 1000;
    assert_eq!(tax._get_node_opt(&node_id).unwrap().is_root(), false);
    tax._append_root_at(node_id.clone(), index);
    assert_eq!(
        tax._get_root_node_id_at(tax.count_roots() - 1).unwrap(),
        node_id
    );
    assert_eq!(tax._get_node_opt(&node_id).unwrap().is_root(), true);
}

#[test]
fn _enumerate_subs() {
    let (tax, ids, _) = setup_tax_animals();

    assert_eq!(tax._enumerate_subs(ids.get("Tiere").unwrap().clone()).len(), 17);
    assert_eq!(tax._enumerate_subs(ids.get("Tierheime").unwrap().clone()).len(), 4);
    assert_eq!(tax._enumerate_subs(ids.get("Haustiere").unwrap().clone()).len(), 5);
    assert_eq!(tax._enumerate_subs(ids.get("Nutztiere").unwrap().clone()).len(), 4);
    assert_eq!(tax._enumerate_subs(ids.get("Zootiere").unwrap().clone()).len(), 2);
    assert_eq!(
        tax._enumerate_subs(ids.get("S\u{e4}ugetiere").unwrap().clone()).len(),
        6
    );
    assert_eq!(tax._enumerate_subs(ids.get("V\u{f6}gel").unwrap().clone()).len(), 2);
    assert_eq!(
        tax._enumerate_subs(ids.get("Gefl\u{fc}gel").unwrap().clone()).len(),
        2
    );
    assert_eq!(tax._enumerate_subs(ids.get("Rind").unwrap().clone()).len(), 0);
    assert_eq!(tax._enumerate_subs(ids.get("Fische").unwrap().clone()).len(), 0);
    assert_eq!(tax._enumerate_subs(ids.get("Hunde").unwrap().clone()).len(), 2);
    assert_eq!(tax._enumerate_subs(ids.get("Katzen").unwrap().clone()).len(), 0);

    // Unknown id
    assert_eq!(tax._enumerate_subs("Raumstation".to_string()).len(), 0);
}

#[test]
fn _err_duplicate_node() {
    let (tax, _, list) = setup_tax_animals();

    // Error with existing root-node
    let node_id = tax._get_root_node_id_at(0).unwrap();
    let result = tax._err_duplicate_node(node_id.clone()).err();
    let expectation = TaxonomyError::DuplicateNode(node_id);
    assert_eq!(result, Some(expectation));

    // Error with existing sub-node
    let node_id = list[1].0.clone();
    let result = tax._err_duplicate_node(node_id.clone()).err();
    let expectation = TaxonomyError::DuplicateNode(node_id);
    assert_eq!(result, Some(expectation));

    // Ok with arbitrary node
    let node_id = "Raumstation".to_string();
    assert!(tax._err_duplicate_node(node_id).is_ok());
}

#[test]
fn _err_duplicate_root_node() {
    let (tax, _, list) = setup_tax_animals();

    // Error with existing root-node
    let node_id = tax._get_root_node_id_at(0).unwrap();
    let result = tax._err_duplicate_root_node(node_id.clone()).err();
    let expectation = TaxonomyError::DuplicateRootNode(node_id);
    assert_eq!(result, Some(expectation));

    // Ok with existing non-root-node
    let node_id = list[1].0.clone();
    assert!(tax._err_duplicate_root_node(node_id).is_ok());
}

#[test]
fn _err_duplicate_sub_node() {
    let (tax, _, list) = setup_tax_animals();

    // Error with existing super/sub relationship
    let super_id = list[0].0.clone();
    let node_id = list[1].0.clone();
    let result = tax._err_duplicate_sub_node(super_id.clone(), node_id.clone()).err();
    let expectation = TaxonomyError::DuplicateSubNode(super_id, node_id);
    assert_eq!(result, Some(expectation));

    // Ok with existing super-node and an indirect sub-node
    let super_id = list[0].0.clone();
    let node_id = list[4].0.clone();
    assert!(tax._err_duplicate_sub_node(super_id, node_id).is_ok());
}

#[test]
fn _err_duplicate_edge() {
    let (tax, _, list) = setup_tax_animals();

    // Edge with existing root-node
    let super_id = None;
    let node_id = list.first().unwrap().0.clone();
    let edge = Edge::new(super_id, node_id.clone());
    let result = tax._err_duplicate_edge(&edge).err();
    let expectation = TaxonomyError::DuplicateEdge(None, node_id);
    assert_eq!(result, Some(expectation));

    // Edge with existing super-node and sub-node
    let super_id = list[0].0.clone();
    let node_id = list[1].0.clone();
    let edge = Edge::new(Some(super_id.clone()), node_id.clone());
    let result = tax._err_duplicate_edge(&edge).err();
    let expectation = TaxonomyError::DuplicateEdge(Some(super_id), node_id);
    assert_eq!(result, Some(expectation));
}

#[test]
fn _err_edge_not_found() {
    let (tax, _, list) = setup_tax_animals();

    // Edge with a non-existing root-node
    let super_id = None;
    let node_id = "Raumstation".to_string();
    let edge = Edge::new(super_id, node_id.clone());
    let result = tax._err_edge_not_found(&edge).err();
    let expectation = TaxonomyError::EdgeNotFound(None, node_id);
    assert_eq!(result, Some(expectation));

    // Edge with existing root-node
    let edge = Edge::new(None, list.first().unwrap().0.clone());
    assert!(tax._err_edge_not_found(&edge).is_ok());

    // Edge with existing super-node and sub-node
    let super_id = list[0].0.clone();
    let node_id = list[1].0.clone();
    let edge = Edge::new(Some(super_id), node_id);
    assert!(tax._err_edge_not_found(&edge).is_ok());

    // Edge with existing super-node and an indirect sub-node
    let super_id = list[0].0.clone();
    let node_id = list[4].0.clone();
    let edge = Edge::new(Some(super_id.clone()), node_id.clone());
    let result = tax._err_edge_not_found(&edge).err();
    let expectation = TaxonomyError::EdgeNotFound(Some(super_id), node_id);
    assert_eq!(result, Some(expectation));

    // Edge with existing super-node and a coordinate node
    let super_id = list[0].0.clone();
    let node_id = list.last().unwrap().0.clone();
    let edge = Edge::new(Some(super_id.clone()), node_id.clone());
    let result = tax._err_edge_not_found(&edge).err();
    let expectation = TaxonomyError::EdgeNotFound(Some(super_id), node_id);
    assert_eq!(result, Some(expectation));

    // Edge with a non-existing super-node and an arbitrary sub-node
    let super_id = "Orbit".to_string();
    let node_id = list[1].0.clone();
    let edge = Edge::new(Some(super_id.clone()), node_id.clone());
    let result = tax._err_edge_not_found(&edge).err();
    let expectation = TaxonomyError::EdgeNotFound(Some(super_id), node_id);
    assert_eq!(result, Some(expectation));
}

#[test]
fn _err_loop_detected() {
    let (tax, ids, _) = setup_tax_animals();

    // Append the same element to itself
    let id = ids.get("Sch\u{e4}ferhunde").unwrap().clone();
    let expectation = TaxonomyError::LoopDetected(id.clone());
    assert_eq!(
        tax._err_loop_detected(id.clone(), id.clone(), None).err().unwrap(),
        expectation
    );

    // Append a node's direct super-node to itself as sub-node
    let id_hunde = ids.get("Hunde").unwrap().clone();
    let id_saeugetiere = ids.get("S\u{e4}ugetiere").unwrap().clone();
    let expectation = TaxonomyError::LoopDetected(id_saeugetiere.clone());
    assert_eq!(
        tax._err_loop_detected(id_hunde.clone(), id_saeugetiere, None)
            .err()
            .unwrap(),
        expectation
    );

    // Append a node's indirect super-node to itself as sub-node
    let id_hunde = ids.get("Hunde").unwrap().clone();
    let id_tiere = ids.get("Tiere").unwrap().clone();
    let expectation = TaxonomyError::LoopDetected(id_tiere.clone());
    assert_eq!(
        tax._err_loop_detected(id_hunde, id_tiere, None).err().unwrap(),
        expectation
    );

    // Append a node's coordinate node to itself as sub-node
    let id_haustiere = ids.get("Haustiere").unwrap().clone();
    let id_saeugetiere = ids.get("S\u{e4}ugetiere").unwrap().clone();
    assert!(tax._err_loop_detected(id_haustiere, id_saeugetiere, None).is_ok());

    // Append a node to another super-node
    let id_zootiere = ids.get("Zootiere").unwrap().clone();
    let id_hunde = ids.get("Hunde").unwrap().clone();
    assert!(tax._err_loop_detected(id_zootiere, id_hunde, None).is_ok());
}

#[test]
fn _err_node_has_sub() {
    let (tax, _, list) = setup_tax_animals();

    let super_id = tax.last_updated_node().unwrap();
    let super_node = tax._get_node_opt(&super_id).unwrap();
    assert!(tax._err_node_has_sub(super_node).is_ok());

    let super_id = list.first().unwrap().0.clone();
    let super_node = tax._get_node_opt(&super_id).unwrap();
    let result = tax._err_node_has_sub(super_node).err();
    let expectation = Some(TaxonomyError::NodeHasSubNode(super_id));
    assert_eq!(result, expectation);
}

#[test]
fn _err_node_not_found() {
    let (tax, _, _) = setup_tax_animals();

    let node_id = tax.last_updated_node().unwrap();
    assert!(tax._err_node_not_found(node_id).is_ok());

    let node_id = "Raumstation".to_string();
    let result = tax._err_node_not_found(node_id.clone()).err();
    let expectation = Some(TaxonomyError::NodeNotFound(node_id));
    assert_eq!(result, expectation);
}

#[test]
fn _get_node_id_from_cursor() {
    let (mut tax, _, list) = setup_tax_animals();

    let (super_id, node_id) = tax._get_node_id_from_cursor();
    assert_eq!(super_id, None);
    assert_eq!(node_id, None);

    tax._next();
    let (super_id, node_id) = tax._get_node_id_from_cursor();
    assert_eq!(super_id, None);
    assert_eq!(node_id, Some(list[0].0.clone()));

    tax._next();
    let (super_id, node_id) = tax._get_node_id_from_cursor();
    assert_eq!(super_id, Some(list[0].0.clone()));
    assert_eq!(node_id, Some(list[1].0.clone()));
}

#[test]
fn _get_node_opt() {
    let (tax, _, _) = setup_tax_animals();

    let node_id = tax.last_updated_node().unwrap();
    assert!(tax._get_node_opt(&node_id).is_some());

    let node_id = "Raumstation".to_string();
    assert!(tax._get_node_opt(&node_id).is_none());
}

#[test]
fn _get_node_res() {
    let (tax, _, _) = setup_tax_animals();

    let node_id = tax.last_updated_node().unwrap();
    assert!(tax._get_node_res(node_id).is_ok());

    let node_id = "Raumstation".to_string();
    let result = tax._get_node_res(node_id.clone()).err();
    let expectation = Some(TaxonomyError::NodeNotFound(node_id));
    assert_eq!(result, expectation);
}

#[test]
fn _get_root_node_id_at() {
    let (mut tax, _, list) = setup_tax_animals();

    // In the example taxonomy the first and last nodes are root-nodes
    assert_eq!(tax._get_root_node_id_at(0).unwrap(), list.first().unwrap().1.id());
    assert_eq!(
        tax._get_root_node_id_at(tax.count_roots() - 1).unwrap(),
        list.last().unwrap().1.id()
    );

    let c_pflanzen = Concept::new("Pflanzen");
    let id_pflanzen = c_pflanzen.id();
    let _ = tax.add(None, c_pflanzen);
    assert_eq!(
        tax._get_root_node_id_at(tax.count_roots() - 1).unwrap(),
        id_pflanzen
    );

    assert_eq!(tax._get_root_node_id_at(tax.count_roots()), None);
}

#[test]
fn _next() {
    let (mut tax, _, list) = setup_tax_animals();

    let mut n: usize = 0;
    while let Some(node_id) = tax._next() {
        if let Some(element) = tax.get(node_id) {
            assert_eq!(*element, list[n].1);
            n += 1;
        }
    }

    assert_eq!(list.len(), n);
}

#[test]
fn _post_update() {
    let (mut tax, _, _) = setup_tax_animals();

    let c_pflanzen = Concept::new("Pflanzen");
    let id_pflanzen = c_pflanzen.id();

    let c_blumen = Concept::new("Blumen");
    let id_blumen = c_blumen.id();

    let c_baeume = Concept::new("B\u{e4}ume");
    let id_baeume = c_baeume.id();

    let c_graeser = Concept::new("Graeser");
    let id_graeser = c_graeser.id();

    let _ = tax.add(None, c_pflanzen);
    assert_eq!(tax.last_updated_node().unwrap(), id_pflanzen);
    let _ = tax.add(None, c_blumen);
    assert_eq!(tax.last_updated_node().unwrap(), id_blumen);

    let _ = tax.add(None, c_baeume);
    assert_eq!(tax.last_updated_node().unwrap(), id_baeume);
    let _ = tax.add(None, c_graeser);
    assert_eq!(tax.last_updated_node().unwrap(), id_graeser);

    let _ = tax.append(Some(id_pflanzen.clone()), id_baeume.clone());
    assert_eq!(tax.last_updated_node().unwrap(), id_baeume);
    let _ = tax.append_at(Some(id_pflanzen.clone()), id_blumen.clone(), 0);
    assert_eq!(tax.last_updated_node().unwrap(), id_blumen);

    let _ = tax
        .move_to(id_graeser.clone(), None, Some(id_pflanzen.clone()), 2)
        .unwrap();
    assert_eq!(tax.last_updated_node().unwrap(), id_graeser);

    let _ = tax.remove(id_graeser.clone());
    assert_eq!(tax.last_updated_node().unwrap(), id_graeser);

    let _ = tax.remove_from(Edge::new(None, id_blumen.clone()));
    assert_eq!(tax.last_updated_node().unwrap(), id_blumen);

    let _ = tax.remove_recursively(id_pflanzen.clone());
    assert_eq!(tax.last_updated_node().unwrap(), id_pflanzen);
}

#[test]
fn _pre_update() {
    // Updating carries no separate preparation step whose effect could be
    // observed, so there is nothing to check here.
}

#[test]
fn _get_node_mut_opt() {
    let (mut tax, _, _) = setup_tax_animals();

    let node_id = tax.last_updated_node().unwrap();
    assert!(tax._get_node_mut_opt(&node_id).is_some());

    let node_id = "Raumstation".to_string();
    assert!(tax._get_node_mut_opt(&node_id).is_none());
}

#[test]
fn _get_node_mut_res() {
    let (mut tax, _, _) = setup_tax_animals();

    let node_id = tax.last_updated_node().unwrap();
    assert!(tax._get_node_mut_res(node_id).is_ok());

    let node_id = "Raumstation".to_string();
    let result = tax._get_node_mut_res(node_id.clone()).err();
    let expectation = Some(TaxonomyError::NodeNotFound(node_id));
    assert_eq!(result, expectation);
}

#[test]
fn _remove_non_root_node() {
    let (mut tax, _, _) = setup_tax_animals();

    let num_nodes = tax.count_nodes();

    // Remove node with arbitrary id
    let node_id = "Raumstation".to_string();
    tax._remove_non_root_node(node_id.clone());
    assert_eq!(tax.count_nodes(), num_nodes);
    assert_ne!(tax.last_updated_node().unwrap(), node_id);

    // Remove node
    let node_id = tax._get_root_node_id_at(tax.count_roots() - 1).unwrap();
    tax._remove_non_root_node(node_id.clone());

    assert_eq!(tax.count_nodes(), num_nodes - 1);
    assert_eq!(tax.contains_node(&node_id), false);
    assert_eq!(tax.last_updated_node().unwrap(), node_id);
}

#[test]
fn _remove_root_node() {
    let (mut tax, _, _) = setup_tax_animals();
    let min_len: usize = 4;

    let num_root_nodes = tax.count_roots();
    assert_eq!(num_root_nodes, min_len);

    let middle = num_root_nodes / 2;

    // Remove root-node with arbitrary id
    let node_id = "Raumstation".to_string();
    tax._remove_root_node(node_id.clone());
    assert_eq!(tax.count_roots(), num_root_nodes);
    assert_ne!(tax.last_updated_node().unwrap(), node_id);

    // Remove root-node from the middle
    let node_id = tax._get_root_node_id_at(middle).unwrap();
    let node_id_successor = tax._get_root_node_id_at(middle + 1).unwrap();
    tax._remove_root_node(node_id.clone());

    assert_eq!(tax.count_roots(), num_root_nodes - 1);
    assert_eq!(tax.has_root(&node_id), false);
    assert_eq!(tax.contains_node(&node_id), false);
    assert_eq!(tax._get_root_node_id_at(middle).unwrap(), node_id_successor);
    assert_eq!(tax.last_updated_node().unwrap(), node_id);

    // Remove root-node from the back
    let node_id = tax._get_root_node_id_at(tax.count_roots() - 1).unwrap();
    let node_id_predecessor = tax._get_root_node_id_at(tax.count_roots() - 2).unwrap();
    tax._remove_root_node(node_id.clone());

    assert_eq!(tax.count_roots(), num_root_nodes - 2);
    assert_eq!(tax.has_root(&node_id), false);
    assert_eq!(tax.contains_node(&node_id), false);
    assert_eq!(
        tax._get_root_node_id_at(tax.count_roots() - 1).unwrap(),
        node_id_predecessor
    );
    assert_eq!(tax.last_updated_node().unwrap(), node_id);

    // Remove root-node from the front
    let node_id = tax._get_root_node_id_at(0).unwrap();
    let node_id_successor = tax._get_root_node_id_at(1).unwrap();
    tax._remove_root_node(node_id.clone());

    assert_eq!(tax.count_roots(), num_root_nodes - 3);
    assert_eq!(tax.has_root(&node_id), false);
    assert_eq!(tax.contains_node(&node_id), false);
    assert_eq!(tax._get_root_node_id_at(0).unwrap(), node_id_successor);
    assert_eq!(tax.last_updated_node().unwrap(), node_id);
}
