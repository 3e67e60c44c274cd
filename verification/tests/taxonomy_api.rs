// The taxonomy seen from outside: adding, appending, retrieving and
// walking elements through the public operations alone.

use kodiak_taxonomy::{Identity, Taxonomy, TaxonomyError};

#[derive(Clone, Debug, PartialEq)]
pub struct Concept {
    name: String,
}

impl Concept {
    pub fn new(name: &str) -> Concept {
        Concept { name: name.to_string() }
    }

    pub fn name(&self) -> String {
        self.name.clone()
    }
}

impl Identity for Concept {
    /// The identifier as a mathematical value exists only for the
    /// verifier; it is never executed.
    fn id_spec(&self) -> vstd::seq::Seq<char> {
        unreachable!()
    }

    fn id(&self) -> String {
        self.name.clone()
    }
}

fn setup_tax_empty() -> Taxonomy<Concept> {
    let tax: Taxonomy<Concept> = Taxonomy::new();
    tax
}

// Tiere
//   Haustiere { Fische, Hunde { Doggen, Schaeferhunde }, Katzen }
//   Nutztiere { Gefluegel { Huehner, Puten }, Rind }
//   Zootiere { Affen, Schlangen }
//   Saeugetiere { Affen*, Hunde*, Katzen*, Waale & Delfine }
//   Voegel { Huehner*, Puten* }
// Tierheime { Hunde*, Katzen* }
fn setup_tax_animals() -> (
    Taxonomy<Concept>,
    std::collections::HashMap<&'static str, String>,
    Vec<Concept>,
) {
    let mut tax = setup_tax_empty();
    let mut ids = std::collections::HashMap::new();
    let mut list = Vec::new();

    let names = [
        "Tiere",
        "Tierheime",
        "Haustiere",
        "Nutztiere",
        "Zootiere",
        "S\u{e4}ugetiere",
        "V\u{f6}gel",
        "Gefl\u{fc}gel",
        "Rind",
        "Fische",
        "Hunde",
        "Katzen",
        "Affen",
        "Schlangen",
        "Waale & Delfine",
        "H\u{fc}hner",
        "Puten",
        "Doggen",
        "Sch\u{e4}ferhunde",
    ];
    for name in names {
        ids.insert(name, name.to_string());
    }

    let c = |name: &str| Concept::new(name);
    let id = |name: &str| name.to_string();

    let _ = tax.add(None, c("Tiere"));

    let _ = tax.add(Some(id("Tiere")), c("Haustiere"));
    let _ = tax.add(Some(id("Haustiere")), c("Fische"));
    let _ = tax.add(Some(id("Haustiere")), c("Hunde"));
    let _ = tax.add(Some(id("Hunde")), c("Doggen"));
    let _ = tax.add(Some(id("Hunde")), c("Sch\u{e4}ferhunde"));
    let _ = tax.add(Some(id("Haustiere")), c("Katzen"));

    let _ = tax.add(Some(id("Tiere")), c("Nutztiere"));
    let _ = tax.add(Some(id("Nutztiere")), c("Gefl\u{fc}gel"));
    let _ = tax.add(Some(id("Gefl\u{fc}gel")), c("H\u{fc}hner"));
    let _ = tax.add(Some(id("Gefl\u{fc}gel")), c("Puten"));
    let _ = tax.add(Some(id("Nutztiere")), c("Rind"));

    let _ = tax.add(Some(id("Tiere")), c("Zootiere"));
    let _ = tax.add(Some(id("Zootiere")), c("Affen"));
    let _ = tax.add(Some(id("Zootiere")), c("Schlangen"));

    let _ = tax.add(Some(id("Tiere")), c("S\u{e4}ugetiere"));
    let _ = tax.append(Some(id("S\u{e4}ugetiere")), id("Affen"));
    let _ = tax.append(Some(id("S\u{e4}ugetiere")), id("Hunde"));
    let _ = tax.append(Some(id("S\u{e4}ugetiere")), id("Katzen"));
    let _ = tax.add(Some(id("S\u{e4}ugetiere")), c("Waale & Delfine"));

    let _ = tax.add(Some(id("Tiere")), c("V\u{f6}gel"));
    let _ = tax.append(Some(id("V\u{f6}gel")), id("H\u{fc}hner"));
    let _ = tax.append(Some(id("V\u{f6}gel")), id("Puten"));

    let _ = tax.add(None, c("Tierheime"));
    let _ = tax.append(Some(id("Tierheime")), id("Hunde"));
    let _ = tax.append(Some(id("Tierheime")), id("Katzen"));

    let order = [
        "Tiere",
        "Haustiere",
        "Fische",
        "Hunde",
        "Doggen",
        "Sch\u{e4}ferhunde",
        "Katzen",
        "Nutztiere",
        "Gefl\u{fc}gel",
        "H\u{fc}hner",
        "Puten",
        "Rind",
        "Zootiere",
        "Affen",
        "Schlangen",
        "S\u{e4}ugetiere",
        "Affen",
        "Hunde",
        "Doggen",
        "Sch\u{e4}ferhunde",
        "Katzen",
        "Waale & Delfine",
        "V\u{f6}gel",
        "H\u{fc}hner",
        "Puten",
        "Tierheime",
        "Hunde",
        "Doggen",
        "Sch\u{e4}ferhunde",
        "Katzen",
    ];
    for name in order {
        list.push(Concept::new(name));
    }

    (tax, ids, list)
}

#[test]
fn test_add_ok() {
    let mut tax = setup_tax_empty();

    let element = Concept::new("Animal");
    let result = tax.add(None, element);

    assert!(result.is_ok());
}

#[test]
fn test_add_duplicate_node_found_err() {
    let mut tax = setup_tax_empty();

    let element = Concept::new("Animal");
    let id = element.id();
    let _ = tax.add(None, element.clone());

    // Adding the element a second time fails
    let result = tax.add(None, element).err();
    let expectation = Some(TaxonomyError::DuplicateNode(id));
    assert_eq!(result, expectation);
}

#[test]
fn test_append_ok() {
    let mut tax = setup_tax_empty();

    let element = Concept::new("Animal");
    let super_id = element.id();
    let _ = tax.add(None, element);

    let element = Concept::new("Vertebrate");
    let result = tax.add(Some(super_id.clone()), element);

    assert!(result.is_ok());

    let element = Concept::new("Mammal");
    let result = tax.add(Some(super_id), element);

    assert!(result.is_ok());
}

#[test]
fn test_append_node_not_found_err() {
    let mut tax = setup_tax_empty();

    let element = Concept::new("Animal");
    let super_id = element.id();

    let element = Concept::new("Vertebrate");

    let result = tax.add(Some(super_id.clone()), element).err();

    let expectation = Some(TaxonomyError::NodeNotFound(super_id));
    assert_eq!(result, expectation);
}

#[test]
fn test_get_some() {
    let mut tax = setup_tax_empty();

    let element = Concept::new("Animal");
    let super_id = element.id();
    let _ = tax.add(None, element);

    let result: Option<&Concept> = tax.get(super_id);

    assert!(result.is_some());
}

#[test]
fn taxonomy_get_test_get_none() {
    let tax = setup_tax_empty();

    let element = Concept::new("Animal");
    let super_id = element.id();

    let result: Option<&Concept> = tax.get(super_id);

    assert!(result.is_none());
}

#[test]
fn test_get_mut_some() {
    let mut tax = setup_tax_empty();

    let element = Concept::new("Animal");
    let super_id = element.id();
    let _ = tax.add(None, element);

    let result: Option<&mut Concept> = tax.get_mut(super_id);

    assert!(result.is_some());
}

#[test]
fn taxonomy_get_mut_test_get_none() {
    let mut tax = setup_tax_empty();

    let element = Concept::new("Animal");
    let super_id = element.id();

    let result: Option<&mut Concept> = tax.get_mut(super_id);

    assert!(result.is_none());
}

#[test]
fn test_traverse() {
    let (mut tax, _, list) = setup_tax_animals();

    let mut remaining = list;
    while let Some(element) = tax.traverse() {
        assert_eq!(remaining.remove(0).id(), element.id());
    }
    assert_eq!(remaining.len(), 0);
}
