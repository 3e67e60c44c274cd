// The node record on its own: child lists keep their order, parent lists
// carry the root marker, and the bookkeeping helpers report what is
// stored.

use kodiak_taxonomy::{Identity, Node};

#[derive(Clone, Debug, PartialEq)]
pub struct Concept {
    name: String,
}

impl Concept {
    pub fn new(name: &str) -> Concept {
        Concept { name: name.to_string() }
    }
}

impl Identity for Concept {
    /// The identifier as a mathematical value exists only for the
    /// verifier; it is never executed.
    fn id_spec(&self) -> vstd::seq::Seq<char> {
        unreachable!()
    }

    fn id(&self) -> String {
        self.name.clone()
    }
}

fn setup_root_only_node() -> Node<Concept> {
    let org = Concept::new("Organisation");
    Node::new(org)
}

fn setup_root_node_with_one_sub() -> Node<Concept> {
    let org = Concept::new("Organisation");
    let dep = Concept::new("Department");
    let mut node = Node::new(org);
    node.append_sub(dep.id());
    node
}

fn setup_two_root_nodes_with_first_being_sub_of_second() -> (Node<Concept>, Node<Concept>) {
    let empl = Concept::new("Employee");
    let empl_id = empl.id();
    let org = Concept::new("Organisation");
    let org_id = org.id();
    let dep = Concept::new("Department");

    let mut root_node1 = Node::new(empl);
    let mut root_node2 = Node::new(org);
    root_node2.append_sub(dep.id());

    root_node1.add_super(Some(org_id.clone()));
    root_node2.append_sub(empl_id);

    (root_node1, root_node2)
}

fn setup_root_node_with_four_subs() -> (Node<Concept>, Vec<String>) {
    let dev = Concept::new("Devices");
    let cli_id = Concept::new("Clients").id();
    let fire_id = Concept::new("Firewalls").id();
    let mob_id = Concept::new("Mobiles").id();
    let srv_id = Concept::new("Servers").id();

    let mut node = Node::new(dev);
    node.append_sub(cli_id.clone());
    node.append_sub(fire_id.clone());
    node.append_sub(mob_id.clone());
    node.append_sub(srv_id.clone());

    (node, vec![cli_id, fire_id, mob_id, srv_id])
}

fn setup_root_node_with_four_subs_in_vec() -> (Node<Concept>, Vec<Node<Concept>>) {
    let dev = Concept::new("Devices");
    let dev_id = dev.id();
    let cli = Concept::new("Clients");
    let fire = Concept::new("Firewalls");
    let mob = Concept::new("Mobiles");
    let srv = Concept::new("Servers");

    let mut node = Node::new(dev);
    node.append_sub(cli.id());
    node.append_sub(fire.id());
    node.append_sub(mob.id());
    node.append_sub(srv.id());

    let mut cli_node = Node::new(cli);
    cli_node.remove_super(None);
    cli_node.add_super(Some(dev_id.clone()));

    let mut fire_node = Node::new(fire);
    fire_node.remove_super(None);
    fire_node.add_super(Some(dev_id.clone()));

    let mut mob_node = Node::new(mob);
    mob_node.remove_super(None);
    mob_node.add_super(Some(dev_id.clone()));

    let mut srv_node = Node::new(srv);
    srv_node.remove_super(None);
    srv_node.add_super(Some(dev_id));

    (node, vec![cli_node, fire_node, mob_node, srv_node])
}

#[test]
fn test_root_only_node() {
    let node = setup_root_only_node();

    assert_eq!(node.subs().len(), 0);
    assert_eq!(node.count_subs(), 0);
    assert_eq!(node.has_sub(), false);

    assert_eq!(node.supers().len(), 0);
    assert_eq!(node.count_super(), 1);
    assert_eq!(node.has_super(), true);

    assert_eq!(node.is_root(), true);
}

#[test]
fn test_root_node_with_one_sub() {
    let node = setup_root_node_with_one_sub();

    assert_eq!(node.subs().len(), 1);
    assert_eq!(node.count_subs(), 1);
    assert_eq!(node.has_sub(), true);

    assert_eq!(node.supers().len(), 0);
    assert_eq!(node.count_super(), 1);
    assert_eq!(node.has_super(), true);

    assert_eq!(node.is_root(), true);
}

#[test]
fn test_two_root_nodes_with_first_being_sub_of_second() {
    let (root_node1, root_node2) = setup_two_root_nodes_with_first_being_sub_of_second();

    assert_eq!(root_node1.subs().len(), 0);
    assert_eq!(root_node1.count_subs(), 0);
    assert_eq!(root_node1.has_sub(), false);

    assert_eq!(root_node1.supers().len(), 1);
    assert_eq!(root_node1.count_super(), 2);
    assert_eq!(root_node1.has_super(), true);

    assert_eq!(root_node1.is_root(), true);

    assert_eq!(root_node2.subs().len(), 2);
    assert_eq!(root_node2.count_subs(), 2);
    assert_eq!(root_node2.has_sub(), true);

    assert_eq!(root_node2.supers().len(), 0);
    assert_eq!(root_node2.count_super(), 1);
    assert_eq!(root_node2.has_super(), true);

    assert_eq!(root_node2.is_root(), true);

    // Check if last sub of root_node2 is root_node1
    assert_eq!(*root_node2.subs().last().unwrap(), root_node1.id());
}

#[test]
fn test_root_node_with_four_subs() {
    let (node, ids) = setup_root_node_with_four_subs();

    assert_eq!(node.subs().len(), 4);
    assert_eq!(node.count_subs(), 4);
    assert_eq!(node.has_sub(), true);

    let mut k: usize = 0;
    for sub in node.subs() {
        assert_eq!(*sub, ids[k]);
        k += 1;
    }
}

#[test]
fn test_root_node_with_four_subs_append_sub_ok() {
    let (mut node, _) = setup_root_node_with_four_subs();

    let sw = Concept::new("Switches");
    let sw_id = sw.id();

    node.append_sub(sw_id.clone());
    assert_eq!(node.subs().len(), 5);
    assert_eq!(node.count_subs(), 5);
    assert_eq!(node.has_sub(), true);
    assert_eq!(*node.subs().last().unwrap(), sw_id);
}

#[test]
fn test_root_node_with_four_subs_append_sub_at_pos0_ok() {
    let (mut node, _) = setup_root_node_with_four_subs();

    let sw = Concept::new("Switches");
    let sw_id = sw.id();

    node.append_sub_at(sw_id.clone(), 0);
    assert_eq!(*node.subs().first().unwrap(), sw_id);
}

#[test]
fn test_root_node_with_four_subs_append_sub_at_index2_ok() {
    let (mut node, ids) = setup_root_node_with_four_subs();
    let index: usize = 2;

    let sw = Concept::new("Switches");
    let sw_id = sw.id();

    node.append_sub_at(sw_id.clone(), index);
    assert_eq!(node.subs()[index], sw_id);

    // Check order of sub-nodes
    let mut k: usize = 0;
    let mut i: usize = 0;
    for sub in node.subs() {
        if k == index {
            assert_eq!(*sub, sw_id);
        } else {
            assert_eq!(*sub, ids[i]);
            i += 1;
        }
        k += 1;
    }
}

#[test]
fn test_root_node_with_four_subs_append_sub_at_index_matching_len_ok() {
    let (mut node, ids) = setup_root_node_with_four_subs();
    let pos: usize = node.subs().len();

    let sw = Concept::new("Switches");
    let sw_id = sw.id();

    node.append_sub_at(sw_id.clone(), pos);
    assert_eq!(node.subs()[node.subs().len() - 1], sw_id);

    // Check order of sub-nodes
    let mut k: usize = 0;
    let mut i: usize = 0;
    for sub in node.subs() {
        if k == pos {
            assert_eq!(*sub, sw_id);
        } else {
            assert_eq!(*sub, ids[i]);
            i += 1;
        }
        k += 1;
    }
}

#[test]
fn test_root_node_with_four_subs_prepend_sub_ok() {
    let (mut node, _) = setup_root_node_with_four_subs();

    let sw = Concept::new("Switches");
    let sw_id = sw.id();

    node.prepend_sub(sw_id.clone());
    assert_eq!(node.subs().len(), 5);
    assert_eq!(node.count_subs(), 5);
    assert_eq!(node.has_sub(), true);
    assert_eq!(*node.subs().first().unwrap(), sw_id);
}

#[test]
fn test_root_node_with_four_subs_is_root_ok() {
    let (root_node, sub_nodes) = setup_root_node_with_four_subs_in_vec();

    assert_eq!(root_node.is_root(), true);
    for sub in sub_nodes {
        assert_eq!(sub.is_root(), false);
    }
}

#[test]
fn test_root_node_with_four_subs_remove_sub_ok() {
    let (mut root_node, sub_nodes) = setup_root_node_with_four_subs_in_vec();
    let seq = vec![2, 3, 0, 1]; // Removes from middle pos, back pos, front pos and last pos
    let mut k: usize = 0;

    while k <= 3 {
        let node_id = sub_nodes[seq[k]].id();
        root_node.remove_sub(node_id);

        assert_eq!(root_node.subs().len(), 3 - k);
        assert_eq!(root_node.count_subs(), 3 - k);
        assert_eq!(root_node.has_sub(), k < 3);

        k += 1;
    }
}

#[test]
fn remove_super() {
    let (mut root_node, mut sub_nodes) = setup_root_node_with_four_subs_in_vec();
    let seq = vec![2, 3, 0, 1]; // Removes from middle pos, back pos, front pos and last pos
    let mut k: usize = 0;

    while k <= 3 {
        let sub_node = &mut sub_nodes[seq[k]];
        let root_node_id = root_node.id();
        sub_node.remove_super(Some(root_node_id));

        assert_eq!(sub_node.count_super(), 0);

        k += 1;
    }

    root_node.remove_super(None);
    assert_eq!(root_node.has_super(), false);
}

#[test]
fn test_sub_at() {
    let (node, ids) = setup_root_node_with_four_subs();

    let mut i: usize = 0;
    for id in ids {
        assert_eq!(node.sub_at(i), Some(id));
        i += 1;
    }
    assert_eq!(node.sub_at(node.count_subs()), None);
}
