use vstd::prelude::*;

use crate::cursor::{Cursor, CursorView};
use crate::edge::{Edge, EdgeView};
use crate::identity::Identity;
use crate::node::{no_dups, Node, NodeView};
use crate::reach::{acyclic, is_child_edge, lemma_same_edges_reaches};
use crate::taxonomy_error::TaxonomyError;

verus! {

/// A taxonomy of equally typed nodes in which a node may have more than one
/// superordinate node and the structure may have more than one root.
///
/// The taxonomy owns every node, indexed by the node's identifier; all other
/// places (root list, parent lists, child lists) refer to nodes by
/// identifier only. Every mutating operation validates its input first and
/// fails without any change when the request would leave the structure
/// inconsistent: duplicate relationships, cycles and dangling references
/// are rejected.
pub struct Taxonomy<V> {
    nodes: Vec<Node<V>>,
    node0: Vec<String>,
    last_updated_node: Option<String>,
    cursor: Vec<Cursor>,
}

/// The abstract state of a [`Taxonomy`]: the nodes as a map from identifier
/// to [`NodeView`], the ordered root list, the most recently updated
/// identifier, and the traversal position stack.
pub ghost struct TaxView<V> {
    pub nodes: Map<Seq<char>, NodeView<V>>,
    pub roots: Seq<Seq<char>>,
    pub last: Option<Seq<char>>,
    pub cursor: Seq<CursorView>,
}

impl<V> TaxView<V> {
    /// Holds when a node with identifier `k` exists.
    pub open spec fn has(self, k: Seq<char>) -> bool {
        self.nodes.contains_key(k)
    }

    /// The node with identifier `k`.
    pub open spec fn node_at(self, k: Seq<char>) -> NodeView<V> {
        self.nodes[k]
    }

    /// Holds when the relationship described by `e` currently exists: a root
    /// placement is a root-list entry, any other edge is an entry in the
    /// superordinate node's child list.
    pub open spec fn edge_exists(self, e: EdgeView) -> bool {
        match e.super_id {
            None => self.roots.contains(e.node_id),
            Some(p) => self.has(p) && self.nodes[p].subs.contains(e.node_id),
        }
    }

    /// Holds when every node, except possibly those in `except`, still has
    /// at least one parent-list entry (a real parent or the root marker).
    pub open spec fn parented_except(self, except: Set<Seq<char>>) -> bool {
        forall|k: Seq<char>|
            #[trigger] self.nodes.contains_key(k) ==> except.contains(k)
                || self.nodes[k].supers.len() > 0
    }

    /// Holds when every node has at least one parent-list entry. All states
    /// reachable through the public operations satisfy this.
    pub open spec fn fully_parented(self) -> bool {
        self.parented_except(Set::empty())
    }

    /// Holds when a cursor frame addresses an existing position: an index
    /// into the root list, or an existing node and an index into its child
    /// list.
    pub open spec fn frame_valid(self, f: CursorView) -> bool {
        match f.super_id {
            None => 0 <= f.node_index < self.roots.len(),
            Some(p) => self.has(p) && 0 <= f.node_index < self.nodes[p].subs.len(),
        }
    }

    /// Holds when every frame of the position stack is valid.
    pub open spec fn cursor_ok(self) -> bool {
        forall|j: int| 0 <= j < self.cursor.len() ==> self.frame_valid(#[trigger] self.cursor[j])
    }

    /// The structural invariants of the abstract state: a duplicate-free
    /// root list naming existing nodes, child and parent lists closed over
    /// existing nodes, child and parent lists that mirror one another, the
    /// root marker exactly on the nodes listed as roots, and well-formed
    /// nodes keyed by their own identifier.
    pub open spec fn links_wf(self) -> bool {
        &&& no_dups(self.roots)
        &&& forall|r: Seq<char>| self.roots.contains(r) ==> self.nodes.contains_key(r)
        &&& forall|k: Seq<char>, s: Seq<char>|
            self.nodes.contains_key(k) && #[trigger] self.nodes[k].subs.contains(s)
                ==> self.nodes.contains_key(s)
        &&& forall|k: Seq<char>, p: Seq<char>|
            self.nodes.contains_key(k) && #[trigger] self.nodes[k].supers.contains(Some(p))
                ==> self.nodes.contains_key(p)
        &&& forall|k: Seq<char>, p: Seq<char>|
            self.nodes.contains_key(k) && self.nodes.contains_key(p) ==> (
            #[trigger] self.nodes[p].subs.contains(k)
                <==> #[trigger] self.nodes[k].supers.contains(Some(p)))
        &&& forall|k: Seq<char>|
            #[trigger] self.nodes.contains_key(k) ==> (self.nodes[k].supers.contains(None)
                <==> self.roots.contains(k))
        &&& forall|k: Seq<char>| #[trigger] self.nodes.contains_key(k) ==> self.nodes[k].id == k
        &&& forall|k: Seq<char>| #[trigger] self.nodes.contains_key(k) ==> self.nodes[k].wf()
    }
}

/// The identifiers of a storage sequence of nodes, in order.
pub closed spec fn ids_of<V>(ns: Seq<Node<V>>) -> Seq<Seq<char>> {
    ns.map_values(|n: Node<V>| n@.id)
}

/// The storage index of the node with identifier `k` in `ns`.
pub closed spec fn index_in<V>(ns: Seq<Node<V>>, k: Seq<char>) -> int {
    choose|i: int| 0 <= i < ns.len() && ns[i]@.id == k
}

/// The nodes of a storage sequence as a map from identifier to abstract
/// node value.
pub closed spec fn map_of<V>(ns: Seq<Node<V>>) -> Map<Seq<char>, NodeView<V>> {
    Map::new(|k: Seq<char>| ids_of(ns).contains(k), |k: Seq<char>| ns[index_in(ns, k)]@)
}

/// Relates a storage sequence with distinct identifiers to its abstract
/// node map: every stored node is the map entry of its identifier, and
/// every map entry comes from exactly one storage slot.
proof fn lemma_map_index<V>(ns: Seq<Node<V>>)
    requires
        no_dups(ids_of(ns)),
    ensures
        forall|i: int|
            0 <= i < ns.len() ==> {
                &&& map_of(ns).contains_key((#[trigger] ns[i])@.id)
                &&& map_of(ns)[ns[i]@.id] == ns[i]@
                &&& index_in(ns, ns[i]@.id) == i
            },
        forall|k: Seq<char>|
            #[trigger] map_of(ns).contains_key(k) ==> {
                &&& 0 <= index_in(ns, k) < ns.len()
                &&& ns[index_in(ns, k)]@.id == k
                &&& map_of(ns)[k] == ns[index_in(ns, k)]@
            },
{
    assert forall|i: int| 0 <= i < ns.len() implies {
        &&& map_of(ns).contains_key((#[trigger] ns[i])@.id)
        &&& map_of(ns)[ns[i]@.id] == ns[i]@
        &&& index_in(ns, ns[i]@.id) == i
    } by {
        let k = ns[i]@.id;
        assert(ids_of(ns)[i] == k);
        assert(ids_of(ns).contains(k));
        let j = index_in(ns, k);
        assert(0 <= j < ns.len() && ns[j]@.id == k);
        assert(ids_of(ns)[j] == k);
        assert(j == i);
    }
    assert forall|k: Seq<char>| #[trigger] map_of(ns).contains_key(k) implies {
        &&& 0 <= index_in(ns, k) < ns.len()
        &&& ns[index_in(ns, k)]@.id == k
        &&& map_of(ns)[k] == ns[index_in(ns, k)]@
    } by {
        assert(ids_of(ns).contains(k));
        let i = choose|i: int| 0 <= i < ids_of(ns).len() && ids_of(ns)[i] == k;
        assert(ns[i]@.id == k);
    }
}

/// Appending a node with a fresh identifier inserts exactly its entry into
/// the abstract node map.
proof fn lemma_push_map<V>(ns: Seq<Node<V>>, n: Node<V>)
    requires
        no_dups(ids_of(ns)),
        !ids_of(ns).contains(n@.id),
    ensures
        no_dups(ids_of(ns.push(n))),
        map_of(ns.push(n)) == map_of(ns).insert(n@.id, n@),
{
    let post = ns.push(n);
    assert(ids_of(post) =~= ids_of(ns).push(n@.id));
    assert(no_dups(ids_of(post))) by {
        assert forall|i: int, j: int|
            0 <= i < j < ids_of(post).len() implies ids_of(post)[i] != ids_of(post)[j] by {
            if j == ids_of(post).len() - 1 {
                assert(ids_of(ns).contains(ids_of(ns)[i]));
            }
        }
    }
    lemma_map_index(ns);
    lemma_map_index(post);
    assert forall|k: Seq<char>| #[trigger]
        ids_of(post).contains(k) implies ids_of(ns).contains(k) || k == n@.id by {
        let i = choose|i: int| 0 <= i < ids_of(post).len() && ids_of(post)[i] == k;
        if i < ids_of(ns).len() {
            assert(ids_of(ns)[i] == k);
        }
    }
    assert forall|k: Seq<char>| #[trigger]
        ids_of(ns).contains(k) implies ids_of(post).contains(k) by {
        let i = choose|i: int| 0 <= i < ids_of(ns).len() && ids_of(ns)[i] == k;
        assert(ids_of(post)[i] == k);
    }
    assert(ids_of(post)[ns.len() as int] == n@.id);
    assert(ids_of(post).contains(n@.id));
    assert forall|k: Seq<char>| #[trigger] map_of(post).contains_key(k) implies map_of(post)[k]
        == map_of(ns).insert(n@.id, n@)[k] by {
        let j = index_in(post, k);
        if k == n@.id {
            assert(post[ns.len() as int]@.id == k);
            assert(j == ns.len());
        } else {
            assert(j < ns.len());
            assert(post[j] == ns[j]);
            assert(index_in(ns, k) == j);
        }
    }
    assert(map_of(post) =~= map_of(ns).insert(n@.id, n@));
}

/// Replacing the node in storage slot `i` by one with the same identifier
/// updates exactly its entry in the abstract node map.
proof fn lemma_update_map<V>(ns: Seq<Node<V>>, i: int, n: Node<V>)
    requires
        no_dups(ids_of(ns)),
        0 <= i < ns.len(),
        n@.id == ns[i]@.id,
    ensures
        no_dups(ids_of(ns.update(i, n))),
        map_of(ns.update(i, n)) == map_of(ns).insert(n@.id, n@),
{
    let post = ns.update(i, n);
    assert(ids_of(post) =~= ids_of(ns));
    lemma_map_index(ns);
    lemma_map_index(post);
    assert forall|k: Seq<char>| #[trigger] map_of(post).contains_key(k) implies map_of(post)[k]
        == map_of(ns).insert(n@.id, n@)[k] by {
        let j = index_in(post, k);
        if k == n@.id {
            assert(post[i]@.id == k);
            assert(j == i);
        } else {
            assert(post[j] == ns[j]);
            assert(index_in(ns, k) == j);
        }
    }
    assert(map_of(post) =~= map_of(ns).insert(n@.id, n@));
}

/// Removing storage slot `i` removes exactly its entry from the abstract
/// node map.
proof fn lemma_remove_map<V>(ns: Seq<Node<V>>, i: int)
    requires
        no_dups(ids_of(ns)),
        0 <= i < ns.len(),
    ensures
        no_dups(ids_of(ns.remove(i))),
        map_of(ns.remove(i)) == map_of(ns).remove(ns[i]@.id),
{
    let post = ns.remove(i);
    let k0 = ns[i]@.id;
    assert(ids_of(post) =~= ids_of(ns).remove(i));
    assert(no_dups(ids_of(post))) by {
        assert forall|a: int, b: int|
            0 <= a < b < ids_of(post).len() implies ids_of(post)[a] != ids_of(post)[b] by {
            let pa = if a < i {
                a
            } else {
                a + 1
            };
            let pb = if b < i {
                b
            } else {
                b + 1
            };
            assert(ids_of(post)[a] == ids_of(ns)[pa]);
            assert(ids_of(post)[b] == ids_of(ns)[pb]);
        }
    }
    lemma_map_index(ns);
    lemma_map_index(post);
    assert forall|k: Seq<char>| #[trigger]
        ids_of(post).contains(k) implies ids_of(ns).contains(k) && k != k0 by {
        let a = choose|a: int| 0 <= a < ids_of(post).len() && ids_of(post)[a] == k;
        let pa = if a < i {
            a
        } else {
            a + 1
        };
        assert(ids_of(post)[a] == ids_of(ns)[pa]);
        assert(ids_of(ns)[pa] == k);
        assert(ids_of(ns)[i] == k0);
    }
    assert forall|k: Seq<char>|
        ids_of(ns).contains(k) && k != k0 implies #[trigger] ids_of(post).contains(k) by {
        let pa = choose|pa: int| 0 <= pa < ids_of(ns).len() && ids_of(ns)[pa] == k;
        assert(pa != i);
        let a = if pa < i {
            pa
        } else {
            pa - 1
        };
        assert(ids_of(post)[a] == ids_of(ns)[pa]);
    }
    assert(map_of(post) =~= map_of(ns).remove(k0));
}

impl<V> Taxonomy<V> {
    /// The node identifiers in storage order.
    pub closed spec fn spec_ids(self) -> Seq<Seq<char>> {
        ids_of(self.nodes@)
    }

    /// Well-formedness: distinct identifiers in storage, the structural
    /// invariants of [`TaxView::links_wf`], a cycle-free child relation, and
    /// a valid traversal position stack.
    pub open spec fn wf(self) -> bool {
        &&& no_dups(self.spec_ids())
        &&& self@.links_wf()
        &&& acyclic(self@.nodes)
        &&& self@.cursor_ok()
    }

    /// The storage form of [`lemma_map_index`] for this taxonomy.
    proof fn lemma_index(self)
        requires
            no_dups(self.spec_ids()),
        ensures
            forall|i: int|
                0 <= i < self.nodes@.len() ==> {
                    &&& self@.nodes.contains_key((#[trigger] self.nodes@[i])@.id)
                    &&& self@.nodes[self.nodes@[i]@.id] == self.nodes@[i]@
                    &&& index_in(self.nodes@, self.nodes@[i]@.id) == i
                },
            forall|k: Seq<char>|
                #[trigger] self@.nodes.contains_key(k) ==> {
                    &&& 0 <= index_in(self.nodes@, k) < self.nodes@.len()
                    &&& self.nodes@[index_in(self.nodes@, k)]@.id == k
                    &&& self@.nodes[k] == self.nodes@[index_in(self.nodes@, k)]@
                },
    {
        lemma_map_index(self.nodes@);
    }
}

impl<V> View for Taxonomy<V> {
    type V = TaxView<V>;

    closed spec fn view(&self) -> TaxView<V> {
        TaxView {
            nodes: map_of(self.nodes@),
            roots: self.node0.deep_view(),
            last: self.last_updated_node.deep_view(),
            cursor: self.cursor@.map_values(|c: Cursor| c@),
        }
    }
}

impl<V> Taxonomy<V> {
    /// Constructs a new, empty taxonomy.
    pub fn new() -> (t: Taxonomy<V>)
        ensures
            t@.nodes == Map::<Seq<char>, NodeView<V>>::empty(),
            t@.roots == Seq::<Seq<char>>::empty(),
            t@.last is None,
            t@.cursor == Seq::<CursorView>::empty(),
            t.wf(),
            t@.fully_parented(),
    {
        let t = Taxonomy {
            nodes: Vec::new(),
            node0: Vec::new(),
            last_updated_node: None,
            cursor: Vec::new(),
        };
        proof {
            assert(t@.nodes =~= Map::<Seq<char>, NodeView<V>>::empty());
            assert(t@.roots =~= Seq::<Seq<char>>::empty());
            assert(t@.cursor =~= Seq::<CursorView>::empty());
            assert(acyclic(t@.nodes)) by {
                reveal(crate::reach::reaches);
                assert forall|a: Seq<char>| !crate::reach::reaches(t@.nodes, a, a) by {
                    if crate::reach::reaches(t@.nodes, a, a) {
                        let p = choose|p: Seq<Seq<char>>|
                            crate::reach::is_path(t@.nodes, p) && p.len() >= 2 && p.first() == a
                                && p.last() == a;
                        assert(is_child_edge(t@.nodes, p[0], p[1]));
                    }
                }
            }
        }
        t
    }

    /// Returns the storage slot of the node with this identifier, if any.
    fn find_index(&self, id: &String) -> (r: Option<usize>)
        ensures
            match r {
                Some(i) => i < self.nodes@.len() && self.nodes@[i as int]@.id == id@,
                None => !self.spec_ids().contains(id@),
            },
    {
        let mut i: usize = 0;
        while i < self.nodes.len()
            invariant
                i <= self.nodes@.len(),
                forall|j: int| 0 <= j < i ==> (#[trigger] self.nodes@[j])@.id != id@,
            decreases self.nodes@.len() - i,
    {
            let nid = self.nodes[i].id();
            if nid == *id {
                return Some(i);
            }
            i = i + 1;
        }
        proof {
            if self.spec_ids().contains(id@) {
                let j = choose|j: int|
                    0 <= j < self.spec_ids().len() && self.spec_ids()[j] == id@;
                assert(self.nodes@[j]@.id == id@);
            }
        }
        None
    }

    /// Holds when a node with this identifier exists.
    pub fn contains_node(&self, id: &String) -> (r: bool)
        requires
            self.wf(),
        ensures
            r == self@.nodes.contains_key(id@),
    {
        proof {
            self.lemma_index();
        }
        match self.find_index(id) {
            Some(_) => true,
            None => false,
        }
    }

    /// Returns the number of nodes in the taxonomy.
    pub fn count_nodes(&self) -> (r: usize)
        requires
            self.wf(),
        ensures
            r == self@.nodes.dom().len(),
    {
        proof {
            self.lemma_dom_len();
        }
        self.nodes.len()
    }

    /// The abstract node map has exactly one entry per storage slot.
    proof fn lemma_dom_len(self)
        requires
            no_dups(self.spec_ids()),
        ensures
            self@.nodes.dom().finite(),
            self@.nodes.dom().len() == self.nodes@.len(),
    {
        self.lemma_index();
        assert(self@.nodes.dom() =~= self.spec_ids().to_set());
        self.spec_ids().unique_seq_to_set();
    }

    /// Holds when this identifier is in the root list.
    pub fn has_root(&self, id: &String) -> (r: bool)
        ensures
            r == self@.roots.contains(id@),
    {
        crate::node::contains_id(&self.node0, id)
    }

    /// A well-formed taxonomy stores finitely many nodes; together with
    /// the structural invariants this is what the traversal law asks of a
    /// state.
    pub proof fn lemma_dom_finite(self)
        requires
            self.wf(),
        ensures
            self@.nodes.dom().finite(),
    {
        self.lemma_dom_len();
    }

    /// Returns the number of root nodes.
    pub fn count_roots(&self) -> (r: usize)
        ensures
            r == self@.roots.len(),
    {
        self.node0.len()
    }

    /// Returns the depth of the traversal position stack; zero when no
    /// traversal is in progress.
    pub fn cursor_depth(&self) -> (r: usize)
        ensures
            r == self@.cursor.len(),
    {
        self.cursor.len()
    }

    /// Returns an immutable reference to the element identified by
    /// `node_id`, or `None` when the identifier is unknown.
    pub fn get(&self, node_id: String) -> (r: Option<&V>)
        requires
            self.wf(),
        ensures
            match r {
                Some(e) => self@.nodes.contains_key(node_id@) && *e == self@.nodes[
                    node_id@
                ].element,
                None => !self@.nodes.contains_key(node_id@),
            },
    {
        proof {
            self.lemma_index();
        }
        match self.find_index(&node_id) {
            None => None,
            Some(i) => Some(self.nodes[i].get()),
        }
    }

    /// Returns a mutable reference to the element identified by `node_id`,
    /// or `None` when the identifier is unknown. Only that element changes;
    /// the structure, root list, cursor and last-updated marker stay as
    /// they are.
    pub fn get_mut(&mut self, node_id: String) -> (r: Option<&mut V>)
        requires
            old(self).wf(),
        ensures
            match r {
                Some(e) => {
                    &&& old(self)@.nodes.contains_key(node_id@)
                    &&& *e == old(self)@.nodes[node_id@].element
                    &&& final(self)@ == (TaxView {
                        nodes: old(self)@.nodes.insert(
                            node_id@,
                            (NodeView { element: *final(e), ..old(self)@.nodes[node_id@] }),
                        ),
                        ..old(self)@
                    })
                    &&& final(self).wf()
                    &&& old(self)@.fully_parented() ==> final(self)@.fully_parented()
                },
                None => !old(self)@.nodes.contains_key(node_id@) && *final(self) == *old(self),
            },
    {
        proof {
            self.lemma_index();
        }
        let r = self.find_index(&node_id);
        match r {
            None => None,
            Some(i) => {
                proof {
                    self.lemma_element_swap(i as int);
                }
                let n = vstd::std_specs::vec::vec_index_mut(&mut self.nodes, i);
                let e = n.get_mut();
                Some(e)
            },
        }
    }

    /// Replacing the element of the node in slot `i` (identifier, parents
    /// and children unchanged) only rewrites that map entry; every
    /// structural invariant survives.
    proof fn lemma_element_swap(self, i: int)
        requires
            self.wf(),
            0 <= i < self.nodes@.len(),
        ensures
            forall|nn: Node<V>|
                #![trigger map_of(self.nodes@.update(i, nn))]
                (nn@.id == self.nodes@[i]@.id && nn@.supers == self.nodes@[i]@.supers
                    && nn@.subs == self.nodes@[i]@.subs) ==> {
                    &&& no_dups(ids_of(self.nodes@.update(i, nn)))
                    &&& map_of(self.nodes@.update(i, nn)) == self@.nodes.insert(nn@.id, nn@)
                    &&& (TaxView { nodes: map_of(self.nodes@.update(i, nn)), ..self@ }).links_wf()
                    &&& acyclic(map_of(self.nodes@.update(i, nn)))
                    &&& (TaxView { nodes: map_of(self.nodes@.update(i, nn)), ..self@ }).cursor_ok()
                    &&& (self@.fully_parented() ==> (TaxView {
                        nodes: map_of(self.nodes@.update(i, nn)),
                        ..self@
                    }).fully_parented())
                },
    {
        let ns = self.nodes@;
        assert forall|nn: Node<V>|
            #![trigger map_of(ns.update(i, nn))]
            (nn@.id == ns[i]@.id && nn@.supers == ns[i]@.supers && nn@.subs
                == ns[i]@.subs) implies {
            &&& no_dups(ids_of(ns.update(i, nn)))
            &&& map_of(ns.update(i, nn)) == self@.nodes.insert(nn@.id, nn@)
            &&& (TaxView { nodes: map_of(ns.update(i, nn)), ..self@ }).links_wf()
            &&& acyclic(map_of(ns.update(i, nn)))
            &&& (TaxView { nodes: map_of(ns.update(i, nn)), ..self@ }).cursor_ok()
            &&& (self@.fully_parented() ==> (TaxView {
                nodes: map_of(ns.update(i, nn)),
                ..self@
            }).fully_parented())
        } by {
            lemma_update_map(ns, i, nn);
            lemma_map_index(ns);
            let m1 = self@.nodes;
            let m2 = map_of(ns.update(i, nn));
            let k0 = nn@.id;
            assert(m2 == m1.insert(k0, nn@));
            assert(m1.contains_key(k0));
            assert(m1[k0] == ns[i]@);
            assert(m1[k0].supers == nn@.supers && m1[k0].subs == nn@.subs && m1[k0].id == nn@.id);
            assert(m1[k0].wf() == nn@.wf());
            assert forall|a: Seq<char>, b: Seq<char>| #[trigger]
                is_child_edge(m2, a, b) == is_child_edge(m1, a, b) by {
                if a == k0 {
                    assert(m2[a].subs == m1[a].subs);
                }
            }
            lemma_same_edges_reaches(m1, m2);
            let t2 = TaxView { nodes: m2, ..self@ };
            assert(t2.links_wf());
            assert(t2.cursor_ok()) by {
                assert forall|j: int| 0 <= j < t2.cursor.len() implies t2.frame_valid(
                    #[trigger] t2.cursor[j],
                ) by {
                    assert(self@.frame_valid(self@.cursor[j]));
                }
            }
            if self@.fully_parented() {
                assert forall|k: Seq<char>| #[trigger]
                    m2.contains_key(k) implies m2[k].supers.len() > 0 by {
                    assert(m1.contains_key(k));
                }
            }
        }
    }

    /// Returns the identifier of the node most recently touched by a
    /// mutating operation, or `None` when nothing has been updated yet.
    pub fn last_updated_node(&self) -> (r: Option<String>)
        ensures
            r.deep_view() == self@.last,
    {
        match &self.last_updated_node {
            None => None,
            Some(s) => Some(s.clone()),
        }
    }

    /// Returns an immutable reference to the node with this identifier, or
    /// `None` when it is unknown.
    pub fn _get_node_opt(&self, id: &String) -> (r: Option<&Node<V>>)
        requires
            self.wf(),
        ensures
            match r {
                Some(n) => self@.nodes.contains_key(id@) && n@ == self@.nodes[id@],
                None => !self@.nodes.contains_key(id@),
            },
    {
        self.get_node_ref(id)
    }

    /// The lookup behind `_get_node_opt`; it only needs distinct
    /// identifiers in storage, not the full invariant.
    fn get_node_ref(&self, id: &String) -> (r: Option<&Node<V>>)
        requires
            no_dups(self.spec_ids()),
        ensures
            match r {
                Some(n) => self@.nodes.contains_key(id@) && n@ == self@.nodes[id@],
                None => !self@.nodes.contains_key(id@),
            },
    {
        proof {
            self.lemma_index();
        }
        match self.find_index(id) {
            None => None,
            Some(i) => Some(&self.nodes[i]),
        }
    }

    /// Returns an immutable reference to the node with this identifier, or
    /// `Err(NodeNotFound)` when it is unknown.
    pub fn _get_node_res(&self, node_id: String) -> (r: Result<&Node<V>, TaxonomyError>)
        requires
            self.wf(),
        ensures
            match r {
                Ok(n) => self@.nodes.contains_key(node_id@) && n@ == self@.nodes[node_id@],
                Err(e) => !self@.nodes.contains_key(node_id@) && (e@ matches
                    crate::taxonomy_error::ErrorView::NodeNotFound(x) && x == node_id@),
            },
    {
        match self._get_node_opt(&node_id) {
            None => Err(TaxonomyError::NodeNotFound(node_id)),
            Some(n) => Ok(n),
        }
    }

    /// Returns the identifier of the root node at `index`, or `None` when
    /// `index` is at or beyond the number of roots.
    pub fn _get_root_node_id_at(&self, index: usize) -> (r: Option<String>)
        ensures
            match r {
                Some(s) => index < self@.roots.len() && s@ == self@.roots[index as int],
                None => index >= self@.roots.len(),
            },
    {
        if index < self.node0.len() {
            Some(self.node0[index].clone())
        } else {
            None
        }
    }
}


/// `i` clamped to at most `n`: the insertion position used when a caller
/// passes an index beyond the end of a list.
pub open spec fn at_most(i: int, n: int) -> int {
    if i <= n {
        i
    } else {
        n
    }
}

/// Attaching an existing node `c` under an existing node `p` (at any
/// position of `p`'s child list, with `Some(p)` appended to `c`'s parent
/// list) preserves every structural invariant, provided the edge is new and
/// closes no cycle.
proof fn lemma_attach_wf<V>(t0: TaxView<V>, p: Seq<char>, c: Seq<char>, j: int)
    requires
        t0.links_wf(),
        acyclic(t0.nodes),
        t0.cursor_ok(),
        t0.nodes.contains_key(p),
        t0.nodes.contains_key(c),
        !t0.nodes[p].subs.contains(c),
        p != c,
        !crate::reach::reaches(t0.nodes, c, p),
        0 <= j <= t0.nodes[p].subs.len(),
    ensures
        ({
            let m2 = t0.nodes.insert(
                p,
                (NodeView { subs: t0.nodes[p].subs.insert(j, c), ..t0.nodes[p] }),
            ).insert(c, (NodeView { supers: t0.nodes[c].supers.push(Some(p)), ..t0.nodes[c] }));
            let t2 = TaxView { nodes: m2, last: Some(c), ..t0 };
            &&& t2.links_wf()
            &&& acyclic(m2)
            &&& t2.cursor_ok()
        }),
{
    let m0 = t0.nodes;
    let pv = NodeView { subs: m0[p].subs.insert(j, c), ..m0[p] };
    let cv = NodeView { supers: m0[c].supers.push(Some(p)), ..m0[c] };
    let m1 = m0.insert(p, pv);
    let m2 = m1.insert(c, cv);
    let t2 = TaxView { nodes: m2, last: Some(c), ..t0 };
    crate::node::lemma_insert_props(m0[p].subs, j, c);
    crate::node::lemma_insert_props(m0[c].supers, m0[c].supers.len() as int, Some(p));
    assert(m0[c].supers.push(Some(p)) =~= m0[c].supers.insert(m0[c].supers.len() as int, Some(p)));
    // The consistency invariant gives that `Some(p)` was not yet a parent
    // entry of `c`.
    assert(!m0[c].supers.contains(Some(p)));
    assert(t2.links_wf()) by {
        assert forall|k: Seq<char>, s: Seq<char>|
            m2.contains_key(k) && #[trigger] m2[k].subs.contains(s) implies m2.contains_key(
            s,
        ) by {
            if k == p {
                assert(m0[p].subs.contains(s) || s == c);
            } else {
                assert(m0[k].subs.contains(s));
            }
        }
        assert forall|k: Seq<char>, q: Seq<char>|
            m2.contains_key(k) && #[trigger] m2[k].supers.contains(Some(q)) implies m2.contains_key(
            q,
        ) by {
            if k == c {
                assert(m0[c].supers.contains(Some(q)) || q == p);
            } else {
                assert(m0[k].supers.contains(Some(q)));
            }
        }
        assert forall|k: Seq<char>, q: Seq<char>|
            m2.contains_key(k) && m2.contains_key(q) implies (#[trigger] m2[q].subs.contains(k)
            <==> #[trigger] m2[k].supers.contains(Some(q))) by {
            if q == p && k == c {
                assert(m2[p].subs.contains(c));
                assert(m2[c].supers.contains(Some(p)));
            } else if q == p {
                assert(m2[p].subs.contains(k) <==> m0[p].subs.contains(k));
                assert(m2[k].supers == m0[k].supers);
            } else if k == c {
                assert(m2[c].supers.contains(Some(q)) <==> m0[c].supers.contains(Some(q)));
                assert(m2[q].subs == m0[q].subs);
            } else {
                assert(m2[q].subs == m0[q].subs && m2[k].supers == m0[k].supers);
            }
        }
        assert forall|k: Seq<char>| #[trigger] m2.contains_key(k) implies (m2[k].supers.contains(
            None,
        ) <==> t2.roots.contains(k)) by {
            if k == c {
                assert(m2[c].supers.contains(None) <==> m0[c].supers.contains(None));
            } else if k == p {
                assert(m2[p].supers == m0[p].supers);
            } else {
                assert(m2[k] == m0[k]);
            }
        }
        assert forall|k: Seq<char>| #[trigger] m2.contains_key(k) implies m2[k].wf() by {
            if k == c {
                assert(no_dups(m2[c].supers));
                assert(m2[c].supers.contains(None) <==> m0[c].supers.contains(None));
                if m2[c].supers.contains(None) {
                    assert(m0[c].supers.len() > 0);
                    assert(m2[c].supers[0] == m0[c].supers[0]);
                }
                assert(!m2[c].supers.contains(Some(c)));
            } else if k == p {
                assert(no_dups(m2[p].subs));
                assert(!m2[p].subs.contains(p));
            } else {
                assert(m2[k] == m0[k]);
            }
        }
    }
    assert(acyclic(m2)) by {
        assert forall|x: Seq<char>, y: Seq<char>| #[trigger]
            is_child_edge(m1, x, y) == (is_child_edge(m0, x, y) || (x == p && y == c)) by {
            if x == p {
                assert(m1[p].subs.contains(y) <==> (m0[p].subs.contains(y) || y == c));
            }
        }
        crate::reach::lemma_acyclic_add_edge(m0, m1, p, c);
        assert forall|x: Seq<char>, y: Seq<char>| #[trigger]
            is_child_edge(m2, x, y) == is_child_edge(m1, x, y) by {
            if x == c {
                assert(m2[c].subs == m1[c].subs);
            }
        }
        lemma_same_edges_reaches(m1, m2);
    }
    assert(t2.cursor_ok()) by {
        assert forall|i: int| 0 <= i < t2.cursor.len() implies t2.frame_valid(
            #[trigger] t2.cursor[i],
        ) by {
            assert(t0.frame_valid(t0.cursor[i]));
            match t2.cursor[i].super_id {
                None => {},
                Some(q) => {
                    if q == p {
                        assert(m2[p].subs.len() == m0[p].subs.len() + 1);
                    } else if q == c {
                        assert(m2[c].subs == m0[c].subs);
                    } else {
                        assert(m2[q] == m0[q]);
                    }
                },
            }
        }
    }
}

impl<V> Taxonomy<V> {
    /// Reports `DuplicateNode` when a node with this identifier already
    /// exists; `Ok` otherwise.
    pub fn _err_duplicate_node(&self, node_id: String) -> (r: Result<(), TaxonomyError>)
        requires
            self.wf(),
        ensures
            match r {
                Ok(()) => !self@.nodes.contains_key(node_id@),
                Err(e) => self@.nodes.contains_key(node_id@) && (e@ matches
                    crate::taxonomy_error::ErrorView::DuplicateNode(x) && x == node_id@),
            },
    {
        if self.contains_node(&node_id) {
            Err(TaxonomyError::DuplicateNode(node_id))
        } else {
            Ok(())
        }
    }

    /// Reports `NodeNotFound` when no node with this identifier exists;
    /// `Ok` otherwise.
    pub fn _err_node_not_found(&self, node_id: String) -> (r: Result<(), TaxonomyError>)
        requires
            self.wf(),
        ensures
            match r {
                Ok(()) => self@.nodes.contains_key(node_id@),
                Err(e) => !self@.nodes.contains_key(node_id@) && (e@ matches
                    crate::taxonomy_error::ErrorView::NodeNotFound(x) && x == node_id@),
            },
    {
        if self.contains_node(&node_id) {
            Ok(())
        } else {
            Err(TaxonomyError::NodeNotFound(node_id))
        }
    }

    /// Reports `DuplicateRootNode` when this identifier is already in the
    /// root list; `Ok` otherwise.
    pub fn _err_duplicate_root_node(&self, node_id: String) -> (r: Result<(), TaxonomyError>)
        ensures
            match r {
                Ok(()) => !self@.roots.contains(node_id@),
                Err(e) => self@.roots.contains(node_id@) && (e@ matches
                    crate::taxonomy_error::ErrorView::DuplicateRootNode(x) && x == node_id@),
            },
    {
        if crate::node::contains_id(&self.node0, &node_id) {
            Err(TaxonomyError::DuplicateRootNode(node_id))
        } else {
            Ok(())
        }
    }

    /// Reports `NodeNotFound` when the superordinate node does not exist and
    /// `DuplicateSubNode` when `node_id` is already one of its children;
    /// `Ok` otherwise.
    pub fn _err_duplicate_sub_node(&self, super_id: String, node_id: String) -> (r: Result<
        (),
        TaxonomyError,
    >)
        requires
            self.wf(),
        ensures
            match r {
                Ok(()) => self@.nodes.contains_key(super_id@) && !self@.nodes[
                    super_id@
                ].subs.contains(node_id@),
                Err(e) => match e@ {
                    crate::taxonomy_error::ErrorView::NodeNotFound(x) => x == super_id@
                        && !self@.nodes.contains_key(super_id@),
                    crate::taxonomy_error::ErrorView::DuplicateSubNode(s, n) => s == super_id@ && n
                        == node_id@ && self@.nodes.contains_key(super_id@) && self@.nodes[
                        super_id@
                    ].subs.contains(node_id@),
                    _ => false,
                },
            },
    {
        let sn = match self._get_node_opt(&super_id) {
            None => {
                return Err(TaxonomyError::NodeNotFound(super_id));
            },
            Some(n) => n,
        };
        if sn.has_sub_id(&node_id) {
            Err(TaxonomyError::DuplicateSubNode(super_id, node_id))
        } else {
            Ok(())
        }
    }

    /// Reports `DuplicateEdge` when the edge already exists; `Ok` otherwise
    /// (in particular when the superordinate node does not exist at all).
    pub fn _err_duplicate_edge(&self, edge: &Edge) -> (r: Result<(), TaxonomyError>)
        requires
            self.wf(),
        ensures
            match r {
                Ok(()) => !self@.edge_exists(edge@),
                Err(e) => self@.edge_exists(edge@) && (e@ matches
                    crate::taxonomy_error::ErrorView::DuplicateEdge(s, n) && s == edge@.super_id
                    && n == edge@.node_id),
            },
    {
        let node_id = edge.node_id();
        match edge.super_id() {
            None => {
                if crate::node::contains_id(&self.node0, &node_id) {
                    return Err(TaxonomyError::DuplicateEdge(None, node_id));
                }
            },
            Some(super_id) => {
                match self._get_node_opt(&super_id) {
                    None => {},
                    Some(sn) => {
                        if sn.has_sub_id(&node_id) {
                            return Err(TaxonomyError::DuplicateEdge(Some(super_id), node_id));
                        }
                    },
                }
            },
        }
        Ok(())
    }

    /// Reports `EdgeNotFound` when the edge does not exist; `Ok` otherwise.
    pub fn _err_edge_not_found(&self, edge: &Edge) -> (r: Result<(), TaxonomyError>)
        requires
            self.wf(),
        ensures
            match r {
                Ok(()) => self@.edge_exists(edge@),
                Err(e) => !self@.edge_exists(edge@) && (e@ matches
                    crate::taxonomy_error::ErrorView::EdgeNotFound(s, n) && s == edge@.super_id
                    && n == edge@.node_id),
            },
    {
        let node_id = edge.node_id();
        match edge.super_id() {
            None => {
                if !crate::node::contains_id(&self.node0, &node_id) {
                    return Err(TaxonomyError::EdgeNotFound(None, node_id));
                }
            },
            Some(super_id) => {
                match self._get_node_opt(&super_id) {
                    None => {
                        return Err(TaxonomyError::EdgeNotFound(Some(super_id), node_id));
                    },
                    Some(sn) => {
                        if !sn.has_sub_id(&node_id) {
                            return Err(TaxonomyError::EdgeNotFound(Some(super_id), node_id));
                        }
                    },
                }
            },
        }
        Ok(())
    }

    /// Reports `NodeHasSubNode` when the node still has children; `Ok`
    /// otherwise.
    pub fn _err_node_has_sub(&self, node: &Node<V>) -> (r: Result<(), TaxonomyError>)
        ensures
            match r {
                Ok(()) => node@.subs.len() == 0,
                Err(e) => node@.subs.len() > 0 && (e@ matches
                    crate::taxonomy_error::ErrorView::NodeHasSubNode(x) && x == node@.id),
            },
    {
        if node.has_sub() {
            Err(TaxonomyError::NodeHasSubNode(node.id()))
        } else {
            Ok(())
        }
    }

    /// Splices an existing node into the child list of an existing
    /// superordinate node at `index` (clamped to the end of the list), and
    /// records the superordinate node in the child's parent list. The edge
    /// must be new and must not close a cycle.
    pub fn _append_at(&mut self, super_id: String, node_id: String, index: usize)
        requires
            old(self).wf(),
            old(self)@.nodes.contains_key(super_id@),
            old(self)@.nodes.contains_key(node_id@),
            !old(self)@.nodes[super_id@].subs.contains(node_id@),
            super_id@ != node_id@,
            !crate::reach::reaches(old(self)@.nodes, node_id@, super_id@),
        ensures
            final(self)@ == (TaxView {
                nodes: old(self)@.nodes.insert(
                    super_id@,
                    (NodeView {
                        subs: old(self)@.nodes[super_id@].subs.insert(
                            at_most(index as int, old(self)@.nodes[super_id@].subs.len() as int),
                            node_id@,
                        ),
                        ..old(self)@.nodes[super_id@]
                    }),
                ).insert(
                    node_id@,
                    (NodeView {
                        supers: old(self)@.nodes[node_id@].supers.push(Some(super_id@)),
                        ..old(self)@.nodes[node_id@]
                    }),
                ),
                last: Some(node_id@),
                ..old(self)@
            }),
            final(self).wf(),
    {
        proof {
            self.lemma_index();
        }
        let ghost t0 = self@;
        let ghost ns0 = self.nodes@;
        let ip = match self.find_index(&super_id) {
            Some(i) => i,
            None => vstd::pervasive::unreached(),
        };
        let pn = vstd::std_specs::vec::vec_index_mut(&mut self.nodes, ip);
        pn.append_sub_at(node_id.clone(), index);
        proof {
            lemma_update_map(ns0, ip as int, self.nodes@[ip as int]);
            assert(self.nodes@ =~= ns0.update(ip as int, self.nodes@[ip as int]));
            assert(ids_of(self.nodes@) =~= ids_of(ns0));
            assert(ids_of(ns0).contains(node_id@)) by {
                lemma_map_index(ns0);
            }
            self.lemma_index();
        }
        let ghost ns1 = self.nodes@;
        let ic = match self.find_index(&node_id) {
            Some(i) => i,
            None => vstd::pervasive::unreached(),
        };
        let cn = vstd::std_specs::vec::vec_index_mut(&mut self.nodes, ic);
        cn.add_super(Some(super_id));
        self.last_updated_node = Some(node_id);
        proof {
            lemma_update_map(ns1, ic as int, self.nodes@[ic as int]);
            assert(self.nodes@ =~= ns1.update(ic as int, self.nodes@[ic as int]));
            let p = ns0[ip as int]@.id;
            let c = ns1[ic as int]@.id;
            let j = at_most(index as int, t0.nodes[p].subs.len() as int);
            assert(!t0.nodes[c].supers.contains(Some(p)));
            assert(self@.nodes =~= t0.nodes.insert(
                p,
                (NodeView { subs: t0.nodes[p].subs.insert(j, c), ..t0.nodes[p] }),
            ).insert(c, (NodeView { supers: t0.nodes[c].supers.push(Some(p)), ..t0.nodes[c] })));
            assert(self@.last =~= Some(c));
            lemma_attach_wf(t0, p, c, j);
            assert(self@ == (TaxView {
                nodes: self@.nodes,
                last: Some(c),
                ..t0
            }));
        }
    }

    /// Splices an existing node into the root list at `index` (clamped to
    /// the end of the list) and gives it the root marker. The node must not
    /// be a root yet.
    pub fn _append_root_at(&mut self, node_id: String, index: usize)
        requires
            old(self).wf(),
            old(self)@.nodes.contains_key(node_id@),
            !old(self)@.roots.contains(node_id@),
        ensures
            final(self)@ == (TaxView {
                nodes: old(self)@.nodes.insert(
                    node_id@,
                    (NodeView {
                        supers: old(self)@.nodes[node_id@].supers.insert(
                            0,
                            Option::<Seq<char>>::None,
                        ),
                        ..old(self)@.nodes[node_id@]
                    }),
                ),
                roots: old(self)@.roots.insert(
                    at_most(index as int, old(self)@.roots.len() as int),
                    node_id@,
                ),
                last: Some(node_id@),
                ..old(self)@
            }),
            final(self).wf(),
    {
        proof {
            self.lemma_index();
        }
        let ghost t0 = self@;
        let ghost ns0 = self.nodes@;
        let pos = if index <= self.node0.len() {
            index
        } else {
            self.node0.len()
        };
        self.node0.insert(pos, node_id.clone());
        let ic = match self.find_index(&node_id) {
            Some(i) => i,
            None => vstd::pervasive::unreached(),
        };
        let cn = vstd::std_specs::vec::vec_index_mut(&mut self.nodes, ic);
        cn.add_super(None);
        self.last_updated_node = Some(node_id);
        proof {
            lemma_update_map(ns0, ic as int, self.nodes@[ic as int]);
            assert(self.nodes@ =~= ns0.update(ic as int, self.nodes@[ic as int]));
            let c = ns0[ic as int]@.id;
            let m0 = t0.nodes;
            let cv = NodeView { supers: m0[c].supers.insert(0, Option::<Seq<char>>::None), ..m0[c] };
            let m2 = m0.insert(c, cv);
            let r2 = t0.roots.insert(at_most(index as int, t0.roots.len() as int), c);
            assert(self@.nodes =~= m2);
            assert(self@.roots =~= r2);
            assert(self@ == (TaxView { nodes: m2, roots: r2, last: Some(c), ..t0 }));
            crate::node::lemma_insert_props(m0[c].supers, 0, Option::<Seq<char>>::None);
            crate::node::lemma_insert_props(t0.roots, at_most(index as int, t0.roots.len() as int), c);
            assert(!m0[c].supers.contains(None));
            let t2 = TaxView { nodes: m2, roots: r2, last: Some(c), ..t0 };
            assert(t2.links_wf()) by {
                assert(no_dups(r2));
                assert forall|r: Seq<char>| r2.contains(r) implies m2.contains_key(r) by {
                    assert(t0.roots.contains(r) || r == c);
                }
                assert forall|k: Seq<char>, s: Seq<char>|
                    m2.contains_key(k) && #[trigger] m2[k].subs.contains(s) implies m2.contains_key(
                    s,
                ) by {
                    assert(m0[k].subs.contains(s));
                }
                assert forall|k: Seq<char>, q: Seq<char>|
                    m2.contains_key(k) && #[trigger] m2[k].supers.contains(Some(q))
                    implies m2.contains_key(q) by {
                    if k == c {
                        assert(m0[c].supers.contains(Some(q)));
                    } else {
                        assert(m0[k].supers.contains(Some(q)));
                    }
                }
                assert forall|k: Seq<char>, q: Seq<char>|
                    m2.contains_key(k) && m2.contains_key(q) implies (
                #[trigger] m2[q].subs.contains(k) <==> #[trigger] m2[k].supers.contains(
                    Some(q),
                )) by {
                    if k == c {
                        assert(m2[c].supers.contains(Some(q)) <==> m0[c].supers.contains(Some(q)));
                        assert(m2[q].subs == m0[q].subs);
                    } else {
                        assert(m2[q].subs == m0[q].subs && m2[k].supers == m0[k].supers);
                    }
                }
                assert forall|k: Seq<char>| #[trigger] m2.contains_key(k) implies (
                m2[k].supers.contains(None) <==> r2.contains(k)) by {
                    if k == c {
                        assert(m2[c].supers.contains(None));
                        assert(r2.contains(c));
                    } else {
                        assert(m2[k].supers == m0[k].supers);
                        assert(r2.contains(k) <==> t0.roots.contains(k) || k == c);
                    }
                }
                assert forall|k: Seq<char>| #[trigger] m2.contains_key(k) implies m2[k].wf() by {
                    if k == c {
                        assert(no_dups(m2[c].supers));
                        assert(m2[c].supers[0] is None);
                        assert(!m2[c].supers.contains(Some(c)));
                    } else {
                        assert(m2[k] == m0[k]);
                    }
                }
            }
            assert(acyclic(m2)) by {
                assert forall|x: Seq<char>, y: Seq<char>| #[trigger]
                    is_child_edge(m2, x, y) == is_child_edge(m0, x, y) by {
                    if x == c {
                        assert(m2[c].subs == m0[c].subs);
                    }
                }
                lemma_same_edges_reaches(m0, m2);
            }
            assert(t2.cursor_ok()) by {
                assert forall|i: int| 0 <= i < t2.cursor.len() implies t2.frame_valid(
                    #[trigger] t2.cursor[i],
                ) by {
                    assert(t0.frame_valid(t0.cursor[i]));
                    match t2.cursor[i].super_id {
                        None => {
                            assert(r2.len() == t0.roots.len() + 1);
                        },
                        Some(q) => {
                            if q == c {
                                assert(m2[c].subs == m0[c].subs);
                            } else {
                                assert(m2[q] == m0[q]);
                            }
                        },
                    }
                }
            }
        }
    }

    /// Adds a brand-new node as a root: it is stored, appended at the end
    /// of the root list, and carries only the root marker.
    pub fn _add_root_node(&mut self, node: Node<V>)
        requires
            old(self).wf(),
            !old(self)@.nodes.contains_key(node@.id),
            node@.supers == seq![Option::<Seq<char>>::None],
            node@.subs == Seq::<Seq<char>>::empty(),
        ensures
            final(self)@ == (TaxView {
                nodes: old(self)@.nodes.insert(node@.id, node@),
                roots: old(self)@.roots.push(node@.id),
                last: Some(node@.id),
                ..old(self)@
            }),
            final(self).wf(),
    {
        proof {
            self.lemma_index();
        }
        let ghost t0 = self@;
        let ghost ns0 = self.nodes@;
        let node_id = node.id();
        self.nodes.push(node);
        self.node0.push(node_id.clone());
        self.last_updated_node = Some(node_id);
        proof {
            lemma_push_map(ns0, self.nodes@[ns0.len() as int]);
            assert(self.nodes@ =~= ns0.push(self.nodes@[ns0.len() as int]));
            let c = self.nodes@[ns0.len() as int]@.id;
            let m0 = t0.nodes;
            let nv = self.nodes@[ns0.len() as int]@;
            let m2 = m0.insert(c, nv);
            let r2 = t0.roots.push(c);
            assert(self@.nodes =~= m2);
            assert(self@.roots =~= r2);
            assert(self@ == (TaxView { nodes: m2, roots: r2, last: Some(c), ..t0 }));
            crate::node::lemma_insert_props(t0.roots, t0.roots.len() as int, c);
            assert(t0.roots.push(c) =~= t0.roots.insert(t0.roots.len() as int, c));
            assert(!t0.roots.contains(c));
            let t2 = TaxView { nodes: m2, roots: r2, last: Some(c), ..t0 };
            assert(nv.supers[0] is None);
            assert(nv.supers.contains(None));
            assert forall|q: Seq<char>| !nv.supers.contains(Some(q)) by {
                if nv.supers.contains(Some(q)) {
                    let ii = choose|ii: int|
                        0 <= ii < nv.supers.len() && nv.supers[ii] == Some(q);
                    assert(nv.supers[ii] is None);
                }
            }
            assert(!nv.subs.contains(c));
            assert(t2.links_wf()) by {
                assert(no_dups(r2));
                assert forall|r: Seq<char>| r2.contains(r) implies m2.contains_key(r) by {
                    assert(t0.roots.contains(r) || r == c);
                }
                assert forall|k: Seq<char>, s: Seq<char>|
                    m2.contains_key(k) && #[trigger] m2[k].subs.contains(s) implies m2.contains_key(
                    s,
                ) by {
                    if k != c {
                        assert(m0[k].subs.contains(s));
                    }
                }
                assert forall|k: Seq<char>, q: Seq<char>|
                    m2.contains_key(k) && #[trigger] m2[k].supers.contains(Some(q))
                    implies m2.contains_key(q) by {
                    if k != c {
                        assert(m0[k].supers.contains(Some(q)));
                    }
                }
                assert forall|k: Seq<char>, q: Seq<char>|
                    m2.contains_key(k) && m2.contains_key(q) implies (
                #[trigger] m2[q].subs.contains(k) <==> #[trigger] m2[k].supers.contains(
                    Some(q),
                )) by {
                    if q == c && k == c {
                    } else if q == c {
                        assert(!m2[c].subs.contains(k));
                        assert(m2[k].supers == m0[k].supers);
                        if m0[k].supers.contains(Some(c)) {
                            assert(m0.contains_key(c));
                        }
                    } else if k == c {
                        if m0[q].subs.contains(c) {
                            assert(m0.contains_key(c));
                        }
                    } else {
                        assert(m2[q].subs == m0[q].subs && m2[k].supers == m0[k].supers);
                    }
                }
                assert forall|k: Seq<char>| #[trigger] m2.contains_key(k) implies (
                m2[k].supers.contains(None) <==> r2.contains(k)) by {
                    if k == c {
                        assert(r2.contains(c));
                    } else {
                        assert(m2[k].supers == m0[k].supers);
                        assert(r2.contains(k) <==> t0.roots.contains(k) || k == c);
                    }
                }
                assert forall|k: Seq<char>| #[trigger] m2.contains_key(k) implies m2[k].wf() by {
                    if k == c {
                        assert(no_dups(nv.supers));
                        assert(no_dups(nv.subs));
                        assert(!nv.supers.contains(Some(nv.id)));
                        assert(!nv.subs.contains(nv.id));
                    } else {
                        assert(m2[k] == m0[k]);
                    }
                }
            }
            assert(acyclic(m2)) by {
                assert forall|x: Seq<char>, y: Seq<char>| #[trigger]
                    is_child_edge(m2, x, y) == is_child_edge(m0, x, y) by {
                    if x == c {
                        assert(!nv.subs.contains(y));
                        if m0.contains_key(c) {
                            assert(false);
                        }
                    }
                }
                lemma_same_edges_reaches(m0, m2);
            }
            assert(t2.cursor_ok()) by {
                assert forall|i: int| 0 <= i < t2.cursor.len() implies t2.frame_valid(
                    #[trigger] t2.cursor[i],
                ) by {
                    assert(t0.frame_valid(t0.cursor[i]));
                    match t2.cursor[i].super_id {
                        None => {},
                        Some(q) => {
                            assert(m2[q].subs == m0[q].subs);
                        },
                    }
                }
            }
        }
    }

    /// Adds a brand-new node (no parents, no children yet) as the last
    /// child of an existing superordinate node.
    pub fn _add_non_root_node(&mut self, super_id: String, node: Node<V>)
        requires
            old(self).wf(),
            old(self)@.nodes.contains_key(super_id@),
            !old(self)@.nodes.contains_key(node@.id),
            node@.supers == Seq::<Option<Seq<char>>>::empty(),
            node@.subs == Seq::<Seq<char>>::empty(),
        ensures
            final(self)@ == (TaxView {
                nodes: old(self)@.nodes.insert(
                    super_id@,
                    (NodeView {
                        subs: old(self)@.nodes[super_id@].subs.push(node@.id),
                        ..old(self)@.nodes[super_id@]
                    }),
                ).insert(node@.id, (NodeView { supers: seq![Some(super_id@)], ..node@ })),
                last: Some(node@.id),
                ..old(self)@
            }),
            final(self).wf(),
    {
        proof {
            self.lemma_index();
        }
        let ghost t0 = self@;
        let ghost ns0 = self.nodes@;
        let node_id = node.id();
        self.nodes.push(node);
        proof {
            lemma_push_map(ns0, self.nodes@[ns0.len() as int]);
            assert(self.nodes@ =~= ns0.push(self.nodes@[ns0.len() as int]));
            let c = node_id@;
            let m0 = t0.nodes;
            let nv = self.nodes@[ns0.len() as int]@;
            let m1 = m0.insert(c, nv);
            assert(self@.nodes =~= m1);
            assert(self@ == (TaxView { nodes: m1, ..t0 }));
            let t1 = TaxView { nodes: m1, ..t0 };
            assert(t1.links_wf()) by {
                assert forall|k: Seq<char>, s: Seq<char>|
                    m1.contains_key(k) && #[trigger] m1[k].subs.contains(s) implies m1.contains_key(
                    s,
                ) by {
                    if k != c {
                        assert(m0[k].subs.contains(s));
                    }
                }
                assert forall|k: Seq<char>, q: Seq<char>|
                    m1.contains_key(k) && #[trigger] m1[k].supers.contains(Some(q))
                    implies m1.contains_key(q) by {
                    if k != c {
                        assert(m0[k].supers.contains(Some(q)));
                    }
                }
                assert forall|k: Seq<char>, q: Seq<char>|
                    m1.contains_key(k) && m1.contains_key(q) implies (
                #[trigger] m1[q].subs.contains(k) <==> #[trigger] m1[k].supers.contains(
                    Some(q),
                )) by {
                    if q == c || k == c {
                        if q != c && m0[q].subs.contains(c) {
                            assert(m0.contains_key(c));
                        }
                        if k != c && m0[k].supers.contains(Some(c)) {
                            assert(m0.contains_key(c));
                        }
                    } else {
                        assert(m1[q].subs == m0[q].subs && m1[k].supers == m0[k].supers);
                    }
                }
                assert forall|k: Seq<char>| #[trigger] m1.contains_key(k) implies (
                m1[k].supers.contains(None) <==> t1.roots.contains(k)) by {
                    if k == c {
                        if t0.roots.contains(c) {
                            assert(m0.contains_key(c));
                        }
                    } else {
                        assert(m1[k].supers == m0[k].supers);
                    }
                }
                assert forall|k: Seq<char>| #[trigger] m1.contains_key(k) implies m1[k].wf() by {
                    if k != c {
                        assert(m1[k] == m0[k]);
                    }
                }
            }
            assert(acyclic(m1)) by {
                assert forall|x: Seq<char>, y: Seq<char>| #[trigger]
                    is_child_edge(m1, x, y) == is_child_edge(m0, x, y) by {
                    if x == c {
                        if m0.contains_key(c) {
                            assert(false);
                        }
                    }
                }
                lemma_same_edges_reaches(m0, m1);
            }
            assert(t1.cursor_ok()) by {
                assert forall|i: int| 0 <= i < t1.cursor.len() implies t1.frame_valid(
                    #[trigger] t1.cursor[i],
                ) by {
                    assert(t0.frame_valid(t0.cursor[i]));
                    match t1.cursor[i].super_id {
                        None => {},
                        Some(q) => {
                            assert(m1[q].subs == m0[q].subs);
                        },
                    }
                }
            }
            assert(!crate::reach::reaches(m1, c, super_id@)) by {
                assert forall|b: Seq<char>| !is_child_edge(m1, c, b) by {
                    assert(m1[c].subs.len() == 0);
                }
                crate::reach::lemma_no_first_edge_no_reach(m1, c);
            }
        }
        let sc = self.count_sub_nodes(&super_id);
        self._append_at(super_id, node_id, sc);
        proof {
            let c = node@.id;
            assert(old(self)@.nodes[super_id@].subs.push(c) =~= old(self)@.nodes[
                super_id@
            ].subs.insert(old(self)@.nodes[super_id@].subs.len() as int, c));
            assert(seq![Some(super_id@)] =~= Seq::<Option<Seq<char>>>::empty().push(
                Some(super_id@),
            ));
            assert(self@.nodes =~= old(self)@.nodes.insert(
                super_id@,
                (NodeView {
                    subs: old(self)@.nodes[super_id@].subs.push(c),
                    ..old(self)@.nodes[super_id@]
                }),
            ).insert(c, (NodeView { supers: seq![Some(super_id@)], ..node@ })));
            assert(self@ == (TaxView {
                nodes: self@.nodes,
                last: Some(c),
                ..old(self)@
            }));
        }
    }

    /// Returns the number of children of an existing node.
    fn count_sub_nodes(&self, id: &String) -> (r: usize)
        requires
            self.wf(),
            self@.nodes.contains_key(id@),
        ensures
            r == self@.nodes[id@].subs.len(),
    {
        match self._get_node_opt(id) {
            Some(n) => n.count_subs(),
            None => vstd::pervasive::unreached(),
        }
    }

    /// Adds an element to the taxonomy: as a new root when `super_id` is
    /// `None`, or as the last child of the named superordinate node.
    ///
    /// Fails with `DuplicateNode` when an element with the same identity is
    /// already stored, and with `NodeNotFound` when the superordinate node
    /// is unknown; nothing changes in either case.
    pub fn add(&mut self, super_id: Option<String>, element: V) -> (r: Result<(), TaxonomyError>)
        where V: Identity
        requires
            old(self).wf(),
            old(self)@.fully_parented(),
        ensures
            final(self).wf(),
            final(self)@.fully_parented(),
            match r {
                Err(e) => *final(self) == *old(self) && match e@ {
                    crate::taxonomy_error::ErrorView::DuplicateNode(x) => x == element.id_spec()
                        && old(self)@.nodes.contains_key(element.id_spec()),
                    crate::taxonomy_error::ErrorView::NodeNotFound(x) => {
                        &&& !old(self)@.nodes.contains_key(element.id_spec())
                        &&& super_id.deep_view() matches Some(s)
                        &&& x == s
                        &&& !old(self)@.nodes.contains_key(s)
                    },
                    _ => false,
                },
                Ok(()) => {
                    &&& !old(self)@.nodes.contains_key(element.id_spec())
                    &&& match super_id.deep_view() {
                        Option::<Seq<char>>::None => final(self)@ == (TaxView {
                            nodes: old(self)@.nodes.insert(
                                element.id_spec(),
                                (NodeView {
                                    id: element.id_spec(),
                                    element: element,
                                    supers: seq![Option::<Seq<char>>::None],
                                    subs: Seq::<Seq<char>>::empty(),
                                }),
                            ),
                            roots: old(self)@.roots.push(element.id_spec()),
                            last: Some(element.id_spec()),
                            ..old(self)@
                        }),
                        Option::<Seq<char>>::Some(s) => {
                            &&& old(self)@.nodes.contains_key(s)
                            &&& final(self)@ == (TaxView {
                                nodes: old(self)@.nodes.insert(
                                    s,
                                    (NodeView {
                                        subs: old(self)@.nodes[s].subs.push(element.id_spec()),
                                        ..old(self)@.nodes[s]
                                    }),
                                ).insert(
                                    element.id_spec(),
                                    (NodeView {
                                        id: element.id_spec(),
                                        element: element,
                                        supers: seq![Some(s)],
                                        subs: Seq::<Seq<char>>::empty(),
                                    }),
                                ),
                                last: Some(element.id_spec()),
                                ..old(self)@
                            })
                        },
                    }
                },
            },
    {
        let node_id = element.id();
        match self._err_duplicate_node(node_id) {
            Err(e) => {
                return Err(e);
            },
            Ok(()) => {},
        }
        match super_id {
            None => {
                let node = Node::new(element);
                self._add_root_node(node);
                proof {
                    lemma_parented_insert(old(self)@, self@);
                }
            },
            Some(super_id) => {
                match self._err_node_not_found(super_id.clone()) {
                    Err(e) => {
                        return Err(e);
                    },
                    Ok(()) => {},
                }
                let mut node = Node::new(element);
                node.remove_super(None);
                proof {
                    let s0 = seq![Option::<Seq<char>>::None];
                    assert(s0[0] is None);
                    assert(s0.contains(Option::<Seq<char>>::None));
                    s0.index_of_first_ensures(Option::<Seq<char>>::None);
                    assert(node@.supers =~= Seq::<Option<Seq<char>>>::empty());
                }
                self._add_non_root_node(super_id, node);
                proof {
                    lemma_parented_insert(old(self)@, self@);
                }
            },
        }
        Ok(())
    }
}

/// When a state is fully parented and a second state's nodes all keep a
/// non-empty parent list or are new nodes with one, the second state is
/// fully parented too. Stated directly over the two states' node maps.
proof fn lemma_parented_insert<V>(t0: TaxView<V>, t1: TaxView<V>)
    requires
        t0.fully_parented(),
        forall|k: Seq<char>|
            #[trigger] t1.nodes.contains_key(k) ==> (t0.nodes.contains_key(k) && t1.nodes[
                k
            ].supers.len() >= t0.nodes[k].supers.len()) || t1.nodes[k].supers.len() > 0,
    ensures
        t1.fully_parented(),
{
    assert forall|k: Seq<char>| #[trigger] t1.nodes.contains_key(k) implies t1.nodes[
        k
    ].supers.len() > 0 by {
        if t0.nodes.contains_key(k) && t1.nodes[k].supers.len() >= t0.nodes[k].supers.len() {
            assert(t0.nodes[k].supers.len() > 0);
        }
    }
}


/// A duplicate-free sequence of members of a finite set is no longer than
/// the set.
proof fn lemma_distinct_bound(s: Seq<Seq<char>>, dom: Set<Seq<char>>)
    requires
        no_dups(s),
        dom.finite(),
        forall|x: Seq<char>| s.contains(x) ==> dom.contains(x),
    ensures
        s.len() <= dom.len(),
{
    assert(s.no_duplicates());
    s.unique_seq_to_set();
    assert(s.to_set().subset_of(dom)) by {
        assert forall|x: Seq<char>| s.to_set().contains(x) implies dom.contains(x) by {
            assert(s.contains(x));
        }
    }
    vstd::set_lib::lemma_len_subset(s.to_set(), dom);
}

impl<V> Taxonomy<V> {
    /// Collects the identifiers of all direct and indirect subordinates of
    /// `start_node`, each one once, in no particular order. Unknown
    /// identifiers and nodes without subordinates give an empty list.
    #[verifier::rlimit(100)]
    pub fn _enumerate_subs(&self, start_node: String) -> (r: Vec<String>)
        requires
            self.wf(),
        ensures
            no_dups(r.deep_view()),
            forall|x: Seq<char>|
                #[trigger] r.deep_view().contains(x) <==> crate::reach::reaches(
                    self@.nodes,
                    start_node@,
                    x,
                ),
    {
        let ghost m = self@.nodes;
        let ghost a = start_node@;
        proof {
            self.lemma_dom_len();
        }
        let mut visited: Vec<String> = Vec::new();
        let mut pending: Vec<String> = Vec::new();
        match self._get_node_opt(&start_node) {
            None => {
                proof {
                    assert forall|b: Seq<char>| !is_child_edge(m, a, b) by {}
                    crate::reach::lemma_no_first_edge_no_reach(m, a);
                }
                return visited;
            },
            Some(n) => {
                let subs = n.subs();
                let mut j: usize = 0;
                while j < subs.len()
                    invariant
                        j <= subs.deep_view().len(),
                        subs.deep_view() == m[a].subs,
                        m.contains_key(a),
                        pending.deep_view().len() == j,
                        forall|i: int|
                            0 <= i < j ==> pending.deep_view()[i] == subs.deep_view()[i],
                    decreases subs.deep_view().len() - j,
                {
                    pending.push(subs[j].clone());
                    j = j + 1;
                }
                proof {
                    assert(pending.deep_view() =~= m[a].subs);
                }
            },
        }
        proof {
            assert forall|x: Seq<char>|
                #[trigger] pending.deep_view().contains(x) implies crate::reach::reaches(
                m,
                a,
                x,
            ) by {
                crate::reach::lemma_edge_reaches(m, a, x);
            }
        }
        loop
            invariant
                self.wf(),
                m == self@.nodes,
                a == start_node@,
                m.dom().finite(),
                no_dups(visited.deep_view()),
                forall|x: Seq<char>|
                    #[trigger] visited.deep_view().contains(x) ==> crate::reach::reaches(m, a, x),
                forall|x: Seq<char>|
                    #[trigger] pending.deep_view().contains(x) ==> crate::reach::reaches(m, a, x),
                forall|x: Seq<char>|
                    #[trigger] visited.deep_view().contains(x) ==> m.contains_key(x),
                forall|v: Seq<char>, w: Seq<char>|
                    visited.deep_view().contains(v) && #[trigger] is_child_edge(m, v, w)
                        ==> visited.deep_view().contains(w) || pending.deep_view().contains(w),
                forall|w: Seq<char>|
                    #[trigger] is_child_edge(m, a, w) ==> visited.deep_view().contains(w)
                        || pending.deep_view().contains(w),
            ensures
                pending.deep_view().len() == 0,
                no_dups(visited.deep_view()),
                forall|x: Seq<char>|
                    #[trigger] visited.deep_view().contains(x) ==> crate::reach::reaches(m, a, x),
                forall|v: Seq<char>, w: Seq<char>|
                    visited.deep_view().contains(v) && #[trigger] is_child_edge(m, v, w)
                        ==> visited.deep_view().contains(w),
                forall|w: Seq<char>|
                    #[trigger] is_child_edge(m, a, w) ==> visited.deep_view().contains(w),
            decreases m.dom().len() - visited.deep_view().len(), pending.deep_view().len(),
        {
            proof {
                lemma_distinct_bound(visited.deep_view(), m.dom());
            }
            let ghost pend0 = pending.deep_view();
            let x = match pending.pop() {
                None => {
                    break ;
                },
                Some(x) => x,
            };
            proof {
                assert(pending.deep_view() =~= pend0.drop_last());
                assert(pend0[pend0.len() - 1] == x@);
                assert(pend0.contains(x@));
                assert forall|w: Seq<char>| #[trigger]
                    pending.deep_view().contains(w) implies pend0.contains(w) by {
                    let i = choose|i: int|
                        0 <= i < pending.deep_view().len() && pending.deep_view()[i] == w;
                    assert(pend0[i] == w);
                }
                assert forall|w: Seq<char>|
                    pend0.contains(w) && w != x@ implies #[trigger]
                    pending.deep_view().contains(w) by {
                    let i = choose|i: int| 0 <= i < pend0.len() && pend0[i] == w;
                    assert(i < pend0.len() - 1);
                    assert(pending.deep_view()[i] == w);
                }
            }
            if crate::node::contains_id(&visited, &x) {
                proof {
                    assert forall|v: Seq<char>, w: Seq<char>|
                        visited.deep_view().contains(v) && #[trigger] is_child_edge(m, v, w)
                            implies visited.deep_view().contains(w)
                        || pending.deep_view().contains(w) by {
                        if !visited.deep_view().contains(w) && w != x@ {
                            assert(pend0.contains(w));
                        }
                    }
                    assert forall|w: Seq<char>|
                        #[trigger] is_child_edge(m, a, w) implies visited.deep_view().contains(w)
                        || pending.deep_view().contains(w) by {
                        if !visited.deep_view().contains(w) && w != x@ {
                            assert(pend0.contains(w));
                        }
                    }
                }
                continue ;
            }
            proof {
                assert(crate::reach::reaches(m, a, x@));
                crate::reach::lemma_reaches_in_dom(m, a, x@);
                let vs = visited.deep_view().push(x@);
                crate::node::lemma_insert_props(
                    visited.deep_view(),
                    visited.deep_view().len() as int,
                    x@,
                );
                assert(vs =~= visited.deep_view().insert(visited.deep_view().len() as int, x@));
                assert(no_dups(vs));
                assert forall|q: Seq<char>| vs.contains(q) implies m.dom().contains(q) by {
                    if q != x@ {
                        assert(visited.deep_view().contains(q));
                    }
                }
                lemma_distinct_bound(vs, m.dom());
            }
            let ghost visited0 = visited.deep_view();
            visited.push(x.clone());
            proof {
                crate::node::lemma_insert_props(visited0, visited0.len() as int, x@);
                assert(visited.deep_view() =~= visited0.insert(visited0.len() as int, x@));
            }
            let n = match self._get_node_opt(&x) {
                Some(n) => n,
                None => vstd::pervasive::unreached(),
            };
            let subs = n.subs();
            let ghost pend1 = pending.deep_view();
            let mut j: usize = 0;
            while j < subs.len()
                invariant
                    j <= subs.deep_view().len(),
                    subs.deep_view() == m[x@].subs,
                    m.contains_key(x@),
                    pending.deep_view().len() == pend1.len() + j,
                    forall|i: int| 0 <= i < pend1.len() ==> pending.deep_view()[i] == pend1[i],
                    forall|i: int|
                        0 <= i < j ==> pending.deep_view()[pend1.len() + i]
                            == subs.deep_view()[i],
                decreases subs.deep_view().len() - j,
            {
                pending.push(subs[j].clone());
                j = j + 1;
            }
            proof {
                assert forall|w: Seq<char>|
                    pend1.contains(w) || m[x@].subs.contains(w) implies #[trigger]
                    pending.deep_view().contains(w) by {
                    if pend1.contains(w) {
                        let i = choose|i: int| 0 <= i < pend1.len() && pend1[i] == w;
                        assert(pending.deep_view()[i] == w);
                    } else {
                        let i = choose|i: int| 0 <= i < m[x@].subs.len() && m[x@].subs[i] == w;
                        assert(pending.deep_view()[pend1.len() + i] == w);
                    }
                }
                assert forall|w: Seq<char>| #[trigger]
                    pending.deep_view().contains(w) implies pend1.contains(w) || m[
                    x@
                ].subs.contains(w) by {
                    let i = choose|i: int|
                        0 <= i < pending.deep_view().len() && pending.deep_view()[i] == w;
                    if i < pend1.len() {
                        assert(pend1[i] == w);
                    } else {
                        assert(m[x@].subs[i - pend1.len()] == w);
                    }
                }
                assert forall|w: Seq<char>| #[trigger]
                    pending.deep_view().contains(w) implies crate::reach::reaches(m, a, w) by {
                    if !pend1.contains(w) {
                        crate::reach::lemma_edge_reaches(m, x@, w);
                        crate::reach::lemma_reaches_trans(m, a, x@, w);
                    }
                }
                assert forall|v: Seq<char>, w: Seq<char>|
                    visited.deep_view().contains(v) && #[trigger] is_child_edge(m, v, w)
                        implies visited.deep_view().contains(w)
                    || pending.deep_view().contains(w) by {
                    if v == x@ {
                        assert(m[x@].subs.contains(w));
                    } else if !visited0.contains(w) && !visited.deep_view().contains(w) && w
                        != x@ {
                        assert(visited0.contains(v));
                        assert(pend0.contains(w));
                        assert(pend1.contains(w));
                    }
                }
                assert forall|w: Seq<char>|
                    #[trigger] is_child_edge(m, a, w) implies visited.deep_view().contains(w)
                    || pending.deep_view().contains(w) by {
                    if !visited.deep_view().contains(w) && w != x@ {
                        assert(pend0.contains(w));
                        assert(pend1.contains(w));
                    }
                }
                assert forall|q: Seq<char>| #[trigger]
                    visited.deep_view().contains(q) implies crate::reach::reaches(m, a, q) by {
                    if q != x@ {
                        assert(visited0.contains(q));
                    }
                }
                assert forall|q: Seq<char>| #[trigger]
                    visited.deep_view().contains(q) implies m.contains_key(q) by {
                    if q != x@ {
                        assert(visited0.contains(q));
                    }
                }
            }
        }
        proof {
            assert(pending.deep_view().len() == 0);
            assert forall|x: Seq<char>| #[trigger]
                crate::reach::reaches(m, a, x) implies visited.deep_view().contains(x) by {
                let vset = visited.deep_view().to_set();
                assert forall|w: Seq<char>| is_child_edge(m, a, w) implies vset.contains(w) by {
                    assert(visited.deep_view().contains(w) || pending.deep_view().contains(w));
                    assert(visited.deep_view().contains(w));
                }
                assert forall|v: Seq<char>, w: Seq<char>|
                    vset.contains(v) && #[trigger] is_child_edge(m, v, w) implies vset.contains(
                    w,
                ) by {
                    assert(visited.deep_view().contains(v));
                    assert(visited.deep_view().contains(w) || pending.deep_view().contains(w));
                    assert(visited.deep_view().contains(w));
                }
                crate::reach::lemma_closed_set_covers(m, a, vset);
            }
        }
        visited
    }
}


impl<V> Taxonomy<V> {
    /// Detects whether attaching `node_id` under `super_id` would create a
    /// cycle: immediately when the two are the same node, or when
    /// `super_id` is a (direct or indirect) subordinate of `node_id`; the
    /// check then sweeps over the ancestors of `super_id`, which under the
    /// structural invariants can find nothing new. A caller that already
    /// knows the subordinates of `node_id` passes them in `subs` to avoid
    /// recomputation.
    pub fn _err_loop_detected(
        &self,
        super_id: String,
        node_id: String,
        subs: Option<Vec<String>>,
    ) -> (r: Result<(), TaxonomyError>)
        requires
            self.wf(),
            self@.nodes.contains_key(super_id@),
            match subs {
                None => true,
                Some(d) => forall|x: Seq<char>|
                    #[trigger] d.deep_view().contains(x) <==> crate::reach::reaches(
                        self@.nodes,
                        node_id@,
                        x,
                    ),
            },
        ensures
            r is Ok <==> !(super_id@ == node_id@ || crate::reach::reaches(
                self@.nodes,
                node_id@,
                super_id@,
            )),
            r matches Err(e) ==> (e@ matches crate::taxonomy_error::ErrorView::LoopDetected(x)
                && x == node_id@),
    {
        let ghost m = self@.nodes;
        let ghost super_v = super_id@;
        let ghost node_v = node_id@;
        if super_id == node_id {
            return Err(TaxonomyError::LoopDetected(node_id));
        }
        let d = match subs {
            None => self._enumerate_subs(node_id.clone()),
            Some(d) => d,
        };
        if crate::node::contains_id(&d, &super_id) {
            return Err(TaxonomyError::LoopDetected(node_id));
        }
        proof {
            self.lemma_dom_len();
            self.lemma_index();
        }
        // Sweep upward over the ancestors of the prospective superordinate
        // node; under the structural invariants none of them can lie below
        // `node_id`, so this pass never reports anything new.
        let mut visited: Vec<String> = Vec::new();
        let mut worklist: Vec<String> = match self._get_node_opt(&super_id) {
            Some(n) => n.supers(),
            None => vstd::pervasive::unreached(),
        };
        proof {
            crate::node::lemma_real_ids(self@.nodes[super_v].supers);
            assert forall|i: int|
                0 <= i < worklist.deep_view().len() implies crate::reach::reaches(
                m,
                #[trigger] worklist.deep_view()[i],
                super_v,
            ) && m.contains_key(worklist.deep_view()[i]) by {
                let q = worklist.deep_view()[i];
                assert(worklist.deep_view().contains(q));
                assert(self@.nodes[super_v].supers.contains(Some(q)));
                assert(is_child_edge(m, q, super_v));
                crate::reach::lemma_edge_reaches(m, q, super_v);
            }
        }
        loop
            invariant
                self.wf(),
                m == self@.nodes,
                m.dom().finite(),
                super_v != node_v,
                !crate::reach::reaches(m, node_v, super_v),
                forall|x: Seq<char>|
                    #[trigger] d.deep_view().contains(x) <==> crate::reach::reaches(m, node_v, x),
                no_dups(visited.deep_view()),
                forall|x: Seq<char>|
                    #[trigger] visited.deep_view().contains(x) ==> m.contains_key(x),
                forall|i: int|
                    0 <= i < worklist.deep_view().len() ==> crate::reach::reaches(
                        m,
                        #[trigger] worklist.deep_view()[i],
                        super_v,
                    ) && m.contains_key(worklist.deep_view()[i]),
            decreases m.dom().len() - visited.deep_view().len(), worklist.deep_view().len(),
        {
            proof {
                lemma_distinct_bound(visited.deep_view(), m.dom());
            }
            let ghost work0 = worklist.deep_view();
            let q = match worklist.pop() {
                None => {
                    break ;
                },
                Some(q) => q,
            };
            proof {
                assert(work0[work0.len() - 1] == q@);
                assert(worklist.deep_view() =~= work0.drop_last());
                assert forall|i: int|
                    0 <= i < worklist.deep_view().len() implies crate::reach::reaches(
                    m,
                    #[trigger] worklist.deep_view()[i],
                    super_v,
                ) && m.contains_key(worklist.deep_view()[i]) by {
                    assert(worklist.deep_view()[i] == work0[i]);
                }
            }
            if crate::node::contains_id(&visited, &q) {
                continue ;
            }
            if crate::node::contains_id(&d, &q) {
                proof {
                    // `q` would lie both above `super_id` and below
                    // `node_id`, giving a walk from `node_id` to
                    // `super_id`, which the membership check above has
                    // already ruled out.
                    crate::reach::lemma_reaches_trans(m, node_v, q@, super_v);
                }
                return Err(TaxonomyError::LoopDetected(node_id));
            }
            proof {
                let vs = visited.deep_view().push(q@);
                crate::node::lemma_insert_props(
                    visited.deep_view(),
                    visited.deep_view().len() as int,
                    q@,
                );
                assert(vs =~= visited.deep_view().insert(visited.deep_view().len() as int, q@));
                assert forall|y: Seq<char>| vs.contains(y) implies m.dom().contains(y) by {
                    if y != q@ {
                        assert(visited.deep_view().contains(y));
                    }
                }
                lemma_distinct_bound(vs, m.dom());
            }
            let ghost visited0 = visited.deep_view();
            visited.push(q.clone());
            proof {
                crate::node::lemma_insert_props(visited0, visited0.len() as int, q@);
                assert(visited.deep_view() =~= visited0.insert(visited0.len() as int, q@));
                assert forall|y: Seq<char>| #[trigger]
                    visited.deep_view().contains(y) implies m.contains_key(y) by {
                    if y != q@ {
                        assert(visited0.contains(y));
                    }
                }
            }
            let qs = match self._get_node_opt(&q) {
                Some(n) => n.supers(),
                None => vstd::pervasive::unreached(),
            };
            proof {
                crate::node::lemma_real_ids(m[q@].supers);
            }
            let ghost work1 = worklist.deep_view();
            let mut j: usize = 0;
            while j < qs.len()
                invariant
                    j <= qs.deep_view().len(),
                    qs.deep_view() == crate::node::real_ids(m[q@].supers),
                    m.contains_key(q@),
                    crate::reach::reaches(m, q@, super_v),
                    forall|x: Seq<char>|
                        #[trigger] qs.deep_view().contains(x) ==> m[q@].supers.contains(Some(x)),
                    worklist.deep_view().len() == work1.len() + j,
                    forall|i: int| 0 <= i < work1.len() ==> worklist.deep_view()[i] == work1[i],
                    forall|i: int|
                        0 <= i < j ==> worklist.deep_view()[work1.len() + i]
                            == qs.deep_view()[i],
                decreases qs.deep_view().len() - j,
            {
                worklist.push(qs[j].clone());
                j = j + 1;
            }
            proof {
                assert forall|i: int|
                    0 <= i < worklist.deep_view().len() implies crate::reach::reaches(
                    m,
                    #[trigger] worklist.deep_view()[i],
                    super_v,
                ) && m.contains_key(worklist.deep_view()[i]) by {
                    let y = worklist.deep_view()[i];
                    if i < work1.len() {
                        assert(y == work1[i]);
                    } else {
                        assert(y == qs.deep_view()[i - work1.len()]);
                        assert(qs.deep_view().contains(y));
                        assert(m[q@].supers.contains(Some(y)));
                        assert(m.contains_key(y));
                        assert(m[y].subs.contains(q@));
                        assert(is_child_edge(m, y, q@));
                        crate::reach::lemma_edge_reaches(m, y, q@);
                        crate::reach::lemma_reaches_trans(m, y, q@, super_v);
                    }
                }
            }
        }
        Ok(())
    }

    /// Attaches an existing node to an existing superordinate node (or to
    /// the root level for `None`) as the last entry.
    ///
    /// Fails with `NodeNotFound` when either identifier is unknown, with
    /// `DuplicateRootNode` or `DuplicateSubNode` when the relationship
    /// already exists, and with `LoopDetected` when it would create a
    /// cycle; nothing changes in any of these cases.
    pub fn append(&mut self, super_id: Option<String>, node_id: String) -> (r: Result<
        (),
        TaxonomyError,
    >)
        requires
            old(self).wf(),
            old(self)@.fully_parented(),
        ensures
            final(self).wf(),
            final(self)@.fully_parented(),
            match r {
                Err(e) => *final(self) == *old(self) && append_err_spec(
                    old(self)@,
                    super_id.deep_view(),
                    node_id@,
                    e@,
                ),
                Ok(()) => append_ok_spec(
                    old(self)@,
                    final(self)@,
                    super_id.deep_view(),
                    node_id@,
                    old(self)@.roots.len() as int,
                    match super_id.deep_view() {
                        Option::<Seq<char>>::None => 0,
                        Option::<Seq<char>>::Some(s) => if old(self)@.nodes.contains_key(s) {
                            old(self)@.nodes[s].subs.len() as int
                        } else {
                            0
                        },
                    },
                ),
            },
    {
        match self._err_node_not_found(node_id.clone()) {
            Err(e) => {
                return Err(e);
            },
            Ok(()) => {},
        }
        match super_id {
            None => {
                let pos = self.count_roots();
                if crate::node::contains_id(&self.node0, &node_id) {
                    return Err(TaxonomyError::DuplicateRootNode(node_id));
                }
                self._append_root_at(node_id, pos);
                proof {
                    lemma_parented_insert(old(self)@, self@);
                }
            },
            Some(sid) => {
                match self._err_node_not_found(sid.clone()) {
                    Err(e) => {
                        return Err(e);
                    },
                    Ok(()) => {},
                }
                match self._err_duplicate_sub_node(sid.clone(), node_id.clone()) {
                    Err(e) => {
                        return Err(e);
                    },
                    Ok(()) => {},
                }
                match self._err_loop_detected(sid.clone(), node_id.clone(), None) {
                    Err(e) => {
                        return Err(e);
                    },
                    Ok(()) => {},
                }
                let pos = self.count_sub_nodes(&sid);
                self._append_at(sid, node_id, pos);
                proof {
                    lemma_parented_insert(old(self)@, self@);
                }
            },
        }
        Ok(())
    }

    /// Attaches an existing node to an existing superordinate node (or to
    /// the root level for `None`) at the given position of the child (or
    /// root) list; a position at or beyond the end appends, zero prepends.
    ///
    /// Fails exactly as [`Taxonomy::append`] does, with nothing changed.
    pub fn append_at(&mut self, super_id: Option<String>, node_id: String, index: usize) -> (r:
        Result<(), TaxonomyError>)
        requires
            old(self).wf(),
            old(self)@.fully_parented(),
        ensures
            final(self).wf(),
            final(self)@.fully_parented(),
            match r {
                Err(e) => *final(self) == *old(self) && append_err_spec(
                    old(self)@,
                    super_id.deep_view(),
                    node_id@,
                    e@,
                ),
                Ok(()) => append_ok_spec(
                    old(self)@,
                    final(self)@,
                    super_id.deep_view(),
                    node_id@,
                    index as int,
                    index as int,
                ),
            },
    {
        match self._err_node_not_found(node_id.clone()) {
            Err(e) => {
                return Err(e);
            },
            Ok(()) => {},
        }
        match super_id {
            None => {
                if crate::node::contains_id(&self.node0, &node_id) {
                    return Err(TaxonomyError::DuplicateRootNode(node_id));
                }
                self._append_root_at(node_id, index);
                proof {
                    lemma_parented_insert(old(self)@, self@);
                }
            },
            Some(sid) => {
                match self._err_node_not_found(sid.clone()) {
                    Err(e) => {
                        return Err(e);
                    },
                    Ok(()) => {},
                }
                match self._err_duplicate_sub_node(sid.clone(), node_id.clone()) {
                    Err(e) => {
                        return Err(e);
                    },
                    Ok(()) => {},
                }
                match self._err_loop_detected(sid.clone(), node_id.clone(), None) {
                    Err(e) => {
                        return Err(e);
                    },
                    Ok(()) => {},
                }
                self._append_at(sid, node_id, index);
                proof {
                    lemma_parented_insert(old(self)@, self@);
                }
            },
        }
        Ok(())
    }
}

/// The exact failure cases of `append` and `append_at`: which error comes
/// back on which input, with the checks made in this order: unknown node,
/// then (for a root placement) a duplicate root entry, or else an unknown
/// superordinate node, a duplicate child entry, and a relationship that
/// would close a cycle.
pub open spec fn append_err_spec<V>(
    t0: TaxView<V>,
    super_id: Option<Seq<char>>,
    n: Seq<char>,
    e: crate::taxonomy_error::ErrorView,
) -> bool {
    match e {
        crate::taxonomy_error::ErrorView::NodeNotFound(x) => (!t0.has(n) && x == n) || (t0.has(n)
            && (super_id matches Some(s) && x == s && !t0.has(s))),
        crate::taxonomy_error::ErrorView::DuplicateRootNode(x) => t0.has(n) && super_id is None
            && x == n && t0.roots.contains(n),
        crate::taxonomy_error::ErrorView::DuplicateSubNode(s2, n2) => (super_id matches Some(s)
            && s2 == s && n2 == n && t0.has(n) && t0.has(s) && t0.nodes[s].subs.contains(n)),
        crate::taxonomy_error::ErrorView::LoopDetected(x) => x == n && (super_id matches Some(s)
            && t0.has(n) && t0.has(s) && !t0.nodes[s].subs.contains(n) && (s == n
            || crate::reach::reaches(t0.nodes, n, s))),
        _ => false,
    }
}

/// The exact success case of `append` and `append_at`: the node exists, the
/// relationship is new and closes no cycle, and the only changes are the
/// new entry in the root list (at the clamped position) or in the
/// superordinate node's child list, the matching entry in the node's parent
/// list, and the last-updated marker.
pub open spec fn append_ok_spec<V>(
    t0: TaxView<V>,
    t1: TaxView<V>,
    super_id: Option<Seq<char>>,
    n: Seq<char>,
    root_index: int,
    sub_index: int,
) -> bool {
    &&& t0.has(n)
    &&& match super_id {
        None => {
            &&& !t0.roots.contains(n)
            &&& t1 == (TaxView {
                nodes: t0.nodes.insert(
                    n,
                    (NodeView {
                        supers: t0.nodes[n].supers.insert(0, Option::<Seq<char>>::None),
                        ..t0.nodes[n]
                    }),
                ),
                roots: t0.roots.insert(at_most(root_index, t0.roots.len() as int), n),
                last: Some(n),
                ..t0
            })
        },
        Some(s) => {
            &&& t0.has(s)
            &&& !t0.nodes[s].subs.contains(n)
            &&& s != n
            &&& !crate::reach::reaches(t0.nodes, n, s)
            &&& t1 == (TaxView {
                nodes: t0.nodes.insert(
                    s,
                    (NodeView {
                        subs: t0.nodes[s].subs.insert(
                            at_most(sub_index, t0.nodes[s].subs.len() as int),
                            n,
                        ),
                        ..t0.nodes[s]
                    }),
                ).insert(n, (NodeView { supers: t0.nodes[n].supers.push(Some(s)), ..t0.nodes[n] })),
                last: Some(n),
                ..t0
            })
        },
    }
}


/// The total length of all parent lists in storage: the termination
/// measure of the cascading removal (severing an edge always shortens one
/// parent list).
pub closed spec fn sum_supers<V>(ns: Seq<Node<V>>) -> nat
    decreases ns.len(),
{
    if ns.len() == 0 {
        0
    } else {
        sum_supers(ns.drop_last()) + ns.last()@.supers.len()
    }
}

/// Replacing one stored node changes the parent-list total by exactly the
/// difference of the two parent-list lengths.
proof fn lemma_sum_supers_update<V>(ns: Seq<Node<V>>, i: int, n: Node<V>)
    requires
        0 <= i < ns.len(),
    ensures
        sum_supers(ns.update(i, n)) + ns[i]@.supers.len() == sum_supers(ns) + n@.supers.len(),
    decreases ns.len(),
{
    let post = ns.update(i, n);
    if i == ns.len() - 1 {
        assert(post.drop_last() =~= ns.drop_last());
        assert(post.last() == n);
    } else {
        assert(post.drop_last() =~= ns.drop_last().update(i, n));
        lemma_sum_supers_update(ns.drop_last(), i, n);
        assert(post.last() == ns.last());
    }
}

/// Removing one stored node lowers the parent-list total by exactly that
/// node's parent-list length.
proof fn lemma_sum_supers_remove<V>(ns: Seq<Node<V>>, i: int)
    requires
        0 <= i < ns.len(),
    ensures
        sum_supers(ns.remove(i)) + ns[i]@.supers.len() == sum_supers(ns),
    decreases ns.len(),
{
    let post = ns.remove(i);
    if i == ns.len() - 1 {
        assert(post =~= ns.drop_last());
    } else {
        assert(post.drop_last() =~= ns.drop_last().remove(i));
        lemma_sum_supers_remove(ns.drop_last(), i);
        assert(post.last() == ns.last());
    }
}

/// The abstract state after a plain (non-cascading) removal of the node
/// `n`: the node's entry is gone, it is dropped from every child list and
/// from the root list, it becomes the last-updated node, and the traversal
/// position is reset.
pub open spec fn remove_ok_view<V>(t0: TaxView<V>, n: Seq<char>) -> TaxView<V> {
    TaxView {
        nodes: Map::new(
            |k: Seq<char>| t0.has(k) && k != n,
            |k: Seq<char>|
                (NodeView { subs: t0.nodes[k].subs.remove_value(n), ..t0.nodes[k] }),
        ),
        roots: t0.roots.remove_value(n),
        last: Some(n),
        cursor: Seq::<CursorView>::empty(),
    }
}

impl<V> Taxonomy<V> {
    /// The total length of all parent lists; only used as a termination
    /// measure.
    pub closed spec fn super_total(self) -> nat {
        sum_supers(self.nodes@)
    }

    /// Removes a node entirely, wherever it is placed. Fails with
    /// `NodeNotFound` for an unknown identifier and with `NodeHasSubNode`
    /// when the node still has children (use `remove_recursively` for
    /// that); nothing changes in either case. On success the node leaves
    /// every child list, the root list and the node store, and a traversal
    /// in progress is reset.
    pub fn remove(&mut self, node_id: String) -> (r: Result<(), TaxonomyError>)
        requires
            old(self).wf(),
        ensures
            final(self).wf(),
            final(self).super_total() <= old(self).super_total(),
            old(self)@.fully_parented() ==> final(self)@.fully_parented(),
            match r {
                Err(e) => *final(self) == *old(self) && match e@ {
                    crate::taxonomy_error::ErrorView::NodeNotFound(x) => x == node_id@
                        && !old(self)@.nodes.contains_key(node_id@),
                    crate::taxonomy_error::ErrorView::NodeHasSubNode(x) => x == node_id@
                        && old(self)@.nodes.contains_key(node_id@) && old(self)@.nodes[
                        node_id@
                    ].subs.len() > 0,
                    _ => false,
                },
                Ok(()) => {
                    &&& old(self)@.nodes.contains_key(node_id@)
                    &&& old(self)@.nodes[node_id@].subs.len() == 0
                    &&& final(self)@ == remove_ok_view(old(self)@, node_id@)
                },
            },
    {
        proof {
            self.lemma_index();
        }
        let i = match self.find_index(&node_id) {
            None => {
                return Err(TaxonomyError::NodeNotFound(node_id));
            },
            Some(i) => i,
        };
        if self.nodes[i].has_sub() {
            return Err(TaxonomyError::NodeHasSubNode(node_id));
        }
        let ghost t0 = self@;
        let ghost ns0 = self.nodes@;
        let ghost n0 = self.node0.deep_view();
        let ghost l0 = self.last_updated_node;
        let ghost c0 = self.cursor@;
        // Strip the node from every child list; only its parents actually
        // list it, everywhere else this changes nothing.
        let mut j: usize = 0;
        while j < self.nodes.len()
            invariant
                self.nodes@.len() == ns0.len(),
                j <= ns0.len(),
                forall|a: int|
                    0 <= a < j ==> (#[trigger] self.nodes@[a])@ == (NodeView {
                        subs: ns0[a]@.subs.remove_value(node_id@),
                        ..ns0[a]@
                    }),
                forall|a: int| j <= a < ns0.len() ==> self.nodes@[a] == ns0[a],
                self.node0.deep_view() == n0,
                self.last_updated_node == l0,
                self.cursor@ == c0,
            decreases ns0.len() - j,
        {
            let nn = vstd::std_specs::vec::vec_index_mut(&mut self.nodes, j);
            nn.remove_sub(node_id.clone());
            j = j + 1;
        }
        let ghost ns1 = self.nodes@;
        proof {
            assert(ids_of(ns1) =~= ids_of(ns0));
            lemma_map_index(ns0);
            lemma_map_index(ns1);
            assert(ids_of(ns1).contains(node_id@));
        }
        // Drop it from the root list, if it is a root.
        match crate::node::index_of_id(&self.node0, &node_id) {
            None => {
                proof {
                    n0.index_of_first_ensures(node_id@);
                    assert(self.node0.deep_view() =~= n0.remove_value(node_id@));
                }
            },
            Some(ri) => {
                self.node0.remove(ri);
                proof {
                    n0.index_of_first_ensures(node_id@);
                    assert(self.node0.deep_view() =~= n0.remove_value(node_id@));
                }
            },
        }
        // Delete the node itself.
        let i2 = match self.find_index(&node_id) {
            Some(i2) => i2,
            None => vstd::pervasive::unreached(),
        };
        self.nodes.remove(i2);
        self.last_updated_node = Some(node_id);
        self.cursor = Vec::new();
        proof {
            let n = ns0[i as int]@.id;
            lemma_remove_map(ns1, i2 as int);
            assert(self.nodes@ =~= ns1.remove(i2 as int));
            let m1 = map_of(ns1);
            let m2 = map_of(self.nodes@);
            assert(m2 == m1.remove(n));
            // The intermediate map is the old map with every child list
            // stripped of `n`.
            assert forall|k: Seq<char>| #[trigger] m1.contains_key(k) implies t0.has(k) && m1[k]
                == (NodeView { subs: t0.nodes[k].subs.remove_value(n), ..t0.nodes[k] }) by {
                let a = index_in(ns1, k);
                assert(ns1[a]@.id == k);
                assert(ns0[a]@.id == k);
                assert(m1[k] == ns1[a]@);
                assert(t0.nodes[k] == ns0[a]@);
            }
            assert forall|k: Seq<char>| t0.has(k) implies m1.contains_key(k) by {
                assert(ids_of(ns0).contains(k));
            }
            assert(self@.nodes =~= remove_ok_view(t0, n).nodes);
            assert(self@.roots =~= remove_ok_view(t0, n).roots);
            assert(self@.cursor =~= Seq::<CursorView>::empty());
            assert(self@ == remove_ok_view(t0, n));
            // Well-formedness of the result.
            let t2 = self@;
            let m0 = t0.nodes;
            assert forall|k: Seq<char>| #[trigger] t2.nodes.contains_key(k) implies {
                &&& t2.nodes[k].subs == m0[k].subs.remove_value(n)
                &&& t2.nodes[k].supers == m0[k].supers
                &&& t2.nodes[k].id == k
                &&& no_dups(m0[k].subs)
            } by {
                assert(m0.contains_key(k));
            }
            assert forall|k: Seq<char>, x: Seq<char>|
                t2.nodes.contains_key(k) implies (#[trigger] t2.nodes[k].subs.contains(x) <==> (
            m0[k].subs.contains(x) && x != n)) by {
                crate::node::lemma_remove_value_props(m0[k].subs, n);
            }
            assert(t2.links_wf()) by {
                crate::node::lemma_remove_value_props(t0.roots, n);
                assert forall|r: Seq<char>| t2.roots.contains(r) implies t2.nodes.contains_key(
                    r,
                ) by {
                    assert(t0.roots.contains(r) && r != n);
                }
                assert forall|k: Seq<char>, x: Seq<char>|
                    t2.nodes.contains_key(k) && #[trigger] t2.nodes[k].subs.contains(x)
                        implies t2.nodes.contains_key(x) by {
                    assert(m0[k].subs.contains(x) && x != n);
                }
                assert forall|k: Seq<char>, q: Seq<char>|
                    t2.nodes.contains_key(k) && #[trigger] t2.nodes[k].supers.contains(Some(q))
                        implies t2.nodes.contains_key(q) by {
                    assert(m0[k].supers.contains(Some(q)));
                    if q == n {
                        assert(m0[n].subs.contains(k));
                    }
                }
                assert forall|k: Seq<char>, q: Seq<char>|
                    t2.nodes.contains_key(k) && t2.nodes.contains_key(q) implies (
                #[trigger] t2.nodes[q].subs.contains(k) <==> #[trigger] t2.nodes[k].supers.contains(
                    Some(q),
                )) by {
                    assert(t2.nodes[q].subs.contains(k) <==> (m0[q].subs.contains(k) && k != n));
                }
                assert forall|k: Seq<char>| #[trigger] t2.nodes.contains_key(k) implies (
                t2.nodes[k].supers.contains(None) <==> t2.roots.contains(k)) by {
                    assert(t2.roots.contains(k) <==> (t0.roots.contains(k) && k != n));
                }
                assert forall|k: Seq<char>| #[trigger] t2.nodes.contains_key(k)
                    implies t2.nodes[k].wf() by {
                    crate::node::lemma_remove_value_props(m0[k].subs, n);
                    assert(m0[k].wf());
                }
            }
            assert(acyclic(t2.nodes)) by {
                assert forall|x: Seq<char>, y: Seq<char>| #[trigger]
                    is_child_edge(t2.nodes, x, y) implies is_child_edge(m0, x, y) by {
                    assert(t2.nodes[x].subs.contains(y));
                    assert(m0[x].subs.contains(y));
                }
                crate::reach::lemma_reaches_monotone(t2.nodes, m0);
                assert forall|a: Seq<char>| !crate::reach::reaches(t2.nodes, a, a) by {
                    if crate::reach::reaches(t2.nodes, a, a) {
                        assert(crate::reach::reaches(m0, a, a));
                    }
                }
            }
            assert(t2.cursor_ok());
            // The parent-list total never grows.
            assert(self.super_total() <= sum_supers(ns1)) by {
                lemma_sum_supers_remove(ns1, i2 as int);
            }
            assert(sum_supers(ns1) <= sum_supers(ns0)) by {
                lemma_sum_supers_loop(ns0, ns1);
            }
        }
        Ok(())
    }
}

/// A storage sequence whose nodes each keep their parent-list length has
/// the same parent-list total.
proof fn lemma_sum_supers_loop<V>(ns0: Seq<Node<V>>, ns1: Seq<Node<V>>)
    requires
        ns0.len() == ns1.len(),
        forall|a: int| 0 <= a < ns0.len() ==> ns1[a]@.supers.len() == ns0[a]@.supers.len(),
    ensures
        sum_supers(ns1) == sum_supers(ns0),
    decreases ns0.len(),
{
    if ns0.len() > 0 {
        assert(ns1.drop_last().len() == ns0.drop_last().len());
        assert forall|a: int|
            0 <= a < ns0.drop_last().len() implies ns1.drop_last()[a]@.supers.len()
            == ns0.drop_last()[a]@.supers.len() by {
            assert(ns1[a]@.supers.len() == ns0[a]@.supers.len());
        }
        lemma_sum_supers_loop(ns0.drop_last(), ns1.drop_last());
        assert(ns1.last()@.supers.len() == ns0.last()@.supers.len());
    }
}


/// Holds when a parent-list entry survives a cascading removal: the root
/// marker always does; a real parent survives when it was not removed.
pub open spec fn kept_parent_entry(rem: Set<Seq<char>>, e: Option<Seq<char>>) -> bool {
    match e {
        None => true,
        Some(q) => !rem.contains(q),
    }
}

/// The exact effect of a successful `remove_from(edge)`, with `rem` the set
/// of node identifiers the cascade deleted:
/// - only the edge's subordinate node and its (transitive) subordinates can
///   be deleted; the subordinate node itself is deleted exactly when the
///   severed entry was its last parent entry;
/// - when it keeps another parent entry, nothing else is deleted at all;
/// - every other deleted node had all its parents deleted too and was no
///   root (nothing with an outside parent or a root place is dragged away);
/// - a surviving node keeps its element, keeps its children (only the named
///   superordinate node loses the severed child), and keeps every parent
///   entry that was not deleted (only the subordinate node loses the
///   severed entry);
/// - the root list loses the node exactly for a root placement; the node
///   becomes the last-updated one; a traversal in progress is reset;
/// - no surviving node is newly orphaned.
pub open spec fn remove_from_ok_spec<V>(
    t0: TaxView<V>,
    t1: TaxView<V>,
    sup: Option<Seq<char>>,
    c: Seq<char>,
    rem: Set<Seq<char>>,
) -> bool {
    &&& rem.subset_of(crate::reach::descendants(t0.nodes, c).insert(c))
    &&& (rem.contains(c) <==> t0.nodes[c].supers.remove_value(sup).len() == 0)
    &&& (!rem.contains(c) ==> rem == Set::<Seq<char>>::empty())
    &&& forall|x: Seq<char>|
        #[trigger] rem.contains(x) && x != c ==> t0.has(x) && !t0.nodes[x].supers.contains(None)
            && (forall|q: Seq<char>|
            #[trigger] t0.nodes[x].supers.contains(Some(q)) ==> rem.contains(q))
    &&& t1.nodes.dom() == t0.nodes.dom().difference(rem)
    &&& forall|x: Seq<char>|
        #[trigger] t1.has(x) ==> {
            &&& t1.nodes[x].id == t0.nodes[x].id
            &&& t1.nodes[x].element == t0.nodes[x].element
            &&& t1.nodes[x].subs == (if sup == Some(x) {
                t0.nodes[x].subs.remove_value(c)
            } else {
                t0.nodes[x].subs
            })
            &&& t1.nodes[x].supers == (if x == c {
                t0.nodes[x].supers.remove_value(sup)
            } else {
                t0.nodes[x].supers
            }).filter(|e: Option<Seq<char>>| kept_parent_entry(rem, e))
            &&& (t1.nodes[x].supers.len() == 0 ==> t0.nodes[x].supers.len() == 0)
        }
    &&& t1.roots == (if sup is None {
        t0.roots.remove_value(c)
    } else {
        t0.roots
    })
    &&& t1.last == Some(c)
    &&& t1.cursor == Seq::<CursorView>::empty()
}

/// Holds when a parent-list entry survives the middle of a cascade: `rem`
/// is what was deleted so far and `processed` the children of `c` whose
/// edge from `c` was already severed.
pub open spec fn mid_kept(
    rem: Set<Seq<char>>,
    processed: Seq<Seq<char>>,
    c: Seq<char>,
    x: Seq<char>,
    e: Option<Seq<char>>,
) -> bool {
    match e {
        None => true,
        Some(q) => !rem.contains(q) && !(q == c && processed.contains(x)),
    }
}

/// The state in the middle of the cascade of `remove_from`: the first `k`
/// children of the orphaned node `c` have been detached (and their orphaned
/// subtrees deleted, collected in `rem`), `c` itself still sits in the
/// store with an empty parent list and its remaining children.
spec fn cascade_mid_spec<V>(
    t0: TaxView<V>,
    t1: TaxView<V>,
    sup: Option<Seq<char>>,
    c: Seq<char>,
    rem: Set<Seq<char>>,
    k: int,
) -> bool {
    &&& rem.subset_of(crate::reach::descendants(t0.nodes, c))
    &&& !rem.contains(c)
    &&& forall|x: Seq<char>|
        #[trigger] rem.contains(x) ==> t0.has(x) && !t0.nodes[x].supers.contains(None) && (
        forall|q: Seq<char>|
            #[trigger] t0.nodes[x].supers.contains(Some(q)) ==> rem.contains(q) || q == c)
    &&& t1.nodes.dom() == t0.nodes.dom().difference(rem)
    &&& t1.has(c)
    &&& t1.nodes[c].id == t0.nodes[c].id
    &&& t1.nodes[c].element == t0.nodes[c].element
    &&& t1.nodes[c].supers.len() == 0
    &&& t0.nodes[c].supers.remove_value(sup).len() == 0
    &&& t1.nodes[c].subs == t0.nodes[c].subs.skip(k)
    &&& forall|x: Seq<char>|
        #[trigger] t1.has(x) && x != c ==> {
            &&& t1.nodes[x].id == t0.nodes[x].id
            &&& t1.nodes[x].element == t0.nodes[x].element
            &&& t1.nodes[x].subs == (if sup == Some(x) {
                t0.nodes[x].subs.remove_value(c)
            } else {
                t0.nodes[x].subs
            })
            &&& t1.nodes[x].supers == t0.nodes[x].supers.filter(
                |e: Option<Seq<char>>| mid_kept(rem, t0.nodes[c].subs.take(k), c, x, e),
            )
            &&& (t1.nodes[x].supers.len() == 0 ==> t0.nodes[x].supers.len() == 0)
        }
    &&& t1.roots == (if sup is None {
        t0.roots.remove_value(c)
    } else {
        t0.roots
    })
    &&& t1.cursor == Seq::<CursorView>::empty()
    &&& forall|x: Seq<char>, y: Seq<char>|
        #[trigger] is_child_edge(t1.nodes, x, y) ==> is_child_edge(t0.nodes, x, y)
}

impl<V> Taxonomy<V> {
    /// Removes one specific relationship, with cascading cleanup.
    ///
    /// Fails with `EdgeNotFound` when the relationship does not currently
    /// exist, and nothing changes. On success the edge is severed; when
    /// that was the subordinate node's last parent entry, the node is
    /// deleted, its own children are detached the same way (deleting in
    /// turn every subordinate left without a parent, while children with
    /// other parents survive and keep their other relationships), and the
    /// node leaves the taxonomy. A traversal in progress is reset.
    pub fn remove_from(&mut self, edge: Edge) -> (r: Result<(), TaxonomyError>)
        requires
            old(self).wf(),
        ensures
            final(self).wf(),
            final(self).super_total() <= old(self).super_total(),
            old(self)@.fully_parented() ==> final(self)@.fully_parented(),
            match r {
                Err(e) => *final(self) == *old(self) && !old(self)@.edge_exists(edge@) && (
                e@ matches crate::taxonomy_error::ErrorView::EdgeNotFound(s, n) && s
                    == edge@.super_id && n == edge@.node_id),
                Ok(()) => old(self)@.edge_exists(edge@) && exists|rem: Set<Seq<char>>|
                    remove_from_ok_spec(
                        old(self)@,
                        final(self)@,
                        edge@.super_id,
                        edge@.node_id,
                        rem,
                    ),
            },
        decreases self.super_total(),
    {
        match self._err_edge_not_found(&edge) {
            Err(e) => {
                return Err(e);
            },
            Ok(()) => {},
        }
        let ghost t0 = old(self)@;
        let node_id = edge.node_id();
        let sup = edge.super_id();
        let ghost supv = edge@.super_id;
        let ghost c = node_id@;
        self.cursor = Vec::new();
        proof {
            self.lemma_index();
            assert(self@.cursor =~= Seq::<CursorView>::empty());
        }
        // Sever the edge on both sides.
        match sup {
            None => {
                let ic = match self.find_index(&node_id) {
                    Some(i) => i,
                    None => vstd::pervasive::unreached(),
                };
                let ghost nsa = self.nodes@;
                let cn = vstd::std_specs::vec::vec_index_mut(&mut self.nodes, ic);
                cn.remove_super(None);
                let ri = match crate::node::index_of_id(&self.node0, &node_id) {
                    Some(ri) => ri,
                    None => vstd::pervasive::unreached(),
                };
                self.node0.remove(ri);
                proof {
                    assert(t0.nodes[c].supers.contains(None));
                    lemma_update_map(nsa, ic as int, self.nodes@[ic as int]);
                    assert(self.nodes@ =~= nsa.update(ic as int, self.nodes@[ic as int]));
                    t0.roots.index_of_first_ensures(c);
                    assert(self@.roots =~= t0.roots.remove_value(c));
                    assert(self@.nodes =~= t0.nodes.insert(
                        c,
                        (NodeView {
                            supers: t0.nodes[c].supers.remove_value(
                                Option::<Seq<char>>::None,
                            ),
                            ..t0.nodes[c]
                        }),
                    ));
                    assert(no_dups(t0.nodes[c].supers)) by {
                        assert(t0.nodes[c].wf());
                    }
                    crate::node::lemma_remove_value_props(
                        t0.nodes[c].supers,
                        Option::<Seq<char>>::None,
                    );
                    assert(nsa[ic as int]@ == t0.nodes[c]);
                    lemma_sum_supers_update(nsa, ic as int, self.nodes@[ic as int]);
                    assert(sum_supers(self.nodes@) < sum_supers(nsa));
                    assert(nsa == old(self).nodes@);
                }
            },
            Some(super_id) => {
                let ip = match self.find_index(&super_id) {
                    Some(i) => i,
                    None => vstd::pervasive::unreached(),
                };
                let ghost nsa = self.nodes@;
                let pn = vstd::std_specs::vec::vec_index_mut(&mut self.nodes, ip);
                pn.remove_sub(node_id.clone());
                proof {
                    lemma_update_map(nsa, ip as int, self.nodes@[ip as int]);
                    assert(self.nodes@ =~= nsa.update(ip as int, self.nodes@[ip as int]));
                    assert(ids_of(self.nodes@) =~= ids_of(nsa));
                    lemma_map_index(nsa);
                    lemma_map_index(self.nodes@);
                    assert(t0.nodes[super_id@].subs.contains(c));
                    assert(t0.nodes[c].supers.contains(Some(super_id@)));
                }
                let ic = match self.find_index(&node_id) {
                    Some(i) => i,
                    None => vstd::pervasive::unreached(),
                };
                let ghost nsb = self.nodes@;
                let cn = vstd::std_specs::vec::vec_index_mut(&mut self.nodes, ic);
                cn.remove_super(Some(super_id));
                proof {
                    lemma_update_map(nsb, ic as int, self.nodes@[ic as int]);
                    assert(self.nodes@ =~= nsb.update(ic as int, self.nodes@[ic as int]));
                    assert(self@.roots == t0.roots);
                    assert(supv == Some(super_id@));
                    assert(c != super_id@) by {
                        assert(t0.nodes[super_id@].wf());
                    }
                    assert(self@.nodes =~= t0.nodes.insert(
                        super_id@,
                        (NodeView {
                            subs: t0.nodes[super_id@].subs.remove_value(c),
                            ..t0.nodes[super_id@]
                        }),
                    ).insert(
                        c,
                        (NodeView {
                            supers: t0.nodes[c].supers.remove_value(Some(super_id@)),
                            ..t0.nodes[c]
                        }),
                    ));
                    assert(no_dups(t0.nodes[c].supers)) by {
                        assert(t0.nodes[c].wf());
                    }
                    crate::node::lemma_remove_value_props(
                        t0.nodes[c].supers,
                        Some(super_id@),
                    );
                    assert(nsa[ip as int]@ == t0.nodes[super_id@]);
                    lemma_sum_supers_update(nsa, ip as int, nsb[ip as int]);
                    assert(sum_supers(nsb) == sum_supers(nsa));
                    assert(nsb[ic as int]@ == t0.nodes[c]);
                    lemma_sum_supers_update(nsb, ic as int, self.nodes@[ic as int]);
                    assert(sum_supers(self.nodes@) < sum_supers(nsa));
                    assert(nsa == old(self).nodes@);
                }
            },
        }
        proof {
            lemma_sever_wf(t0, self@, supv, c);
            assert(no_dups(self.spec_ids()));
            assert(self.wf());
            assert(self.super_total() < old(self).super_total());
        }
        // Does the node keep another parent entry (a real parent or the
        // root marker)?
        let ic2 = match self.find_index(&node_id) {
            Some(i) => i,
            None => vstd::pervasive::unreached(),
        };
        if self.nodes[ic2].has_super() {
            self.last_updated_node = Some(node_id);
            proof {
                let t1 = self@;
                let rem = Set::<Seq<char>>::empty();
                assert(t1.nodes.dom() =~= t0.nodes.dom().difference(rem));
                assert forall|x: Seq<char>| #[trigger] t1.has(x) implies {
                    &&& t1.nodes[x].id == t0.nodes[x].id
                    &&& t1.nodes[x].element == t0.nodes[x].element
                    &&& t1.nodes[x].subs == (if supv == Some(x) {
                        t0.nodes[x].subs.remove_value(c)
                    } else {
                        t0.nodes[x].subs
                    })
                    &&& t1.nodes[x].supers == (if x == c {
                        t0.nodes[x].supers.remove_value(supv)
                    } else {
                        t0.nodes[x].supers
                    }).filter(|e: Option<Seq<char>>| kept_parent_entry(rem, e))
                    &&& (t1.nodes[x].supers.len() == 0 ==> t0.nodes[x].supers.len() == 0)
                } by {
                    let base = if x == c {
                        t0.nodes[x].supers.remove_value(supv)
                    } else {
                        t0.nodes[x].supers
                    };
                    assert forall|i: int| 0 <= i < base.len() implies kept_parent_entry(
                        rem,
                        #[trigger] base[i],
                    ) by {}
                    crate::node::lemma_filter_keep_all(
                        base,
                        |e: Option<Seq<char>>| kept_parent_entry(rem, e),
                    );
                    if x == c {
                        crate::node::lemma_remove_value_props(t0.nodes[c].supers, supv);
                    }
                }
                assert(remove_from_ok_spec(t0, self@, supv, c, rem));
            }
            return Ok(());
        }
        // The node is orphaned: detach each of its children in turn (their
        // own orphaned subtrees go the same way), then delete it.
        let sl = match self._get_node_opt(&node_id) {
            Some(n) => clone_ids(n.subs()),
            None => vstd::pervasive::unreached(),
        };
        let ghost mut remg = Set::<Seq<char>>::empty();
        proof {
            assert(sl.deep_view() == t0.nodes[c].subs);
            assert(cascade_mid_spec(t0, self@, supv, c, remg, 0)) by {
                let t1 = self@;
                assert(t1.nodes.dom() =~= t0.nodes.dom().difference(remg));
                assert(t1.nodes[c].subs =~= t0.nodes[c].subs.skip(0));
                assert forall|x: Seq<char>| #[trigger] t1.has(x) && x != c implies {
                    &&& t1.nodes[x].id == t0.nodes[x].id
                    &&& t1.nodes[x].element == t0.nodes[x].element
                    &&& t1.nodes[x].subs == (if supv == Some(x) {
                        t0.nodes[x].subs.remove_value(c)
                    } else {
                        t0.nodes[x].subs
                    })
                    &&& t1.nodes[x].supers == t0.nodes[x].supers.filter(
                        |e: Option<Seq<char>>| mid_kept(
                            remg,
                            t0.nodes[c].subs.take(0),
                            c,
                            x,
                            e,
                        ),
                    )
                    &&& (t1.nodes[x].supers.len() == 0 ==> t0.nodes[x].supers.len() == 0)
                } by {
                    assert forall|i: int|
                        0 <= i < t0.nodes[x].supers.len() implies mid_kept(
                        remg,
                        t0.nodes[c].subs.take(0),
                        c,
                        x,
                        #[trigger] t0.nodes[x].supers[i],
                    ) by {}
                    crate::node::lemma_filter_keep_all(
                        t0.nodes[x].supers,
                        |e: Option<Seq<char>>| mid_kept(remg, t0.nodes[c].subs.take(0), c, x, e),
                    );
                }
                assert forall|x: Seq<char>, y: Seq<char>| #[trigger]
                    is_child_edge(t1.nodes, x, y) implies is_child_edge(t0.nodes, x, y) by {
                    if x == c {
                        assert(t1.nodes[c].subs =~= t0.nodes[c].subs);
                    } else if supv == Some(x) {
                        crate::node::lemma_remove_value_props(t0.nodes[x].subs, c);
                    }
                }
            }
        }
        let mut k: usize = 0;
        while k < sl.len()
            invariant
                self.wf(),
                sl.deep_view() == t0.nodes[c].subs,
                k <= sl.deep_view().len(),
                c == node_id@,
                t0.has(c),
                t0.links_wf(),
                acyclic(t0.nodes),
                cascade_mid_spec(t0, self@, supv, c, remg, k as int),
                self.super_total() < old(self).super_total(),
            decreases sl.deep_view().len() - k,
        {
            let ghost prev = *self;
            let skid = sl[k].clone();
            let e2 = Edge::new(Some(node_id.clone()), skid);
            proof {
                assert(self@.nodes[c].subs == t0.nodes[c].subs.skip(k as int));
                assert(t0.nodes[c].subs.skip(k as int)[0] == t0.nodes[c].subs[k as int]);
                assert(self@.nodes[c].subs.contains(e2@.node_id));
                assert(self@.edge_exists(e2@));
            }
            let res = self.remove_from(e2);
            proof {
                let skv = t0.nodes[c].subs[k as int];
                match res {
                    Err(_) => {
                        assert(false);
                    },
                    Ok(()) => {},
                }
                let rk = choose|rk: Set<Seq<char>>|
                    remove_from_ok_spec(prev@, self@, Some(c), skv, rk);
                lemma_cascade_step(t0, prev@, self@, supv, c, remg, rk, k as int);
                remg = remg.union(rk);
            }
            k = k + 1;
        }
        // All children are detached; the node itself can go.
        let ghost tm = *self;
        proof {
            assert(tm@.nodes[c].subs =~= Seq::<Seq<char>>::empty());
        }
        let res2 = self.remove(node_id);
        proof {
            match res2 {
                Err(_) => {
                    assert(false);
                },
                Ok(()) => {},
            }
            lemma_cascade_finish(t0, tm@, self@, supv, c, remg);
            assert(remove_from_ok_spec(t0, self@, supv, c, remg.insert(c)));
        }
        Ok(())
    }
}

/// Clones a list of identifiers.
fn clone_ids(v: &Vec<String>) -> (r: Vec<String>)
    ensures
        r.deep_view() == v.deep_view(),
{
    let mut r: Vec<String> = Vec::new();
    let mut i: usize = 0;
    while i < v.len()
        invariant
            i <= v.deep_view().len(),
            r.deep_view().len() == i,
            forall|j: int| 0 <= j < i ==> r.deep_view()[j] == v.deep_view()[j],
        decreases v.deep_view().len() - i,
    {
        r.push(v[i].clone());
        i = i + 1;
    }
    proof {
        assert(r.deep_view() =~= v.deep_view());
    }
    r
}


/// Severing one existing edge (on both sides, and out of the root list for
/// a root placement) preserves the structural invariants, and only takes
/// edges away.
proof fn lemma_sever_wf<V>(t0: TaxView<V>, t2: TaxView<V>, sup: Option<Seq<char>>, c: Seq<char>)
    requires
        t0.links_wf(),
        acyclic(t0.nodes),
        t0.edge_exists(EdgeView { super_id: sup, node_id: c }),
        t2.cursor == Seq::<CursorView>::empty(),
        t0.has(c),
        match sup {
            None => t2.nodes == t0.nodes.insert(
                c,
                (NodeView {
                    supers: t0.nodes[c].supers.remove_value(Option::<Seq<char>>::None),
                    ..t0.nodes[c]
                }),
            ) && t2.roots == t0.roots.remove_value(c),
            Some(p) => p != c && t2.nodes == t0.nodes.insert(
                p,
                (NodeView { subs: t0.nodes[p].subs.remove_value(c), ..t0.nodes[p] }),
            ).insert(
                c,
                (NodeView { supers: t0.nodes[c].supers.remove_value(Some(p)), ..t0.nodes[c] }),
            ) && t2.roots == t0.roots,
        },
    ensures
        t2.links_wf(),
        acyclic(t2.nodes),
        t2.cursor_ok(),
        forall|x: Seq<char>, y: Seq<char>|
            #[trigger] is_child_edge(t2.nodes, x, y) ==> is_child_edge(t0.nodes, x, y),
        t2.nodes.dom() == t0.nodes.dom(),
        t2.has(c),
        t2.nodes[c].supers == t0.nodes[c].supers.remove_value(sup),
{
    let m0 = t0.nodes;
    let m2 = t2.nodes;
    match sup {
        None => {
            assert(t0.roots.contains(c));
            assert(m0[c].supers.contains(None));
            assert(m0[c].wf());
            crate::node::lemma_remove_value_props(m0[c].supers, Option::<Seq<char>>::None);
            crate::node::lemma_remove_value_props(t0.roots, c);
            assert(m2.dom() =~= m0.dom());
            // The marker sits first, so removing it keeps the rest intact;
            // the result no longer contains a marker.
            assert(!m2[c].supers.contains(None));
            assert(t2.links_wf()) by {
                assert forall|r: Seq<char>| t2.roots.contains(r) implies t2.nodes.contains_key(
                    r,
                ) by {
                    assert(t0.roots.contains(r));
                }
                assert forall|k: Seq<char>, s: Seq<char>|
                    m2.contains_key(k) && #[trigger] m2[k].subs.contains(s) implies m2.contains_key(
                    s,
                ) by {
                    assert(m0[k].subs.contains(s));
                }
                assert forall|k: Seq<char>, q: Seq<char>|
                    m2.contains_key(k) && #[trigger] m2[k].supers.contains(Some(q))
                    implies m2.contains_key(q) by {
                    assert(m0[k].supers.contains(Some(q)));
                }
                assert forall|k: Seq<char>, q: Seq<char>|
                    m2.contains_key(k) && m2.contains_key(q) implies (
                #[trigger] m2[q].subs.contains(k) <==> #[trigger] m2[k].supers.contains(
                    Some(q),
                )) by {
                    if k == c {
                        assert(m2[c].supers.contains(Some(q)) <==> m0[c].supers.contains(
                            Some(q),
                        ));
                        assert(m2[q].subs == m0[q].subs);
                    } else {
                        assert(m2[q].subs == m0[q].subs && m2[k].supers == m0[k].supers);
                    }
                }
                assert forall|k: Seq<char>| #[trigger] m2.contains_key(k) implies (
                m2[k].supers.contains(None) <==> t2.roots.contains(k)) by {
                    if k == c {
                    } else {
                        assert(m2[k].supers == m0[k].supers);
                        assert(t2.roots.contains(k) <==> (t0.roots.contains(k) && k != c));
                    }
                }
                assert forall|k: Seq<char>| #[trigger] m2.contains_key(k) implies m2[k].wf() by {
                    if k == c {
                        assert(m0[c].wf());
                        assert(no_dups(m2[c].supers));
                        assert forall|e: Option<Seq<char>>|
                            m2[c].supers.contains(e) implies m0[c].supers.contains(e) by {}
                    } else {
                        assert(m2[k] == m0[k]);
                    }
                }
            }
            assert forall|x: Seq<char>, y: Seq<char>| #[trigger]
                is_child_edge(m2, x, y) implies is_child_edge(m0, x, y) by {
                assert(m2[x].subs == m0[x].subs);
            }
        },
        Some(p) => {
            assert(m0[p].subs.contains(c));
            assert(m0[c].supers.contains(Some(p)));
            assert(m0[p].wf());
            assert(m0[c].wf());
            crate::node::lemma_remove_value_props(m0[p].subs, c);
            crate::node::lemma_remove_value_props(m0[c].supers, Some(p));
            assert(m2.dom() =~= m0.dom());
            // Removing a real parent entry leaves the marker (if any) in
            // front.
            assert(m2[c].supers.contains(None) <==> m0[c].supers.contains(None));
            assert(m2[c].supers.contains(None) ==> m2[c].supers[0] is None) by {
                if m0[c].supers.contains(None) {
                    assert(m0[c].supers[0] is None);
                    m0[c].supers.index_of_first_ensures(Some(p));
                    let i = m0[c].supers.index_of_first(Some(p)).unwrap();
                    assert(m0[c].supers[i] == Some(p));
                    assert(i != 0);
                    assert(m2[c].supers[0] == m0[c].supers[0]);
                }
            }
            assert(t2.links_wf()) by {
                assert forall|r: Seq<char>| t2.roots.contains(r) implies t2.nodes.contains_key(
                    r,
                ) by {
                    assert(t0.roots.contains(r));
                }
                assert forall|k: Seq<char>, s: Seq<char>|
                    m2.contains_key(k) && #[trigger] m2[k].subs.contains(s) implies m2.contains_key(
                    s,
                ) by {
                    if k == p {
                        assert(m0[p].subs.contains(s));
                    } else {
                        assert(m0[k].subs.contains(s));
                    }
                }
                assert forall|k: Seq<char>, q: Seq<char>|
                    m2.contains_key(k) && #[trigger] m2[k].supers.contains(Some(q))
                    implies m2.contains_key(q) by {
                    if k == c {
                        assert(m0[c].supers.contains(Some(q)));
                    } else {
                        assert(m0[k].supers.contains(Some(q)));
                    }
                }
                assert forall|k: Seq<char>, q: Seq<char>|
                    m2.contains_key(k) && m2.contains_key(q) implies (
                #[trigger] m2[q].subs.contains(k) <==> #[trigger] m2[k].supers.contains(
                    Some(q),
                )) by {
                    if q == p && k == c {
                        assert(!m2[p].subs.contains(c));
                        assert(!m2[c].supers.contains(Some(p)));
                    } else if q == p {
                        assert(m2[p].subs.contains(k) <==> (m0[p].subs.contains(k) && k != c));
                        assert(m2[k].supers == m0[k].supers);
                    } else if k == c {
                        assert(m2[c].supers.contains(Some(q)) <==> (m0[c].supers.contains(
                            Some(q),
                        ) && Some(q) != Some(p)));
                        assert(m2[q].subs == m0[q].subs);
                    } else {
                        assert(m2[q].subs == m0[q].subs && m2[k].supers == m0[k].supers);
                    }
                }
                assert forall|k: Seq<char>| #[trigger] m2.contains_key(k) implies (
                m2[k].supers.contains(None) <==> t2.roots.contains(k)) by {
                    if k == c {
                    } else if k == p {
                        assert(m2[p].supers == m0[p].supers);
                    } else {
                        assert(m2[k] == m0[k]);
                    }
                }
                assert forall|k: Seq<char>| #[trigger] m2.contains_key(k) implies m2[k].wf() by {
                    if k == c {
                        assert(no_dups(m2[c].supers));
                        assert forall|e: Option<Seq<char>>|
                            m2[c].supers.contains(e) implies m0[c].supers.contains(e) by {}
                    } else if k == p {
                        assert(no_dups(m2[p].subs));
                        assert forall|e: Seq<char>| m2[p].subs.contains(e) implies m0[
                            p
                        ].subs.contains(e) by {}
                    } else {
                        assert(m2[k] == m0[k]);
                    }
                }
            }
            assert forall|x: Seq<char>, y: Seq<char>| #[trigger]
                is_child_edge(m2, x, y) implies is_child_edge(m0, x, y) by {
                if x == p {
                    assert(m0[p].subs.contains(y));
                } else {
                    assert(m2[x].subs == m0[x].subs);
                }
            }
        },
    }
    assert(acyclic(t2.nodes)) by {
        crate::reach::lemma_reaches_monotone(t2.nodes, t0.nodes);
        assert forall|a: Seq<char>| !crate::reach::reaches(t2.nodes, a, a) by {
            if crate::reach::reaches(t2.nodes, a, a) {
                assert(crate::reach::reaches(t0.nodes, a, a));
            }
        }
    }
    assert(t2.cursor_ok());
}

/// One step of the cascade: detaching the `k`-th child of the orphaned
/// node `c` (and deleting its now-orphaned subtree `rk`) moves the middle
/// state on by one child.
proof fn lemma_cascade_step<V>(
    t0: TaxView<V>,
    tp: TaxView<V>,
    tn: TaxView<V>,
    sup: Option<Seq<char>>,
    c: Seq<char>,
    remg: Set<Seq<char>>,
    rk: Set<Seq<char>>,
    k: int,
)
    requires
        t0.links_wf(),
        acyclic(t0.nodes),
        t0.has(c),
        tp.links_wf(),
        acyclic(tp.nodes),
        cascade_mid_spec(t0, tp, sup, c, remg, k),
        0 <= k < t0.nodes[c].subs.len(),
        remove_from_ok_spec(tp, tn, Some(c), t0.nodes[c].subs[k], rk),
    ensures
        cascade_mid_spec(t0, tn, sup, c, remg.union(rk), k + 1),
{
    let skv = t0.nodes[c].subs[k];
    let rem2 = remg.union(rk);
    let m0 = t0.nodes;
    let mp = tp.nodes;
    let mn = tn.nodes;
    let csubs = m0[c].subs;
    assert(no_dups(csubs)) by {
        assert(m0[c].wf());
    }
    assert(tp.nodes[c].subs == csubs.skip(k));
    assert(csubs.skip(k)[0] == skv);
    assert(tp.nodes[c].subs.contains(skv));
    assert(is_child_edge(mp, c, skv));
    assert(is_child_edge(m0, c, skv));
    // `c` itself is never dragged into the subtree of its own child.
    assert(c != skv) by {
        assert(m0[c].wf());
    }
    assert(!rk.contains(c)) by {
        if rk.contains(c) {
            assert(crate::reach::descendants(mp, skv).insert(skv).contains(c));
            assert(crate::reach::reaches(mp, skv, c));
            crate::reach::lemma_edge_reaches_trans(mp, c, skv, c);
        }
    }
    assert(tn.has(c));
    // Everything the step deleted lies below `c` in the original state.
    assert forall|x: Seq<char>| #[trigger] rem2.contains(x) implies crate::reach::reaches(
        m0,
        c,
        x,
    ) by {
        if remg.contains(x) {
        } else {
            assert(rk.contains(x));
            assert(crate::reach::descendants(mp, skv).insert(skv).contains(x));
            if x == skv {
                crate::reach::lemma_edge_reaches(m0, c, skv);
            } else {
                assert(crate::reach::reaches(mp, skv, x));
                crate::reach::lemma_reaches_monotone(mp, m0);
                assert(crate::reach::reaches(m0, skv, x));
                crate::reach::lemma_edge_reaches_trans(m0, c, skv, x);
            }
        }
    }
    // Parents of deleted nodes were deleted too (or are `c`), and none of
    // them was a root.
    assert forall|x: Seq<char>| #[trigger] rem2.contains(x) implies t0.has(x) && !m0[
        x
    ].supers.contains(None) && (forall|q: Seq<char>|
        #[trigger] m0[x].supers.contains(Some(q)) ==> rem2.contains(q) || q == c) by {
        if remg.contains(x) {
            assert forall|q: Seq<char>| #[trigger]
                m0[x].supers.contains(Some(q)) implies rem2.contains(q) || q == c by {
                assert(remg.contains(q) || q == c);
            }
        } else {
            assert(rk.contains(x));
            crate::reach::lemma_reaches_in_dom(m0, c, x);
            assert(t0.has(x));
            assert(tp.has(x)) by {
                assert(tn.nodes.dom() == tp.nodes.dom().difference(rk));
                if !tp.has(x) {
                    assert(!m0.dom().difference(remg).contains(x));
                    assert(remg.contains(x));
                }
            }
            assert(x != c);
            assert(mp[x].supers == m0[x].supers.filter(
                |e: Option<Seq<char>>| mid_kept(remg, csubs.take(k), c, x, e),
            ));
            if m0[x].supers.contains(None) {
                assert(mp[x].supers.contains(None)) by {
                    let i = choose|i: int|
                        0 <= i < m0[x].supers.len() && m0[x].supers[i] == None::<Seq<char>>;
                    m0[x].supers.lemma_filter_contains(
                        |e: Option<Seq<char>>| mid_kept(remg, csubs.take(k), c, x, e),
                        i,
                    );
                }
                if x == skv {
                    assert(mp[skv].supers.remove_value(Some(c)).len() == 0);
                    crate::node::lemma_remove_value_props(mp[skv].supers, Some(c));
                    assert(no_dups(mp[skv].supers)) by {
                        assert(mp[skv].wf());
                    }
                    assert(mp[skv].supers.remove_value(Some(c)).contains(
                        None::<Seq<char>>,
                    ));
                    assert(false);
                } else {
                    assert(!mp[x].supers.contains(None));
                    assert(false);
                }
            }
            assert forall|q: Seq<char>| #[trigger]
                m0[x].supers.contains(Some(q)) implies rem2.contains(q) || q == c by {
                if !remg.contains(q) && q != c {
                    assert(mp[x].supers.contains(Some(q))) by {
                        let i = choose|i: int|
                            0 <= i < m0[x].supers.len() && m0[x].supers[i] == Some(q);
                        assert(mid_kept(remg, csubs.take(k), c, x, m0[x].supers[i]));
                        m0[x].supers.lemma_filter_contains(
                            |e: Option<Seq<char>>| mid_kept(remg, csubs.take(k), c, x, e),
                            i,
                        );
                    }
                    if x == skv {
                        assert(mp[skv].supers.remove_value(Some(c)).len() == 0);
                        crate::node::lemma_remove_value_props(mp[skv].supers, Some(c));
                        assert(no_dups(mp[skv].supers)) by {
                            assert(mp[skv].wf());
                        }
                        assert(mp[skv].supers.remove_value(Some(c)).contains(Some(q)));
                        assert(false);
                    } else {
                        assert(rk.contains(q));
                    }
                }
            }
        }
    }
    assert(tn.nodes.dom() =~= m0.dom().difference(rem2));
    // The orphaned node keeps its (empty) parent list and loses exactly its
    // first remaining child.
    assert(mn[c].id == m0[c].id && mn[c].element == m0[c].element);
    assert(mn[c].supers.len() == 0) by {
        assert(mn[c].supers == mp[c].supers.filter(
            |e: Option<Seq<char>>| kept_parent_entry(rk, e),
        ));
        assert(mp[c].supers.len() == 0);
        assert(mp[c].supers =~= Seq::<Option<Seq<char>>>::empty());
        reveal(Seq::filter);
    }
    assert(mn[c].subs == csubs.skip(k + 1)) by {
        assert(mn[c].subs == mp[c].subs.remove_value(skv));
        let sk = csubs.skip(k);
        sk.index_of_first_ensures(skv);
        assert(sk[0] == skv);
        assert(sk.contains(skv));
        assert(sk.index_of_first(skv) == Some(0int)) by {
            match sk.index_of_first(skv) {
                Some(i) => {
                    if i > 0 {
                        assert(sk[0] != skv);
                    }
                },
                None => {},
            }
        }
        assert(sk.remove_value(skv) =~= csubs.skip(k + 1));
    }
    // Surviving nodes other than `c`.
    assert forall|x: Seq<char>| #[trigger] tn.has(x) && x != c implies {
        &&& mn[x].id == m0[x].id
        &&& mn[x].element == m0[x].element
        &&& mn[x].subs == (if sup == Some(x) {
            m0[x].subs.remove_value(c)
        } else {
            m0[x].subs
        })
        &&& mn[x].supers == m0[x].supers.filter(
            |e: Option<Seq<char>>| mid_kept(rem2, csubs.take(k + 1), c, x, e),
        )
        &&& (mn[x].supers.len() == 0 ==> m0[x].supers.len() == 0)
    } by {
        assert(tp.has(x));
        assert(mn[x].id == mp[x].id && mn[x].element == mp[x].element);
        assert(mn[x].subs == (if Some(c) == Some(x) {
            mp[x].subs.remove_value(skv)
        } else {
            mp[x].subs
        }));
        assert(mn[x].subs == mp[x].subs);
        let pk = |e: Option<Seq<char>>| mid_kept(remg, csubs.take(k), c, x, e);
        let pr = |e: Option<Seq<char>>| kept_parent_entry(rk, e);
        let pn2 = |e: Option<Seq<char>>| mid_kept(rem2, csubs.take(k + 1), c, x, e);
        assert(csubs.take(k + 1) =~= csubs.take(k).push(skv));
        crate::node::lemma_insert_props(csubs.take(k), k, skv);
        assert(csubs.take(k).push(skv) =~= csubs.take(k).insert(k, skv));
        if x == skv {
            // Its edge from `c` was just severed.
            assert(!csubs.take(k).contains(skv)) by {
                if csubs.take(k).contains(skv) {
                    let i = choose|i: int| 0 <= i < k && csubs.take(k)[i] == skv;
                    assert(csubs[i] == csubs[k]);
                }
            }
            let base = mp[skv].supers.remove_value(Some(c));
            assert(mn[skv].supers == base.filter(pr));
            assert(no_dups(mp[skv].supers)) by {
                assert(mp[skv].wf());
            }
            let pc = |e: Option<Seq<char>>| e != Some(c);
            let pcpr = |e: Option<Seq<char>>| e != Some(c) && kept_parent_entry(rk, e);
            crate::node::lemma_remove_value_is_filter(mp[skv].supers, Some(c), pc);
            assert(base == mp[skv].supers.filter(pc));
            crate::node::lemma_filter_compose(mp[skv].supers, pc, pr, pcpr);
            assert(mn[skv].supers == mp[skv].supers.filter(pcpr));
            assert(mp[skv].supers == m0[skv].supers.filter(pk));
            assert(!csubs.take(k).contains(skv));
            assert(csubs.take(k + 1).contains(skv));
            assert forall|e: Option<Seq<char>>| #[trigger]
                pn2(e) == (pk(e) && pcpr(e)) by {}
            crate::node::lemma_filter_compose(m0[skv].supers, pk, pcpr, pn2);
        } else {
            assert(mn[x].supers == mp[x].supers.filter(pr));
            assert(mp[x].supers == m0[x].supers.filter(pk));
            assert forall|e: Option<Seq<char>>| #[trigger]
                pn2(e) == (pk(e) && pr(e)) by {}
            crate::node::lemma_filter_compose(m0[x].supers, pk, pr, pn2);
        }
        if mn[x].supers.len() == 0 {
            assert(mp[x].supers.len() == 0);
        }
    }
    assert(tn.roots == (if sup is None {
        t0.roots.remove_value(c)
    } else {
        t0.roots
    }));
    // Edges only go away.
    assert forall|x: Seq<char>, y: Seq<char>| #[trigger]
        is_child_edge(mn, x, y) implies is_child_edge(m0, x, y) by {
        assert(tn.has(x));
        assert(tp.has(x));
        if x == c {
            assert(mn[c].subs.contains(y));
            assert(csubs.skip(k + 1).contains(y));
            let sk1 = csubs.skip(k + 1);
            let i = choose|i: int| 0 <= i < sk1.len() && #[trigger] sk1[i] == y;
            assert(csubs[k + 1 + i] == y);
            assert(csubs.contains(y));
        } else {
            assert(mn[x].subs == mp[x].subs);
            assert(is_child_edge(mp, x, y));
            assert(is_child_edge(m0, x, y));
        }
    }
}

/// The end of the cascade: all children are detached, deleting the
/// orphaned node itself completes the removal.
proof fn lemma_cascade_finish<V>(
    t0: TaxView<V>,
    tm: TaxView<V>,
    tf: TaxView<V>,
    sup: Option<Seq<char>>,
    c: Seq<char>,
    remg: Set<Seq<char>>,
)
    requires
        t0.links_wf(),
        acyclic(t0.nodes),
        t0.has(c),
        tm.links_wf(),
        cascade_mid_spec(t0, tm, sup, c, remg, t0.nodes[c].subs.len() as int),
        tf == remove_ok_view(tm, c),
    ensures
        remove_from_ok_spec(t0, tf, sup, c, remg.insert(c)),
{
    let rem2 = remg.insert(c);
    let m0 = t0.nodes;
    let mm = tm.nodes;
    assert(crate::reach::descendants(t0.nodes, c).insert(c).contains(c));
    assert forall|x: Seq<char>| rem2.contains(x) implies crate::reach::descendants(
        t0.nodes,
        c,
    ).insert(c).contains(x) by {
        if x != c {
            assert(remg.contains(x));
        }
    }
    assert(rem2.subset_of(crate::reach::descendants(t0.nodes, c).insert(c)));
    assert forall|x: Seq<char>| #[trigger] rem2.contains(x) && x != c implies t0.has(x) && !m0[
        x
    ].supers.contains(None) && (forall|q: Seq<char>|
        #[trigger] m0[x].supers.contains(Some(q)) ==> rem2.contains(q)) by {
        assert(remg.contains(x));
        assert forall|q: Seq<char>| #[trigger]
            m0[x].supers.contains(Some(q)) implies rem2.contains(q) by {
            assert(remg.contains(q) || q == c);
        }
    }
    assert(tf.nodes.dom() =~= m0.dom().difference(rem2)) by {
        assert forall|x: Seq<char>| #[trigger] tf.nodes.dom().contains(x) implies m0.dom().contains(
            x,
        ) && !rem2.contains(x) by {
            assert(tm.has(x) && x != c);
        }
        assert forall|x: Seq<char>|
            m0.dom().contains(x) && !rem2.contains(x) implies #[trigger] tf.nodes.dom().contains(
            x,
        ) by {
            assert(tm.has(x));
        }
    }
    assert(mm[c].subs =~= Seq::<Seq<char>>::empty()) by {
        assert(mm[c].subs == m0[c].subs.skip(m0[c].subs.len() as int));
    }
    assert forall|x: Seq<char>| #[trigger] tf.has(x) implies {
        &&& tf.nodes[x].id == m0[x].id
        &&& tf.nodes[x].element == m0[x].element
        &&& tf.nodes[x].subs == (if sup == Some(x) {
            m0[x].subs.remove_value(c)
        } else {
            m0[x].subs
        })
        &&& tf.nodes[x].supers == (if x == c {
            m0[x].supers.remove_value(sup)
        } else {
            m0[x].supers
        }).filter(|e: Option<Seq<char>>| kept_parent_entry(rem2, e))
        &&& (tf.nodes[x].supers.len() == 0 ==> m0[x].supers.len() == 0)
    } by {
        assert(tm.has(x) && x != c);
        assert(tf.nodes[x] == (NodeView {
            subs: mm[x].subs.remove_value(c),
            ..mm[x]
        }));
        // No survivor still lists the orphan as a child.
        assert(!mm[x].subs.contains(c)) by {
            if mm[x].subs.contains(c) {
                assert(mm[c].supers.contains(Some(x)));
            }
        }
        assert(no_dups(mm[x].subs)) by {
            assert(mm[x].wf());
        }
        crate::node::lemma_remove_value_props(mm[x].subs, c);
        assert(tf.nodes[x].subs == mm[x].subs);
        // The parent filter can now also drop entries for the orphan:
        // there are none left.
        let pm = |e: Option<Seq<char>>| mid_kept(
            remg,
            m0[c].subs.take(m0[c].subs.len() as int),
            c,
            x,
            e,
        );
        let pf = |e: Option<Seq<char>>| kept_parent_entry(rem2, e);
        assert(mm[x].supers == m0[x].supers.filter(pm));
        assert forall|i: int| 0 <= i < m0[x].supers.len() implies pm(
            #[trigger] m0[x].supers[i],
        ) == pf(m0[x].supers[i]) by {
            match m0[x].supers[i] {
                None => {},
                Some(q) => {
                    if q == c {
                        // A parent entry for `c` means `x` was one of its
                        // children in the original state.
                        assert(m0[x].supers.contains(Some(c)));
                        assert(m0[c].subs.contains(x));
                        assert(m0[c].subs.take(m0[c].subs.len() as int) =~= m0[c].subs);
                    }
                },
            }
        }
        crate::node::lemma_filter_congruent(m0[x].supers, pm, pf);
        assert(tf.nodes[x].supers == mm[x].supers);
        if tf.nodes[x].supers.len() == 0 {
            assert(mm[x].supers.len() == 0);
        }
    }
    assert(tf.roots == (if sup is None {
        t0.roots.remove_value(c)
    } else {
        t0.roots
    })) by {
        assert(tf.roots == tm.roots.remove_value(c));
        assert(no_dups(tm.roots));
        crate::node::lemma_remove_value_props(tm.roots, c);
        assert(!tm.roots.contains(c)) by {
            if tm.roots.contains(c) {
                assert(mm[c].supers.contains(None));
            }
        }
        match sup {
            None => {
                assert(tm.roots == t0.roots.remove_value(c));
                assert(tm.roots.remove_value(c) == tm.roots);
            },
            Some(p) => {
                assert(tm.roots == t0.roots);
                assert(tm.roots.remove_value(c) == tm.roots);
            },
        }
    }
    assert(rem2.contains(c) <==> m0[c].supers.remove_value(sup).len() == 0);
}


/// The abstract state right after attaching the existing node `n` under
/// `sup` (or at the root level) at position `index`.
pub open spec fn attach_view<V>(
    t0: TaxView<V>,
    sup: Option<Seq<char>>,
    n: Seq<char>,
    index: int,
) -> TaxView<V> {
    match sup {
        None => TaxView {
            nodes: t0.nodes.insert(
                n,
                (NodeView {
                    supers: t0.nodes[n].supers.insert(0, Option::<Seq<char>>::None),
                    ..t0.nodes[n]
                }),
            ),
            roots: t0.roots.insert(at_most(index, t0.roots.len() as int), n),
            last: Some(n),
            ..t0
        },
        Some(s) => TaxView {
            nodes: t0.nodes.insert(
                s,
                (NodeView {
                    subs: t0.nodes[s].subs.insert(at_most(index, t0.nodes[s].subs.len() as int), n),
                    ..t0.nodes[s]
                }),
            ).insert(n, (NodeView { supers: t0.nodes[n].supers.push(Some(s)), ..t0.nodes[n] })),
            last: Some(n),
            ..t0
        },
    }
}

/// The exact failure cases of `move_to`, with the checks made in this
/// order: unknown node, unknown source, unknown destination, missing
/// source edge, already existing destination edge, and a destination that
/// would close a cycle.
pub open spec fn move_err_spec<V>(
    t0: TaxView<V>,
    n: Seq<char>,
    from: Option<Seq<char>>,
    to: Option<Seq<char>>,
    e: crate::taxonomy_error::ErrorView,
) -> bool {
    match e {
        crate::taxonomy_error::ErrorView::NodeNotFound(x) => (!t0.has(n) && x == n) || (t0.has(n)
            && (from matches Some(f) && x == f && !t0.has(f))) || (t0.has(n) && (match from {
            None => true,
            Some(f) => t0.has(f),
        }) && (to matches Some(s) && x == s && !t0.has(s))),
        crate::taxonomy_error::ErrorView::EdgeNotFound(s2, n2) => s2 == from && n2 == n && t0.has(
            n,
        ) && (match from {
            None => true,
            Some(f) => t0.has(f),
        }) && (match to {
            None => true,
            Some(s) => t0.has(s),
        }) && !t0.edge_exists(EdgeView { super_id: from, node_id: n }),
        crate::taxonomy_error::ErrorView::DuplicateEdge(s2, n2) => s2 == to && n2 == n && t0.has(n)
            && (match from {
            None => true,
            Some(f) => t0.has(f),
        }) && (match to {
            None => true,
            Some(s) => t0.has(s),
        }) && t0.edge_exists(EdgeView { super_id: from, node_id: n }) && t0.edge_exists(
            EdgeView { super_id: to, node_id: n },
        ),
        crate::taxonomy_error::ErrorView::LoopDetected(x) => x == n && t0.has(n) && (match from {
            None => true,
            Some(f) => t0.has(f),
        }) && (to matches Some(s) && t0.has(s) && t0.edge_exists(
            EdgeView { super_id: from, node_id: n },
        ) && !t0.edge_exists(EdgeView { super_id: to, node_id: n }) && (s == n
            || crate::reach::reaches(t0.nodes, n, s))),
        _ => false,
    }
}

impl<V> Taxonomy<V> {
    /// Relocates one existing relationship: the node is attached under the
    /// destination (at `index`, clamped) and then detached from the
    /// source. Because the destination is attached first, the node always
    /// keeps a parent and no cascading removal can occur.
    ///
    /// Fails with `NodeNotFound` for an unknown identifier, `EdgeNotFound`
    /// when the source relationship does not exist, `DuplicateEdge` when
    /// the destination relationship already exists, and `LoopDetected`
    /// when the destination would close a cycle; nothing changes in any of
    /// these cases.
    pub fn move_to(
        &mut self,
        node_id: String,
        from_super_id: Option<String>,
        to_super_id: Option<String>,
        index: usize,
    ) -> (r: Result<(), TaxonomyError>)
        requires
            old(self).wf(),
            old(self)@.fully_parented(),
        ensures
            final(self).wf(),
            final(self)@.fully_parented(),
            match r {
                Err(e) => *final(self) == *old(self) && move_err_spec(
                    old(self)@,
                    node_id@,
                    from_super_id.deep_view(),
                    to_super_id.deep_view(),
                    e@,
                ),
                Ok(()) => {
                    &&& old(self)@.nodes.contains_key(node_id@)
                    &&& old(self)@.edge_exists(
                        EdgeView { super_id: from_super_id.deep_view(), node_id: node_id@ },
                    )
                    &&& !old(self)@.edge_exists(
                        EdgeView { super_id: to_super_id.deep_view(), node_id: node_id@ },
                    )
                    &&& match to_super_id.deep_view() {
                        Option::<Seq<char>>::None => true,
                        Option::<Seq<char>>::Some(s) => old(self)@.nodes.contains_key(s) && s
                            != node_id@ && !crate::reach::reaches(old(self)@.nodes, node_id@, s),
                    }
                    &&& remove_from_ok_spec(
                        attach_view(
                            old(self)@,
                            to_super_id.deep_view(),
                            node_id@,
                            index as int,
                        ),
                        final(self)@,
                        from_super_id.deep_view(),
                        node_id@,
                        Set::<Seq<char>>::empty(),
                    )
                },
            },
    {
        match self._err_node_not_found(node_id.clone()) {
            Err(e) => {
                return Err(e);
            },
            Ok(()) => {},
        }
        match &from_super_id {
            None => {},
            Some(f) => {
                match self._err_node_not_found(f.clone()) {
                    Err(e) => {
                        return Err(e);
                    },
                    Ok(()) => {},
                }
            },
        }
        match &to_super_id {
            None => {},
            Some(s) => {
                match self._err_node_not_found(s.clone()) {
                    Err(e) => {
                        return Err(e);
                    },
                    Ok(()) => {},
                }
            },
        }
        let from_edge = Edge::new(clone_opt_id(&from_super_id), node_id.clone());
        match self._err_edge_not_found(&from_edge) {
            Err(e) => {
                return Err(e);
            },
            Ok(()) => {},
        }
        let to_edge = Edge::new(clone_opt_id(&to_super_id), node_id.clone());
        match self._err_duplicate_edge(&to_edge) {
            Err(e) => {
                return Err(e);
            },
            Ok(()) => {},
        }
        match to_super_id {
            None => {
                self._append_root_at(node_id.clone(), index);
            },
            Some(sid) => {
                match self._err_loop_detected(sid.clone(), node_id.clone(), None) {
                    Err(e) => {
                        return Err(e);
                    },
                    Ok(()) => {},
                }
                self._append_at(sid, node_id.clone(), index);
            },
        }
        proof {
            assert(self@ == attach_view(
                old(self)@,
                to_super_id.deep_view(),
                node_id@,
                index as int,
            ));
            assert(self@.edge_exists(from_edge@)) by {
                let t0 = old(self)@;
                let ta = self@;
                match from_super_id.deep_view() {
                    Option::<Seq<char>>::None => {
                        assert(t0.roots.contains(node_id@));
                        match to_super_id.deep_view() {
                            Option::<Seq<char>>::None => {},
                            Option::<Seq<char>>::Some(s2) => {
                                assert(ta.roots == t0.roots);
                            },
                        }
                        if ta.roots != t0.roots {
                            crate::node::lemma_insert_props(
                                t0.roots,
                                at_most(index as int, t0.roots.len() as int),
                                node_id@,
                            );
                        }
                    },
                    Option::<Seq<char>>::Some(f) => {
                        assert(t0.nodes[f].subs.contains(node_id@));
                        if to_super_id.deep_view() == Some(f) {
                            assert(t0.edge_exists(to_edge@));
                        }
                        assert(ta.nodes[f].subs.contains(node_id@)) by {
                            match to_super_id.deep_view() {
                                Option::<Seq<char>>::None => {},
                                Option::<Seq<char>>::Some(s2) => {
                                    if s2 == f {
                                        crate::node::lemma_insert_props(
                                            t0.nodes[f].subs,
                                            at_most(
                                                index as int,
                                                t0.nodes[f].subs.len() as int,
                                            ),
                                            node_id@,
                                        );
                                    }
                                },
                            }
                        }
                    },
                }
            }
        }
        let res = self.remove_from(from_edge);
        proof {
            let ta = attach_view(old(self)@, to_super_id.deep_view(), node_id@, index as int);
            match res {
                Err(_) => {
                    assert(false);
                },
                Ok(()) => {},
            }
            let rem = choose|rem: Set<Seq<char>>|
                remove_from_ok_spec(ta, self@, from_super_id.deep_view(), node_id@, rem);
            // The destination parent was attached first, so the node kept a
            // parent entry and nothing cascaded.
            assert(ta.nodes[node_id@].supers.remove_value(from_super_id.deep_view()).len()
                > 0) by {
                let t0 = old(self)@;
                let n = node_id@;
                let olds = t0.nodes[n].supers;
                assert(olds.contains(from_super_id.deep_view())) by {
                    match from_super_id.deep_view() {
                        Option::<Seq<char>>::None => {
                            assert(t0.roots.contains(n));
                        },
                        Option::<Seq<char>>::Some(f) => {
                            assert(t0.nodes[f].subs.contains(n));
                        },
                    }
                }
                let news = ta.nodes[n].supers;
                match to_super_id.deep_view() {
                    Option::<Seq<char>>::None => {
                        assert(news == olds.insert(0, Option::<Seq<char>>::None));
                        crate::node::lemma_insert_props(olds, 0, Option::<Seq<char>>::None);
                        news.index_of_first_ensures(from_super_id.deep_view());
                        crate::node::lemma_remove_value_props(news, from_super_id.deep_view());
                        assert(no_dups(news)) by {
                            assert(!olds.contains(None)) by {
                                if olds.contains(None) {
                                    assert(t0.roots.contains(n));
                                    assert(t0.edge_exists(to_edge@));
                                }
                            }
                            assert(no_dups(olds)) by {
                                assert(t0.nodes[n].wf());
                            }
                        }
                        assert(news.contains(Option::<Seq<char>>::None));
                        assert(news.contains(from_super_id.deep_view()));
                        assert(news.len() == olds.len() + 1);
                        assert(news.remove_value(from_super_id.deep_view()).len() == olds.len());
                        assert(olds.len() > 0) by {
                            assert(olds.contains(from_super_id.deep_view()));
                        }
                    },
                    Option::<Seq<char>>::Some(s2) => {
                        assert(news == olds.push(Some(s2)));
                        crate::node::lemma_insert_props(olds, olds.len() as int, Some(s2));
                        assert(news =~= olds.insert(olds.len() as int, Some(s2)));
                        assert(no_dups(news)) by {
                            assert(!olds.contains(Some(s2))) by {
                                if olds.contains(Some(s2)) {
                                    assert(t0.nodes[s2].subs.contains(n));
                                    assert(t0.edge_exists(to_edge@));
                                }
                            }
                            assert(no_dups(olds)) by {
                                assert(t0.nodes[n].wf());
                            }
                        }
                        crate::node::lemma_remove_value_props(news, from_super_id.deep_view());
                        assert(news.contains(from_super_id.deep_view()));
                        assert(news[olds.len() as int] == Some(s2));
                        assert(news.contains(Some(s2)));
                        assert(Some(s2) != from_super_id.deep_view()) by {
                            if Some(s2) == from_super_id.deep_view() {
                                assert(t0.edge_exists(to_edge@));
                            }
                        }
                        assert(news.remove_value(from_super_id.deep_view()).contains(Some(s2)));
                    },
                }
            }
            assert(!rem.contains(node_id@));
            assert(rem == Set::<Seq<char>>::empty());
            assert(ta.fully_parented()) by {
                lemma_parented_insert(old(self)@, ta);
            }
            lemma_parented_after_move(ta, self@, from_super_id.deep_view(), node_id@);
        }
        Ok(())
    }
}

/// A non-cascading detach keeps every node parented, as long as the state
/// it starts from is fully parented except possibly at the detached node
/// (which keeps another entry).
proof fn lemma_parented_after_move<V>(
    ta: TaxView<V>,
    t1: TaxView<V>,
    sup: Option<Seq<char>>,
    n: Seq<char>,
)
    requires
        remove_from_ok_spec(ta, t1, sup, n, Set::<Seq<char>>::empty()),
    ensures
        ta.fully_parented() ==> t1.fully_parented(),
{
    if ta.fully_parented() {
        assert forall|k: Seq<char>| #[trigger] t1.nodes.contains_key(k) implies t1.nodes[
            k
        ].supers.len() > 0 by {
            assert(t1.has(k));
            assert(ta.nodes.contains_key(k)) by {
                assert(t1.nodes.dom() == ta.nodes.dom().difference(Set::<Seq<char>>::empty()));
            }
            if t1.nodes[k].supers.len() == 0 {
                assert(ta.nodes[k].supers.len() == 0);
            }
        }
    }
}

/// Clones an optional identifier.
fn clone_opt_id(v: &Option<String>) -> (r: Option<String>)
    ensures
        r.deep_view() == v.deep_view(),
{
    match v {
        None => None,
        Some(s) => Some(s.clone()),
    }
}


/// Removing a subset of a finite set costs exactly its size.
proof fn lemma_len_diff_subset(a: Set<Seq<char>>, b: Set<Seq<char>>)
    requires
        a.finite(),
        b.subset_of(a),
    ensures
        b.finite(),
        a.difference(b).len() + b.len() == a.len(),
    decreases a.len(),
{
    vstd::set_lib::lemma_len_subset(b, a);
    if b.len() == 0 {
        assert(b =~= Set::<Seq<char>>::empty());
        assert(a.difference(b) =~= a);
    } else {
        let x = b.choose();
        assert(b.contains(x));
        let a2 = a.remove(x);
        let b2 = b.remove(x);
        assert(b2.subset_of(a2));
        lemma_len_diff_subset(a2, b2);
        assert(a.difference(b) =~= a2.difference(b2));
    }
}

/// Removing whole nodes never empties a surviving parent list.
proof fn lemma_rec_parented<V>(t0: TaxView<V>, t1: TaxView<V>, rem: Set<Seq<char>>)
    requires
        remove_rec_spec(t0, t1, rem),
    ensures
        t0.fully_parented() ==> t1.fully_parented(),
{
    if t0.fully_parented() {
        assert forall|k: Seq<char>| #[trigger] t1.nodes.contains_key(k) implies t1.nodes[
            k
        ].supers.len() > 0 by {
            assert(t1.has(k));
            assert(t0.nodes.contains_key(k));
        }
    }
}

/// The exact effect of removing a set `rem` of nodes outright: they leave
/// the store, every child list and the root list; parent lists and
/// elements of the surviving nodes stay as they are.
pub open spec fn remove_rec_spec<V>(t0: TaxView<V>, t1: TaxView<V>, rem: Set<Seq<char>>) -> bool {
    &&& forall|x: Seq<char>| #[trigger] rem.contains(x) ==> t0.has(x)
    &&& t1.nodes.dom() == t0.nodes.dom().difference(rem)
    &&& forall|x: Seq<char>|
        #[trigger] t1.has(x) ==> {
            &&& t1.nodes[x].id == t0.nodes[x].id
            &&& t1.nodes[x].element == t0.nodes[x].element
            &&& t1.nodes[x].supers == t0.nodes[x].supers
            &&& t1.nodes[x].subs == t0.nodes[x].subs.filter(
                |s: Seq<char>| !rem.contains(s),
            )
        }
    &&& t1.roots == t0.roots.filter(|s: Seq<char>| !rem.contains(s))
    &&& (t1.cursor == t0.cursor || t1.cursor == Seq::<CursorView>::empty())
}

impl<V> Taxonomy<V> {
    /// Removes a node together with every one of its direct and indirect
    /// subordinates, whether or not they have other superordinate nodes.
    /// A subordinate that sits in the subtree twice (over two paths) is
    /// deleted when the walk first reaches it and skipped afterwards. A
    /// traversal in progress is reset.
    ///
    /// Fails only with `NodeNotFound`, when the identifier is unknown, and
    /// nothing changes then.
    pub fn remove_recursively(&mut self, node_id: String) -> (r: Result<(), TaxonomyError>)
        requires
            old(self).wf(),
        ensures
            final(self).wf(),
            old(self)@.fully_parented() ==> final(self)@.fully_parented(),
            match r {
                Ok(()) => {
                    &&& old(self)@.nodes.contains_key(node_id@)
                    &&& remove_rec_spec(
                        old(self)@,
                        final(self)@,
                        crate::reach::descendants(old(self)@.nodes, node_id@).insert(node_id@),
                    )
                    &&& final(self)@.last == Some(node_id@)
                    &&& final(self)@.cursor == Seq::<CursorView>::empty()
                },
                Err(e) => {
                    &&& !old(self)@.nodes.contains_key(node_id@)
                    &&& *final(self) == *old(self)
                    &&& (e@ matches crate::taxonomy_error::ErrorView::NodeNotFound(x) && x
                        == node_id@)
                },
            },
        decreases self@.nodes.dom().len(), crate::reach::descendants(self@.nodes, node_id@).len(),
    {
        proof {
            self.lemma_index();
            self.lemma_dom_len();
        }
        let i = match self.find_index(&node_id) {
            None => {
                return Err(TaxonomyError::NodeNotFound(node_id));
            },
            Some(i) => i,
        };
        let ghost t0 = old(self)@;
        let ghost n = node_id@;
        let sl = clone_ids(self.nodes[i].subs());
        proof {
            assert(sl.deep_view() == t0.nodes[n].subs);
        }
        let ghost mut remg = Set::<Seq<char>>::empty();
        let mut k: usize = 0;
        proof {
            assert(self@.nodes.dom() =~= t0.nodes.dom().difference(remg));
            assert forall|x: Seq<char>| #[trigger] self@.has(x) implies self@.nodes[x].subs
                == t0.nodes[x].subs.filter(|s: Seq<char>| !remg.contains(s)) by {
                crate::node::lemma_filter_keep_all(
                    t0.nodes[x].subs,
                    |s: Seq<char>| !remg.contains(s),
                );
            }
            crate::node::lemma_filter_keep_all(t0.roots, |s: Seq<char>| !remg.contains(s));
            lemma_len_diff_subset(t0.nodes.dom(), remg);
        }
        while k < sl.len()
            invariant
                self.wf(),
                old(self).wf(),
                t0 == old(self)@,
                k == 0 ==> remg == Set::<Seq<char>>::empty(),
                t0.links_wf(),
                acyclic(t0.nodes),
                t0.nodes.dom().finite(),
                t0.has(n),
                n == node_id@,
                sl.deep_view() == t0.nodes[n].subs,
                k <= sl.deep_view().len(),
                remg.finite(),
                remg.subset_of(crate::reach::descendants(t0.nodes, n)),
                !remg.contains(n),
                forall|x: Seq<char>| #[trigger] remg.contains(x) ==> t0.has(x),
                forall|x: Seq<char>, y: Seq<char>|
                    remg.contains(x) && #[trigger] is_child_edge(t0.nodes, x, y)
                        ==> remg.contains(y),
                forall|j: int| 0 <= j < k ==> remg.contains(#[trigger] sl.deep_view()[j]),
                remove_rec_spec(t0, self@, remg),
                self@.has(n),
                self.nodes@.len() + remg.len() == old(self).nodes@.len(),
            decreases sl.deep_view().len() - k,
        {
            let ghost skv = sl.deep_view()[k as int];
            let skid = sl[k].clone();
            if self.contains_node(&skid) {
                let ghost prev = *self;
                proof {
                    prev.lemma_dom_len();
                    if k == 0 {
                        assert(remg.len() == 0);
                        assert(self@.nodes =~= t0.nodes) by {
                            assert(self@.nodes.dom() =~= t0.nodes.dom());
                            assert forall|x: Seq<char>| #[trigger]
                                self@.nodes.contains_key(x) implies self@.nodes[x]
                                == t0.nodes[x] by {
                                assert(self@.has(x));
                                assert(t0.has(x));
                                crate::node::lemma_filter_keep_all(
                                    t0.nodes[x].subs,
                                    |s: Seq<char>| !remg.contains(s),
                                );
                            }
                        }
                        assert(is_child_edge(self@.nodes, n, skv)) by {
                            assert(t0.nodes[n].subs[k as int] == skv);
                            assert(t0.nodes[n].subs.contains(skv));
                        }
                        crate::reach::lemma_desc_shrink(self@.nodes, n, skv);
                    } else {
                        assert(remg.contains(sl.deep_view()[0]));
                        assert(remg.len() > 0) by {
                            if remg.len() == 0 {
                                assert(remg =~= Set::<Seq<char>>::empty());
                            }
                        }
                        assert(self.nodes@.len() < old(self).nodes@.len());
                        self.lemma_dom_len();
                        old(self).lemma_dom_len();
                        assert(self@.nodes.dom().len() < old(self)@.nodes.dom().len());
                    }
                    old(self).lemma_dom_len();
                }
                let res = self.remove_recursively(skid);
                proof {
                    match res {
                        Err(_) => {
                            // The child was just found present, so the call
                            // cannot have failed.
                            assert(prev@.nodes.contains_key(skv));
                            assert(false);
                        },
                        Ok(()) => {},
                    }
                    let rem_k = crate::reach::descendants(prev@.nodes, skv).insert(skv);
                    assert(rem_k.subset_of(
                        crate::reach::descendants(prev@.nodes, skv).insert(skv),
                    ));
                    lemma_rec_lift(t0, prev@, self@, n, remg, skv, k as int, rem_k);
                    let rem2 = remg.union(rem_k);
                    // The grown set is still closed under the child edges of
                    // the starting state.
                    assert forall|x: Seq<char>, y: Seq<char>|
                        rem2.contains(x) && #[trigger] is_child_edge(t0.nodes, x, y)
                            implies rem2.contains(y) by {
                        if !remg.contains(x) {
                            assert(rem_k.contains(x));
                            assert(prev@.nodes.contains_key(x)) by {
                                if x != skv {
                                    assert(crate::reach::reaches(prev@.nodes, skv, x));
                                    crate::reach::lemma_reaches_in_dom(prev@.nodes, skv, x);
                                }
                            }
                            if !remg.contains(y) {
                                assert(prev@.nodes[x].subs == t0.nodes[x].subs.filter(
                                    |q: Seq<char>| !remg.contains(q),
                                ));
                                crate::node::lemma_filter_membership(
                                    t0.nodes[x].subs,
                                    |q: Seq<char>| !remg.contains(q),
                                );
                                assert(is_child_edge(prev@.nodes, x, y));
                                if x == skv {
                                    crate::reach::lemma_edge_reaches(prev@.nodes, skv, y);
                                } else {
                                    crate::reach::lemma_edge_reaches(prev@.nodes, x, y);
                                    crate::reach::lemma_reaches_trans(prev@.nodes, skv, x, y);
                                }
                                assert(rem_k.contains(y));
                            }
                        }
                    }
                    remg = rem2;
                    lemma_len_diff_subset(t0.nodes.dom(), remg);
                    self.lemma_dom_len();
                }
            } else {
                proof {
                    // This child was already deleted over another path
                    // through the subtree; there is nothing left to do for
                    // it.
                    assert(t0.nodes[n].subs.contains(skv)) by {
                        assert(t0.nodes[n].subs[k as int] == skv);
                    }
                    assert(t0.has(skv));
                    assert(!self@.nodes.contains_key(skv));
                    assert(remg.contains(skv));
                }
            }
            k = k + 1;
        }
        // Every child is gone; the node itself has no subordinates left.
        proof {
            assert forall|j: int|
                0 <= j < t0.nodes[n].subs.len() implies !(|s: Seq<char>| !remg.contains(s))(
                #[trigger] t0.nodes[n].subs[j],
            ) by {
                assert(remg.contains(sl.deep_view()[j]));
            }
            crate::node::lemma_filter_membership(
                t0.nodes[n].subs,
                |s: Seq<char>| !remg.contains(s),
            );
            let fs = t0.nodes[n].subs.filter(|s: Seq<char>| !remg.contains(s));
            assert(fs.len() == 0) by {
                if fs.len() > 0 {
                    assert(fs.contains(fs[0]));
                    assert(t0.nodes[n].subs.contains(fs[0]));
                    let j = choose|j: int|
                        0 <= j < t0.nodes[n].subs.len() && t0.nodes[n].subs[j] == fs[0];
                    assert(remg.contains(sl.deep_view()[j]));
                }
            }
            assert(self@.nodes[n].subs.len() == 0);
        }
        let ghost tm = *self;
        let res2 = self.remove(node_id);
        proof {
            match res2 {
                Err(_) => {
                    assert(false);
                },
                Ok(()) => {},
            }
            lemma_rec_finish(t0, tm@, self@, n, remg);
            lemma_rec_parented(
                t0,
                self@,
                crate::reach::descendants(t0.nodes, n).insert(n),
            );
        }
        Ok(())
    }
}


/// Lifts one finished sub-removal into the running removal: what the call
/// on the `k`-th child deleted extends what the loop deleted so far.
proof fn lemma_rec_lift<V>(
    t0: TaxView<V>,
    tp: TaxView<V>,
    tn: TaxView<V>,
    n: Seq<char>,
    remg: Set<Seq<char>>,
    skv: Seq<char>,
    k: int,
    rem_k: Set<Seq<char>>,
)
    requires
        t0.links_wf(),
        acyclic(t0.nodes),
        t0.has(n),
        remg.subset_of(crate::reach::descendants(t0.nodes, n)),
        !remg.contains(n),
        forall|x: Seq<char>| #[trigger] remg.contains(x) ==> t0.has(x),
        remove_rec_spec(t0, tp, remg),
        tp.links_wf(),
        acyclic(tp.nodes),
        tp.has(n),
        tp.has(skv),
        0 <= k < t0.nodes[n].subs.len(),
        skv == t0.nodes[n].subs[k],
        rem_k.subset_of(crate::reach::descendants(tp.nodes, skv).insert(skv)),
        remove_rec_spec(tp, tn, rem_k),
    ensures
        remg.union(rem_k).subset_of(crate::reach::descendants(t0.nodes, n)),
        !remg.union(rem_k).contains(n),
        forall|x: Seq<char>| #[trigger] remg.union(rem_k).contains(x) ==> t0.has(x),
        remove_rec_spec(t0, tn, remg.union(rem_k)),
        tn.nodes.contains_key(n),
{
    let rem2 = remg.union(rem_k);
    let m0 = t0.nodes;
    let mp = tp.nodes;
    // Edges of the middle state are edges of the original state.
    assert forall|x: Seq<char>, y: Seq<char>| #[trigger]
        is_child_edge(mp, x, y) implies is_child_edge(m0, x, y) by {
        assert(tp.has(x));
        assert(m0.contains_key(x));
        assert(mp[x].subs == m0[x].subs.filter(|s: Seq<char>| !remg.contains(s)));
        crate::node::lemma_filter_membership(m0[x].subs, |s: Seq<char>| !remg.contains(s));
        assert(mp[x].subs.contains(y));
    }
    crate::reach::lemma_reaches_monotone(mp, m0);
    assert(is_child_edge(m0, n, skv)) by {
        assert(m0[n].subs.contains(skv));
    }
    // The node itself is not inside the child's subtree.
    assert(is_child_edge(mp, n, skv)) by {
        assert(mp[n].subs == m0[n].subs.filter(|s: Seq<char>| !remg.contains(s)));
        assert(!remg.contains(skv)) by {
            assert(tp.has(skv));
        }
        crate::node::lemma_filter_membership(m0[n].subs, |s: Seq<char>| !remg.contains(s));
        assert(m0[n].subs.contains(skv));
    }
    assert(!rem_k.contains(n)) by {
        if rem_k.contains(n) {
            if n == skv {
                assert(m0[n].subs.contains(n));
                assert(m0[n].wf());
            } else {
                assert(crate::reach::reaches(mp, skv, n));
                crate::reach::lemma_edge_reaches_trans(mp, n, skv, n);
            }
        }
    }
    assert(tn.nodes.contains_key(n)) by {
        assert(tn.nodes.dom() == mp.dom().difference(rem_k));
    }
    // Everything the call deleted lies below `n` in the original state.
    assert forall|x: Seq<char>| #[trigger] rem2.contains(x) implies crate::reach::reaches(
        m0,
        n,
        x,
    ) && t0.has(x) by {
        if remg.contains(x) {
            crate::reach::lemma_reaches_in_dom(m0, n, x);
        } else {
            assert(rem_k.contains(x));
            if x == skv {
                crate::reach::lemma_edge_reaches(m0, n, skv);
            } else {
                assert(crate::reach::reaches(mp, skv, x));
                assert(crate::reach::reaches(m0, skv, x));
                crate::reach::lemma_edge_reaches_trans(m0, n, skv, x);
            }
            crate::reach::lemma_reaches_in_dom(m0, n, x);
        }
    }
    assert(remove_rec_spec(t0, tn, rem2)) by {
        assert(tn.nodes.dom() =~= m0.dom().difference(rem2)) by {
            assert(tn.nodes.dom() == mp.dom().difference(rem_k));
            assert(mp.dom() == m0.dom().difference(remg));
        }
        assert forall|x: Seq<char>| #[trigger] tn.has(x) implies {
            &&& tn.nodes[x].id == m0[x].id
            &&& tn.nodes[x].element == m0[x].element
            &&& tn.nodes[x].supers == m0[x].supers
            &&& tn.nodes[x].subs == m0[x].subs.filter(|s: Seq<char>| !rem2.contains(s))
        } by {
            assert(tp.has(x)) by {
                assert(tn.nodes.dom() == mp.dom().difference(rem_k));
            }
            assert(tn.nodes[x].subs == mp[x].subs.filter(
                |s: Seq<char>| !rem_k.contains(s),
            ));
            assert(mp[x].subs == m0[x].subs.filter(|s: Seq<char>| !remg.contains(s)));
            crate::node::lemma_filter_compose(
                m0[x].subs,
                |s: Seq<char>| !remg.contains(s),
                |s: Seq<char>| !rem_k.contains(s),
                |s: Seq<char>| !rem2.contains(s),
            );
        }
        assert(tn.roots == t0.roots.filter(|s: Seq<char>| !rem2.contains(s))) by {
            assert(tn.roots == tp.roots.filter(|s: Seq<char>| !rem_k.contains(s)));
            assert(tp.roots == t0.roots.filter(|s: Seq<char>| !remg.contains(s)));
            crate::node::lemma_filter_compose(
                t0.roots,
                |s: Seq<char>| !remg.contains(s),
                |s: Seq<char>| !rem_k.contains(s),
                |s: Seq<char>| !rem2.contains(s),
            );
        }
    }
}

/// The end of the recursive removal: every child's subtree is gone,
/// deleting the node itself completes it, and together they are exactly
/// the node with all its subordinates.
proof fn lemma_rec_finish<V>(
    t0: TaxView<V>,
    tm: TaxView<V>,
    tf: TaxView<V>,
    n: Seq<char>,
    remg: Set<Seq<char>>,
)
    requires
        t0.links_wf(),
        acyclic(t0.nodes),
        t0.has(n),
        remg.subset_of(crate::reach::descendants(t0.nodes, n)),
        !remg.contains(n),
        forall|x: Seq<char>| #[trigger] remg.contains(x) ==> t0.has(x),
        forall|x: Seq<char>, y: Seq<char>|
            remg.contains(x) && #[trigger] is_child_edge(t0.nodes, x, y) ==> remg.contains(y),
        forall|j: int|
            0 <= j < t0.nodes[n].subs.len() ==> remg.contains(#[trigger] t0.nodes[n].subs[j]),
        remove_rec_spec(t0, tm, remg),
        tm.links_wf(),
        tm.has(n),
        tf == remove_ok_view(tm, n),
    ensures
        remg.insert(n) == crate::reach::descendants(t0.nodes, n).insert(n),
        remove_rec_spec(t0, tf, crate::reach::descendants(t0.nodes, n).insert(n)),
        tf.last == Some(n),
        tf.cursor == Seq::<CursorView>::empty(),
{
    let rem2 = remg.insert(n);
    let m0 = t0.nodes;
    let mm = tm.nodes;
    // The deleted set is exactly the node and its subordinates.
    assert(rem2 =~= crate::reach::descendants(m0, n).insert(n)) by {
        assert forall|w: Seq<char>| is_child_edge(m0, n, w) implies rem2.contains(w) by {
            let j = choose|j: int| 0 <= j < m0[n].subs.len() && m0[n].subs[j] == w;
            assert(remg.contains(m0[n].subs[j]));
        }
        assert forall|v: Seq<char>, w: Seq<char>|
            rem2.contains(v) && #[trigger] is_child_edge(m0, v, w) implies rem2.contains(w) by {
            if v == n {
                let j = choose|j: int| 0 <= j < m0[n].subs.len() && m0[n].subs[j] == w;
                assert(remg.contains(m0[n].subs[j]));
            }
        }
        crate::reach::lemma_closed_set_covers(m0, n, rem2);
        assert forall|x: Seq<char>| rem2.contains(x) implies crate::reach::descendants(
            m0,
            n,
        ).insert(n).contains(x) by {}
    }
    assert(remove_rec_spec(t0, tf, rem2)) by {
        assert(tf.nodes.dom() =~= m0.dom().difference(rem2)) by {
            assert forall|x: Seq<char>| #[trigger] tf.nodes.dom().contains(x)
                implies m0.dom().contains(x) && !rem2.contains(x) by {
                assert(tm.has(x) && x != n);
            }
            assert forall|x: Seq<char>|
                m0.dom().contains(x) && !rem2.contains(x) implies #[trigger]
                tf.nodes.dom().contains(x) by {
                assert(tm.has(x));
            }
        }
        assert forall|x: Seq<char>| #[trigger] tf.has(x) implies {
            &&& tf.nodes[x].id == m0[x].id
            &&& tf.nodes[x].element == m0[x].element
            &&& tf.nodes[x].supers == m0[x].supers
            &&& tf.nodes[x].subs == m0[x].subs.filter(|s: Seq<char>| !rem2.contains(s))
        } by {
            assert(tm.has(x) && x != n);
            assert(tf.nodes[x] == (NodeView { subs: mm[x].subs.remove_value(n), ..mm[x] }));
            assert(no_dups(mm[x].subs)) by {
                assert(mm[x].wf());
            }
            crate::node::lemma_remove_value_is_filter(mm[x].subs, n, |s: Seq<char>| s != n);
            assert(mm[x].subs == m0[x].subs.filter(|s: Seq<char>| !remg.contains(s)));
            crate::node::lemma_filter_compose(
                m0[x].subs,
                |s: Seq<char>| !remg.contains(s),
                |s: Seq<char>| s != n,
                |s: Seq<char>| !rem2.contains(s),
            );
        }
        assert(tf.roots == t0.roots.filter(|s: Seq<char>| !rem2.contains(s))) by {
            assert(tf.roots == tm.roots.remove_value(n));
            assert(no_dups(tm.roots));
            crate::node::lemma_remove_value_is_filter(tm.roots, n, |s: Seq<char>| s != n);
            assert(tm.roots == t0.roots.filter(|s: Seq<char>| !remg.contains(s)));
            crate::node::lemma_filter_compose(
                t0.roots,
                |s: Seq<char>| !remg.contains(s),
                |s: Seq<char>| s != n,
                |s: Seq<char>| !rem2.contains(s),
            );
        }
    }
}


/// The node a (valid) cursor frame addresses: a root, or a child of the
/// frame's superordinate node.
pub open spec fn frame_target<V>(t: TaxView<V>, f: CursorView) -> Seq<char> {
    match f.super_id {
        None => t.roots[f.node_index],
        Some(p) => t.nodes[p].subs[f.node_index],
    }
}

/// The node the traversal currently stands on: the one addressed by the
/// top frame, or nothing when no walk is in progress.
pub open spec fn addressed<V>(t: TaxView<V>) -> Option<Seq<char>> {
    if t.cursor.len() == 0 {
        None
    } else {
        Some(frame_target(t, t.cursor.last()))
    }
}

/// The next sibling position of a frame, if its list has one.
pub open spec fn frame_succ<V>(t: TaxView<V>, f: CursorView) -> Option<CursorView> {
    match f.super_id {
        None => if f.node_index + 1 < t.roots.len() {
            Some(CursorView { super_id: None, node_index: f.node_index + 1 })
        } else {
            None
        },
        Some(p) => if f.node_index + 1 < t.nodes[p].subs.len() {
            Some(CursorView { super_id: Some(p), node_index: f.node_index + 1 })
        } else {
            None
        },
    }
}

/// Unwinds the position stack: frames are popped until one has a next
/// sibling, which then becomes the new top; if none has, the stack
/// empties and the walk is over.
pub open spec fn unwind_cursor<V>(t: TaxView<V>, st: Seq<CursorView>) -> Seq<CursorView>
    decreases st.len(),
{
    if st.len() == 0 {
        st
    } else {
        match frame_succ(t, st.last()) {
            Some(f2) => st.drop_last().push(f2),
            None => unwind_cursor(t, st.drop_last()),
        }
    }
}

/// One step of the pre-order depth-first walk, on the position stack
/// alone: an empty stack starts at the first root (if any); a node with
/// children is descended into; otherwise the stack unwinds to the next
/// sibling of the nearest ancestor that still has one.
pub open spec fn next_cursor<V>(t: TaxView<V>) -> Seq<CursorView> {
    if t.cursor.len() == 0 {
        if t.roots.len() > 0 {
            seq![CursorView { super_id: None, node_index: 0 }]
        } else {
            t.cursor
        }
    } else {
        let target = frame_target(t, t.cursor.last());
        if t.nodes.contains_key(target) && t.nodes[target].subs.len() > 0 {
            t.cursor.push(CursorView { super_id: Some(target), node_index: 0 })
        } else {
            unwind_cursor(t, t.cursor)
        }
    }
}

/// The whole state after one traversal step: only the position stack
/// moves.
pub open spec fn stepped<V>(t: TaxView<V>) -> TaxView<V> {
    TaxView { cursor: next_cursor(t), ..t }
}

/// Unwinding a stack of valid frames leaves only valid frames.
pub proof fn lemma_unwind_valid<V>(t: TaxView<V>, st: Seq<CursorView>)
    requires
        forall|j: int| 0 <= j < st.len() ==> t.frame_valid(#[trigger] st[j]),
    ensures
        forall|j: int|
            0 <= j < unwind_cursor(t, st).len() ==> t.frame_valid(
                #[trigger] unwind_cursor(t, st)[j],
            ),
    decreases st.len(),
{
    if st.len() > 0 {
        assert(t.frame_valid(st[st.len() - 1]));
        match frame_succ(t, st.last()) {
            Some(f2) => {
                assert forall|j: int|
                    0 <= j < unwind_cursor(t, st).len() implies t.frame_valid(
                    #[trigger] unwind_cursor(t, st)[j],
                ) by {
                    if j < st.len() - 1 {
                        assert(unwind_cursor(t, st)[j] == st[j]);
                    } else {
                        assert(unwind_cursor(t, st)[j] == f2);
                    }
                }
            },
            None => {
                assert forall|j: int|
                    0 <= j < st.drop_last().len() implies t.frame_valid(
                    #[trigger] st.drop_last()[j],
                ) by {
                    assert(st.drop_last()[j] == st[j]);
                }
                lemma_unwind_valid(t, st.drop_last());
                assert(unwind_cursor(t, st) == unwind_cursor(t, st.drop_last()));
            },
        }
    }
}

/// The node the walk stands on always exists in the store.
pub proof fn lemma_addressed_in_dom<V>(t: TaxView<V>)
    requires
        t.links_wf(),
        t.cursor_ok(),
    ensures
        match addressed(t) {
            Some(nid) => t.nodes.contains_key(nid),
            None => true,
        },
{
    if t.cursor.len() > 0 {
        let f = t.cursor.last();
        assert(t.frame_valid(f));
        match f.super_id {
            None => {
                assert(t.roots.contains(t.roots[f.node_index]));
            },
            Some(p) => {
                assert(t.nodes[p].subs.contains(t.nodes[p].subs[f.node_index]));
            },
        }
    }
}

impl<V> Taxonomy<V> {
    /// Returns the superordinate node and the node that the traversal
    /// position currently addresses, or `(None, None)` when no walk is in
    /// progress.
    pub fn _get_node_id_from_cursor(&self) -> (r: (Option<String>, Option<String>))
        requires
            self.wf(),
        ensures
            r.1.deep_view() == addressed(self@),
            r.0.deep_view() == (if self@.cursor.len() == 0 {
                Option::<Seq<char>>::None
            } else {
                self@.cursor.last().super_id
            }),
    {
        proof {
            self.lemma_index();
        }
        if self.cursor.len() == 0 {
            return (None, None);
        }
        let f = &self.cursor[self.cursor.len() - 1];
        let fs = f.super_id();
        let fi = f.node_index();
        proof {
            assert(self@.cursor.last() == self.cursor@[self.cursor@.len() - 1]@);
            assert(self@.frame_valid(self@.cursor.last()));
        }
        match fs {
            None => {
                let nid = self._get_root_node_id_at(fi);
                (None, nid)
            },
            Some(p) => {
                let pn = match self._get_node_opt(&p) {
                    Some(pn) => pn,
                    None => vstd::pervasive::unreached(),
                };
                let nid = pn.sub_at(fi);
                proof {
                    if nid is None {
                        assert(false);
                    }
                }
                (Some(p), nid)
            },
        }
    }

    /// Advances the walk by one step and returns the identifier of the
    /// node it now stands on, or `None` when the whole structure has been
    /// visited (the position stack is then empty and a new call starts
    /// over at the first root).
    pub fn _next(&mut self) -> (r: Option<String>)
        requires
            old(self).wf(),
        ensures
            final(self).wf(),
            final(self)@ == stepped(old(self)@),
            r.deep_view() == addressed(stepped(old(self)@)),
    {
        proof {
            self.lemma_index();
        }
        let ghost t0 = old(self)@;
        let clen = self.cursor.len();
        if clen == 0 {
            if self.node0.len() > 0 {
                self.cursor.push(Cursor::new(None, 0));
                proof {
                    assert(self@.cursor =~= next_cursor(t0));
                }
            } else {
                proof {
                    assert(self@.cursor =~= next_cursor(t0));
                }
            }
        } else {
            let fs: Option<String>;
            let fi: usize;
            {
                let f = &self.cursor[clen - 1];
                fs = f.super_id();
                fi = f.node_index();
            }
            proof {
                assert(self@.cursor.last() == self.cursor@[self.cursor@.len() - 1]@);
                assert(self@.frame_valid(self@.cursor.last()));
            }
            let nid: String = match &fs {
                None => self.node0[fi].clone(),
                Some(p) => {
                    let pn = match self._get_node_opt(p) {
                        Some(pn) => pn,
                        None => vstd::pervasive::unreached(),
                    };
                    match pn.sub_at(fi) {
                        Some(s) => s,
                        None => vstd::pervasive::unreached(),
                    }
                },
            };
            proof {
                assert(nid@ == frame_target(t0, t0.cursor.last()));
                assert(self@.nodes.contains_key(nid@)) by {
                    lemma_addressed_in_dom(self@);
                }
            }
            let has_subs = match self._get_node_opt(&nid) {
                Some(n) => n.has_sub(),
                None => vstd::pervasive::unreached(),
            };
            if has_subs {
                self.cursor.push(Cursor::new(Some(nid), 0));
                proof {
                    assert(self@.cursor =~= next_cursor(t0));
                }
            } else {
                let mut fr_s = fs;
                let mut fr_i = fi;
                self.cursor.pop();
                proof {
                    assert(self@.cursor =~= t0.cursor.drop_last());
                    let fr = CursorView { super_id: fr_s.deep_view(), node_index: fr_i as int };
                    assert(fr == t0.cursor.last());
                    assert(self@.cursor.push(fr) =~= t0.cursor);
                    assert forall|j: int|
                        0 <= j < self@.cursor.push(fr).len() implies t0.frame_valid(
                        #[trigger] self@.cursor.push(fr)[j],
                    ) by {
                        assert(self@.cursor.push(fr)[j] == t0.cursor[j]);
                    }
                }
                loop
                    invariant_except_break
                        ({
                            let fr = CursorView {
                                super_id: fr_s.deep_view(),
                                node_index: fr_i as int,
                            };
                            let gst = self@.cursor.push(fr);
                            &&& (forall|j: int|
                                0 <= j < gst.len() ==> t0.frame_valid(#[trigger] gst[j]))
                            &&& unwind_cursor(t0, gst) == unwind_cursor(t0, t0.cursor)
                        }),
                    invariant
                        old(self).wf(),
                        t0 == old(self)@,
                        no_dups(self.spec_ids()),
                        self@.nodes == t0.nodes,
                        self.nodes@ == old(self).nodes@,
                        self.node0.deep_view() == t0.roots,
                        self.last_updated_node == old(self).last_updated_node,
                    ensures
                        old(self).wf(),
                        t0 == old(self)@,
                        self.nodes@ == old(self).nodes@,
                        self.node0.deep_view() == t0.roots,
                        self.last_updated_node == old(self).last_updated_node,
                        self@.cursor == unwind_cursor(t0, t0.cursor),
                        forall|j: int|
                            0 <= j < self@.cursor.len() ==> t0.frame_valid(
                                #[trigger] self@.cursor[j],
                            ),
                    decreases self.cursor@.len(),
                {
                    let ghost fr = CursorView {
                        super_id: fr_s.deep_view(),
                        node_index: fr_i as int,
                    };
                    let ghost gst = self@.cursor.push(fr);
                    proof {
                        assert(t0.frame_valid(gst[gst.len() - 1]));
                        assert(t0.frame_valid(fr));
                    }
                    let has_succ: bool = match &fr_s {
                        None => {
                            let rl = self.node0.len();
                            proof {
                                assert(fr_i < rl);
                            }
                            fr_i + 1 < rl
                        },
                        Some(p) => {
                            let pn = match self.get_node_ref(p) {
                                Some(pn) => pn,
                                None => vstd::pervasive::unreached(),
                            };
                            let cs = pn.count_subs();
                            proof {
                                assert(fr_i < cs);
                            }
                            fr_i + 1 < cs
                        },
                    };
                    if has_succ {
                        let ns = clone_opt_id(&fr_s);
                        self.cursor.push(Cursor::new(ns, fr_i + 1));
                        proof {
                            let f2 = frame_succ(t0, fr).unwrap();
                            assert(self@.cursor =~= gst.drop_last().push(f2));
                            assert(unwind_cursor(t0, gst) == gst.drop_last().push(f2));
                            assert forall|j: int|
                                0 <= j < self@.cursor.len() implies t0.frame_valid(
                                #[trigger] self@.cursor[j],
                            ) by {
                                if j < self@.cursor.len() - 1 {
                                    assert(self@.cursor[j] == gst[j]);
                                }
                            }
                        }
                        break ;
                    }
                    proof {
                        assert(frame_succ(t0, fr) is None);
                        assert(unwind_cursor(t0, gst) == unwind_cursor(t0, gst.drop_last()));
                        assert(gst.drop_last() =~= self@.cursor);
                    }
                    match self.cursor.pop() {
                        None => {
                            proof {
                                assert(self@.cursor =~= Seq::<CursorView>::empty());
                                assert(unwind_cursor(t0, self@.cursor.push(fr))
                                    == unwind_cursor(t0, t0.cursor));
                            }
                            break ;
                        },
                        Some(c) => {
                            fr_s = c.super_id();
                            fr_i = c.node_index();
                            proof {
                                let fr2 = CursorView {
                                    super_id: fr_s.deep_view(),
                                    node_index: fr_i as int,
                                };
                                assert(self@.cursor.push(fr2) =~= gst.drop_last());
                                assert forall|j: int|
                                    0 <= j < self@.cursor.push(fr2).len() implies t0.frame_valid(
                                    #[trigger] self@.cursor.push(fr2)[j],
                                ) by {
                                    assert(self@.cursor.push(fr2)[j] == gst[j]);
                                }
                            }
                        },
                    }
                }
                proof {
                    assert(self@.cursor =~= next_cursor(t0));
                }
            }
        }
        proof {
            assert(self@ == stepped(t0)) by {
                assert(self@.nodes == t0.nodes);
                assert(self@.roots == t0.roots);
                assert(self@.last == t0.last);
                assert(self@.cursor == next_cursor(t0));
            }
            assert(self.wf()) by {
                assert(self@.cursor_ok()) by {
                    assert forall|j: int| 0 <= j < self@.cursor.len() implies self@.frame_valid(
                        #[trigger] self@.cursor[j],
                    ) by {
                        let st = next_cursor(t0);
                        if t0.cursor.len() == 0 {
                            if t0.roots.len() > 0 {
                                assert(st[j] == CursorView {
                                    super_id: None,
                                    node_index: 0,
                                });
                            }
                        } else {
                            let target = frame_target(t0, t0.cursor.last());
                            assert(t0.frame_valid(t0.cursor.last()));
                            if t0.nodes.contains_key(target) && t0.nodes[target].subs.len() > 0 {
                                if j < t0.cursor.len() {
                                    assert(st[j] == t0.cursor[j]);
                                    assert(t0.frame_valid(t0.cursor[j]));
                                } else {
                                    assert(st[j] == CursorView {
                                        super_id: Some(target),
                                        node_index: 0,
                                    });
                                }
                            } else {
                                assert forall|i: int|
                                    0 <= i < t0.cursor.len() implies t0.frame_valid(
                                    #[trigger] t0.cursor[i],
                                ) by {}
                                lemma_unwind_valid(t0, t0.cursor);
                            }
                        }
                    }
                }
            }
        }
        let pr = self._get_node_id_from_cursor();
        pr.1
    }

    /// Advances the walk and returns an immutable reference to the element
    /// it now stands on, or `None` when the whole structure has been
    /// visited (a further call starts over at the first root).
    pub fn traverse(&mut self) -> (r: Option<&V>)
        requires
            old(self).wf(),
        ensures
            final(self).wf(),
            final(self)@ == stepped(old(self)@),
            match addressed(stepped(old(self)@)) {
                Some(nid) => r matches Some(v) && *v == stepped(old(self)@).nodes[nid].element,
                None => r is None,
            },
    {
        match self._next() {
            None => None,
            Some(node_id) => {
                proof {
                    lemma_addressed_in_dom(self@);
                }
                self.get(node_id)
            },
        }
    }

    /// Advances the walk and returns a mutable reference to the element it
    /// now stands on, or `None` when the whole structure has been visited.
    /// Both traversal methods advance the same position stack: calls to
    /// either continue the same single pass.
    pub fn traverse_mut(&mut self) -> (r: Option<&mut V>)
        requires
            old(self).wf(),
        ensures
            final(self).wf(),
            match addressed(stepped(old(self)@)) {
                Some(nid) => r matches Some(v) && *v == stepped(old(self)@).nodes[nid].element
                    && final(self)@ == (TaxView {
                    nodes: stepped(old(self)@).nodes.insert(
                        nid,
                        (NodeView {
                            element: *final(v),
                            ..stepped(old(self)@).nodes[nid]
                        }),
                    ),
                    ..stepped(old(self)@)
                }),
                None => r is None && final(self)@ == stepped(old(self)@),
            },
    {
        match self._next() {
            None => None,
            Some(node_id) => {
                proof {
                    lemma_addressed_in_dom(self@);
                }
                self.get_mut(node_id)
            },
        }
    }
}


impl<V> Taxonomy<V> {
    /// Deletes a node record that holds no relationships at all (nothing
    /// lists it as parent or child, and it is no root); silently does
    /// nothing for an unknown identifier. A walk in progress is reset when
    /// a node is deleted. The relationship-aware operations `remove`,
    /// `remove_from` and `remove_recursively` are the general way to take
    /// nodes out.
    pub fn _remove_non_root_node(&mut self, node_id: String)
        requires
            old(self).wf(),
            old(self)@.nodes.contains_key(node_id@) ==> {
                &&& !old(self)@.roots.contains(node_id@)
                &&& forall|k: Seq<char>|
                    #[trigger] old(self)@.nodes.contains_key(k) ==> !old(self)@.nodes[
                        k
                    ].subs.contains(node_id@) && !old(self)@.nodes[k].supers.contains(
                        Some(node_id@),
                    )
            },
        ensures
            final(self).wf(),
            if old(self)@.nodes.contains_key(node_id@) {
                final(self)@ == (TaxView {
                    nodes: old(self)@.nodes.remove(node_id@),
                    last: Some(node_id@),
                    cursor: Seq::<CursorView>::empty(),
                    ..old(self)@
                })
            } else {
                *final(self) == *old(self)
            },
    {
        proof {
            self.lemma_index();
        }
        let i = match self.find_index(&node_id) {
            None => {
                return ;
            },
            Some(i) => i,
        };
        let ghost t0 = self@;
        let ghost ns0 = self.nodes@;
        self.nodes.remove(i);
        self.last_updated_node = Some(node_id);
        self.cursor = Vec::new();
        proof {
            lemma_remove_map(ns0, i as int);
            assert(self.nodes@ =~= ns0.remove(i as int));
            assert(self@.cursor =~= Seq::<CursorView>::empty());
            let n = ns0[i as int]@.id;
            assert(self@ == (TaxView {
                nodes: t0.nodes.remove(n),
                last: Some(n),
                cursor: Seq::<CursorView>::empty(),
                ..t0
            }));
            lemma_unreferenced_removal_wf(t0, self@, n);
        }
    }

    /// Deletes a node record that no other node relates to, dropping it
    /// from the root list when it is listed there; silently does nothing
    /// for an unknown identifier. A walk in progress is reset when a node
    /// is deleted. The relationship-aware operations are the general way
    /// to take nodes out.
    pub fn _remove_root_node(&mut self, node_id: String)
        requires
            old(self).wf(),
            old(self)@.nodes.contains_key(node_id@) ==> forall|k: Seq<char>|
                #[trigger] old(self)@.nodes.contains_key(k) ==> !old(self)@.nodes[
                    k
                ].subs.contains(node_id@) && !old(self)@.nodes[k].supers.contains(
                    Some(node_id@),
                ),
        ensures
            final(self).wf(),
            if old(self)@.nodes.contains_key(node_id@) {
                final(self)@ == (TaxView {
                    nodes: old(self)@.nodes.remove(node_id@),
                    roots: old(self)@.roots.remove_value(node_id@),
                    last: Some(node_id@),
                    cursor: Seq::<CursorView>::empty(),
                })
            } else {
                *final(self) == *old(self)
            },
    {
        proof {
            self.lemma_index();
        }
        let i = match self.find_index(&node_id) {
            None => {
                return ;
            },
            Some(i) => i,
        };
        let ghost t0 = self@;
        let ghost ns0 = self.nodes@;
        let ghost n0 = self.node0.deep_view();
        match crate::node::index_of_id(&self.node0, &node_id) {
            None => {
                proof {
                    n0.index_of_first_ensures(node_id@);
                    assert(self.node0.deep_view() =~= n0.remove_value(node_id@));
                }
            },
            Some(ri) => {
                self.node0.remove(ri);
                proof {
                    n0.index_of_first_ensures(node_id@);
                    assert(self.node0.deep_view() =~= n0.remove_value(node_id@));
                }
            },
        }
        self.nodes.remove(i);
        self.last_updated_node = Some(node_id);
        self.cursor = Vec::new();
        proof {
            lemma_remove_map(ns0, i as int);
            assert(self.nodes@ =~= ns0.remove(i as int));
            assert(self@.cursor =~= Seq::<CursorView>::empty());
            let n = ns0[i as int]@.id;
            assert(self@ == (TaxView {
                nodes: t0.nodes.remove(n),
                roots: t0.roots.remove_value(n),
                last: Some(n),
                cursor: Seq::<CursorView>::empty(),
            }));
            crate::node::lemma_remove_value_props(t0.roots, n);
            lemma_unreferenced_removal_wf(t0, self@, n);
        }
    }

    /// Returns a mutable reference to the node with this identifier, or
    /// `None` when it is unknown. The structural invariants are only known
    /// to survive when the caller leaves the node's relationships alone
    /// (its identifier cannot be changed through the reference).
    pub fn _get_node_mut_opt(&mut self, id: &String) -> (r: Option<&mut Node<V>>)
        requires
            old(self).wf(),
        ensures
            match r {
                Some(n) => {
                    &&& old(self)@.nodes.contains_key(id@)
                    &&& n@ == old(self)@.nodes[id@]
                    &&& (final(n)@.id == id@ ==> final(self)@ == (TaxView {
                        nodes: old(self)@.nodes.insert(id@, final(n)@),
                        ..old(self)@
                    }))
                    &&& (final(n)@ == old(self)@.nodes[id@] ==> final(self).wf())
                },
                None => !old(self)@.nodes.contains_key(id@) && *final(self) == *old(self),
            },
    {
        proof {
            self.lemma_index();
        }
        let r = self.find_index(id);
        match r {
            None => None,
            Some(i) => {
                proof {
                    self.lemma_node_swap(i as int);
                }
                let n = vstd::std_specs::vec::vec_index_mut(&mut self.nodes, i);
                Some(n)
            },
        }
    }

    /// Swapping the node in slot `i` for one with the same identifier
    /// rewrites its map entry; swapping it for an identical one changes
    /// nothing at all.
    proof fn lemma_node_swap(self, i: int)
        requires
            self.wf(),
            0 <= i < self.nodes@.len(),
        ensures
            forall|nn: Node<V>|
                #![trigger map_of(self.nodes@.update(i, nn))]
                #![trigger ids_of(self.nodes@.update(i, nn))]
                nn@.id == self.nodes@[i]@.id ==> {
                    &&& no_dups(ids_of(self.nodes@.update(i, nn)))
                    &&& map_of(self.nodes@.update(i, nn)) == self@.nodes.insert(nn@.id, nn@)
                    &&& (nn@ == self.nodes@[i]@ ==> map_of(self.nodes@.update(i, nn))
                        == self@.nodes)
                },
    {
        assert forall|nn: Node<V>|
            #![trigger map_of(self.nodes@.update(i, nn))]
            #![trigger ids_of(self.nodes@.update(i, nn))]
            nn@.id == self.nodes@[i]@.id implies {
            &&& no_dups(ids_of(self.nodes@.update(i, nn)))
            &&& map_of(self.nodes@.update(i, nn)) == self@.nodes.insert(nn@.id, nn@)
            &&& (nn@ == self.nodes@[i]@ ==> map_of(self.nodes@.update(i, nn)) == self@.nodes)
        } by {
            lemma_update_map(self.nodes@, i, nn);
            lemma_map_index(self.nodes@);
            if nn@ == self.nodes@[i]@ {
                assert(map_of(self.nodes@.update(i, nn)) =~= self@.nodes);
            }
        }
    }

    /// Returns a mutable reference to the node with this identifier, or
    /// `Err(NodeNotFound)` when it is unknown; otherwise exactly
    /// `_get_node_mut_opt`.
    pub fn _get_node_mut_res(&mut self, node_id: String) -> (r: Result<
        &mut Node<V>,
        TaxonomyError,
    >)
        requires
            old(self).wf(),
        ensures
            match r {
                Ok(n) => {
                    &&& old(self)@.nodes.contains_key(node_id@)
                    &&& n@ == old(self)@.nodes[node_id@]
                    &&& (final(n)@.id == node_id@ ==> final(self)@ == (TaxView {
                        nodes: old(self)@.nodes.insert(node_id@, final(n)@),
                        ..old(self)@
                    }))
                    &&& (final(n)@ == old(self)@.nodes[node_id@] ==> final(self).wf())
                },
                Err(e) => !old(self)@.nodes.contains_key(node_id@) && *final(self) == *old(
                    self,
                ) && (e@ matches crate::taxonomy_error::ErrorView::NodeNotFound(x) && x
                    == node_id@),
            },
    {
        match self._get_node_mut_opt(&node_id) {
            None => Err(TaxonomyError::NodeNotFound(node_id)),
            Some(n) => Ok(n),
        }
    }
}

/// Deleting a node that nothing relates to keeps every structural
/// invariant.
proof fn lemma_unreferenced_removal_wf<V>(t0: TaxView<V>, t1: TaxView<V>, n: Seq<char>)
    requires
        t0.links_wf(),
        acyclic(t0.nodes),
        no_dups(t0.roots),
        forall|k: Seq<char>|
            #[trigger] t0.nodes.contains_key(k) ==> !t0.nodes[k].subs.contains(n)
                && !t0.nodes[k].supers.contains(Some(n)),
        t1.nodes == t0.nodes.remove(n),
        t1.roots == t0.roots || t1.roots == t0.roots.remove_value(n),
        t1.roots == t0.roots ==> !t0.roots.contains(n),
        t1.cursor == Seq::<CursorView>::empty(),
    ensures
        t1.links_wf(),
        acyclic(t1.nodes),
        t1.cursor_ok(),
{
    let m0 = t0.nodes;
    let m1 = t1.nodes;
    crate::node::lemma_remove_value_props(t0.roots, n);
    assert(t1.links_wf()) by {
        assert forall|r: Seq<char>| t1.roots.contains(r) implies t1.nodes.contains_key(r) by {
            assert(t0.roots.contains(r));
            assert(r != n);
        }
        assert forall|k: Seq<char>, s: Seq<char>|
            m1.contains_key(k) && #[trigger] m1[k].subs.contains(s) implies m1.contains_key(
            s,
        ) by {
            assert(m0[k].subs.contains(s));
            assert(s != n);
        }
        assert forall|k: Seq<char>, q: Seq<char>|
            m1.contains_key(k) && #[trigger] m1[k].supers.contains(Some(q))
            implies m1.contains_key(q) by {
            assert(m0[k].supers.contains(Some(q)));
            assert(q != n);
        }
        assert forall|k: Seq<char>, q: Seq<char>|
            m1.contains_key(k) && m1.contains_key(q) implies (#[trigger] m1[q].subs.contains(k)
            <==> #[trigger] m1[k].supers.contains(Some(q))) by {
            assert(m1[q] == m0[q] && m1[k] == m0[k]);
        }
        assert forall|k: Seq<char>| #[trigger] m1.contains_key(k) implies (m1[k].supers.contains(
            None,
        ) <==> t1.roots.contains(k)) by {
            assert(m1[k] == m0[k]);
            assert(t1.roots.contains(k) <==> t0.roots.contains(k));
        }
    }
    assert(acyclic(m1)) by {
        assert forall|x: Seq<char>, y: Seq<char>| #[trigger]
            is_child_edge(m1, x, y) implies is_child_edge(m0, x, y) by {
            assert(m1[x].subs == m0[x].subs);
        }
        crate::reach::lemma_reaches_monotone(m1, m0);
        assert forall|a: Seq<char>| !crate::reach::reaches(m1, a, a) by {
            if crate::reach::reaches(m1, a, a) {
                assert(crate::reach::reaches(m0, a, a));
            }
        }
    }
}

impl<V> Default for Taxonomy<V> {
    /// An empty taxonomy, the same as [`Taxonomy::new`].
    fn default() -> (t: Self)
        ensures
            t@.nodes == Map::<Seq<char>, NodeView<V>>::empty(),
            t@.roots == Seq::<Seq<char>>::empty(),
            t@.last is None,
            t@.cursor == Seq::<CursorView>::empty(),
            t.wf(),
            t@.fully_parented(),
    {
        Taxonomy::new()
    }
}

} // verus!
