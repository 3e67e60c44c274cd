use vstd::prelude::*;

use crate::identity::Identity;

verus! {

/// Holds whether a sequence contains no element twice.
pub open spec fn no_dups<A>(s: Seq<A>) -> bool {
    forall|i: int, j: int| 0 <= i < j < s.len() ==> s[i] != s[j]
}

/// The identifiers of the real (non-root-marker) entries of a parent list,
/// in order.
pub open spec fn real_ids(s: Seq<Option<Seq<char>>>) -> Seq<Seq<char>>
    decreases s.len(),
{
    if s.len() == 0 {
        Seq::empty()
    } else {
        let rest = real_ids(s.drop_last());
        match s.last() {
            None => rest,
            Some(id) => rest.push(id),
        }
    }
}

/// `real_ids` keeps exactly the identifiers of the `Some` entries, and keeps
/// them free of duplicates when the parent list is.
pub proof fn lemma_real_ids(s: Seq<Option<Seq<char>>>)
    ensures
        forall|p: Seq<char>| real_ids(s).contains(p) <==> s.contains(Some(p)),
        no_dups(s) ==> no_dups(real_ids(s)),
        real_ids(s).len() <= s.len(),
    decreases s.len(),
{
    if s.len() == 0 {
        assert(forall|p: Seq<char>| !s.contains(Some(p)));
    } else {
        let rest = s.drop_last();
        lemma_real_ids(rest);
        assert forall|p: Seq<char>| real_ids(s).contains(p) implies s.contains(Some(p)) by {
            if s.last() == Some(p) {
                assert(s[s.len() - 1] == Some(p));
            } else {
                assert(real_ids(rest).contains(p));
                let i = choose|i: int| 0 <= i < rest.len() && rest[i] == Some(p);
                assert(s[i] == Some(p));
            }
        }
        assert forall|p: Seq<char>| s.contains(Some(p)) implies real_ids(s).contains(p) by {
            let i = choose|i: int| 0 <= i < s.len() && s[i] == Some(p);
            if i < s.len() - 1 {
                assert(rest[i] == Some(p));
                assert(real_ids(rest).contains(p));
                let j = choose|j: int|
                    0 <= j < real_ids(rest).len() && real_ids(rest)[j] == p;
                assert(real_ids(s)[j] == p);
            } else {
                assert(real_ids(s).last() == p);
            }
        }
        if no_dups(s) {
            assert(no_dups(rest));
            if s.last() is Some {
                let id = s.last().unwrap();
                assert(!rest.contains(Some(id))) by {
                    if rest.contains(Some(id)) {
                        let i = choose|i: int| 0 <= i < rest.len() && rest[i] == Some(id);
                        assert(s[i] == s[s.len() - 1]);
                    }
                }
                assert(!real_ids(rest).contains(id));
                assert forall|i: int, j: int|
                    0 <= i < j < real_ids(s).len() implies real_ids(s)[i] != real_ids(s)[j] by {
                    if j == real_ids(s).len() - 1 {
                        assert(real_ids(rest).contains(real_ids(rest)[i]));
                    }
                }
            }
        }
    }
}

/// The abstract value of a [`Node`]: its identifier, its element, and its
/// parent and child lists with each identifier taken as a sequence of
/// characters.
pub ghost struct NodeView<V> {
    pub id: Seq<char>,
    pub element: V,
    pub supers: Seq<Option<Seq<char>>>,
    pub subs: Seq<Seq<char>>,
}

impl<V> NodeView<V> {
    /// The identifiers of the node's real parents, the root marker left out.
    pub open spec fn real_supers(self) -> Seq<Seq<char>> {
        real_ids(self.supers)
    }

    /// A node is a root when its parent list starts with the root marker (an
    /// empty parent list is treated as a root defensively).
    pub open spec fn is_root_spec(self) -> bool {
        self.supers.len() == 0 || self.supers[0] is None
    }

    /// Node-local well-formedness: no duplicate parents or children, the
    /// root marker (if present) first, and no self-loop.
    pub open spec fn wf(self) -> bool {
        &&& no_dups(self.supers)
        &&& no_dups(self.subs)
        &&& self.supers.contains(None) ==> self.supers[0] is None
        &&& !self.subs.contains(self.id)
        &&& !self.supers.contains(Some(self.id))
    }
}

/// The record for one item of the taxonomy: the item's cached identifier,
/// the item itself, the ordered list of child identifiers, and the list of
/// parent identifiers (`None` stands for the root marker and, if present, is
/// always the first entry).
pub struct Node<V> {
    id: String,
    element: V,
    supers: Vec<Option<String>>,
    subs: Vec<String>,
}

impl<V> View for Node<V> {
    type V = NodeView<V>;

    closed spec fn view(&self) -> NodeView<V> {
        NodeView {
            id: self.id@,
            element: self.element,
            supers: self.supers.deep_view(),
            subs: self.subs.deep_view(),
        }
    }
}

impl<V> Node<V> {
    /// Creates a new node by consuming the element; the node starts life as
    /// a root (its parent list holds only the root marker).
    pub fn new(element: V) -> (n: Node<V>) where V: Identity
        ensures
            n@.id == element.id_spec(),
            n@.element == element,
            n@.supers == seq![Option::<Seq<char>>::None],
            n@.subs == Seq::<Seq<char>>::empty(),
    {
        let id = element.id();
        let mut supers: Vec<Option<String>> = Vec::new();
        supers.push(None);
        let n = Node { id, element, supers, subs: Vec::new() };
        proof {
            assert(n@.supers =~= seq![Option::<Seq<char>>::None]);
            assert(n@.subs =~= Seq::<Seq<char>>::empty());
        }
        n
    }

    /// Returns the node's identifier.
    pub fn id(&self) -> (r: String)
        ensures
            r@ == self@.id,
    {
        self.id.clone()
    }

    /// Returns an immutable reference to the element.
    pub fn get(&self) -> (r: &V)
        ensures
            *r == self@.element,
    {
        &self.element
    }

    /// Returns a mutable reference to the element.
    pub fn get_mut(&mut self) -> (r: &mut V)
        ensures
            *r == old(self)@.element,
            final(self)@ == (NodeView { element: *final(r), ..old(self)@ }),
    {
        &mut self.element
    }

    /// Returns the ordered list of child identifiers.
    pub fn subs(&self) -> (r: &Vec<String>)
        ensures
            r.deep_view() == self@.subs,
    {
        &self.subs
    }

    /// Appends a child identifier at the end of the child list.
    pub fn append_sub(&mut self, node_id: String)
        ensures
            final(self)@ == (NodeView { subs: old(self)@.subs.push(node_id@), ..old(self)@ }),
    {
        self.subs.push(node_id);
        proof {
            assert(self@.subs =~= old(self)@.subs.push(node_id@));
        }
    }

    /// Inserts a child identifier at the given position of the child list.
    /// An `index` of zero prepends; an `index` at or beyond the current
    /// number of children appends at the end; anything in between splices
    /// the identifier in, keeping the relative order of the others.
    pub fn append_sub_at(&mut self, node_id: String, index: usize)
        ensures
            final(self)@ == (NodeView {
                subs: old(self)@.subs.insert(
                    if index as int <= old(self)@.subs.len() {
                        index as int
                    } else {
                        old(self)@.subs.len() as int
                    },
                    node_id@,
                ),
                ..old(self)@
            }),
    {
        let ghost pre = self@.subs;
        if index >= self.subs.len() {
            let ghost n = pre.len() as int;
            self.subs.push(node_id);
            proof {
                assert(self@.subs =~= pre.insert(n, node_id@));
            }
        } else {
            self.subs.insert(index, node_id);
            proof {
                assert(self@.subs =~= pre.insert(index as int, node_id@));
            }
        }
    }

    /// Prepends a child identifier at the front of the child list.
    pub fn prepend_sub(&mut self, id: String)
        ensures
            final(self)@ == (NodeView { subs: old(self)@.subs.insert(0, id@), ..old(self)@ }),
    {
        self.subs.insert(0, id);
        proof {
            assert(self@.subs =~= old(self)@.subs.insert(0, id@));
        }
    }

    /// Returns the number of children.
    pub fn count_subs(&self) -> (r: usize)
        ensures
            r == self@.subs.len(),
    {
        self.subs.len()
    }

    /// Holds when the node has at least one child.
    pub fn has_sub(&self) -> (r: bool)
        ensures
            r == (self@.subs.len() > 0),
    {
        self.subs.len() > 0
    }

    /// Holds when `node_id` is one of the node's children.
    pub fn has_sub_id(&self, node_id: &String) -> (r: bool)
        ensures
            r == self@.subs.contains(node_id@),
    {
        contains_id(&self.subs, node_id)
    }

    /// Removes the first occurrence of `node_id` from the child list;
    /// silently does nothing when there is no child with this identifier.
    pub fn remove_sub(&mut self, node_id: String)
        ensures
            final(self)@ == (NodeView {
                subs: old(self)@.subs.remove_value(node_id@),
                ..old(self)@
            }),
    {
        match index_of_id(&self.subs, &node_id) {
            None => {
                proof {
                    old(self)@.subs.index_of_first_ensures(node_id@);
                    assert(self@.subs =~= old(self)@.subs.remove_value(node_id@));
                }
            },
            Some(i) => {
                self.subs.remove(i);
                proof {
                    old(self)@.subs.index_of_first_ensures(node_id@);
                    assert(self@.subs =~= old(self)@.subs.remove_value(node_id@));
                }
            },
        }
    }

    /// Returns the identifier of the child at `index`, or `None` when
    /// `index` is at or beyond the number of children.
    pub fn sub_at(&self, index: usize) -> (r: Option<String>)
        ensures
            match r {
                Some(s) => index < self@.subs.len() && s@ == self@.subs[index as int],
                None => index >= self@.subs.len(),
            },
    {
        if index < self.subs.len() {
            Some(self.subs[index].clone())
        } else {
            None
        }
    }

    /// Returns the identifiers of the node's real parents (the root marker
    /// left out), in order.
    pub fn supers(&self) -> (r: Vec<String>)
        ensures
            r.deep_view() == self@.real_supers(),
    {
        let mut r: Vec<String> = Vec::new();
        let mut i: usize = 0;
        while i < self.supers.len()
            invariant
                i <= self.supers.len(),
                r.deep_view() == real_ids(self@.supers.take(i as int)),
            decreases self.supers.len() - i,
        {
            let ghost pre = r.deep_view();
            match &self.supers[i] {
                None => {},
                Some(id) => {
                    r.push(id.clone());
                    proof {
                        assert(r.deep_view() =~= pre.push(id@));
                    }
                },
            }
            proof {
                assert(self@.supers.take(i as int + 1).drop_last() =~= self@.supers.take(
                    i as int,
                ));
                assert(self@.supers.take(i as int + 1).last() == self@.supers[i as int]);
            }
            i = i + 1;
        }
        proof {
            assert(self@.supers.take(self.supers.len() as int) =~= self@.supers);
        }
        r
    }

    /// Adds an entry to the node's parent list: `None` makes the node a root
    /// (the marker goes first); a real parent is appended at the end unless
    /// it is already present, in which case nothing changes.
    pub fn add_super(&mut self, id: Option<String>)
        ensures
            final(self)@ == (NodeView {
                supers: match id.deep_view() {
                    Option::<Seq<char>>::None => old(self)@.supers.insert(
                        0,
                        Option::<Seq<char>>::None,
                    ),
                    Option::<Seq<char>>::Some(p) => if old(self)@.supers.contains(Some(p)) {
                        old(self)@.supers
                    } else {
                        old(self)@.supers.push(Some(p))
                    },
                },
                ..old(self)@
            }),
    {
        match id {
            None => {
                self.supers.insert(0, None);
                proof {
                    assert(self@.supers =~= old(self)@.supers.insert(
                        0,
                        Option::<Seq<char>>::None,
                    ));
                }
            },
            Some(id) => {
                if !contains_super(&self.supers, &id) {
                    self.supers.push(Some(id));
                    proof {
                        assert(self@.supers =~= old(self)@.supers.push(Some(id@)));
                    }
                }
            },
        }
    }

    /// Returns the length of the parent list, the root marker included.
    pub fn count_super(&self) -> (r: usize)
        ensures
            r == self@.supers.len(),
    {
        self.supers.len()
    }

    /// Holds when the parent list is not empty (the root marker counts).
    pub fn has_super(&self) -> (r: bool)
        ensures
            r == (self@.supers.len() > 0),
    {
        self.supers.len() > 0
    }

    /// Holds when `id` is one of the node's real parents.
    pub fn has_super_id(&self, id: &String) -> (r: bool)
        ensures
            r == self@.supers.contains(Some(id@)),
    {
        contains_super(&self.supers, id)
    }

    /// Removes the first entry equal to `id` from the parent list (`None`
    /// removes the root marker); silently does nothing when no entry
    /// matches.
    pub fn remove_super(&mut self, id: Option<String>)
        ensures
            final(self)@ == (NodeView {
                supers: old(self)@.supers.remove_value(id.deep_view()),
                ..old(self)@
            }),
    {
        match index_of_super(&self.supers, &id) {
            Some(i) => {
                self.supers.remove(i);
                proof {
                    old(self)@.supers.index_of_first_ensures(id.deep_view());
                    assert(self@.supers =~= old(self)@.supers.remove_value(
                        id.deep_view(),
                    ));
                }
            },
            None => {
                proof {
                    old(self)@.supers.index_of_first_ensures(id.deep_view());
                    assert(self@.supers =~= old(self)@.supers.remove_value(
                        id.deep_view(),
                    ));
                }
            },
        }
    }

    /// Holds when the node is a root: its parent list starts with the root
    /// marker, or is empty.
    pub fn is_root(&self) -> (r: bool)
        ensures
            r == self@.is_root_spec(),
    {
        if self.supers.len() == 0 {
            true
        } else {
            match &self.supers[0] {
                None => true,
                Some(_) => false,
            }
        }
    }
}

/// Holds when `v` contains an identifier with the same characters as `id`.
pub fn contains_id(v: &Vec<String>, id: &String) -> (r: bool)
    ensures
        r == v.deep_view().contains(id@),
{
    match index_of_id(v, id) {
        Some(_) => true,
        None => false,
    }
}

/// Returns the position of the first identifier in `v` with the same
/// characters as `id`, or `None` when there is none.
pub fn index_of_id(v: &Vec<String>, id: &String) -> (r: Option<usize>)
    ensures
        match r {
            Some(i) => {
                &&& i < v.deep_view().len()
                &&& v.deep_view()[i as int] == id@
                &&& forall|j: int| 0 <= j < i ==> v.deep_view()[j] != id@
                &&& v.deep_view().index_of_first(id@) == Some(i as int)
            },
            None => !v.deep_view().contains(id@),
        },
{
    let mut i: usize = 0;
    while i < v.len()
        invariant
            i <= v.len(),
            forall|j: int| 0 <= j < i ==> v.deep_view()[j] != id@,
        decreases v.len() - i,
    {
        if v[i] == *id {
            proof {
                assert(v.deep_view()[i as int] == id@);
                assert(v.deep_view().contains(id@));
                v.deep_view().index_of_first_ensures(id@);
            }
            return Some(i);
        }
        i = i + 1;
    }
    None
}

/// Returns the position of the first parent-list entry equal to `id`
/// (`None` matches the root marker), or `None` when there is none.
pub fn index_of_super(v: &Vec<Option<String>>, id: &Option<String>) -> (r: Option<usize>)
    ensures
        match r {
            Some(i) => {
                &&& i < v.deep_view().len()
                &&& v.deep_view()[i as int] == id.deep_view()
                &&& forall|j: int| 0 <= j < i ==> v.deep_view()[j] != id.deep_view()
                &&& v.deep_view().index_of_first(id.deep_view()) == Some(i as int)
            },
            None => !v.deep_view().contains(id.deep_view()),
        },
{
    let mut i: usize = 0;
    while i < v.len()
        invariant
            i <= v.len(),
            forall|j: int| 0 <= j < i ==> v.deep_view()[j] != id.deep_view(),
        decreases v.len() - i,
    {
        let hit = match (&v[i], id) {
            (None, None) => true,
            (Some(a), Some(b)) => *a == *b,
            _ => false,
        };
        if hit {
            proof {
                assert(v.deep_view()[i as int] == id.deep_view());
                assert(v.deep_view().contains(id.deep_view()));
                v.deep_view().index_of_first_ensures(id.deep_view());
            }
            return Some(i);
        }
        i = i + 1;
    }
    None
}

/// Holds when the parent list contains `id` as a real parent.
fn contains_super(v: &Vec<Option<String>>, id: &String) -> (r: bool)
    ensures
        r == v.deep_view().contains(Some(id@)),
{
    let mut i: usize = 0;
    while i < v.len()
        invariant
            i <= v.len(),
            forall|j: int| 0 <= j < i ==> v.deep_view()[j] != Some(id@),
        decreases v.len() - i,
    {
        match &v[i] {
            Some(a) => {
                if *a == *id {
                    proof {
                        assert(v.deep_view()[i as int] == Some(id@));
                        assert(v.deep_view().contains(Some(id@)));
                    }
                    return true;
                }
            },
            None => {},
        }
        i = i + 1;
    }
    false
}


/// Inserting a fresh element keeps a sequence duplicate-free, and the
/// members of the result are the old members plus the new element.
pub proof fn lemma_insert_props<A>(s: Seq<A>, j: int, v: A)
    requires
        0 <= j <= s.len(),
    ensures
        forall|x: A| s.insert(j, v).contains(x) <==> s.contains(x) || x == v,
        (no_dups(s) && !s.contains(v)) ==> no_dups(s.insert(j, v)),
        s.insert(j, v).len() == s.len() + 1,
{
    let t = s.insert(j, v);
    assert forall|x: A| t.contains(x) implies s.contains(x) || x == v by {
        let i = choose|i: int| 0 <= i < t.len() && t[i] == x;
        if i < j {
            assert(s[i] == x);
        } else if i > j {
            assert(s[i - 1] == x);
        }
    }
    assert forall|x: A| s.contains(x) implies t.contains(x) by {
        let i = choose|i: int| 0 <= i < s.len() && s[i] == x;
        if i < j {
            assert(t[i] == x);
        } else {
            assert(t[i + 1] == x);
        }
    }
    assert(t[j] == v);
    assert(t.contains(v));
    if no_dups(s) && !s.contains(v) {
        assert forall|a: int, b: int| 0 <= a < b < t.len() implies t[a] != t[b] by {
            let pa = if a < j {
                a
            } else {
                a - 1
            };
            let pb = if b < j {
                b
            } else {
                b - 1
            };
            if a == j {
                assert(t[b] == s[pb]);
                assert(s.contains(s[pb]));
            } else if b == j {
                assert(t[a] == s[pa]);
                assert(s.contains(s[pa]));
            } else {
                assert(t[a] == s[pa] && t[b] == s[pb]);
            }
        }
    }
}

/// Removing one position of a duplicate-free sequence removes exactly that
/// member.
pub proof fn lemma_remove_props<A>(s: Seq<A>, j: int)
    requires
        0 <= j < s.len(),
    ensures
        forall|x: A| s.remove(j).contains(x) ==> s.contains(x),
        no_dups(s) ==> (forall|x: A|
            s.remove(j).contains(x) <==> (s.contains(x) && x != s[j])),
        no_dups(s) ==> no_dups(s.remove(j)),
{
    let t = s.remove(j);
    assert forall|x: A| t.contains(x) implies s.contains(x) by {
        let i = choose|i: int| 0 <= i < t.len() && t[i] == x;
        if i < j {
            assert(s[i] == x);
        } else {
            assert(s[i + 1] == x);
        }
    }
    if no_dups(s) {
        assert forall|x: A| t.contains(x) implies s.contains(x) && x != s[j] by {
            let i = choose|i: int| 0 <= i < t.len() && t[i] == x;
            if i < j {
                assert(s[i] == x);
            } else {
                assert(s[i + 1] == x);
            }
        }
        assert forall|x: A| s.contains(x) && x != s[j] implies t.contains(x) by {
            let i = choose|i: int| 0 <= i < s.len() && s[i] == x;
            if i < j {
                assert(t[i] == x);
            } else {
                assert(i > j);
                assert(t[i - 1] == x);
            }
        }
        assert forall|a: int, b: int| 0 <= a < b < t.len() implies t[a] != t[b] by {
            let pa = if a < j {
                a
            } else {
                a + 1
            };
            let pb = if b < j {
                b
            } else {
                b + 1
            };
            assert(t[a] == s[pa] && t[b] == s[pb]);
        }
    }
}

/// `remove_value` on a duplicate-free sequence removes exactly the given
/// member (and nothing when it is absent).
pub proof fn lemma_remove_value_props<A>(s: Seq<A>, v: A)
    requires
        no_dups(s),
    ensures
        forall|x: A| s.remove_value(v).contains(x) <==> (s.contains(x) && x != v),
        no_dups(s.remove_value(v)),
        s.contains(v) ==> s.remove_value(v).len() == s.len() - 1,
        !s.contains(v) ==> s.remove_value(v) == s,
{
    s.index_of_first_ensures(v);
    match s.index_of_first(v) {
        Some(i) => {
            lemma_remove_props(s, i);
            assert(s[i] == v);
        },
        None => {
            assert forall|x: A| s.remove_value(v).contains(x) implies s.contains(x) && x
                != v by {
                assert(s.contains(x));
            }
        },
    }
}


/// A filter that keeps every member leaves the sequence unchanged.
pub proof fn lemma_filter_keep_all<A>(s: Seq<A>, p: spec_fn(A) -> bool)
    requires
        forall|i: int| 0 <= i < s.len() ==> p(#[trigger] s[i]),
    ensures
        s.filter(p) == s,
    decreases s.len(),
{
    reveal(Seq::filter);
    if s.len() > 0 {
        assert forall|i: int| 0 <= i < s.drop_last().len() implies p(
            #[trigger] s.drop_last()[i],
        ) by {
            assert(s[i] == s.drop_last()[i]);
        }
        lemma_filter_keep_all(s.drop_last(), p);
        assert(p(s[s.len() - 1]));
        assert(s.filter(p) =~= s);
    }
}

/// Filtering twice is filtering once with both conditions.
pub proof fn lemma_filter_compose<A>(
    s: Seq<A>,
    p1: spec_fn(A) -> bool,
    p2: spec_fn(A) -> bool,
    pb: spec_fn(A) -> bool,
)
    requires
        forall|x: A| #[trigger] pb(x) == (p1(x) && p2(x)),
    ensures
        s.filter(p1).filter(p2) == s.filter(pb),
    decreases s.len(),
{
    reveal(Seq::filter);
    if s.len() == 0 {
        assert(s.filter(p1).filter(p2) =~= s.filter(pb));
    } else {
        lemma_filter_compose(s.drop_last(), p1, p2, pb);
        let l = s.last();
        assert(pb(l) == (p1(l) && p2(l)));
        if p1(l) {
            assert(s.filter(p1) == s.drop_last().filter(p1).push(l));
            assert(s.filter(p1).drop_last() =~= s.drop_last().filter(p1));
            assert(s.filter(p1).last() == l);
        } else {
            assert(s.filter(p1) == s.drop_last().filter(p1));
        }
    }
}

/// Two filters that agree on every member of the sequence give the same
/// result.
pub proof fn lemma_filter_congruent<A>(s: Seq<A>, p1: spec_fn(A) -> bool, p2: spec_fn(A) -> bool)
    requires
        forall|i: int| 0 <= i < s.len() ==> p1(#[trigger] s[i]) == p2(s[i]),
    ensures
        s.filter(p1) == s.filter(p2),
    decreases s.len(),
{
    reveal(Seq::filter);
    if s.len() > 0 {
        assert forall|i: int| 0 <= i < s.drop_last().len() implies p1(
            #[trigger] s.drop_last()[i],
        ) == p2(s.drop_last()[i]) by {
            assert(s[i] == s.drop_last()[i]);
        }
        lemma_filter_congruent(s.drop_last(), p1, p2);
        assert(p1(s[s.len() - 1]) == p2(s[s.len() - 1]));
    }
}

/// On a duplicate-free sequence, removing a value is the same as filtering
/// it out.
pub proof fn lemma_remove_value_is_filter<A>(s: Seq<A>, v: A, p: spec_fn(A) -> bool)
    requires
        no_dups(s),
        forall|x: A| #[trigger] p(x) == (x != v),
    ensures
        s.remove_value(v) == s.filter(p),
    decreases s.len(),
{
    reveal(Seq::filter);
    s.index_of_first_ensures(v);
    if s.len() == 0 {
        assert(s.remove_value(v) =~= s.filter(p));
    } else {
        let d = s.drop_last();
        assert(no_dups(d)) by {
            assert forall|i: int, j: int| 0 <= i < j < d.len() implies d[i] != d[j] by {
                assert(s[i] == d[i] && s[j] == d[j]);
            }
        }
        lemma_remove_value_is_filter(d, v, p);
        d.index_of_first_ensures(v);
        if s.last() == v {
            assert(!d.contains(v)) by {
                if d.contains(v) {
                    let i = choose|i: int| 0 <= i < d.len() && d[i] == v;
                    assert(s[i] == s[s.len() - 1]);
                }
            }
            assert(s.index_of_first(v) == Some(s.len() - 1)) by {
                assert(s[s.len() - 1] == v);
                assert(s.contains(v));
                match s.index_of_first(v) {
                    Some(i) => {
                        if i < s.len() - 1 {
                            assert(d[i] == v);
                            assert(d.contains(v));
                        }
                    },
                    None => {},
                }
            }
            assert(s.remove_value(v) =~= d);
            assert(s.filter(p) == d.filter(p));
            assert(d.filter(p) == d) by {
                assert forall|i: int| 0 <= i < d.len() implies p(#[trigger] d[i]) by {
                    if d[i] == v {
                        assert(d.contains(v));
                    }
                }
                lemma_filter_keep_all(d, p);
            }
        } else {
            assert(s.filter(p) == d.filter(p).push(s.last()));
            if d.contains(v) {
                let i = d.index_of_first(v).unwrap();
                assert(s[i] == v);
                assert(s.contains(v));
                assert(s.index_of_first(v) == Some(i)) by {
                    match s.index_of_first(v) {
                        Some(j) => {
                            assert(s[j] == v);
                            if j < i {
                                assert(d[j] == v);
                            } else if j > i {
                                assert(s[i] == v);
                            }
                        },
                        None => {},
                    }
                }
                assert(s.remove_value(v) =~= d.remove_value(v).push(s.last()));
            } else {
                assert(!s.contains(v)) by {
                    if s.contains(v) {
                        let i = choose|i: int| 0 <= i < s.len() && s[i] == v;
                        if i < s.len() - 1 {
                            assert(d[i] == v);
                        }
                    }
                }
                assert(s.remove_value(v) == s);
                assert(d.remove_value(v) == d);
                assert(s.remove_value(v) =~= d.remove_value(v).push(s.last()));
            }
        }
    }
}


/// Membership in a filtered sequence: exactly the members that satisfy the
/// condition.
pub proof fn lemma_filter_membership<A>(s: Seq<A>, p: spec_fn(A) -> bool)
    ensures
        forall|x: A| #[trigger] s.filter(p).contains(x) <==> (s.contains(x) && p(x)),
    decreases s.len(),
{
    reveal(Seq::filter);
    if s.len() == 0 {
        assert forall|x: A| !s.filter(p).contains(x) && !s.contains(x) by {}
    } else {
        let d = s.drop_last();
        lemma_filter_membership(d, p);
        let l = s.last();
        assert forall|x: A| #[trigger] s.filter(p).contains(x) implies s.contains(x) && p(
            x,
        ) by {
            if p(l) && x == l {
                assert(s[s.len() - 1] == l);
            } else {
                if p(l) {
                    assert(s.filter(p) == d.filter(p).push(l));
                    let i = choose|i: int|
                        0 <= i < s.filter(p).len() && s.filter(p)[i] == x;
                    assert(i < d.filter(p).len());
                    assert(d.filter(p)[i] == x);
                } else {
                    assert(s.filter(p) == d.filter(p));
                }
                assert(d.filter(p).contains(x));
                assert(d.contains(x));
                let i = choose|i: int| 0 <= i < d.len() && d[i] == x;
                assert(s[i] == x);
            }
        }
        assert forall|x: A| s.contains(x) && p(x) implies #[trigger] s.filter(p).contains(
            x,
        ) by {
            let i = choose|i: int| 0 <= i < s.len() && s[i] == x;
            if i < s.len() - 1 {
                assert(d[i] == x);
                assert(d.filter(p).contains(x));
                let j = choose|j: int| 0 <= j < d.filter(p).len() && d.filter(p)[j] == x;
                if p(l) {
                    assert(s.filter(p)[j] == x);
                } else {
                    assert(s.filter(p) == d.filter(p));
                }
            } else {
                assert(x == l);
                assert(s.filter(p) == d.filter(p).push(l));
                assert(s.filter(p).last() == l);
            }
        }
    }
}

} // verus!



