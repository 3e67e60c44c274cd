use vstd::prelude::*;

use crate::node::NodeView;
use crate::reach::{reaches_or_eq, descendants};
use crate::taxonomy::{
    addressed, append_ok_spec, frame_succ, frame_target, next_cursor, remove_from_ok_spec,
    lemma_unwind_valid, stepped, unwind_cursor, TaxView,
};

verus! {

/// What one insertion changes: the new entry holds exactly the given
/// value, and every other entry is untouched — looking an identifier up
/// returns the element stored under it and only that.
pub proof fn lemma_insert_preserves_others<V>(
    t0: TaxView<V>,
    t1: TaxView<V>,
    k: Seq<char>,
    nv: NodeView<V>,
)
    requires
        t1.nodes == t0.nodes.insert(k, nv),
    ensures
        t1.nodes.contains_key(k),
        t1.nodes[k] == nv,
        forall|x: Seq<char>|
            x != k && t0.nodes.contains_key(x) ==> t1.nodes.contains_key(x) && t1.nodes[x]
                == t0.nodes[x],
{
}

/// A node can never be attached to itself or to one of its own direct or
/// indirect subordinates: no success case of `append` or `append_at`
/// admits a destination that the node reaches (the call then reports
/// `LoopDetected` and changes nothing, by its error contract).
pub proof fn lemma_no_attach_below_itself<V>(
    t0: TaxView<V>,
    t1: TaxView<V>,
    s: Seq<char>,
    n: Seq<char>,
    root_index: int,
    sub_index: int,
)
    requires
        reaches_or_eq(t0.nodes, n, s),
    ensures
        !append_ok_spec(t0, t1, Some(s), n, root_index, sub_index),
{
}

/// An already existing relationship can never be attached a second time:
/// no success case of `append` or `append_at` admits an existing edge (the
/// call then reports `DuplicateRootNode` or `DuplicateSubNode` and changes
/// nothing, by its error contract).
pub proof fn lemma_no_duplicate_attach<V>(
    t0: TaxView<V>,
    t1: TaxView<V>,
    sup: Option<Seq<char>>,
    n: Seq<char>,
    root_index: int,
    sub_index: int,
)
    requires
        t0.edge_exists(crate::edge::EdgeView { super_id: sup, node_id: n }),
    ensures
        !append_ok_spec(t0, t1, sup, n, root_index, sub_index),
{
}

/// A subordinate that keeps a parent outside the removed set survives a
/// cascading `remove_from` and retains its element, its children (save the
/// severed one) and every surviving parent entry.
pub proof fn lemma_cascade_spares_supported<V>(
    t0: TaxView<V>,
    t1: TaxView<V>,
    sup: Option<Seq<char>>,
    c: Seq<char>,
    rem: Set<Seq<char>>,
    x: Seq<char>,
    q: Seq<char>,
)
    requires
        remove_from_ok_spec(t0, t1, sup, c, rem),
        t0.nodes.contains_key(x),
        x != c,
        t0.nodes[x].supers.contains(Some(q)),
        !rem.contains(q),
    ensures
        t1.nodes.contains_key(x),
        t1.nodes[x].element == t0.nodes[x].element,
        t1.nodes[x].subs == (if sup == Some(x) {
            t0.nodes[x].subs.remove_value(c)
        } else {
            t0.nodes[x].subs
        }),
        t1.nodes[x].supers.contains(Some(q)),
{
    assert(!rem.contains(x)) by {
        if rem.contains(x) {
            assert(rem.contains(q));
        }
    }
    assert(t1.nodes.dom() == t0.nodes.dom().difference(rem));
    assert(t1.nodes.contains_key(x));
    assert(t1.has(x));
    let base = t0.nodes[x].supers;
    assert(t1.nodes[x].supers == base.filter(
        |e: Option<Seq<char>>| crate::taxonomy::kept_parent_entry(rem, e),
    ));
    crate::node::lemma_filter_membership(
        base,
        |e: Option<Seq<char>>| crate::taxonomy::kept_parent_entry(rem, e),
    );
    assert(t1.nodes[x].supers.contains(Some(q)));
}

/// A subordinate whose every parent was dragged into the removed set (and
/// which held no root place) does not survive a cascading `remove_from`.
pub proof fn lemma_cascade_removes_unsupported<V>(
    t0: TaxView<V>,
    t1: TaxView<V>,
    sup: Option<Seq<char>>,
    c: Seq<char>,
    rem: Set<Seq<char>>,
    x: Seq<char>,
)
    requires
        remove_from_ok_spec(t0, t1, sup, c, rem),
        t0.nodes.contains_key(x),
        x != c,
        t0.nodes[x].supers.len() > 0,
        !t0.nodes[x].supers.contains(None),
        forall|q: Seq<char>|
            #[trigger] t0.nodes[x].supers.contains(Some(q)) ==> rem.contains(q),
    ensures
        !t1.nodes.contains_key(x),
{
    if t1.nodes.contains_key(x) {
        assert(t1.has(x));
        let base = t0.nodes[x].supers;
        let p = |e: Option<Seq<char>>| crate::taxonomy::kept_parent_entry(rem, e);
        assert(t1.nodes[x].supers == base.filter(p));
        crate::node::lemma_filter_membership(base, p);
        assert(t1.nodes[x].supers.len() == 0) by {
            if t1.nodes[x].supers.len() > 0 {
                let e = t1.nodes[x].supers[0];
                assert(t1.nodes[x].supers.contains(e));
                assert(base.contains(e) && p(e));
                match e {
                    None => {},
                    Some(q) => {},
                }
            }
        }
        assert(t0.nodes[x].supers.len() == 0);
    }
}

/// A fresh walk over a structure with roots stands on the first root.
pub proof fn lemma_walk_starts_at_first_root<V>(t: TaxView<V>)
    requires
        t.cursor.len() == 0,
        t.roots.len() > 0,
    ensures
        addressed(stepped(t)) == Some(t.roots[0]),
{
    assert(next_cursor(t) == seq![
        crate::cursor::CursorView { super_id: None, node_index: 0 },
    ]);
}

/// From a node with children, the walk descends into the first child
/// before any sibling.
pub proof fn lemma_walk_descends_first<V>(t: TaxView<V>)
    requires
        t.cursor.len() > 0,
        t.nodes.contains_key(frame_target(t, t.cursor.last())),
        t.nodes[frame_target(t, t.cursor.last())].subs.len() > 0,
    ensures
        addressed(stepped(t)) == Some(
            t.nodes[frame_target(t, t.cursor.last())].subs[0],
        ),
{
    let target = frame_target(t, t.cursor.last());
    assert(next_cursor(t) == t.cursor.push(
        crate::cursor::CursorView { super_id: Some(target), node_index: 0 },
    ));
}

/// From a childless node whose position has a next sibling, the walk moves
/// to that sibling, keeping the stored order.
pub proof fn lemma_walk_next_sibling<V>(t: TaxView<V>)
    requires
        t.cursor.len() > 0,
        !(t.nodes.contains_key(frame_target(t, t.cursor.last())) && t.nodes[frame_target(
            t,
            t.cursor.last(),
        )].subs.len() > 0),
        frame_succ(t, t.cursor.last()) is Some,
    ensures
        addressed(stepped(t)) == Some(
            frame_target(t, frame_succ(t, t.cursor.last()).unwrap()),
        ),
{
    let f2 = frame_succ(t, t.cursor.last()).unwrap();
    assert(next_cursor(t) == t.cursor.drop_last().push(f2));
}

/// The identifiers a walk announces over its next `n` steps.
pub open spec fn walk_outputs<V>(t: TaxView<V>, n: nat) -> Seq<Option<Seq<char>>>
    decreases n,
{
    if n == 0 {
        Seq::empty()
    } else {
        let t1 = stepped(t);
        seq![addressed(t1)] + walk_outputs(t1, (n - 1) as nat)
    }
}

/// When a step announces nothing, the pass is over and the position stack
/// is empty again, so the next call starts over at the first root.
pub proof fn lemma_exhausted_stack_empty<V>(t: TaxView<V>)
    requires
        addressed(stepped(t)) is None,
    ensures
        stepped(t).cursor.len() == 0,
{
}

/// Unwinding depends only on the stored nodes and the root order.
proof fn lemma_unwind_same<V>(ta: TaxView<V>, tb: TaxView<V>, st: Seq<crate::cursor::CursorView>)
    requires
        ta.nodes == tb.nodes,
        ta.roots == tb.roots,
    ensures
        unwind_cursor(ta, st) == unwind_cursor(tb, st),
    decreases st.len(),
{
    if st.len() > 0 {
        assert(frame_succ(ta, st.last()) == frame_succ(tb, st.last()));
        lemma_unwind_same(ta, tb, st.drop_last());
    }
}

/// The walk is a function of the stored nodes, the root order and the
/// resumed position alone: two passes over an unchanged structure, resumed
/// from the same position (in particular, restarted after exhaustion),
/// announce the identical sequence.
pub proof fn lemma_pass_deterministic<V>(ta: TaxView<V>, tb: TaxView<V>, n: nat)
    requires
        ta.nodes == tb.nodes,
        ta.roots == tb.roots,
        ta.cursor == tb.cursor,
    ensures
        walk_outputs(ta, n) == walk_outputs(tb, n),
    decreases n,
{
    if n > 0 {
        lemma_unwind_same(ta, tb, ta.cursor);
        assert(next_cursor(ta) == next_cursor(tb));
        let sa = stepped(ta);
        let sb = stepped(tb);
        assert(addressed(sa) == addressed(sb));
        lemma_pass_deterministic(sa, sb, (n - 1) as nat);
        assert(walk_outputs(ta, n) =~= walk_outputs(tb, n));
    } else {
        assert(walk_outputs(ta, n) =~= walk_outputs(tb, n));
    }
}

/// A node with all its subordinates disappears under `remove_recursively`,
/// and whoever else pointed at one of them loses exactly those entries
/// from its child list.
pub proof fn lemma_recursive_removal_scope<V>(
    t0: TaxView<V>,
    t1: TaxView<V>,
    n: Seq<char>,
    x: Seq<char>,
)
    requires
        crate::taxonomy::remove_rec_spec(t0, t1, descendants(t0.nodes, n).insert(n)),
        t0.nodes.contains_key(x),
    ensures
        (x == n || crate::reach::reaches(t0.nodes, n, x)) <==> !t1.nodes.contains_key(x),
{
    let rem = descendants(t0.nodes, n).insert(n);
    assert(t1.nodes.dom() == t0.nodes.dom().difference(rem));
    assert(rem.contains(x) <==> (x == n || crate::reach::reaches(t0.nodes, n, x)));
}

/// Everything a depth-first walk starting at `ids` can touch: the listed
/// nodes and all their direct and indirect subordinates.
pub open spec fn subtree_span<V>(t: TaxView<V>, ids: Seq<Seq<char>>) -> Set<Seq<char>> {
    Set::new(
        |x: Seq<char>|
            ids.contains(x) || exists|i: int|
                0 <= i < ids.len() && #[trigger] crate::reach::reaches(t.nodes, ids[i], x),
    )
}

/// What the flattening needs of the structure: finitely many nodes, a
/// cycle-free child relation, child lists over existing nodes, and a list
/// of existing starting nodes.
pub open spec fn dfs_ok<V>(t: TaxView<V>, ids: Seq<Seq<char>>) -> bool {
    &&& t.nodes.dom().finite()
    &&& crate::reach::acyclic(t.nodes)
    &&& forall|k: Seq<char>, s: Seq<char>|
        t.nodes.contains_key(k) && #[trigger] t.nodes[k].subs.contains(s)
            ==> t.nodes.contains_key(s)
    &&& forall|i: int| 0 <= i < ids.len() ==> t.nodes.contains_key(#[trigger] ids[i])
}

/// The pre-order depth-first flattening of the forest rooted at `ids`:
/// each listed node, immediately followed by the flattening of its own
/// children, before its next sibling. A node standing in several child
/// lists is flattened once per occurrence, its whole subtree re-expanded
/// each time.
pub open spec fn dfs_list<V>(t: TaxView<V>, ids: Seq<Seq<char>>) -> Seq<Seq<char>>
    decreases subtree_span(t, ids).len(), ids.len(),
    when dfs_ok(t, ids)
    via dfs_list_decreases::<V>
{
    if ids.len() == 0 {
        Seq::empty()
    } else {
        seq![ids[0]] + dfs_list(t, t.nodes[ids[0]].subs) + dfs_list(t, ids.drop_first())
    }
}

/// One unfolding of the flattening, available whenever its guard holds.
proof fn lemma_dfs_unfold<V>(t: TaxView<V>, ids: Seq<Seq<char>>)
    requires
        dfs_ok(t, ids),
        ids.len() > 0,
    ensures
        dfs_list(t, ids) == seq![ids[0]] + dfs_list(t, t.nodes[ids[0]].subs) + dfs_list(
            t,
            ids.drop_first(),
        ),
{
    lemma_dfs_ok_step(t, ids);
}

/// The walk's span is a finite part of the node store.
proof fn lemma_span_bounds<V>(t: TaxView<V>, ids: Seq<Seq<char>>)
    requires
        dfs_ok(t, ids),
    ensures
        subtree_span(t, ids).subset_of(t.nodes.dom()),
        subtree_span(t, ids).finite(),
        subtree_span(t, ids).len() <= t.nodes.dom().len(),
{
    assert forall|x: Seq<char>|
        subtree_span(t, ids).contains(x) implies t.nodes.dom().contains(x) by {
        if ids.contains(x) {
            let i = choose|i: int| 0 <= i < ids.len() && ids[i] == x;
            assert(t.nodes.contains_key(ids[i]));
        } else {
            let i = choose|i: int|
                0 <= i < ids.len() && #[trigger] crate::reach::reaches(t.nodes, ids[i], x);
            crate::reach::lemma_reaches_in_dom(t.nodes, ids[i], x);
        }
    }
    vstd::set_lib::lemma_len_subset(subtree_span(t, ids), t.nodes.dom());
}

/// The guard carries over to a node's child list and to the tail of the
/// starting list.
proof fn lemma_dfs_ok_step<V>(t: TaxView<V>, ids: Seq<Seq<char>>)
    requires
        dfs_ok(t, ids),
        ids.len() > 0,
    ensures
        dfs_ok(t, t.nodes[ids[0]].subs),
        dfs_ok(t, ids.drop_first()),
{
    let h = ids[0];
    assert(t.nodes.contains_key(h));
    let subs = t.nodes[h].subs;
    assert forall|i: int| 0 <= i < subs.len() implies t.nodes.contains_key(
        #[trigger] subs[i],
    ) by {
        assert(t.nodes[h].subs.contains(subs[i]));
    }
    assert forall|i: int| 0 <= i < ids.drop_first().len() implies t.nodes.contains_key(
        #[trigger] ids.drop_first()[i],
    ) by {
        assert(ids.drop_first()[i] == ids[i + 1]);
        assert(t.nodes.contains_key(ids[i + 1]));
    }
}

#[via_fn]
proof fn dfs_list_decreases<V>(t: TaxView<V>, ids: Seq<Seq<char>>) {
    if ids.len() > 0 {
        lemma_dfs_span_step(t, ids);
    }
}

/// One unfolding step of the flattening strictly shrinks the span when it
/// descends, and never grows it along the sibling list.
proof fn lemma_dfs_span_step<V>(t: TaxView<V>, ids: Seq<Seq<char>>)
    requires
        dfs_ok(t, ids),
        ids.len() > 0,
    ensures
        subtree_span(t, t.nodes[ids[0]].subs).len() < subtree_span(t, ids).len(),
        subtree_span(t, ids.drop_first()).len() <= subtree_span(t, ids).len(),
{
    {
        let h = ids[0];
        assert(t.nodes.contains_key(h));
        let subs = t.nodes[h].subs;
        lemma_dfs_ok_step(t, ids);
        lemma_span_bounds(t, ids);
        lemma_span_bounds(t, subs);
        lemma_span_bounds(t, ids.drop_first());
        assert(subtree_span(t, ids).contains(h)) by {
            assert(ids.contains(h));
        }
        // Everything in the child span lies strictly below the head.
        assert forall|x: Seq<char>|
            subtree_span(t, subs).contains(x) implies subtree_span(t, ids).remove(h).contains(
            x,
        ) by {
            if subs.contains(x) {
                assert(crate::reach::is_child_edge(t.nodes, h, x));
                crate::reach::lemma_edge_reaches(t.nodes, h, x);
            } else {
                let i = choose|i: int|
                    0 <= i < subs.len() && #[trigger] crate::reach::reaches(
                        t.nodes,
                        subs[i],
                        x,
                    );
                assert(subs.contains(subs[i]));
                assert(crate::reach::is_child_edge(t.nodes, h, subs[i]));
                crate::reach::lemma_edge_reaches_trans(t.nodes, h, subs[i], x);
            }
            assert(crate::reach::reaches(t.nodes, ids[0], x));
            assert(subtree_span(t, ids).contains(x));
            assert(x != h);
        }
        vstd::set_lib::lemma_len_subset(
            subtree_span(t, subs),
            subtree_span(t, ids).remove(h),
        );
        assert(subtree_span(t, ids).remove(h).len() == subtree_span(t, ids).len() - 1);
        assert forall|x: Seq<char>|
            subtree_span(t, ids.drop_first()).contains(x) implies subtree_span(
            t,
            ids,
        ).contains(x) by {
            if ids.drop_first().contains(x) {
                let i = choose|i: int|
                    0 <= i < ids.drop_first().len() && ids.drop_first()[i] == x;
                assert(ids[i + 1] == x);
                assert(ids.contains(x));
            } else {
                let i = choose|i: int|
                    0 <= i < ids.drop_first().len() && #[trigger] crate::reach::reaches(
                        t.nodes,
                        ids.drop_first()[i],
                        x,
                    );
                assert(ids.drop_first()[i] == ids[i + 1]);
                assert(crate::reach::reaches(t.nodes, ids[i + 1], x));
            }
        }
        vstd::set_lib::lemma_len_subset(
            subtree_span(t, ids.drop_first()),
            subtree_span(t, ids),
        );
    }
}

/// The positions after a frame, in its own list (the later siblings).
pub open spec fn frame_suffix<V>(t: TaxView<V>, f: crate::cursor::CursorView) -> Seq<
    Seq<char>,
> {
    match f.super_id {
        None => t.roots.skip(f.node_index + 1),
        Some(p) => t.nodes[p].subs.skip(f.node_index + 1),
    }
}

/// What remains to be announced once the subtree under the top frame is
/// finished: the later siblings at each stack level, flattened, innermost
/// level first.
pub open spec fn upcoming_after<V>(t: TaxView<V>, st: Seq<crate::cursor::CursorView>) -> Seq<
    Seq<char>,
>
    decreases st.len(),
{
    if st.len() == 0 {
        Seq::empty()
    } else {
        dfs_list(t, frame_suffix(t, st.last())) + upcoming_after(t, st.drop_last())
    }
}

/// Everything the walk will announce after the node it currently stands
/// on: that node's own subtree, then the later siblings on the way out.
/// From an empty stack the whole forest is ahead.
pub open spec fn upcoming<V>(t: TaxView<V>) -> Seq<Seq<char>> {
    if t.cursor.len() == 0 {
        dfs_list(t, t.roots)
    } else {
        dfs_list(t, t.nodes[frame_target(t, t.cursor.last())].subs) + upcoming_after(
            t,
            t.cursor,
        )
    }
}

/// What the flattening needs, stated once for a whole state: it subsumes
/// the corresponding clauses of the taxonomy's well-formedness.
pub open spec fn walk_wf<V>(t: TaxView<V>) -> bool {
    &&& t.nodes.dom().finite()
    &&& crate::reach::acyclic(t.nodes)
    &&& forall|k: Seq<char>, s: Seq<char>|
        t.nodes.contains_key(k) && #[trigger] t.nodes[k].subs.contains(s)
            ==> t.nodes.contains_key(s)
    &&& forall|r: Seq<char>| t.roots.contains(r) ==> t.nodes.contains_key(r)
    &&& t.cursor_ok()
}

/// A valid frame lists existing nodes after its position.
proof fn lemma_suffix_ok<V>(t: TaxView<V>, f: crate::cursor::CursorView)
    requires
        walk_wf(t),
        t.frame_valid(f),
    ensures
        dfs_ok(t, frame_suffix(t, f)),
        t.nodes.contains_key(frame_target(t, f)),
{
    match f.super_id {
        None => {
            let sfx = t.roots.skip(f.node_index + 1);
            assert forall|i: int| 0 <= i < sfx.len() implies t.nodes.contains_key(
                #[trigger] sfx[i],
            ) by {
                assert(sfx[i] == t.roots[f.node_index + 1 + i]);
                assert(t.roots.contains(t.roots[f.node_index + 1 + i]));
            }
            assert(t.roots.contains(t.roots[f.node_index]));
        },
        Some(p) => {
            let sfx = t.nodes[p].subs.skip(f.node_index + 1);
            assert forall|i: int| 0 <= i < sfx.len() implies t.nodes.contains_key(
                #[trigger] sfx[i],
            ) by {
                assert(sfx[i] == t.nodes[p].subs[f.node_index + 1 + i]);
                assert(t.nodes[p].subs.contains(t.nodes[p].subs[f.node_index + 1 + i]));
            }
            assert(t.nodes[p].subs.contains(t.nodes[p].subs[f.node_index]));
        },
    }
}

/// A node's child list lists existing nodes.
proof fn lemma_subs_ok<V>(t: TaxView<V>, x: Seq<char>)
    requires
        walk_wf(t),
        t.nodes.contains_key(x),
    ensures
        dfs_ok(t, t.nodes[x].subs),
{
    let subs = t.nodes[x].subs;
    assert forall|i: int| 0 <= i < subs.len() implies t.nodes.contains_key(
        #[trigger] subs[i],
    ) by {
        assert(t.nodes[x].subs.contains(subs[i]));
    }
}

/// Unwinding a stack of valid frames either empties it (nothing is left
/// to announce) or stops at the next sibling, which heads what is left.
proof fn lemma_unwind_upcoming<V>(t: TaxView<V>, st: Seq<crate::cursor::CursorView>)
    requires
        walk_wf(t),
        forall|j: int| 0 <= j < st.len() ==> t.frame_valid(#[trigger] st[j]),
    ensures
        ({
            let st2 = unwind_cursor(t, st);
            if st2.len() == 0 {
                upcoming_after(t, st) == Seq::<Seq<char>>::empty()
            } else {
                t.frame_valid(st2.last()) && upcoming_after(t, st) == seq![
                    frame_target(t, st2.last()),
                ] + dfs_list(t, t.nodes[frame_target(t, st2.last())].subs) + upcoming_after(
                    t,
                    st2,
                )
            }
        }),
    decreases st.len(),
{
    if st.len() == 0 {
    } else {
        let f = st.last();
        assert(t.frame_valid(f));
        lemma_suffix_ok(t, f);
        match frame_succ(t, f) {
            Some(f2) => {
                let st2 = st.drop_last().push(f2);
                assert(st2 == unwind_cursor(t, st));
                assert(t.frame_valid(f2));
                assert(st2.last() == f2);
                let sfx = frame_suffix(t, f);
                // The suffix starts exactly at the successor's position.
                assert(sfx.len() > 0);
                assert(sfx[0] == frame_target(t, f2)) by {
                    match f.super_id {
                        None => {},
                        Some(p) => {},
                    }
                }
                lemma_dfs_unfold(t, sfx);
                assert(sfx.drop_first() =~= frame_suffix(t, f2)) by {
                    match f.super_id {
                        None => {
                            assert(t.roots.skip(f.node_index + 1).drop_first()
                                =~= t.roots.skip(f.node_index + 2));
                        },
                        Some(p) => {
                            assert(t.nodes[p].subs.skip(f.node_index + 1).drop_first()
                                =~= t.nodes[p].subs.skip(f.node_index + 2));
                        },
                    }
                }
                assert(upcoming_after(t, st2) == dfs_list(t, frame_suffix(t, f2))
                    + upcoming_after(t, st2.drop_last()));
                assert(st2.drop_last() =~= st.drop_last());
                assert(dfs_list(t, sfx) == seq![sfx[0]] + dfs_list(t, t.nodes[sfx[0]].subs)
                    + dfs_list(t, sfx.drop_first()));
                assert(upcoming_after(t, st) =~= seq![frame_target(t, f2)] + dfs_list(
                    t,
                    t.nodes[frame_target(t, f2)].subs,
                ) + upcoming_after(t, st2));
            },
            None => {
                // No later sibling at this level: this frame contributes
                // nothing and the stack unwinds further.
                let sfx = frame_suffix(t, f);
                assert(sfx.len() == 0) by {
                    match f.super_id {
                        None => {},
                        Some(p) => {},
                    }
                }
                assert(dfs_list(t, sfx) == Seq::<Seq<char>>::empty());
                assert forall|j: int| 0 <= j < st.drop_last().len() implies t.frame_valid(
                    #[trigger] st.drop_last()[j],
                ) by {
                    assert(st.drop_last()[j] == st[j]);
                }
                lemma_unwind_upcoming(t, st.drop_last());
                assert(unwind_cursor(t, st) == unwind_cursor(t, st.drop_last()));
                assert(upcoming_after(t, st) =~= upcoming_after(t, st.drop_last()));
            },
        }
    }
}

/// The heart of the traversal law: from any state, the walk announces
/// exactly what is ahead of it, in order, and then that it is done.
pub proof fn lemma_walk_matches_upcoming<V>(t: TaxView<V>, n: nat)
    requires
        walk_wf(t),
        n <= upcoming(t).len() + 1,
    ensures
        walk_outputs(t, n) == Seq::new(n, |i: int| if i < upcoming(t).len() {
            Some(upcoming(t)[i])
        } else {
            None
        }),
    decreases n,
{
    let u = upcoming(t);
    let goal = Seq::new(n, |i: int| if i < u.len() {
        Some(u[i])
    } else {
        None
    });
    if n == 0 {
        assert(walk_outputs(t, n) =~= goal);
    } else {
        let t1 = stepped(t);
        assert(t1.nodes == t.nodes && t1.roots == t.roots);
        assert forall|i: int| 0 <= i < t.roots.len() implies t.nodes.contains_key(
            #[trigger] t.roots[i],
        ) by {
            assert(t.roots.contains(t.roots[i]));
        }
        if t.cursor.len() == 0 {
            if t.roots.len() == 0 {
                // Nothing to visit at all.
                assert(t1.cursor == t.cursor);
                assert(addressed(t1) is None);
                assert(dfs_ok(t, t.roots));
                assert(u == dfs_list(t, t.roots));
                assert(u.len() == 0);
                assert(n == 1);
                assert(walk_outputs(t1, 0nat) == Seq::<Option<Seq<char>>>::empty());
                assert(walk_outputs(t, n) =~= goal);
            } else {
                // A fresh pass starts on the first root.
                let f1 = crate::cursor::CursorView { super_id: None, node_index: 0 };
                assert(t1.cursor == seq![f1]);
                assert(frame_target(t1, f1) == t.roots[0]);
                assert(addressed(t1) == Some(t.roots[0]));
                assert(dfs_ok(t, t.roots));
                lemma_dfs_unfold(t, t.roots);
                assert(u == seq![t.roots[0]] + dfs_list(t, t.nodes[t.roots[0]].subs)
                    + dfs_list(t, t.roots.drop_first()));
                assert(u[0] == t.roots[0]);
                assert(t1.frame_valid(f1));
                assert(t1.cursor_ok()) by {
                    assert forall|j: int| 0 <= j < t1.cursor.len() implies t1.frame_valid(
                        #[trigger] t1.cursor[j],
                    ) by {
                        assert(t1.cursor[j] == f1);
                    }
                }
                assert(upcoming(t1) =~= u.drop_first()) by {
                    assert(upcoming_after(t1, t1.cursor) == dfs_list(t1, frame_suffix(t1, f1))
                        + upcoming_after(t1, t1.cursor.drop_last()));
                    assert(t1.cursor.drop_last() =~= Seq::<crate::cursor::CursorView>::empty());
                    assert(frame_suffix(t1, f1) =~= t.roots.drop_first()) by {
                        assert(t.roots.skip(1) =~= t.roots.drop_first());
                    }
                    lemma_subs_ok(t, t.roots[0]);
                    assert(dfs_ok(t1, t.nodes[t.roots[0]].subs));
                    lemma_dfs_same(t1, t, t.nodes[t.roots[0]].subs);
                    lemma_dfs_ok_step(t, t.roots);
                    assert(frame_suffix(t1, f1) == t.roots.drop_first());
                    assert(dfs_ok(t1, frame_suffix(t1, f1)));
                    lemma_dfs_same(t1, t, frame_suffix(t1, f1));
                }
                lemma_walk_matches_upcoming(t1, (n - 1) as nat);
                assert(walk_outputs(t, n) =~= goal);
            }
        } else {
            let f = t.cursor.last();
            assert(t.frame_valid(f));
            lemma_suffix_ok(t, f);
            let x = frame_target(t, f);
            assert(t.nodes.contains_key(x));
            lemma_subs_ok(t, x);
            assert(dfs_ok(t, t.nodes[x].subs));
            assert(u == dfs_list(t, t.nodes[x].subs) + upcoming_after(t, t.cursor));
            if t.nodes[x].subs.len() > 0 {
                lemma_dfs_unfold(t, t.nodes[x].subs);
                // Descend into the first child.
                let f1 = crate::cursor::CursorView { super_id: Some(x), node_index: 0 };
                assert(t1.cursor == t.cursor.push(f1));
                assert(frame_target(t1, f1) == t.nodes[x].subs[0]);
                assert(addressed(t1) == Some(t.nodes[x].subs[0]));
                assert(dfs_list(t, t.nodes[x].subs) == seq![t.nodes[x].subs[0]] + dfs_list(
                    t,
                    t.nodes[t.nodes[x].subs[0]].subs,
                ) + dfs_list(t, t.nodes[x].subs.drop_first()));
                assert(u[0] == t.nodes[x].subs[0]);
                assert(t1.frame_valid(f1));
                assert(t1.cursor_ok()) by {
                    assert forall|j: int| 0 <= j < t1.cursor.len() implies t1.frame_valid(
                        #[trigger] t1.cursor[j],
                    ) by {
                        if j < t.cursor.len() {
                            assert(t1.cursor[j] == t.cursor[j]);
                            assert(t.frame_valid(t.cursor[j]));
                        }
                    }
                }
                assert(upcoming(t1) =~= u.drop_first()) by {
                    assert(t1.cursor.last() == f1);
                    assert(upcoming_after(t1, t1.cursor) == dfs_list(t1, frame_suffix(t1, f1))
                        + upcoming_after(t1, t1.cursor.drop_last()));
                    assert(t1.cursor.drop_last() =~= t.cursor);
                    assert(upcoming_after(t1, t.cursor) == upcoming_after(t, t.cursor)) by {
                        lemma_upcoming_after_same(t, t1, t.cursor);
                    }
                    assert(frame_suffix(t1, f1) =~= t.nodes[x].subs.drop_first()) by {
                        assert(t.nodes[x].subs.skip(1) =~= t.nodes[x].subs.drop_first());
                    }
                    let x0 = t.nodes[x].subs[0];
                    assert(t.nodes[x].subs.contains(x0));
                    assert(t.nodes.contains_key(x0));
                    lemma_subs_ok(t, x0);
                    assert(dfs_ok(t1, t.nodes[x0].subs));
                    lemma_dfs_same(t1, t, t.nodes[x0].subs);
                    lemma_dfs_ok_step(t, t.nodes[x].subs);
                    assert(frame_suffix(t1, f1) == t.nodes[x].subs.drop_first());
                    assert(dfs_ok(t1, frame_suffix(t1, f1)));
                    lemma_dfs_same(t1, t, frame_suffix(t1, f1));
                }
                lemma_walk_matches_upcoming(t1, (n - 1) as nat);
                assert(walk_outputs(t, n) =~= goal);
            } else {
                // A leaf: what is ahead is exactly the way out.
                assert(dfs_list(t, t.nodes[x].subs) == Seq::<Seq<char>>::empty());
                assert(u =~= upcoming_after(t, t.cursor));
                assert forall|j: int| 0 <= j < t.cursor.len() implies t.frame_valid(
                    #[trigger] t.cursor[j],
                ) by {}
                lemma_unwind_upcoming(t, t.cursor);
                let st2 = unwind_cursor(t, t.cursor);
                assert(t1.cursor == st2);
                lemma_unwind_valid(t, t.cursor);
                if st2.len() == 0 {
                    assert(u.len() == 0);
                    assert(addressed(t1) is None);
                    assert(n == 1);
                    assert(walk_outputs(t1, 0nat) == Seq::<Option<Seq<char>>>::empty());
                    assert(walk_outputs(t, n) =~= goal);
                } else {
                    let y = frame_target(t, st2.last());
                    assert(u == seq![y] + dfs_list(t, t.nodes[y].subs) + upcoming_after(
                        t,
                        st2,
                    ));
                    assert(u[0] == y);
                    assert(frame_target(t1, st2.last()) == y);
                    assert(addressed(t1) == Some(y));
                    assert(t1.cursor_ok()) by {
                        assert forall|j: int| 0 <= j < t1.cursor.len() implies t1.frame_valid(
                            #[trigger] t1.cursor[j],
                        ) by {
                            assert(t.frame_valid(st2[j]));
                        }
                    }
                    assert(upcoming(t1) =~= u.drop_first()) by {
                        assert(upcoming_after(t1, st2) == upcoming_after(t, st2)) by {
                            lemma_upcoming_after_same(t, t1, st2);
                        }
                        assert(t.frame_valid(st2.last()));
                        lemma_suffix_ok(t, st2.last());
                        lemma_subs_ok(t, y);
                        assert(dfs_ok(t1, t.nodes[y].subs));
                        lemma_dfs_same(t1, t, t.nodes[y].subs);
                        assert(frame_target(t1, st2.last()) == y);
                    }
                    lemma_walk_matches_upcoming(t1, (n - 1) as nat);
                    assert(walk_outputs(t, n) =~= goal);
                }
            }
        }
    }
}

/// What lies after a stack of valid frames depends only on the stored
/// nodes and roots.
proof fn lemma_upcoming_after_same<V>(
    ta: TaxView<V>,
    tb: TaxView<V>,
    st: Seq<crate::cursor::CursorView>,
)
    requires
        walk_wf(ta),
        ta.nodes == tb.nodes,
        ta.roots == tb.roots,
        forall|j: int| 0 <= j < st.len() ==> ta.frame_valid(#[trigger] st[j]),
    ensures
        upcoming_after(ta, st) == upcoming_after(tb, st),
    decreases st.len(),
{
    if st.len() > 0 {
        assert(ta.frame_valid(st[st.len() - 1]));
        lemma_suffix_ok(ta, st.last());
        assert(frame_suffix(ta, st.last()) == frame_suffix(tb, st.last()));
        lemma_dfs_same(ta, tb, frame_suffix(ta, st.last()));
        assert forall|j: int| 0 <= j < st.drop_last().len() implies ta.frame_valid(
            #[trigger] st.drop_last()[j],
        ) by {
            assert(st.drop_last()[j] == st[j]);
        }
        lemma_upcoming_after_same(ta, tb, st.drop_last());
    }
}

/// The flattening depends only on the stored nodes.
proof fn lemma_dfs_same<V>(ta: TaxView<V>, tb: TaxView<V>, ids: Seq<Seq<char>>)
    requires
        ta.nodes == tb.nodes,
        dfs_ok(ta, ids),
    ensures
        dfs_list(ta, ids) == dfs_list(tb, ids),
    decreases subtree_span(ta, ids).len(), ids.len(),
{
    assert(subtree_span(ta, ids) =~= subtree_span(tb, ids));
    assert(dfs_ok(tb, ids));
    if ids.len() > 0 {
        lemma_dfs_ok_step(ta, ids);
        lemma_dfs_span_step(ta, ids);
        lemma_dfs_same(ta, tb, ta.nodes[ids[0]].subs);
        lemma_dfs_same(ta, tb, ids.drop_first());
    }
}

/// The traversal law in full: starting a pass on a well-formed taxonomy,
/// the walk announces exactly the pre-order depth-first flattening of the
/// forest — every root in stored order and, under each visited node, its
/// children in their stored order before the node's next sibling, a node
/// once per placement — and then announces that it is done.
pub proof fn lemma_pass_is_preorder<V>(t: TaxView<V>, n: nat)
    requires
        walk_wf(t),
        t.cursor.len() == 0,
        n <= dfs_list(t, t.roots).len() + 1,
    ensures
        walk_outputs(t, n) == Seq::new(n, |i: int| if i < dfs_list(t, t.roots).len() {
            Some(dfs_list(t, t.roots)[i])
        } else {
            None
        }),
{
    lemma_walk_matches_upcoming(t, n);
}

} // verus!
