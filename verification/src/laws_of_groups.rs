//! What holds of the watched group: how its nodes are arranged, and what becomes
//! of the groups within it.

use vstd::prelude::*;

use crate::group;
use crate::group::Extra;
use crate::group::GroupTree;
use crate::laws;
use crate::state;
use crate::state::AppState;
use crate::text;
use crate::tree;
use crate::tree::Kind;
use crate::tree::WatchTree;

verus! {

/// Whether an address comes before another in the order of the tree, neither
/// being the beginning of the other: where they first differ, it is smaller.
pub open spec fn before(a: Seq<usize>, b: Seq<usize>) -> bool {
    exists|k: int|
        0 <= k < a.len() && k < b.len() && a.take(k) == b.take(k) && #[trigger] a[k] < b[k]
}

/// Whether shown nodes are arranged as the tree is: each stands below `root`,
/// they stand in the order of the tree, none below another of them, and the same
/// holds of the nodes below each.
pub open spec fn arranged(nodes: Seq<GroupTree>, root: Seq<usize>) -> bool
    decreases nodes,
{
    &&& forall|i: int|
        0 <= i < nodes.len() ==> {
            &&& root.len() < (#[trigger] nodes[i]).address.len()
            &&& root.is_prefix_of(nodes[i].address)
            &&& arranged(nodes[i].childs, nodes[i].address)
        }
    &&& forall|i: int, j: int|
        #![trigger nodes[i], nodes[j]]
        0 <= i < j < nodes.len() ==> before(nodes[i].address, nodes[j].address)
}

/// The order of two addresses is the order of any that they begin.
proof fn lemma_before_continued(a: Seq<usize>, b: Seq<usize>, c: Seq<usize>, d: Seq<usize>)
    requires
        before(a, b),
        a.is_prefix_of(c),
        b.is_prefix_of(d),
    ensures
        before(c, d),
{
    let k = choose|k: int|
        0 <= k < a.len() && k < b.len() && a.take(k) == b.take(k) && #[trigger] a[k] < b[k];
    assert(c.subrange(0, a.len() as int)[k] == c[k]);
    assert(d.subrange(0, b.len() as int)[k] == d[k]);
    assert(c.take(k) =~= a.take(k)) by {
        assert forall|i: int| 0 <= i < k implies c[i] == a[i] by {
            assert(c.subrange(0, a.len() as int)[i] == c[i]);
        }
    }
    assert(d.take(k) =~= b.take(k)) by {
        assert forall|i: int| 0 <= i < k implies d[i] == b[i] by {
            assert(d.subrange(0, b.len() as int)[i] == d[i]);
        }
    }
    assert(c[k] < d[k]);
}

/// Of two addresses of which one comes before the other neither begins the other.
proof fn lemma_before_apart(a: Seq<usize>, b: Seq<usize>)
    requires
        before(a, b),
    ensures
        !a.is_prefix_of(b),
        !b.is_prefix_of(a),
{
    let k = choose|k: int|
        0 <= k < a.len() && k < b.len() && a.take(k) == b.take(k) && #[trigger] a[k] < b[k];
    if a.is_prefix_of(b) {
        assert(b.subrange(0, a.len() as int)[k] == b[k]);
    }
    if b.is_prefix_of(a) {
        assert(a.subrange(0, b.len() as int)[k] == a[k]);
    }
}

proof fn lemma_prefix_chain(a: Seq<usize>, b: Seq<usize>, c: Seq<usize>)
    requires
        a.is_prefix_of(b),
        b.is_prefix_of(c),
    ensures
        a.is_prefix_of(c),
{
    assert forall|i: int| 0 <= i < a.len() implies a[i] == c[i] by {
        assert(b.subrange(0, a.len() as int)[i] == b[i]);
        assert(c.subrange(0, b.len() as int)[i] == c[i]);
    }
    assert(a =~= c.subrange(0, a.len() as int));
}

/// The nodes that `get_group` lists are arranged as the tree is: one is below
/// another where its address goes on from the other's, and siblings stand in
/// the order of their addresses.
pub proof fn lemma_listed_arranged(nodes: Seq<WatchTree>, deep: int, parent: Seq<usize>)
    requires
        nodes.len() <= usize::MAX,
        forall|i: int| 0 <= i < nodes.len() ==> laws::countable(#[trigger] nodes[i]),
    ensures
        arranged(group::group_list(nodes, deep, parent), parent),
        forall|i: int|
            0 <= i < group::group_list(nodes, deep, parent).len() ==> (
            #[trigger] group::group_list(nodes, deep, parent)[i]).address[parent.len() as int]
                < nodes.len(),
    decreases nodes,
{
    let list = group::group_list(nodes, deep, parent);
    if nodes.len() > 0 {
        let node = nodes.last();
        let fewer = nodes.drop_last();
        let step = (nodes.len() - 1) as usize;
        let place = parent.push(step);
        let inner = group::below(node.kind, deep);
        let first = group::group_list(fewer, deep, parent);
        let rest = group::group_list(node.childs, inner, place);
        let last = group::group_of(node, deep, place);
        assert(list == first + last);
        assert(laws::countable(nodes[nodes.len() - 1]));
        assert forall|i: int| 0 <= i < fewer.len() implies laws::countable(
            #[trigger] fewer[i],
        ) by {
            assert(fewer[i] == nodes[i]);
        }
        lemma_listed_arranged(fewer, deep, parent);
        lemma_listed_arranged(node.childs, inner, place);
        assert(parent =~= place.subrange(0, parent.len() as int));
        assert forall|j: int| 0 <= j < last.len() implies place.is_prefix_of(
            (#[trigger] last[j]).address,
        ) && arranged(last[j].childs, last[j].address) by {
            if group::shown(node.kind, deep) {
                assert(last[j].address == place);
                assert(place =~= place.subrange(0, place.len() as int));
            } else {
                assert(last[j] == rest[j]);
            }
        }
        assert forall|i: int| 0 <= i < list.len() implies parent.len() < (
        #[trigger] list[i]).address.len() && parent.is_prefix_of(list[i].address) && arranged(
            list[i].childs,
            list[i].address,
        ) && list[i].address[parent.len() as int] < nodes.len() by {
            if i < first.len() {
                assert(list[i] == first[i]);
            } else {
                let j = i - first.len();
                assert(list[i] == last[j]);
                lemma_prefix_chain(parent, place, last[j].address);
                assert(last[j].address.subrange(0, place.len() as int)[parent.len() as int]
                    == step);
            }
        }
        assert forall|i: int, j: int|
            #![trigger list[i], list[j]]
            0 <= i < j < list.len() implies before(list[i].address, list[j].address) by {
            if j < first.len() {
                assert(list[i] == first[i]);
                assert(list[j] == first[j]);
            } else if i >= first.len() {
                assert(list[i] == last[i - first.len()]);
                assert(list[j] == last[j - first.len()]);
                assert(!group::shown(node.kind, deep));
                assert(last[i - first.len()] == rest[i - first.len()]);
                assert(last[j - first.len()] == rest[j - first.len()]);
            } else {
                let a = list[i].address;
                let b = list[j].address;
                let k = parent.len() as int;
                assert(list[i] == first[i]);
                assert(list[j] == last[j - first.len()]);
                assert(b.subrange(0, place.len() as int)[k] == step);
                assert(a.take(k) =~= parent);
                assert(b.take(k) =~= parent);
                assert(a[k] < b[k]);
            }
        }
    }
}

/// The shown node at a spot: each step of the spot is the index of a node in the
/// list, and then among the nodes below it.
pub open spec fn at(nodes: Seq<GroupTree>, spot: Seq<int>) -> Option<GroupTree>
    decreases spot.len(),
{
    if spot.len() == 0 || !(0 <= spot[0] < nodes.len()) {
        None
    } else if spot.len() == 1 {
        Some(nodes[spot[0]])
    } else {
        at(nodes[spot[0]].childs, spot.drop_first())
    }
}

proof fn lemma_at_below(nodes: Seq<GroupTree>, root: Seq<usize>, spot: Seq<int>)
    requires
        arranged(nodes, root),
        at(nodes, spot) is Some,
    ensures
        root.len() < (at(nodes, spot)->0).address.len(),
        root.is_prefix_of((at(nodes, spot)->0).address),
        nodes[spot[0]].address.is_prefix_of((at(nodes, spot)->0).address),
        spot.len() > 1 ==> nodes[spot[0]].address.len() < (at(nodes, spot)->0).address.len(),
    decreases spot.len(),
{
    let node = nodes[spot[0]];
    if spot.len() > 1 {
        lemma_at_below(node.childs, node.address, spot.drop_first());
        lemma_prefix_chain(root, node.address, (at(nodes, spot)->0).address);
    } else {
        assert(node.address =~= node.address.subrange(0, node.address.len() as int));
    }
}

/// In an arranged list one node is below another, or is the other, exactly
/// where its address goes on from the other's, and of two nodes in one list the
/// one with the earlier address stands first.
pub proof fn lemma_below_exactly(
    nodes: Seq<GroupTree>,
    root: Seq<usize>,
    upper: Seq<int>,
    lower: Seq<int>,
)
    requires
        arranged(nodes, root),
        at(nodes, upper) is Some,
        at(nodes, lower) is Some,
    ensures
        upper.is_prefix_of(lower) <==> (at(nodes, upper)->0).address.is_prefix_of(
            (at(nodes, lower)->0).address,
        ),
        upper.len() == lower.len() && upper.drop_last() == lower.drop_last() && upper.last()
            < lower.last() ==> before(
            (at(nodes, upper)->0).address,
            (at(nodes, lower)->0).address,
        ),
    decreases upper.len(),
{
    let u = upper[0];
    let l = lower[0];
    let x = (at(nodes, upper)->0).address;
    let y = (at(nodes, lower)->0).address;
    lemma_at_below(nodes, root, upper);
    lemma_at_below(nodes, root, lower);
    if u != l {
        if upper.is_prefix_of(lower) {
            assert(lower.subrange(0, upper.len() as int)[0] == l);
        }
        if u < l {
            lemma_before_continued(nodes[u].address, nodes[l].address, x, y);
            lemma_before_apart(x, y);
        } else {
            lemma_before_continued(nodes[l].address, nodes[u].address, y, x);
            lemma_before_apart(y, x);
        }
        if upper.len() == lower.len() && upper.drop_last() == lower.drop_last() {
            if upper.len() > 1 {
                assert(upper.drop_last()[0] == u);
                assert(lower.drop_last()[0] == l);
            }
        }
    } else if upper.len() == 1 {
        assert(lower.subrange(0, 1) =~= upper);
    } else if lower.len() == 1 {
        assert(!x.is_prefix_of(y));
    } else {
        let inner_upper = upper.drop_first();
        let inner_lower = lower.drop_first();
        let node = nodes[u];
        lemma_below_exactly(node.childs, node.address, inner_upper, inner_lower);
        if upper.is_prefix_of(lower) {
            assert(inner_upper =~= inner_lower.subrange(0, inner_upper.len() as int)) by {
                assert forall|i: int| 0 <= i < inner_upper.len() implies inner_upper[i]
                    == inner_lower[i] by {
                    assert(lower.subrange(0, upper.len() as int)[i + 1] == lower[i + 1]);
                }
            }
        }
        if inner_upper.is_prefix_of(inner_lower) {
            assert forall|i: int| 0 <= i < upper.len() implies upper[i] == lower[i] by {
                if i > 0 {
                    assert(inner_lower.subrange(0, inner_upper.len() as int)[i - 1]
                        == inner_lower[i - 1]);
                    assert(inner_upper[i - 1] == upper[i]);
                }
            }
            assert(upper =~= lower.subrange(0, upper.len() as int));
        }
        if upper.len() == lower.len() && upper.drop_last() == lower.drop_last() {
            assert forall|i: int| 0 <= i < inner_upper.len() - 1 implies inner_upper[i]
                == inner_lower[i] by {
                assert(upper.drop_last()[i + 1] == lower.drop_last()[i + 1]);
            }
            assert(inner_upper.drop_last() =~= inner_lower.drop_last());
        }
    }
}

proof fn lemma_at_above(nodes: Seq<GroupTree>, spot: Seq<int>)
    requires
        at(nodes, spot) is Some,
        spot.len() > 1,
    ensures
        at(nodes, spot.drop_last()) is Some,
    decreases spot.len(),
{
    let above = spot.drop_last();
    assert(above[0] == spot[0]);
    if above.len() > 1 {
        lemma_at_above(nodes[spot[0]].childs, spot.drop_first());
        assert(above.drop_first() =~= spot.drop_first().drop_last());
    }
}

/// In an arranged list the node above another is the nearest: of all shown nodes
/// whose addresses begin that of the node, it has the longest. A node that no
/// other's address begins stands in the list itself.
pub proof fn lemma_nearest_above(
    nodes: Seq<GroupTree>,
    root: Seq<usize>,
    spot: Seq<int>,
    other: Seq<int>,
)
    requires
        arranged(nodes, root),
        at(nodes, spot) is Some,
        at(nodes, other) is Some,
        (at(nodes, other)->0).address.is_prefix_of((at(nodes, spot)->0).address),
        other != spot,
    ensures
        spot.len() > 1,
        at(nodes, spot.drop_last()) is Some,
        ({
            let above = (at(nodes, spot.drop_last())->0).address;
            &&& (at(nodes, other)->0).address.is_prefix_of(above)
            &&& above.is_prefix_of((at(nodes, spot)->0).address)
            &&& above.len() < (at(nodes, spot)->0).address.len()
        }),
{
    let above = spot.drop_last();
    lemma_below_exactly(nodes, root, other, spot);
    assert(other.is_prefix_of(spot));
    if other.len() == spot.len() {
        assert(spot.subrange(0, spot.len() as int) =~= spot);
    }
    lemma_at_above(nodes, spot);
    assert(other =~= above.subrange(0, other.len() as int)) by {
        assert forall|i: int| 0 <= i < other.len() implies other[i] == above[i] by {
            assert(spot.subrange(0, other.len() as int)[i] == spot[i]);
        }
    }
    lemma_below_exactly(nodes, root, other, above);
    lemma_properly_below(nodes, root, above, spot);
}

proof fn lemma_properly_below(
    nodes: Seq<GroupTree>,
    root: Seq<usize>,
    upper: Seq<int>,
    lower: Seq<int>,
)
    requires
        arranged(nodes, root),
        at(nodes, upper) is Some,
        at(nodes, lower) is Some,
    ensures
        upper.is_prefix_of(lower) && upper.len() < lower.len() <==> (at(
            nodes,
            upper,
        )->0).address.is_prefix_of((at(nodes, lower)->0).address) && (at(
            nodes,
            upper,
        )->0).address.len() < (at(nodes, lower)->0).address.len(),
{
    let x = (at(nodes, upper)->0).address;
    let y = (at(nodes, lower)->0).address;
    lemma_below_exactly(nodes, root, upper, lower);
    lemma_below_exactly(nodes, root, lower, upper);
    if x.is_prefix_of(y) && x.len() == y.len() {
        assert(y.subrange(0, y.len() as int) =~= y);
    }
    if upper.is_prefix_of(lower) && upper.len() == lower.len() {
        assert(lower.subrange(0, lower.len() as int) =~= lower);
    }
}

/// Of two nodes that `get_group` lists, one stands below the other exactly where
/// its address goes on from the other's, and of two nodes directly below one the
/// one with the earlier address stands first.
pub proof fn lemma_listed_below_exactly(
    nodes: Seq<WatchTree>,
    deep: int,
    parent: Seq<usize>,
    upper: Seq<int>,
    lower: Seq<int>,
)
    requires
        nodes.len() <= usize::MAX,
        forall|i: int| 0 <= i < nodes.len() ==> laws::countable(#[trigger] nodes[i]),
        at(group::group_list(nodes, deep, parent), upper) is Some,
        at(group::group_list(nodes, deep, parent), lower) is Some,
    ensures
        ({
            let x = (at(group::group_list(nodes, deep, parent), upper)->0).address;
            let y = (at(group::group_list(nodes, deep, parent), lower)->0).address;
            &&& upper.is_prefix_of(lower) && upper.len() < lower.len() <==> x.is_prefix_of(y)
                && x.len() < y.len()
            &&& upper.len() == lower.len() && upper.drop_last() == lower.drop_last()
                && upper.last() < lower.last() ==> before(x, y)
        }),
{
    let list = group::group_list(nodes, deep, parent);
    lemma_listed_arranged(nodes, deep, parent);
    lemma_below_exactly(list, parent, upper, lower);
    lemma_properly_below(list, parent, upper, lower);
}

proof fn lemma_outputs_arranged(node: GroupTree, root: Seq<usize>)
    requires
        arranged(node.childs, root),
    ensures
        arranged(group::with_outputs(node).childs, root),
    decreases node, 0nat,
{
    if group::closed_group(node) {
        lemma_after_outputs_arranged(node.childs, root);
    } else {
        lemma_all_outputs_arranged(node.childs, root);
    }
}

proof fn lemma_all_outputs_arranged(nodes: Seq<GroupTree>, root: Seq<usize>)
    requires
        arranged(nodes, root),
    ensures
        arranged(group::all_with_outputs(nodes), root),
    decreases nodes, 1nat,
{
    let all = group::all_with_outputs(nodes);
    assert forall|i: int| 0 <= i < all.len() implies root.len() < (
    #[trigger] all[i]).address.len() && root.is_prefix_of(all[i].address) && arranged(
        all[i].childs,
        all[i].address,
    ) by {
        assert(nodes[i].address == all[i].address);
        lemma_outputs_arranged(nodes[i], nodes[i].address);
    }
    assert forall|i: int, j: int|
        #![trigger all[i], all[j]]
        0 <= i < j < all.len() implies before(all[i].address, all[j].address) by {
        assert(before(nodes[i].address, nodes[j].address));
    }
}

proof fn lemma_after_outputs_arranged(outputs: Seq<GroupTree>, root: Seq<usize>)
    requires
        arranged(outputs, root),
    ensures
        arranged(group::after_outputs(outputs), root),
        forall|i: int|
            0 <= i < group::after_outputs(outputs).len() ==> exists|k: int|
                0 <= k < outputs.len() && (#[trigger] outputs[k]).address.is_prefix_of(
                    (#[trigger] group::after_outputs(outputs)[i]).address,
                ),
    decreases outputs, 1nat,
{
    let all = group::after_outputs(outputs);
    if outputs.len() > 0 {
        let fewer = outputs.drop_last();
        let last = outputs[outputs.len() - 1];
        let first = group::after_outputs(fewer);
        let rest = group::all_with_outputs(last.childs);
        assert(all == first + rest);
        assert forall|i: int| 0 <= i < fewer.len() implies root.len() < (
        #[trigger] fewer[i]).address.len() && root.is_prefix_of(fewer[i].address) && arranged(
            fewer[i].childs,
            fewer[i].address,
        ) by {
            assert(fewer[i] == outputs[i]);
        }
        assert forall|i: int, j: int|
            #![trigger fewer[i], fewer[j]]
            0 <= i < j < fewer.len() implies before(fewer[i].address, fewer[j].address) by {
            assert(before(outputs[i].address, outputs[j].address));
        }
        lemma_after_outputs_arranged(fewer, root);
        lemma_all_outputs_arranged(last.childs, last.address);
        assert forall|i: int| 0 <= i < all.len() implies root.len() < (
        #[trigger] all[i]).address.len() && root.is_prefix_of(all[i].address) && arranged(
            all[i].childs,
            all[i].address,
        ) && exists|k: int|
            0 <= k < outputs.len() && (#[trigger] outputs[k]).address.is_prefix_of(
                all[i].address,
            ) by {
            if i < first.len() {
                assert(all[i] == first[i]);
                let k = choose|k: int|
                    0 <= k < fewer.len() && (#[trigger] fewer[k]).address.is_prefix_of(
                        first[i].address,
                    );
                assert(outputs[k] == fewer[k]);
            } else {
                assert(all[i] == rest[i - first.len()]);
                lemma_prefix_chain(root, last.address, all[i].address);
                assert(outputs[outputs.len() - 1].address.is_prefix_of(all[i].address));
            }
        }
        assert forall|i: int, j: int|
            #![trigger all[i], all[j]]
            0 <= i < j < all.len() implies before(all[i].address, all[j].address) by {
            if j < first.len() {
                assert(all[i] == first[i]);
                assert(all[j] == first[j]);
            } else if i >= first.len() {
                assert(all[i] == rest[i - first.len()]);
                assert(all[j] == rest[j - first.len()]);
            } else {
                assert(all[i] == first[i]);
                assert(all[j] == rest[j - first.len()]);
                let k = choose|k: int|
                    0 <= k < fewer.len() && (#[trigger] fewer[k]).address.is_prefix_of(
                        first[i].address,
                    );
                assert(outputs[k] == fewer[k]);
                lemma_before_continued(
                    outputs[k].address,
                    last.address,
                    all[i].address,
                    all[j].address,
                );
            }
        }
    }
}

/// Whether no node of a list, and none below them, carries anything beyond itself.
pub open spec fn all_bare(nodes: Seq<GroupTree>) -> bool
    decreases nodes,
{
    forall|i: int|
        0 <= i < nodes.len() ==> (#[trigger] nodes[i]).extra is Empty && all_bare(nodes[i].childs)
}

/// What is listed carries nothing beyond itself yet.
pub proof fn lemma_listed_bare(nodes: Seq<WatchTree>, deep: int, parent: Seq<usize>)
    ensures
        all_bare(group::group_list(nodes, deep, parent)),
    decreases nodes,
{
    if nodes.len() > 0 {
        let node = nodes.last();
        let place = parent.push((nodes.len() - 1) as usize);
        let inner = group::below(node.kind, deep);
        let first = group::group_list(nodes.drop_last(), deep, parent);
        let rest = group::group_list(node.childs, inner, place);
        let last = group::group_of(node, deep, place);
        let list = group::group_list(nodes, deep, parent);
        lemma_listed_bare(nodes.drop_last(), deep, parent);
        lemma_listed_bare(node.childs, inner, place);
        assert(list == first + last);
        assert forall|i: int| 0 <= i < list.len() implies (#[trigger] list[i]).extra is Empty
            && all_bare(list[i].childs) by {
            if i < first.len() {
                assert(list[i] == first[i]);
            } else {
                assert(list[i] == last[i - first.len()]);
            }
        }
    }
}

/// The group that is watched begins with the node at its address, which keeps
/// its kind, state and comment and shows its name in upper case. Below it stand
/// exactly the nodes that no group is counted at or below, each once, arranged
/// as the tree is, and each for the node at its address.
pub proof fn lemma_opened_group(state: AppState)
    requires
        laws::countable(state.tree),
        tree::descend(state.tree, state.watching) is Some,
    ensures
        ({
            let opened = state::opened_group(state);
            let parent = tree::descend(state.tree, state.watching)->0;
            &&& opened.content.kind == parent.kind
            &&& opened.content.state == parent.state
            &&& opened.content.comment == parent.comment
            &&& opened.content.name == text::uppercase(parent.name)
            &&& opened.content.childs.len() == 0
            &&& opened.extra is GroupBegin
            &&& opened.address.len() == 0
            &&& arranged(opened.childs, state.watching)
            &&& laws::each_once(opened.childs)
            &&& laws::all_stand_for(state.tree, opened.childs)
            &&& all_bare(opened.childs)
            &&& forall|way: Seq<usize>|
                #[trigger] laws::mentions(opened.childs, state.watching + way) == laws::shown_at(
                    parent,
                    0,
                    way,
                )
        }),
{
    let opened = state::opened_group(state);
    let parent = tree::descend(state.tree, state.watching)->0;
    laws::lemma_countable_below(state.tree, state.watching);
    lemma_listed_arranged(parent.childs, 0, state.watching);
    laws::lemma_listed_once(parent.childs, 0, state.watching);
    assert(parent.childs.take(parent.childs.len() as int) =~= parent.childs);
    laws::lemma_listed_stand_for(
        state.tree,
        parent,
        parent.childs.len(),
        0,
        state.watching,
    );
    lemma_listed_bare(parent.childs, 0, state.watching);
    assert forall|way: Seq<usize>|
        #[trigger] laws::mentions(opened.childs, state.watching + way) == laws::shown_at(
            parent,
            0,
            way,
        ) by {
        laws::lemma_shown_exactly(parent, 0, state.watching, way);
    }
}

/// What is shown of the watched group is arranged as the tree is.
pub proof fn lemma_shown_arranged(state: AppState)
    requires
        laws::countable(state.tree),
        tree::descend(state.tree, state.watching) is Some,
    ensures
        arranged(group::with_outputs(state::opened_group(state)).childs, state.watching),
{
    lemma_opened_group(state);
    lemma_outputs_arranged(state::opened_group(state), state.watching);
}

proof fn lemma_after_outputs_flat(outputs: Seq<GroupTree>)
    ensures
        group::after_outputs(outputs) == outputs.map_values(
            |output: GroupTree| output.childs,
        ).flatten().map_values(|node: GroupTree| group::with_outputs(node)),
    decreases outputs.len(),
{
    let below = outputs.map_values(|output: GroupTree| output.childs);
    below.lemma_flatten_and_flatten_alt_are_equivalent();
    if outputs.len() > 0 {
        let fewer = outputs.drop_last();
        let fewer_below = fewer.map_values(|output: GroupTree| output.childs);
        fewer_below.lemma_flatten_and_flatten_alt_are_equivalent();
        lemma_after_outputs_flat(fewer);
        assert(below.drop_last() =~= fewer_below);
        assert(below.last() == outputs.last().childs);
        let first = fewer_below.flatten();
        let last = outputs.last().childs;
        assert(below.flatten() == first + last);
        let all = below.flatten().map_values(|node: GroupTree| group::with_outputs(node));
        assert(all =~= group::after_outputs(fewer) + group::all_with_outputs(last));
    } else {
        assert(below.flatten() =~= Seq::<GroupTree>::empty());
        assert(below.flatten().map_values(|node: GroupTree| group::with_outputs(node))
            =~= Seq::<GroupTree>::empty());
    }
}

/// A group other than the watched one takes the names of the outputs below it,
/// each its own and in their order, and what follows them, output after output.
/// Any other node stays as it is, with the same done to those below it.
pub proof fn lemma_outputs_taken_in(node: GroupTree)
    ensures
        ({
            let shown = group::with_outputs(node);
            &&& shown.content == node.content
            &&& shown.address == node.address
            &&& if node.content.kind is GroupIn && node.extra !is GroupBegin {
                &&& shown.extra matches Extra::GroupNode(names)
                &&& names.len() == node.childs.len()
                &&& forall|i: int|
                    0 <= i < names.len() ==> ((
                    #[trigger] node.childs[i]).content.kind matches Kind::GroupOut(name)
                        ==> names[i] == name)
                &&& shown.childs == node.childs.map_values(
                    |output: GroupTree| output.childs,
                ).flatten().map_values(|below: GroupTree| group::with_outputs(below))
            } else {
                &&& shown.extra == node.extra
                &&& shown.childs == node.childs.map_values(
                    |below: GroupTree| group::with_outputs(below),
                )
            }
        }),
{
    let shown = group::with_outputs(node);
    if group::closed_group(node) {
        lemma_after_outputs_flat(node.childs);
        assert(shown.childs =~= node.childs.map_values(
            |output: GroupTree| output.childs,
        ).flatten().map_values(|below: GroupTree| group::with_outputs(below)));
    } else {
        assert(shown.childs =~= node.childs.map_values(
            |below: GroupTree| group::with_outputs(below),
        ));
    }
}

/// Whether a shown node is the watched group, no group, or has only outputs
/// directly below it.
pub open spec fn only_outputs_below(node: GroupTree) -> bool {
    node.content.kind is GroupIn && node.extra !is GroupBegin ==> forall|i: int|
        0 <= i < node.childs.len() ==> (#[trigger] node.childs[i]).content.kind is GroupOut
}

proof fn lemma_known_below(node: GroupTree)
    requires
        group::outputs_known(node),
    ensures
        only_outputs_below(node),
        group::all_outputs_known(node.childs),
{
    if group::closed_group(node) {
        assert forall|i: int| 0 <= i < node.childs.len() implies group::outputs_known(
            #[trigger] node.childs[i],
        ) by {
            assert(node.childs[i].content.kind is GroupOut);
        }
    }
}

proof fn lemma_known_at(nodes: Seq<GroupTree>, spot: Seq<int>)
    requires
        group::all_outputs_known(nodes),
        at(nodes, spot) is Some,
    ensures
        only_outputs_below(at(nodes, spot)->0),
    decreases spot.len(),
{
    lemma_known_below(nodes[spot[0]]);
    if spot.len() > 1 {
        lemma_known_at(nodes[spot[0]].childs, spot.drop_first());
    }
}

/// The outputs of listed trees are known exactly where all that stands directly
/// below each group but the watched one are outputs.
pub proof fn lemma_known_exactly(nodes: Seq<GroupTree>)
    ensures
        group::all_outputs_known(nodes) <==> forall|spot: Seq<int>|
            (#[trigger] at(nodes, spot)) is Some ==> only_outputs_below(at(nodes, spot)->0),
    decreases nodes,
{
    if group::all_outputs_known(nodes) {
        assert forall|spot: Seq<int>|
            (#[trigger] at(nodes, spot)) is Some implies only_outputs_below(
            at(nodes, spot)->0,
        ) by {
            lemma_known_at(nodes, spot);
        }
    }
    if forall|spot: Seq<int>|
        (#[trigger] at(nodes, spot)) is Some ==> only_outputs_below(at(nodes, spot)->0) {
        assert forall|i: int| 0 <= i < nodes.len() implies group::outputs_known(
            #[trigger] nodes[i],
        ) by {
            let node = nodes[i];
            assert(at(nodes, seq![i]) == Some(node));
            assert(only_outputs_below(node));
            assert forall|spot: Seq<int>|
                (#[trigger] at(node.childs, spot)) is Some implies only_outputs_below(
                at(node.childs, spot)->0,
            ) by {
                let longer = seq![i] + spot;
                assert(longer.drop_first() =~= spot);
                assert(at(nodes, longer) == at(node.childs, spot));
            }
            lemma_known_exactly(node.childs);
            if group::closed_group(node) {
                assert forall|k: int| 0 <= k < node.childs.len() implies (
                #[trigger] node.childs[k]).content.kind is GroupOut && group::all_outputs_known(
                    node.childs[k].childs,
                ) by {
                    lemma_known_below(node.childs[k]);
                }
            }
        }
    }
}

/// The outputs of a tree are known exactly where all that stands directly below
/// each of its groups but the watched one are outputs.
pub proof fn lemma_tree_known_exactly(node: GroupTree)
    ensures
        group::outputs_known(node) <==> only_outputs_below(node) && forall|spot: Seq<int>|
            (#[trigger] at(node.childs, spot)) is Some ==> only_outputs_below(
                at(node.childs, spot)->0,
            ),
{
    lemma_known_exactly(node.childs);
    if group::outputs_known(node) {
        lemma_known_below(node);
    }
    if only_outputs_below(node) && group::all_outputs_known(node.childs) {
        assert forall|k: int| 0 <= k < node.childs.len() implies group::all_outputs_known(
            (#[trigger] node.childs[k]).childs,
        ) by {
            lemma_known_below(node.childs[k]);
        }
    }
}

/// The watched group is refused for an unknown output exactly where one of the
/// groups within it has a node other than an output directly below it.
pub proof fn lemma_refused_exactly(state: AppState)
    ensures
        group::outputs_known(state::opened_group(state)) <==> forall|spot: Seq<int>|
            (#[trigger] at(state::opened_group(state).childs, spot)) is Some
                ==> only_outputs_below(at(state::opened_group(state).childs, spot)->0),
{
    lemma_tree_known_exactly(state::opened_group(state));
}

/// The count of groups fits exactly where it is in the range of `i32` at every
/// node below the parent.
pub proof fn lemma_count_fits_exactly(parent: WatchTree, deep: int)
    requires
        laws::countable(parent),
    ensures
        group::count_fits(parent.childs, deep) <==> forall|way: Seq<usize>|
            way.len() > 0 && tree::descend(parent, way) is Some ==> i32::MIN
                <= #[trigger] laws::deep_below(parent, deep, way) <= i32::MAX,
    decreases parent,
{
    if group::count_fits(parent.childs, deep) {
        assert forall|way: Seq<usize>|
            way.len() > 0 && tree::descend(parent, way) is Some implies i32::MIN
            <= #[trigger] laws::deep_below(parent, deep, way) <= i32::MAX by {
            lemma_count_on_way(parent, deep, way);
        }
    }
    if forall|way: Seq<usize>|
        way.len() > 0 && tree::descend(parent, way) is Some ==> i32::MIN
            <= #[trigger] laws::deep_below(parent, deep, way) <= i32::MAX {
        assert forall|i: int| 0 <= i < parent.childs.len() implies i32::MIN <= group::below(
            (#[trigger] parent.childs[i]).kind,
            deep,
        ) <= i32::MAX && group::count_fits(
            parent.childs[i].childs,
            group::below(parent.childs[i].kind, deep),
        ) by {
            let child = parent.childs[i];
            let inner = group::below(child.kind, deep);
            let step = seq![i as usize];
            assert(step.drop_first() =~= Seq::<usize>::empty());
            laws::lemma_first_step(parent, deep, step);
            assert(laws::deep_below(parent, deep, step) == inner);
            assert(laws::countable(child));
            assert forall|way: Seq<usize>|
                way.len() > 0 && tree::descend(child, way) is Some implies i32::MIN
                <= #[trigger] laws::deep_below(child, inner, way) <= i32::MAX by {
                let longer = step + way;
                assert(longer.drop_first() =~= way);
                laws::lemma_first_step(parent, deep, longer);
                assert(i32::MIN <= laws::deep_below(parent, deep, longer) <= i32::MAX);
            }
            lemma_count_fits_exactly(child, inner);
        }
    }
}

proof fn lemma_count_on_way(parent: WatchTree, deep: int, way: Seq<usize>)
    requires
        group::count_fits(parent.childs, deep),
        way.len() > 0,
        tree::descend(parent, way) is Some,
    ensures
        i32::MIN <= laws::deep_below(parent, deep, way) <= i32::MAX,
    decreases way.len(),
{
    laws::lemma_first_step(parent, deep, way);
    let child = parent.childs[way[0] as int];
    let inner = group::below(child.kind, deep);
    if way.len() > 1 {
        lemma_count_on_way(child, inner, way.drop_first());
    } else {
        assert(way.drop_first() =~= Seq::<usize>::empty());
    }
}

proof fn lemma_highest(nodes: Seq<GroupTree>)
    requires
        nodes.len() > 0,
    ensures
        exists|i: int|
            0 <= i < nodes.len() && group::levels(#[trigger] nodes[i]) == group::most_levels(nodes),
    decreases nodes.len(),
{
    let fewer = nodes.drop_last();
    let last = nodes.len() - 1;
    if fewer.len() == 0 {
        assert(group::most_levels(fewer) == 0);
    }
    if group::levels(nodes[last]) != group::most_levels(nodes) {
        lemma_highest(fewer);
        let i = choose|i: int|
            0 <= i < fewer.len() && group::levels(#[trigger] fewer[i]) == group::most_levels(fewer);
        assert(nodes[i] == fewer[i]);
    }
}

/// A node alone is 60 points high. With nodes below it, it is 80 points higher
/// than the highest of these.
pub proof fn lemma_height_by_highest(node: GroupTree)
    ensures
        node.childs.len() == 0 ==> group::height(node) == 60,
        forall|i: int|
            0 <= i < node.childs.len() ==> group::height(node) >= 80 + group::height(
                #[trigger] node.childs[i],
            ),
        node.childs.len() > 0 ==> exists|i: int|
            0 <= i < node.childs.len() && group::height(node) == 80 + group::height(
                #[trigger] node.childs[i],
            ),
{
    assert forall|i: int| 0 <= i < node.childs.len() implies group::height(node) >= 80
        + group::height(#[trigger] node.childs[i]) by {
        group::lemma_most_levels(node.childs, i);
    }
    if node.childs.len() > 0 {
        lemma_highest(node.childs);
        let i = choose|i: int|
            0 <= i < node.childs.len() && group::levels(#[trigger] node.childs[i])
                == group::most_levels(node.childs);
        assert(group::height(node) == 80 + group::height(node.childs[i]));
    }
}

} // verus!
