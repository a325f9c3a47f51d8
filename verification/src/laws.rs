//! What holds of the visualizer as a whole.

use vstd::prelude::*;

use crate::group;
use crate::group::Extra;
use crate::group::GroupTree;
use crate::shape;
use crate::state;
use crate::state::AppState;
use crate::text;
use crate::tree;
use crate::tree::Kind;
use crate::tree::WatchContent;
use crate::tree::WatchTree;

verus! {

/// The line of joined items begins with the line of the first of them, and
/// `chars_after` counts what follows.
pub(crate) proof fn lemma_joined_begins(items: Seq<Seq<char>>, separator: Seq<char>, i: int)
    requires
        0 <= i < items.len(),
    ensures
        ({
            let line = text::joined(items, separator);
            let begin = text::joined(items.take(i + 1), separator);
            &&& line.len() == begin.len() + shape::chars_after(items, separator, i)
            &&& line.take(begin.len() as int) == begin
        }),
    decreases items.len() - i,
{
    let line = text::joined(items, separator);
    let begin = text::joined(items.take(i + 1), separator);
    if i == items.len() - 1 {
        assert(items.take(i + 1) =~= items);
        assert(line.take(begin.len() as int) =~= begin);
    } else {
        lemma_joined_begins(items, separator, i + 1);
        let longer = items.take(i + 2);
        let next = text::joined(longer, separator);
        assert(longer.drop_last() =~= items.take(i + 1));
        assert(longer.last() == items[i + 1]);
        assert(next == begin + separator + items[i + 1]);
        assert(line.take(begin.len() as int) =~= line.take(next.len() as int).take(
            begin.len() as int,
        ));
        assert(next.take(begin.len() as int) =~= begin);
    }
}

/// Each output's edge begins under the name of that output: where the line of
/// the names has a glyph for each character, the span of an output holds
/// exactly its name.
pub proof fn lemma_span_holds_name(names: Seq<Seq<char>>, separator: Seq<char>, i: int)
    requires
        0 <= i < names.len(),
    ensures
        ({
            let line = text::joined(names, separator);
            let after = shape::chars_after(names, separator, i);
            let right = shape::from_end(line.len(), after);
            let left = shape::from_end(line.len(), after + names[i].len());
            &&& left <= right <= line.len()
            &&& line.subrange(left as int, right as int) == names[i]
        }),
{
    let line = text::joined(names, separator);
    let begin = text::joined(names.take(i + 1), separator);
    lemma_joined_begins(names, separator, i);
    assert(names.take(i + 1).last() == names[i]);
    let left = begin.len() - names[i].len();
    assert(begin.subrange(left, begin.len() as int) =~= names[i]);
    assert(line.subrange(left, begin.len() as int) =~= line.take(begin.len() as int).subrange(
        left,
        begin.len() as int,
    ));
}

/// Whether each node of a tree has so few children that an address can count
/// them, which holds of every tree that is in memory.
pub open spec fn countable(tree: WatchTree) -> bool
    decreases tree,
{
    &&& tree.childs.len() <= usize::MAX
    &&& forall|i: int| 0 <= i < tree.childs.len() ==> countable(#[trigger] tree.childs[i])
}

/// The children of the nodes of a tree in memory can be counted.
pub proof fn lemma_countable(node: WatchContent)
    ensures
        countable(node@),
    decreases node,
{
    assert(node@.childs.len() == node.childs.len());
    assert forall|i: int| 0 <= i < node@.childs.len() implies countable(
        #[trigger] node@.childs[i],
    ) by {
        lemma_countable(node.childs@[i]);
    }
}

/// The nodes of a tree whose children can be counted have children that can.
pub(crate) proof fn lemma_countable_below(root: WatchTree, address: Seq<usize>)
    requires
        countable(root),
        tree::descend(root, address) is Some,
    ensures
        countable(tree::descend(root, address)->0),
    decreases address.len(),
{
    if address.len() > 0 {
        lemma_countable_below(root, address.drop_last());
    }
}

/// Whether a shown node stands for the node of the tree at its address: it
/// shows that node's kind, state and comment, and its name in upper case.
pub open spec fn stands_for(root: WatchTree, node: GroupTree) -> bool {
    match tree::descend(root, node.address) {
        Some(origin) => {
            &&& node.content.kind == origin.kind
            &&& node.content.state == origin.state
            &&& node.content.comment == origin.comment
            &&& node.content.name == text::uppercase(origin.name)
            &&& node.content.childs.len() == 0
        },
        None => false,
    }
}

/// Whether all shown nodes of a list, and those below them, stand for the nodes
/// of the tree at their addresses.
pub open spec fn all_stand_for(root: WatchTree, nodes: Seq<GroupTree>) -> bool
    decreases nodes,
{
    forall|i: int|
        0 <= i < nodes.len() ==> {
            &&& stands_for(root, #[trigger] nodes[i])
            &&& all_stand_for(root, nodes[i].childs)
        }
}

/// What is listed of the nodes below one of the tree stands for them.
pub proof fn lemma_listed_stand_for(
    root: WatchTree,
    parent: WatchTree,
    count: nat,
    deep: int,
    address: Seq<usize>,
)
    requires
        tree::descend(root, address) == Some(parent),
        countable(parent),
        count <= parent.childs.len(),
    ensures
        all_stand_for(root, group::group_list(parent.childs.take(count as int), deep, address)),
    decreases parent, count,
{
    let nodes = parent.childs.take(count as int);
    if count > 0 {
        let node = nodes.last();
        let place = address.push((count - 1) as usize);
        assert(node == parent.childs[count - 1]);
        assert(place.drop_last() =~= address);
        assert(nodes.drop_last() =~= parent.childs.take(count - 1));
        assert(node.childs.take(node.childs.len() as int) =~= node.childs);
        lemma_listed_stand_for(root, parent, (count - 1) as nat, deep, address);
        lemma_listed_stand_for(
            root,
            node,
            node.childs.len(),
            group::below(node.kind, deep),
            place,
        );
        let first = group::group_list(nodes.drop_last(), deep, address);
        let last = group::group_of(node, deep, place);
        let all = group::group_list(nodes, deep, address);
        assert(all == first + last);
        assert forall|i: int| 0 <= i < all.len() implies stands_for(root, #[trigger] all[i])
            && all_stand_for(root, all[i].childs) by {
            if i < first.len() {
                assert(all[i] == first[i]);
            } else {
                assert(all[i] == last[i - first.len()]);
            }
        }
    }
}

proof fn lemma_outputs_stand_for(root: WatchTree, node: GroupTree)
    requires
        all_stand_for(root, node.childs),
    ensures
        all_stand_for(root, group::with_outputs(node).childs),
    decreases node, 0nat,
{
    if group::closed_group(node) {
        lemma_after_outputs_stand_for(root, node.childs);
    } else {
        lemma_all_outputs_stand_for(root, node.childs);
    }
}

proof fn lemma_all_outputs_stand_for(root: WatchTree, nodes: Seq<GroupTree>)
    requires
        all_stand_for(root, nodes),
    ensures
        all_stand_for(root, group::all_with_outputs(nodes)),
    decreases nodes, 1nat,
{
    let all = group::all_with_outputs(nodes);
    assert forall|i: int| 0 <= i < all.len() implies stands_for(root, #[trigger] all[i])
        && all_stand_for(root, all[i].childs) by {
        assert(stands_for(root, nodes[i]));
        lemma_outputs_stand_for(root, nodes[i]);
    }
}

proof fn lemma_after_outputs_stand_for(root: WatchTree, outputs: Seq<GroupTree>)
    requires
        all_stand_for(root, outputs),
    ensures
        all_stand_for(root, group::after_outputs(outputs)),
    decreases outputs, 1nat,
{
    if outputs.len() > 0 {
        let first = group::after_outputs(outputs.drop_last());
        let rest = group::all_with_outputs(outputs.last().childs);
        assert forall|i: int| 0 <= i < outputs.drop_last().len() implies stands_for(
            root,
            #[trigger] outputs.drop_last()[i],
        ) && all_stand_for(root, outputs.drop_last()[i].childs) by {
            assert(outputs.drop_last()[i] == outputs[i]);
        }
        assert(stands_for(root, outputs[outputs.len() - 1]));
        lemma_after_outputs_stand_for(root, outputs.drop_last());
        lemma_all_outputs_stand_for(root, outputs.last().childs);
        let all = group::after_outputs(outputs);
        assert(all == first + rest);
        assert forall|i: int| 0 <= i < all.len() implies stands_for(root, #[trigger] all[i])
            && all_stand_for(root, all[i].childs) by {
            if i < first.len() {
                assert(all[i] == first[i]);
            } else {
                assert(all[i] == rest[i - first.len()]);
            }
        }
    }
}

/// Every node that is shown below the one at which the watched group begins
/// stands for the node of the tree at its address.
pub proof fn lemma_shown_nodes_stand_for(state: AppState)
    requires
        countable(state.tree),
    ensures
        ({
            let settled = state::settled(state);
            let shown = group::with_outputs(state::opened_group(settled));
            all_stand_for(state.tree, shown.childs)
        }),
{
    let settled = state::settled(state);
    state::lemma_settled(state);
    let parent = tree::descend(state.tree, settled.watching)->0;
    lemma_countable_below(state.tree, settled.watching);
    assert(parent.childs.take(parent.childs.len() as int) =~= parent.childs);
    lemma_listed_stand_for(state.tree, parent, parent.childs.len(), 0, settled.watching);
    lemma_outputs_stand_for(state.tree, state::opened_group(settled));
}

/// Whether a node with an address is in a list of shown nodes, or below one of them.
pub open spec fn mentions(nodes: Seq<GroupTree>, address: Seq<usize>) -> bool
    decreases nodes,
{
    exists|i: int|
        0 <= i < nodes.len() && ((#[trigger] nodes[i]).address == address || mentions(
            nodes[i].childs,
            address,
        ))
}

/// How a node changes the count of groups: one that is entered counts down, one
/// that is left counts up.
pub open spec fn crossing(kind: Kind) -> int {
    if kind is GroupOut {
        1
    } else if kind is GroupIn {
        -1
    } else {
        0
    }
}

/// How many groups deep what is below the node at `way` from `parent` stands,
/// where what is below `parent` stands `deep` groups deep.
pub open spec fn deep_below(parent: WatchTree, deep: int, way: Seq<usize>) -> int
    decreases way.len(),
{
    if way.len() == 0 {
        deep
    } else {
        deep_below(parent, deep, way.drop_last()) + crossing(tree::descend(parent, way)->0.kind)
    }
}

/// Whether there is a node at `way` below `parent` that stands in the watched
/// group, no group counted on the way to it, or below which the watched group
/// goes on.
pub open spec fn shown_at(parent: WatchTree, deep: int, way: Seq<usize>) -> bool {
    &&& way.len() > 0
    &&& tree::descend(parent, way) is Some
    &&& deep_below(parent, deep, way.drop_last()) == 0 || deep_below(parent, deep, way) == 0
}

pub(crate) proof fn lemma_first_step(parent: WatchTree, deep: int, way: Seq<usize>)
    requires
        way.len() > 0,
    ensures
        way[0] >= parent.childs.len() ==> tree::descend(parent, way) is None,
        way[0] < parent.childs.len() ==> {
            let child = parent.childs[way[0] as int];
            &&& tree::descend(parent, way) == tree::descend(child, way.drop_first())
            &&& tree::descend(parent, way) is Some ==> deep_below(parent, deep, way) == deep_below(
                child,
                group::below(child.kind, deep),
                way.drop_first(),
            )
        },
    decreases way.len(),
{
    let before = way.drop_last();
    if way.len() == 1 {
        assert(before =~= Seq::<usize>::empty());
        assert(way.drop_first() =~= Seq::<usize>::empty());
        reveal_with_fuel(tree::descend, 2);
        reveal_with_fuel(deep_below, 2);
    } else {
        lemma_first_step(parent, deep, before);
        assert(way.drop_first().drop_last() =~= before.drop_first());
        assert(way.drop_first().last() == way.last());
    }
}

proof fn lemma_mentions_either(first: Seq<GroupTree>, last: Seq<GroupTree>, address: Seq<usize>)
    ensures
        mentions(first + last, address) == (mentions(first, address) || mentions(last, address)),
{
    let all = first + last;
    if mentions(first, address) {
        let i = choose|i: int|
            0 <= i < first.len() && ((#[trigger] first[i]).address == address || mentions(
                first[i].childs,
                address,
            ));
        assert(all[i] == first[i]);
    }
    if mentions(last, address) {
        let i = choose|i: int|
            0 <= i < last.len() && ((#[trigger] last[i]).address == address || mentions(
                last[i].childs,
                address,
            ));
        assert(all[first.len() + i] == last[i]);
    }
    if mentions(all, address) {
        let i = choose|i: int|
            0 <= i < all.len() && ((#[trigger] all[i]).address == address || mentions(
                all[i].childs,
                address,
            ));
        if i < first.len() {
            assert(all[i] == first[i]);
        } else {
            assert(all[i] == last[i - first.len()]);
        }
    }
}

/// The addresses below a node continue the address of the node.
proof fn lemma_addresses_continue(
    nodes: Seq<WatchTree>,
    deep: int,
    parent: Seq<usize>,
    address: Seq<usize>,
)
    requires
        mentions(group::group_list(nodes, deep, parent), address),
        nodes.len() <= usize::MAX,
        forall|i: int| 0 <= i < nodes.len() ==> countable(#[trigger] nodes[i]),
    ensures
        address.len() > parent.len(),
        address.take(parent.len() as int) == parent,
        address[parent.len() as int] < nodes.len(),
        mentions(
            group::group_of(
                nodes[address[parent.len() as int] as int],
                deep,
                parent.push(address[parent.len() as int]),
            ),
            address,
        ),
    decreases nodes,
{
    if nodes.len() > 0 {
        let node = nodes.last();
        let place = parent.push((nodes.len() - 1) as usize);
        let first = group::group_list(nodes.drop_last(), deep, parent);
        let last = group::group_of(node, deep, place);
        lemma_mentions_either(first, last, address);
        if mentions(first, address) {
            assert forall|i: int| 0 <= i < nodes.drop_last().len() implies countable(
                #[trigger] nodes.drop_last()[i],
            ) by {
                assert(nodes.drop_last()[i] == nodes[i]);
            }
            lemma_addresses_continue(nodes.drop_last(), deep, parent, address);
        } else {
            assert(countable(nodes[nodes.len() - 1]));
            let rest = group::group_list(node.childs, group::below(node.kind, deep), place);
            if address != place {
                if group::shown(node.kind, deep) {
                    assert(last.len() == 1);
                }
                assert(mentions(rest, address));
                lemma_addresses_continue(
                    node.childs,
                    group::below(node.kind, deep),
                    place,
                    address,
                );
                assert(address.take(place.len() as int)[parent.len() as int]
                    == nodes.len() - 1);
                assert(address.take(place.len() as int).take(parent.len() as int) =~= parent);
                assert(address.take(parent.len() as int) =~= address.take(place.len() as int).take(
                    parent.len() as int,
                ));
            } else {
                assert(address.take(parent.len() as int) =~= parent);
            }
        }
    }
}

/// What is mentioned of one node is mentioned of the list that holds it.
proof fn lemma_mentioned_in_list(
    nodes: Seq<WatchTree>,
    deep: int,
    parent: Seq<usize>,
    address: Seq<usize>,
    i: int,
)
    requires
        0 <= i < nodes.len() <= usize::MAX,
        mentions(group::group_of(nodes[i], deep, parent.push(i as usize)), address),
    ensures
        mentions(group::group_list(nodes, deep, parent), address),
    decreases nodes.len(),
{
    let first = group::group_list(nodes.drop_last(), deep, parent);
    let last = group::group_of(nodes.last(), deep, parent.push((nodes.len() - 1) as usize));
    lemma_mentions_either(first, last, address);
    if i < nodes.len() - 1 {
        lemma_mentioned_in_list(nodes.drop_last(), deep, parent, address, i);
    }
}

/// What is listed of a group are exactly the nodes that stand in it or through
/// which it is entered again from a group within or around it, each under its
/// own address.
pub proof fn lemma_shown_exactly(
    parent: WatchTree,
    deep: int,
    address: Seq<usize>,
    way: Seq<usize>,
)
    requires
        countable(parent),
    ensures
        mentions(group::group_list(parent.childs, deep, address), address + way) == shown_at(
            parent,
            deep,
            way,
        ),
    decreases parent,
{
    let list = group::group_list(parent.childs, deep, address);
    let target = address + way;
    if way.len() == 0 {
        if mentions(list, target) {
            lemma_addresses_continue(parent.childs, deep, address, target);
        }
    } else {
        let step = way[0];
        let rest_way = way.drop_first();
        lemma_first_step(parent, deep, way);
        assert(target[address.len() as int] == step);
        if step >= parent.childs.len() {
            if mentions(list, target) {
                lemma_addresses_continue(parent.childs, deep, address, target);
            }
        } else {
            let child = parent.childs[step as int];
            let place = address.push(step);
            let inner = group::below(child.kind, deep);
            let one = group::group_of(child, deep, place);
            let rest = group::group_list(child.childs, inner, place);
            assert(target =~= place + rest_way);
            lemma_shown_exactly(child, inner, place, rest_way);
            if mentions(list, target) {
                lemma_addresses_continue(parent.childs, deep, address, target);
            }
            if mentions(one, target) {
                lemma_mentioned_in_list(parent.childs, deep, address, target, step as int);
            }
            assert(mentions(list, target) == mentions(one, target));
            if group::shown(child.kind, deep) {
                assert(one[0].address == place && one[0].childs == rest);
                assert(mentions(one, target) == (place == target || mentions(rest, target)));
            }
            if way.len() == 1 {
                assert(target =~= place);
                assert(way.drop_last() =~= Seq::<usize>::empty());
                assert(rest_way =~= Seq::<usize>::empty());
            } else {
                assert(target.len() > place.len());
                let before = way.drop_last();
                lemma_first_step(parent, deep, before);
                assert(before.drop_first() =~= rest_way.drop_last());
                if tree::descend(parent, way) is Some {
                    assert(tree::descend(parent, before) is Some);
                }
            }
        }
    }
}

/// Whether no address occurs twice in a list of shown nodes and below them.
pub open spec fn each_once(nodes: Seq<GroupTree>) -> bool
    decreases nodes,
{
    &&& forall|i: int, j: int, address: Seq<usize>|
        #![trigger mentions(seq![nodes[i]], address), mentions(seq![nodes[j]], address)]
        0 <= i < j < nodes.len() ==> !(mentions(seq![nodes[i]], address) && mentions(
            seq![nodes[j]],
            address,
        ))
    &&& forall|i: int|
        0 <= i < nodes.len() ==> {
            &&& !mentions((#[trigger] nodes[i]).childs, nodes[i].address)
            &&& each_once(nodes[i].childs)
        }
}

proof fn lemma_mentioned_by_one(nodes: Seq<GroupTree>, i: int, address: Seq<usize>)
    requires
        0 <= i < nodes.len(),
        mentions(seq![nodes[i]], address),
    ensures
        mentions(nodes, address),
{
    let one = seq![nodes[i]];
    let k = choose|k: int|
        0 <= k < one.len() && ((#[trigger] one[k]).address == address || mentions(
            one[k].childs,
            address,
        ));
    assert(one[k] == nodes[i]);
}

/// No node is listed twice.
pub proof fn lemma_listed_once(nodes: Seq<WatchTree>, deep: int, parent: Seq<usize>)
    requires
        nodes.len() <= usize::MAX,
        forall|i: int| 0 <= i < nodes.len() ==> countable(#[trigger] nodes[i]),
    ensures
        each_once(group::group_list(nodes, deep, parent)),
    decreases nodes,
{
    if nodes.len() > 0 {
        let node = nodes.last();
        let before = nodes.drop_last();
        let place = parent.push((nodes.len() - 1) as usize);
        let inner = group::below(node.kind, deep);
        let first = group::group_list(before, deep, parent);
        let rest = group::group_list(node.childs, inner, place);
        let last = group::group_of(node, deep, place);
        let list = group::group_list(nodes, deep, parent);
        assert(list == first + last);
        assert(countable(nodes[nodes.len() - 1]));
        assert forall|i: int| 0 <= i < before.len() implies countable(#[trigger] before[i]) by {
            assert(before[i] == nodes[i]);
        }
        lemma_listed_once(before, deep, parent);
        lemma_listed_once(node.childs, inner, place);
        assert forall|address: Seq<usize>| mentions(rest, address) implies address.len()
            > place.len() && address.take(place.len() as int) == place by {
            lemma_addresses_continue(node.childs, inner, place, address);
        }
        assert forall|i: int, j: int, address: Seq<usize>|
            #![trigger mentions(seq![list[i]], address), mentions(seq![list[j]], address)]
            0 <= i < j < list.len() implies !(mentions(seq![list[i]], address) && mentions(
            seq![list[j]],
            address,
        )) by {
            if mentions(seq![list[i]], address) && mentions(seq![list[j]], address) {
                if i >= first.len() {
                    assert(list[i] == last[i - first.len()]);
                    assert(list[j] == last[j - first.len()]);
                    if group::shown(node.kind, deep) {
                        assert(last.len() == 1);
                    } else {
                        assert(mentions(seq![rest[i - first.len()]], address));
                        assert(mentions(seq![rest[j - first.len()]], address));
                    }
                } else if j < first.len() {
                    assert(list[i] == first[i]);
                    assert(list[j] == first[j]);
                    assert(mentions(seq![first[i]], address));
                    assert(mentions(seq![first[j]], address));
                } else {
                    assert(list[i] == first[i]);
                    assert(list[j] == last[j - first.len()]);
                    lemma_mentioned_by_one(first, i, address);
                    lemma_addresses_continue(before, deep, parent, address);
                    assert(address[parent.len() as int] < nodes.len() - 1);
                    lemma_mentioned_by_one(last, j - first.len(), address);
                    if address != place {
                        if group::shown(node.kind, deep) {
                            let k = choose|k: int|
                                0 <= k < last.len() && ((#[trigger] last[k]).address == address
                                    || mentions(last[k].childs, address));
                            assert(mentions(rest, address));
                        }
                        assert(address.take(place.len() as int)[parent.len() as int]
                            == nodes.len() - 1);
                    } else {
                        assert(address[parent.len() as int] == nodes.len() - 1);
                    }
                }
            }
        }
        assert forall|i: int| 0 <= i < list.len() implies !mentions(
            (#[trigger] list[i]).childs,
            list[i].address,
        ) && each_once(list[i].childs) by {
            if i < first.len() {
                assert(list[i] == first[i]);
            } else {
                assert(list[i] == last[i - first.len()]);
            }
        }
    }
}

/// Whether a node with an address is an output directly below a closed group.
pub open spec fn absorbed(node: GroupTree, address: Seq<usize>) -> bool
    decreases node,
{
    if node.content.kind is GroupIn && node.extra !is GroupBegin {
        exists|i: int|
            0 <= i < node.childs.len() && ((#[trigger] node.childs[i]).address == address
                || any_absorbed(node.childs[i].childs, address))
    } else {
        any_absorbed(node.childs, address)
    }
}

/// Whether a node with an address is an output directly below a closed group of
/// a list of shown trees.
pub open spec fn any_absorbed(nodes: Seq<GroupTree>, address: Seq<usize>) -> bool
    decreases nodes,
{
    exists|i: int| 0 <= i < nodes.len() && absorbed(#[trigger] nodes[i], address)
}

/// The only nodes that a closed group takes in are its outputs: every other
/// shown node stays shown, and none is added.
pub proof fn lemma_only_outputs_absorbed(node: GroupTree, address: Seq<usize>)
    ensures
        mentions(node.childs, address) == (mentions(group::with_outputs(node).childs, address)
            || absorbed(node, address)),
    decreases node, 0nat,
{
    if group::closed_group(node) {
        lemma_after_outputs_absorbed(node.childs, address);
        let outputs = node.childs;
        if mentions(outputs, address) {
            let i = choose|i: int|
                0 <= i < outputs.len() && ((#[trigger] outputs[i]).address == address || mentions(
                    outputs[i].childs,
                    address,
                ));
            if outputs[i].address != address && !mentions(
                group::after_outputs(outputs),
                address,
            ) {
                assert(any_absorbed(outputs[i].childs, address));
            }
        }
        if absorbed(node, address) {
            let i = choose|i: int|
                0 <= i < outputs.len() && ((#[trigger] outputs[i]).address == address
                    || any_absorbed(outputs[i].childs, address));
            if outputs[i].address != address {
                lemma_list_absorbed(outputs[i].childs, address);
                assert(mentions(outputs[i].childs, address));
            }
            assert(mentions(outputs, address));
        }
    } else {
        lemma_list_absorbed(node.childs, address);
    }
}

proof fn lemma_list_absorbed(nodes: Seq<GroupTree>, address: Seq<usize>)
    ensures
        mentions(nodes, address) == (mentions(group::all_with_outputs(nodes), address)
            || any_absorbed(nodes, address)),
    decreases nodes, 1nat,
{
    let all = group::all_with_outputs(nodes);
    if mentions(nodes, address) {
        let i = choose|i: int|
            0 <= i < nodes.len() && ((#[trigger] nodes[i]).address == address || mentions(
                nodes[i].childs,
                address,
            ));
        lemma_only_outputs_absorbed(nodes[i], address);
        assert(all[i].address == nodes[i].address);
    }
    if mentions(all, address) {
        let i = choose|i: int|
            0 <= i < all.len() && ((#[trigger] all[i]).address == address || mentions(
                all[i].childs,
                address,
            ));
        lemma_only_outputs_absorbed(nodes[i], address);
        assert(nodes[i].address == all[i].address);
    }
    if any_absorbed(nodes, address) {
        let i = choose|i: int| 0 <= i < nodes.len() && absorbed(#[trigger] nodes[i], address);
        lemma_only_outputs_absorbed(nodes[i], address);
        assert(mentions(nodes[i].childs, address));
    }
}

proof fn lemma_after_outputs_absorbed(outputs: Seq<GroupTree>, address: Seq<usize>)
    ensures
        mentions(group::after_outputs(outputs), address) ==> mentions(outputs, address),
        forall|i: int|
            0 <= i < outputs.len() && mentions((#[trigger] outputs[i]).childs, address) ==> mentions(
                group::after_outputs(outputs),
                address,
            ) || any_absorbed(outputs[i].childs, address),
    decreases outputs, 1nat,
{
    if outputs.len() > 0 {
        let before = outputs.drop_last();
        let last = outputs[outputs.len() - 1];
        let first = group::after_outputs(before);
        let rest = group::all_with_outputs(last.childs);
        lemma_after_outputs_absorbed(before, address);
        lemma_list_absorbed(last.childs, address);
        lemma_mentions_either(first, rest, address);
        if mentions(before, address) {
            let i = choose|i: int|
                0 <= i < before.len() && ((#[trigger] before[i]).address == address || mentions(
                    before[i].childs,
                    address,
                ));
            assert(outputs[i] == before[i]);
            assert(mentions(outputs, address));
        }
        if mentions(rest, address) {
            assert(mentions(last.childs, address));
            assert(mentions(outputs, address));
        }
        assert forall|i: int|
            0 <= i < outputs.len() && mentions(
                (#[trigger] outputs[i]).childs,
                address,
            ) implies mentions(group::after_outputs(outputs), address) || any_absorbed(
            outputs[i].childs,
            address,
        ) by {
            if i < before.len() {
                assert(before[i] == outputs[i]);
            }
        }
    } else {
        assert(!mentions(group::after_outputs(outputs), address));
    }
}

/// Whether no way down from nodes that stand `deep` groups deep leaves the
/// watched group and enters it again through another group around it.
pub open spec fn stays_left(nodes: Seq<WatchTree>, deep: int) -> bool
    decreases nodes,
{
    forall|i: int|
        0 <= i < nodes.len() ==> {
            &&& !((#[trigger] nodes[i]).kind is GroupIn && deep == 1)
            &&& stays_left(nodes[i].childs, deep + crossing(nodes[i].kind))
        }
}

proof fn lemma_listed_outputs(nodes: Seq<WatchTree>, deep: int, parent: Seq<usize>)
    requires
        stays_left(nodes, deep),
    ensures
        ({
            let list = group::group_list(nodes, deep, parent);
            &&& deep > 0 ==> list.len() == 0
            &&& deep == 0 ==> group::all_outputs_known(list)
            &&& deep < 0 ==> forall|i: int|
                0 <= i < list.len() ==> {
                    &&& (#[trigger] list[i]).content.kind is GroupOut
                    &&& group::all_outputs_known(list[i].childs)
                }
        }),
    decreases nodes,
{
    if nodes.len() > 0 {
        let node = nodes.last();
        let place = parent.push((nodes.len() - 1) as usize);
        let inner = group::below(node.kind, deep);
        let first = group::group_list(nodes.drop_last(), deep, parent);
        let rest = group::group_list(node.childs, inner, place);
        let last = group::group_of(node, deep, place);
        let list = group::group_list(nodes, deep, parent);
        assert(list == first + last);
        assert(node == nodes[nodes.len() - 1]);
        assert forall|i: int| 0 <= i < nodes.drop_last().len() implies !((
        #[trigger] nodes.drop_last()[i]).kind is GroupIn && deep == 1) && stays_left(
            nodes.drop_last()[i].childs,
            deep + crossing(nodes.drop_last()[i].kind),
        ) by {
            assert(nodes.drop_last()[i] == nodes[i]);
        }
        lemma_listed_outputs(nodes.drop_last(), deep, parent);
        lemma_listed_outputs(node.childs, inner, place);
        if deep == 0 {
            assert forall|i: int| 0 <= i < list.len() implies group::outputs_known(
                #[trigger] list[i],
            ) by {
                if i < first.len() {
                    assert(list[i] == first[i]);
                } else {
                    assert(list[i] == last[0]);
                }
            }
        } else if deep < 0 {
            assert forall|i: int| 0 <= i < list.len() implies (
            #[trigger] list[i]).content.kind is GroupOut && group::all_outputs_known(
                list[i].childs,
            ) by {
                if i < first.len() {
                    assert(list[i] == first[i]);
                } else {
                    assert(list[i] == last[i - first.len()]);
                }
            }
        }
    }
}

/// The watched group can be shown if no way down leaves it and enters it again:
/// all that stands directly below a closed group are then its outputs.
pub proof fn lemma_outputs_are_known(state: AppState)
    requires
        tree::descend(state.tree, state.watching) is Some,
        stays_left(tree::descend(state.tree, state.watching)->0.childs, 0),
    ensures
        group::outputs_known(state::opened_group(state)),
{
    lemma_listed_outputs(
        tree::descend(state.tree, state.watching)->0.childs,
        0,
        state.watching,
    );
}

/// Whether every closed group of a list, and of what is below it, carries the
/// names of its outputs.
pub open spec fn all_labelled(nodes: Seq<GroupTree>) -> bool
    decreases nodes,
{
    forall|i: int|
        0 <= i < nodes.len() ==> {
            &&& (#[trigger] nodes[i]).content.kind is GroupIn && nodes[i].extra !is GroupBegin
                ==> nodes[i].extra is GroupNode
            &&& all_labelled(nodes[i].childs)
        }
}

/// Once the outputs are known, every closed group that is shown carries their
/// names, so that it is drawn as a group.
pub proof fn lemma_closed_groups_labelled(node: GroupTree)
    ensures
        all_labelled(group::with_outputs(node).childs),
        node.content.kind is GroupIn && node.extra !is GroupBegin ==> group::with_outputs(
            node,
        ).extra is GroupNode,
    decreases node, 0nat,
{
    if group::closed_group(node) {
        lemma_after_outputs_labelled(node.childs);
    } else {
        lemma_all_outputs_labelled(node.childs);
    }
}

proof fn lemma_all_outputs_labelled(nodes: Seq<GroupTree>)
    ensures
        all_labelled(group::all_with_outputs(nodes)),
    decreases nodes, 1nat,
{
    let all = group::all_with_outputs(nodes);
    assert forall|i: int| 0 <= i < all.len() implies (group::closed_group(#[trigger] all[i])
        ==> all[i].extra is GroupNode) && all_labelled(all[i].childs) by {
        lemma_closed_groups_labelled(nodes[i]);
    }
}

proof fn lemma_after_outputs_labelled(outputs: Seq<GroupTree>)
    ensures
        all_labelled(group::after_outputs(outputs)),
    decreases outputs, 1nat,
{
    if outputs.len() > 0 {
        let first = group::after_outputs(outputs.drop_last());
        let rest = group::all_with_outputs(outputs.last().childs);
        let all = group::after_outputs(outputs);
        lemma_after_outputs_labelled(outputs.drop_last());
        lemma_all_outputs_labelled(outputs.last().childs);
        assert(all == first + rest);
        assert forall|i: int| 0 <= i < all.len() implies (group::closed_group(#[trigger] all[i])
            ==> all[i].extra is GroupNode) && all_labelled(all[i].childs) by {
            if i < first.len() {
                assert(all[i] == first[i]);
            } else {
                assert(all[i] == rest[i - first.len()]);
            }
        }
    }
}

proof fn lemma_one_after_each(outputs: Seq<GroupTree>)
    requires
        forall|i: int| 0 <= i < outputs.len() ==> (#[trigger] outputs[i]).childs.len() == 1,
    ensures
        group::after_outputs(outputs).len() == outputs.len(),
        forall|i: int|
            0 <= i < outputs.len() ==> #[trigger] group::after_outputs(outputs)[i]
                == group::with_outputs(outputs[i].childs[0]),
    decreases outputs.len(),
{
    if outputs.len() > 0 {
        let first = group::after_outputs(outputs.drop_last());
        let last = outputs[outputs.len() - 1];
        lemma_one_after_each(outputs.drop_last());
        assert(group::all_with_outputs(last.childs).len() == 1);
        let all = group::after_outputs(outputs);
        assert(all == first + group::all_with_outputs(last.childs));
        assert forall|i: int| 0 <= i < outputs.len() implies #[trigger] all[i]
            == group::with_outputs(outputs[i].childs[0]) by {
            if i < first.len() {
                assert(all[i] == first[i]);
            } else {
                assert(all[i] == group::all_with_outputs(last.childs)[0]);
            }
        }
    }
}

/// Where one node follows each output of a closed group, the nodes below the
/// group are those that follow its outputs, in the order of the names, and all
/// of them are drawn.
pub proof fn lemma_followers_under_outputs(node: GroupTree)
    requires
        node.content.kind is GroupIn,
        node.extra !is GroupBegin,
        forall|i: int| 0 <= i < node.childs.len() ==> (#[trigger] node.childs[i]).childs.len() == 1,
    ensures
        ({
            let shown = group::with_outputs(node);
            &&& shown.childs.len() == node.childs.len()
            &&& shape::drawn_below(shown) == shown.childs.len()
            &&& shown.extra == Extra::GroupNode(group::output_names(node.childs))
            &&& forall|i: int|
                0 <= i < node.childs.len() ==> #[trigger] shown.childs[i] == group::with_outputs(
                    node.childs[i].childs[0],
                )
        }),
{
    lemma_one_after_each(node.childs);
}

/// Whether an address leads to a group.
pub open spec fn leads_to_group(root: WatchTree, address: Seq<usize>) -> bool {
    tree::descend(root, address) matches Some(node) && node.kind is GroupIn
}

/// A state in which the whole tree or a group is watched is left as it is.
pub proof fn lemma_watchable_is_settled(state: AppState)
    requires
        state.watching.len() == 0 || leads_to_group(state.tree, state.watching),
    ensures
        state::settled(state) == state,
{
    assert(state.watching.take(state.watching.len() as int) =~= state.watching);
}

/// Settling twice is settling once.
pub proof fn lemma_settled_once(state: AppState)
    ensures
        state::settled(state::settled(state)) == state::settled(state),
{
    state::lemma_settled(state);
    lemma_watchable_is_settled(state::settled(state));
}

/// A click on a group opens it: where a shown node stands for a node of the
/// tree and is a group, its address is the one that is watched from then on,
/// and the group that is watched is the one that was clicked.
pub proof fn lemma_click_opens_group(state: AppState, node: GroupTree)
    requires
        stands_for(state.tree, node),
        node.content.kind is GroupIn,
    ensures
        ({
            let clicked = AppState { watching: node.address, reset: true, ..state };
            &&& state::settled(clicked) == clicked
            &&& tree::descend(state.tree, node.address) is Some
            &&& state::opened_group(clicked).content == node.content
        }),
{
    let clicked = AppState { watching: node.address, reset: true, ..state };
    lemma_watchable_is_settled(clicked);
    assert(node.content.childs =~= Seq::<WatchTree>::empty());
    assert(state::opened_group(clicked).content =~= node.content);
}

/// Leaving a group leads to the group around it: the address gets shorter, and
/// no group lies on the way back.
pub proof fn lemma_back_leads_around(state: AppState)
    requires
        state.watching.len() > 0,
    ensures
        ({
            let left = AppState { watching: state.watching.drop_last(), reset: true, ..state };
            let around = state::settled(left).watching;
            &&& around.len() < state.watching.len()
            &&& around == state.watching.take(around.len() as int)
            &&& around.len() == 0 || leads_to_group(state.tree, around)
            &&& forall|n: int|
                around.len() < n < state.watching.len() ==> !leads_to_group(
                    state.tree,
                    #[trigger] state.watching.take(n),
                )
        }),
{
    let shorter = state.watching.drop_last();
    let left = AppState { watching: shorter, reset: true, ..state };
    state::lemma_watchable_len(state.tree, shorter);
    let around = state::settled(left).watching;
    assert(around =~= state.watching.take(around.len() as int));
    assert forall|n: int| around.len() < n < state.watching.len() implies !leads_to_group(
        state.tree,
        #[trigger] state.watching.take(n),
    ) by {
        assert(shorter.take(n) =~= state.watching.take(n));
        assert(!state::watchable(state.tree, shorter.take(n)));
    }
}

/// A group that is still one in a newly reported tree stays the watched one.
pub proof fn lemma_group_stays_watched(state: AppState, message: state::Message)
    requires
        state.watching.len() == 0 || leads_to_group(
            state::received(state, message).tree,
            state.watching,
        ),
    ensures
        state::settled(state::received(state, message)).watching == state.watching,
{
    lemma_watchable_is_settled(state::received(state, message));
}

/// Of the messages of one run of the reporting program only the first is a new
/// connection, and the others leave it to the user whether the view is fitted.
pub proof fn lemma_connected_once(
    state: AppState,
    first: state::Message,
    next: state::Message,
)
    requires
        first.start == next.start,
    ensures
        ({
            let connected = state::received(state, first);
            &&& !state::new_connection(connected, next)
            &&& state::received(connected, next).reset == connected.reset
        }),
{
}

/// The path to a group is the path to the node above it, a slash and the name of
/// the group. The path to any other node is that to the node above it.
pub proof fn lemma_path_continues(root: WatchTree, address: Seq<usize>, step: usize)
    ensures
        match tree::descend(root, address.push(step)) {
            Some(node) => match node.kind {
                Kind::GroupIn(name) => state::path_parts(root, address.push(step))
                    == state::path_parts(root, address) + ("/"@ + name),
                _ => state::path_parts(root, address.push(step)) == state::path_parts(
                    root,
                    address,
                ),
            },
            None => state::path_parts(root, address.push(step)) == state::path_parts(
                root,
                address,
            ),
        },
        match root.kind {
            Kind::GroupIn(name) => state::path_parts(root, Seq::empty()) == "/"@ + name,
            _ => state::path_parts(root, Seq::empty()).len() == 0,
        },
{
    assert(address.push(step).drop_last() =~= address);
    let parts = state::path_parts(root, address);
    assert(parts + Seq::<char>::empty() =~= parts);
}

} // verus!
