//! The group of the tree that is watched, as it is shown.

use vstd::prelude::*;

use crate::text;
use crate::tree;
use crate::tree::Kind;
use crate::tree::NodeTypes;
use crate::tree::WatchContent;
use crate::tree::WatchTree;

verus! {

/// What is known of a shown node beyond the node itself.
#[derive(Debug)]
pub enum ExtraData {
    Empty,
    /// The node at which the watched group begins.
    GroupBegin,
    /// A closed group, with the names of its outputs.
    GroupNode(Vec<String>),
}

/// A node as it is shown, with the nodes that are shown below it and the
/// address at which it stands in the tree.
#[derive(Debug)]
pub struct GroupContent {
    pub watch_content: WatchContent,
    pub extra_data: ExtraData,
    pub childs: Vec<GroupContent>,
    pub address: Vec<usize>,
}

/// The model of `ExtraData`.
#[verifier::ext_equal]
pub enum Extra {
    Empty,
    GroupBegin,
    GroupNode(Seq<Seq<char>>),
}

/// The model of `GroupContent`.
#[verifier::ext_equal]
pub struct GroupTree {
    pub content: WatchTree,
    pub extra: Extra,
    pub childs: Seq<GroupTree>,
    pub address: Seq<usize>,
}

impl View for ExtraData {
    type V = Extra;

    open spec fn view(&self) -> Extra {
        match self {
            ExtraData::Empty => Extra::Empty,
            ExtraData::GroupBegin => Extra::GroupBegin,
            ExtraData::GroupNode(names) => Extra::GroupNode(text::texts(names@)),
        }
    }
}

impl View for GroupContent {
    type V = GroupTree;

    open spec fn view(&self) -> GroupTree {
        self.model()
    }
}

impl GroupContent {
    /// The shown tree below and at this node.
    pub open spec fn model(self) -> GroupTree
        decreases self,
    {
        GroupTree {
            content: self.watch_content@,
            extra: self.extra_data@,
            childs: Seq::new(
                self.childs@.len(),
                |i: int|
                    if 0 <= i < self.childs@.len() {
                        self.childs@[i].model()
                    } else {
                        arbitrary()
                    },
            ),
            address: self.address@,
        }
    }
}

/// The models of a list of shown nodes.
pub open spec fn groups(nodes: Seq<GroupContent>) -> Seq<GroupTree> {
    Seq::new(nodes.len(), |i: int| nodes[i]@)
}

/// The children of a shown node's model are the models of its children.
pub proof fn lemma_childs_model(node: GroupContent)
    ensures
        node@.childs == groups(node.childs@),
{
    assert(node@.childs =~= groups(node.childs@));
}

/// How many groups deep the nodes below a node stand, where the node itself
/// stands `deep` groups deep: a `GroupIn` opens a group, which counts down, and
/// a `GroupOut` closes one, which counts up. At 0 nodes belong to the watched
/// group.
pub open spec fn below(kind: Kind, deep: int) -> int {
    match kind {
        Kind::GroupOut(_) => deep + 1,
        Kind::GroupIn(_) => deep - 1,
        _ => deep,
    }
}

/// Whether a node is shown: it stands in the watched group, or what is below
/// it does.
pub open spec fn shown(kind: Kind, deep: int) -> bool {
    deep == 0 || below(kind, deep) == 0
}

/// What is shown of a node and of what is below it: the node with the shown
/// ones below it, or these alone.
pub open spec fn group_of(node: WatchTree, deep: int, address: Seq<usize>) -> Seq<GroupTree>
    decreases node,
{
    let rest = group_list(node.childs, below(node.kind, deep), address);
    if shown(node.kind, deep) {
        seq![
            GroupTree {
                content: tree::caption(node),
                extra: Extra::Empty,
                childs: rest,
                address: address,
            },
        ]
    } else {
        rest
    }
}

/// What is shown of the nodes below the one at `parent`, in their order.
pub open spec fn group_list(nodes: Seq<WatchTree>, deep: int, parent: Seq<usize>) -> Seq<GroupTree>
    decreases nodes,
{
    if nodes.len() == 0 {
        Seq::empty()
    } else {
        group_list(nodes.drop_last(), deep, parent) + group_of(
            nodes.last(),
            deep,
            parent.push((nodes.len() - 1) as usize),
        )
    }
}

/// Whether the count of groups stays in the range of `i32` on every way down
/// from nodes that stand `deep` groups deep.
pub open spec fn count_fits(nodes: Seq<WatchTree>, deep: int) -> bool
    decreases nodes,
{
    forall|i: int|
        0 <= i < nodes.len() ==> {
            &&& i32::MIN <= below((#[trigger] nodes[i]).kind, deep) <= i32::MAX
            &&& count_fits(nodes[i].childs, below(nodes[i].kind, deep))
        }
}

/// Tells whether the count of groups stays in the range of `i32` on every way
/// down from nodes that stand `deep` groups deep.
pub fn count_stays_in_range(nodes: &Vec<WatchContent>, deep: i32) -> (fits: bool)
    ensures
        fits == count_fits(tree::trees(nodes@), deep as int),
    decreases nodes,
{
    let ghost all = tree::trees(nodes@);
    let mut i: usize = 0;
    while i < nodes.len()
        invariant
            i <= nodes.len(),
            all == tree::trees(nodes@),
            forall|j: int|
                0 <= j < i ==> {
                    &&& i32::MIN <= below((#[trigger] all[j]).kind, deep as int) <= i32::MAX
                    &&& count_fits(all[j].childs, below(all[j].kind, deep as int))
                },
        decreases nodes.len() - i,
    {
        let node = &nodes[i];
        proof {
            tree::lemma_childs_model(*node);
            assert(all[i as int] == node@);
        }
        let inner: Option<i32> = match &node.node_type {
            NodeTypes::GroupOut(_) => deep.checked_add(1),
            NodeTypes::GroupIn(_) => deep.checked_sub(1),
            _ => Some(deep),
        };
        match inner {
            Some(inner_deep) => {
                if !count_stays_in_range(&node.childs, inner_deep) {
                    return false;
                }
            },
            None => {
                return false;
            },
        }
        i = i + 1;
    }
    true
}

impl GroupContent {
    /// What is shown of the nodes below the one at `parent_address`, which stand
    /// `deep` groups deep.
    pub fn get_group(nodes: &Vec<WatchContent>, deep: i32, parent_address: Vec<usize>) -> (list: Vec<
        GroupContent,
    >)
        requires
            count_fits(tree::trees(nodes@), deep as int),
        ensures
            groups(list@) == group_list(tree::trees(nodes@), deep as int, parent_address@),
        decreases nodes,
    {
        let mut list: Vec<GroupContent> = Vec::new();
        let mut index: usize = 0;
        let ghost all = tree::trees(nodes@);
        assert(groups(list@) =~= group_list(all.take(0), deep as int, parent_address@));
        while index < nodes.len()
            invariant
                index <= nodes.len(),
                all == tree::trees(nodes@),
                count_fits(all, deep as int),
                groups(list@) == group_list(all.take(index as int), deep as int, parent_address@),
            decreases nodes.len() - index,
        {
            let node = &nodes[index];
            let ghost before = list@;
            proof {
                let longer = all.take(index + 1);
                assert(longer.drop_last() =~= all.take(index as int));
                assert(longer.last() == node@);
                assert(all[index as int] == node@);
                tree::lemma_childs_model(*node);
            }
            let mut address: Vec<usize> = parent_address.clone();
            assert(address@ =~= parent_address@);
            address.push(index);

            let mut active_deep: i32 = deep;
            match &node.node_type {
                NodeTypes::GroupOut(_) => {
                    active_deep = active_deep + 1;
                },
                NodeTypes::GroupIn(_) => {
                    active_deep = active_deep - 1;
                },
                _ => {},
            }
            let include_self = deep == 0 || active_deep == 0;
            let ghost place = address@;
            let copy: Vec<usize> = address.clone();
            assert(copy@ =~= place);
            let mut rest = GroupContent::get_group(&node.childs, active_deep, copy);
            let ghost below_it = groups(rest@);
            if include_self {
                let shown = GroupContent {
                    watch_content: node.caption(),
                    extra_data: ExtraData::Empty,
                    childs: rest,
                    address: address,
                };
                proof {
                    lemma_childs_model(shown);
                }
                assert(group_of(node@, deep as int, place) =~= seq![shown@]);
                list.push(shown);
                assert(groups(list@) =~= groups(before) + seq![shown@]);
            } else {
                list.append(&mut rest);
                assert(groups(list@) =~= groups(before) + below_it);
            }
            assert(place =~= parent_address@.push(index));
            assert(group_list(all.take(index + 1), deep as int, parent_address@) == group_list(
                all.take(index as int),
                deep as int,
                parent_address@,
            ) + group_of(node@, deep as int, place));
            index = index + 1;
        }
        assert(all.take(index as int) =~= all);
        list
    }
}

/// Whether a shown node is a group that is shown closed: any but the one that
/// is watched.
pub open spec fn closed_group(node: GroupTree) -> bool {
    node.content.kind is GroupIn && node.extra !is GroupBegin
}

/// The names of the outputs that stand below a closed group.
pub open spec fn output_names(outputs: Seq<GroupTree>) -> Seq<Seq<char>> {
    Seq::new(outputs.len(), |i: int| outputs[i].content.kind->GroupOut_0)
}

/// Whether the nodes directly below every closed group are its outputs.
pub open spec fn outputs_known(node: GroupTree) -> bool
    decreases node,
{
    if closed_group(node) {
        forall|i: int|
            0 <= i < node.childs.len() ==> {
                &&& (#[trigger] node.childs[i]).content.kind is GroupOut
                &&& all_outputs_known(node.childs[i].childs)
            }
    } else {
        all_outputs_known(node.childs)
    }
}

/// Whether the nodes directly below every closed group of a list are its outputs.
pub open spec fn all_outputs_known(nodes: Seq<GroupTree>) -> bool
    decreases nodes,
{
    forall|i: int| 0 <= i < nodes.len() ==> outputs_known(#[trigger] nodes[i])
}

/// The shown tree in which each closed group carries the names of its outputs,
/// and what follows the outputs stands directly below the group.
pub open spec fn with_outputs(node: GroupTree) -> GroupTree
    decreases node,
{
    if closed_group(node) {
        GroupTree {
            extra: Extra::GroupNode(output_names(node.childs)),
            childs: after_outputs(node.childs),
            ..node
        }
    } else {
        GroupTree { childs: all_with_outputs(node.childs), ..node }
    }
}

/// Each tree of a list with its groups' outputs.
pub open spec fn all_with_outputs(nodes: Seq<GroupTree>) -> Seq<GroupTree>
    decreases nodes,
{
    Seq::new(
        nodes.len(),
        |i: int|
            if 0 <= i < nodes.len() {
                with_outputs(nodes[i])
            } else {
                arbitrary()
            },
    )
}

/// What follows the outputs of a closed group, one output after the other.
pub open spec fn after_outputs(outputs: Seq<GroupTree>) -> Seq<GroupTree>
    decreases outputs,
{
    if outputs.len() == 0 {
        Seq::empty()
    } else {
        after_outputs(outputs.drop_last()) + all_with_outputs(outputs.last().childs)
    }
}

impl Clone for ExtraData {
    fn clone(&self) -> (copy: ExtraData)
        ensures
            copy@ == self@,
    {
        match self {
            ExtraData::Empty => ExtraData::Empty,
            ExtraData::GroupBegin => ExtraData::GroupBegin,
            ExtraData::GroupNode(names) => {
                let copy: Vec<String> = names.clone();
                assert(text::texts(copy@) =~= text::texts(names@));
                ExtraData::GroupNode(copy)
            },
        }
    }
}

impl GroupContent {
    /// A copy of the shown node with nothing below it.
    pub fn without_childs(&self) -> (node: GroupContent)
        ensures
            node@ == (GroupTree { childs: Seq::empty(), ..self@ }),
    {
        let address: Vec<usize> = self.address.clone();
        assert(address@ =~= self.address@);
        let node = GroupContent {
            childs: Vec::new(),
            extra_data: self.extra_data.clone(),
            watch_content: self.watch_content.clone(),
            address: address,
        };
        assert(node@.childs =~= Seq::<GroupTree>::empty());
        node
    }

    /// Tells whether the nodes directly below every closed group are its outputs.
    pub fn has_known_outputs(&self) -> (known: bool)
        ensures
            known == outputs_known(self@),
        decreases self, 0nat,
    {
        let is_group = match &self.watch_content.node_type {
            NodeTypes::GroupIn(_) => true,
            _ => false,
        };
        let is_begin = match &self.extra_data {
            ExtraData::GroupBegin => true,
            _ => false,
        };
        proof {
            lemma_childs_model(*self);
        }
        if !is_group || is_begin {
            return GroupContent::all_have_known_outputs(&self.childs);
        }
        let mut i: usize = 0;
        while i < self.childs.len()
            invariant
                i <= self.childs.len(),
                self@.childs == groups(self.childs@),
                closed_group(self@),
                forall|j: int|
                    0 <= j < i ==> {
                        &&& (#[trigger] self@.childs[j]).content.kind is GroupOut
                        &&& all_outputs_known(self@.childs[j].childs)
                    },
            decreases self.childs.len() - i,
        {
            let child = &self.childs[i];
            proof {
                lemma_childs_model(*child);
                assert(self@.childs[i as int] == child@);
            }
            match &child.watch_content.node_type {
                NodeTypes::GroupOut(_) => {},
                _ => {
                    return false;
                },
            }
            if !GroupContent::all_have_known_outputs(&child.childs) {
                return false;
            }
            i = i + 1;
        }
        true
    }

    /// Tells whether the nodes directly below every closed group of a list are
    /// its outputs.
    fn all_have_known_outputs(nodes: &Vec<GroupContent>) -> (known: bool)
        ensures
            known == all_outputs_known(groups(nodes@)),
        decreases nodes, 1nat,
    {
        let mut i: usize = 0;
        while i < nodes.len()
            invariant
                i <= nodes.len(),
                forall|j: int| 0 <= j < i ==> outputs_known(#[trigger] groups(nodes@)[j]),
            decreases nodes.len() - i,
        {
            assert(groups(nodes@)[i as int] == nodes@[i as int]@);
            if !nodes[i].has_known_outputs() {
                return false;
            }
            i = i + 1;
        }
        true
    }

    /// Gives each closed group the names of its outputs, and puts what follows
    /// the outputs directly below the group.
    pub fn calculate_group_outputs(node: GroupContent) -> (group: GroupContent)
        requires
            outputs_known(node@),
        ensures
            group@ == with_outputs(node@),
        decreases node, 0nat,
    {
        proof {
            lemma_childs_model(node);
        }
        let base = node.without_childs();
        let is_group = match &node.watch_content.node_type {
            NodeTypes::GroupIn(_) => true,
            _ => false,
        };
        let is_begin = match &node.extra_data {
            ExtraData::GroupBegin => true,
            _ => false,
        };
        if !is_group || is_begin {
            let childs = GroupContent::calculate_all_outputs(node.childs);
            let group = GroupContent { childs: childs, ..base };
            proof {
                lemma_childs_model(group);
            }
            return group;
        }
        let ghost outputs = node@.childs;
        let mut out_names: Vec<String> = Vec::new();
        let mut followers: Vec<GroupContent> = Vec::new();
        assert(groups(followers@) =~= after_outputs(outputs.take(0)));
        let ghost all = node.childs@;
        for child in iter: node.childs
            invariant
                iter.seq() == all,
                outputs == groups(all),
                decreases_to!(node => all),
                forall|j: int|
                    0 <= j < outputs.len() ==> {
                        &&& (#[trigger] outputs[j]).content.kind is GroupOut
                        &&& all_outputs_known(outputs[j].childs)
                    },
                out_names@.len() == iter.index(),
                forall|j: int|
                    0 <= j < iter.index() ==> (#[trigger] out_names@[j])@
                        == outputs[j].content.kind->GroupOut_0,
                groups(followers@) == after_outputs(outputs.take(iter.index() as int)),
        {
            let ghost i = iter.index() as int;
            let ghost before = followers@;
            proof {
                assert(all[i] == child);
                assert(outputs[i] == child@);
                lemma_childs_model(child);
                assert(outputs.take(i + 1).drop_last() =~= outputs.take(i));
                assert(outputs.take(i + 1).last() == child@);
                assert(decreases_to!(all => all[i]));
            }
            match child.watch_content.node_type {
                NodeTypes::GroupOut(out_name) => {
                    out_names.push(out_name);
                },
                _ => {
                    assert(false);
                },
            }
            let mut rest = GroupContent::calculate_all_outputs(child.childs);
            let ghost added = groups(rest@);
            followers.append(&mut rest);
            assert(groups(followers@) =~= groups(before) + added);
        }
        assert(outputs.take(outputs.len() as int) =~= outputs);
        assert(text::texts(out_names@) =~= output_names(outputs));
        let group = GroupContent {
            childs: followers,
            extra_data: ExtraData::GroupNode(out_names),
            ..base
        };
        proof {
            lemma_childs_model(group);
        }
        group
    }

    /// Gives the groups of each tree of a list their outputs.
    fn calculate_all_outputs(nodes: Vec<GroupContent>) -> (list: Vec<GroupContent>)
        requires
            all_outputs_known(groups(nodes@)),
        ensures
            groups(list@) == all_with_outputs(groups(nodes@)),
        decreases nodes, 1nat,
    {
        let ghost all = nodes@;
        let mut list: Vec<GroupContent> = Vec::new();
        for node in iter: nodes
            invariant
                iter.seq() == all,
                decreases_to!(nodes => all),
                all_outputs_known(groups(all)),
                list@.len() == iter.index(),
                forall|j: int|
                    0 <= j < iter.index() ==> (#[trigger] list@[j])@ == with_outputs(all[j]@),
        {
            proof {
                let i = iter.index() as int;
                assert(all[i] == node);
                assert(groups(all)[i] == node@);
                assert(decreases_to!(all => all[i]));
            }
            list.push(GroupContent::calculate_group_outputs(node));
        }
        assert(groups(list@) =~= all_with_outputs(groups(all)));
        list
    }
}

/// The height of a shown node, in points.
pub const NODE_HEIGHT: u64 = 60;

/// The distance between a shown node and those below it, in points.
pub const LEVEL_GAP: u64 = 20;

/// How many levels of nodes are shown at and below a node.
pub open spec fn levels(node: GroupTree) -> nat
    decreases node,
{
    1 + most_levels(node.childs)
}

/// The most levels that a tree of a list has.
pub open spec fn most_levels(nodes: Seq<GroupTree>) -> nat
    decreases nodes,
{
    if nodes.len() == 0 {
        0
    } else {
        let others = most_levels(nodes.drop_last());
        let last = levels(nodes.last());
        if others > last {
            others
        } else {
            last
        }
    }
}

/// The height of the shown tree, in points: its levels and the gaps between them.
pub open spec fn height(node: GroupTree) -> int {
    levels(node) * NODE_HEIGHT + (levels(node) - 1) * LEVEL_GAP
}

/// No tree of a list has more levels than the most of them.
pub proof fn lemma_most_levels(nodes: Seq<GroupTree>, i: int)
    requires
        0 <= i < nodes.len(),
    ensures
        levels(nodes[i]) <= most_levels(nodes),
    decreases nodes.len(),
{
    if i < nodes.len() - 1 {
        lemma_most_levels(nodes.drop_last(), i);
    }
}

impl GroupContent {
    /// The height of the shown tree, in points.
    pub fn get_height(&self) -> (points: u64)
        requires
            height(self@) <= u64::MAX,
        ensures
            points == height(self@),
        decreases self,
    {
        let mut childs_height: u64 = 0;
        let mut i: usize = 0;
        let ghost all = self@.childs;
        while i < self.childs.len()
            invariant
                i <= self.childs.len(),
                all == self@.childs,
                all.len() == self.childs.len(),
                height(self@) <= u64::MAX,
                childs_height == 80 * most_levels(all.take(i as int)),
            decreases self.childs.len() - i,
        {
            proof {
                lemma_most_levels(all, i as int);
                assert(all[i as int] == self.childs@[i as int]@);
                assert(all.take(i + 1).drop_last() =~= all.take(i as int));
                assert(all.take(i + 1).last() == all[i as int]);
                assert(height(all[i as int]) + LEVEL_GAP == 80 * levels(all[i as int]));
            }
            let child_height: u64 = self.childs[i].get_height() + LEVEL_GAP;
            if child_height > childs_height {
                childs_height = child_height;
            }
            i = i + 1;
        }
        assert(all.take(i as int) =~= all);
        childs_height + NODE_HEIGHT
    }
}

/// The most levels for which the height of a tree is a `u64`.
pub const MOST_LEVELS: u64 = 230_584_300_921_369_395;

impl GroupContent {
    /// Tells whether the height of the shown tree is a `u64`.
    pub fn has_height(&self) -> (fits: bool)
        ensures
            fits == (height(self@) <= u64::MAX),
    {
        self.has_levels_within(MOST_LEVELS)
    }

    /// Tells whether no more than `limit` levels are shown at and below the node.
    fn has_levels_within(&self, limit: u64) -> (kept: bool)
        ensures
            kept == (levels(self@) <= limit),
        decreases limit,
    {
        if limit == 0 {
            return false;
        }
        let ghost all = self@.childs;
        let mut i: usize = 0;
        while i < self.childs.len()
            invariant
                i <= self.childs.len(),
                limit > 0,
                all == self@.childs,
                all.len() == self.childs.len(),
                most_levels(all.take(i as int)) <= limit - 1,
            decreases self.childs.len() - i,
        {
            proof {
                lemma_most_levels(all, i as int);
                assert(all[i as int] == self.childs@[i as int]@);
                assert(all.take(i + 1).drop_last() =~= all.take(i as int));
                assert(all.take(i + 1).last() == all[i as int]);
            }
            if !self.childs[i].has_levels_within(limit - 1) {
                return false;
            }
            i = i + 1;
        }
        assert(all.take(i as int) =~= all);
        true
    }
}

} // verus!
