//! The behavior tree as it is reported.

use vstd::prelude::*;

use crate::text;

verus! {

/// What a node of the tree did when the tree was last reported.
#[derive(PartialEq, Eq, Structural, Debug, Clone, Copy)]
pub enum WatchState {
    Running,
    Succeeded,
    Failed,
    Cancelled,
    NoState,
}

/// The kind of a node. A group of nodes is entered through a `GroupIn`, which
/// names the group, and left through a `GroupOut`, which names the output.
#[derive(PartialEq, Eq, Debug)]
pub enum NodeTypes {
    Flow,
    Leaf,
    Decorator,
    Event(String),
    GroupIn(String),
    GroupOut(String),
}

/// A node of the reported tree, with everything below it.
#[derive(Debug)]
pub struct WatchContent {
    pub node_type: NodeTypes,
    pub name: String,
    pub watch_state: WatchState,
    pub childs: Vec<WatchContent>,
    pub comment: Option<String>,
}

/// The model of `NodeTypes`.
pub enum Kind {
    Flow,
    Leaf,
    Decorator,
    Event(Seq<char>),
    GroupIn(Seq<char>),
    GroupOut(Seq<char>),
}

/// The model of `WatchContent`.
#[verifier::ext_equal]
pub struct WatchTree {
    pub kind: Kind,
    pub name: Seq<char>,
    pub state: WatchState,
    pub childs: Seq<WatchTree>,
    pub comment: Option<Seq<char>>,
}

/// The text of an optional string.
pub open spec fn text_of(text: Option<String>) -> Option<Seq<char>> {
    match text {
        Some(t) => Some(t@),
        None => None,
    }
}

impl View for NodeTypes {
    type V = Kind;

    open spec fn view(&self) -> Kind {
        match self {
            NodeTypes::Flow => Kind::Flow,
            NodeTypes::Leaf => Kind::Leaf,
            NodeTypes::Decorator => Kind::Decorator,
            NodeTypes::Event(name) => Kind::Event(name@),
            NodeTypes::GroupIn(name) => Kind::GroupIn(name@),
            NodeTypes::GroupOut(name) => Kind::GroupOut(name@),
        }
    }
}

impl View for WatchContent {
    type V = WatchTree;

    open spec fn view(&self) -> WatchTree {
        self.model()
    }
}

impl WatchContent {
    /// The tree below and at this node.
    pub open spec fn model(self) -> WatchTree
        decreases self,
    {
        WatchTree {
            kind: self.node_type@,
            name: self.name@,
            state: self.watch_state,
            childs: Seq::new(
                self.childs@.len(),
                |i: int|
                    if 0 <= i < self.childs@.len() {
                        self.childs@[i].model()
                    } else {
                        arbitrary()
                    },
            ),
            comment: text_of(self.comment),
        }
    }
}

/// The models of a list of nodes.
pub open spec fn trees(nodes: Seq<WatchContent>) -> Seq<WatchTree> {
    Seq::new(nodes.len(), |i: int| nodes[i]@)
}

/// The children of a node's model are the models of its children.
pub proof fn lemma_childs_model(node: WatchContent)
    ensures
        node@.childs == trees(node.childs@),
{
    assert(node@.childs =~= trees(node.childs@));
}

impl Clone for NodeTypes {
    fn clone(&self) -> (copy: NodeTypes)
        ensures
            copy == *self,
    {
        match self {
            NodeTypes::Flow => NodeTypes::Flow,
            NodeTypes::Leaf => NodeTypes::Leaf,
            NodeTypes::Decorator => NodeTypes::Decorator,
            NodeTypes::Event(name) => NodeTypes::Event(name.clone()),
            NodeTypes::GroupIn(name) => NodeTypes::GroupIn(name.clone()),
            NodeTypes::GroupOut(name) => NodeTypes::GroupOut(name.clone()),
        }
    }
}

impl Clone for WatchContent {
    fn clone(&self) -> (copy: WatchContent)
        ensures
            copy@ == self@,
        decreases self,
    {
        let mut childs: Vec<WatchContent> = Vec::new();
        let mut i: usize = 0;
        while i < self.childs.len()
            invariant
                i <= self.childs.len(),
                childs@.len() == i,
                forall|j: int| 0 <= j < i ==> (#[trigger] childs@[j])@ == self.childs@[j]@,
            decreases self.childs.len() - i,
        {
            childs.push(self.childs[i].clone());
            i = i + 1;
        }
        let copy = WatchContent {
            node_type: self.node_type.clone(),
            name: self.name.clone(),
            watch_state: self.watch_state,
            childs: childs,
            comment: self.comment.clone(),
        };
        assert(copy@.childs =~= self@.childs);
        copy
    }
}

impl WatchContent {
    /// A copy of the node with nothing below it.
    pub fn without_childs(&self) -> (node: WatchContent)
        ensures
            node@ == (WatchTree { childs: Seq::empty(), ..self@ }),
    {
        let node = WatchContent {
            node_type: self.node_type.clone(),
            name: self.name.clone(),
            watch_state: self.watch_state,
            childs: Vec::new(),
            comment: self.comment.clone(),
        };
        assert(node@.childs =~= Seq::<WatchTree>::empty());
        node
    }

    /// A copy of the node with nothing below it, under another name.
    pub fn captioned(&self, caption: String) -> (node: WatchContent)
        ensures
            node@ == (WatchTree { name: caption@, childs: Seq::empty(), ..self@ }),
    {
        let mut node = self.without_childs();
        node.name = caption;
        assert(node@.childs =~= Seq::<WatchTree>::empty());
        node
    }

    /// The node as it is shown: with nothing below it and its name in upper case.
    pub fn caption(&self) -> (node: WatchContent)
        ensures
            node@ == caption(self@),
    {
        let upper = text::to_uppercase(self.name.as_str());
        self.captioned(upper)
    }
}

/// A node as it is shown.
pub open spec fn caption(tree: WatchTree) -> WatchTree {
    WatchTree { name: text::uppercase(tree.name), childs: Seq::empty(), ..tree }
}

/// The node that an address leads to from the root: each step of the address
/// is the index of a child.
pub open spec fn descend(root: WatchTree, address: Seq<usize>) -> Option<WatchTree>
    decreases address.len(),
{
    if address.len() == 0 {
        Some(root)
    } else {
        match descend(root, address.drop_last()) {
            Some(node) => if address.last() < node.childs.len() {
                Some(node.childs[address.last() as int])
            } else {
                None
            },
            None => None,
        }
    }
}

impl WatchContent {
    /// The node that an address leads to from this one.
    pub fn descend(&self, address: &Vec<usize>) -> (found: Option<&WatchContent>)
        ensures
            match found {
                Some(node) => descend(self@, address@) == Some(node@),
                None => descend(self@, address@) is None,
            },
    {
        let mut node = self;
        let mut i: usize = 0;
        while i < address.len()
            invariant
                i <= address.len(),
                descend(self@, address@.take(i as int)) == Some(node@),
            decreases address.len() - i,
        {
            let step: usize = address[i];
            proof {
                let longer = address@.take(i + 1);
                assert(longer.drop_last() =~= address@.take(i as int));
                lemma_childs_model(*node);
            }
            if step >= node.childs.len() {
                proof {
                    lemma_lost_stays_lost(self@, address@, i + 1);
                }
                return None;
            }
            node = &node.childs[step];
            i = i + 1;
        }
        assert(address@.take(i as int) =~= address@);
        Some(node)
    }
}

/// An address whose beginning leads nowhere leads nowhere.
pub proof fn lemma_lost_stays_lost(root: WatchTree, address: Seq<usize>, n: int)
    requires
        0 <= n <= address.len(),
        descend(root, address.take(n)) is None,
    ensures
        descend(root, address) is None,
    decreases address.len(),
{
    if n == address.len() {
        assert(address.take(n) =~= address);
    } else {
        assert(address.drop_last().take(n) =~= address.take(n));
        lemma_lost_stays_lost(root, address.drop_last(), n);
    }
}

} // verus!
