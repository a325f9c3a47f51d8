//! What is drawn of a shown node.

use vstd::prelude::*;
use vstd::string::*;

use crate::group::Extra;
use crate::group::ExtraData;
use crate::group::GroupContent;
use crate::group::GroupTree;
use crate::text;
use crate::tree::Kind;
use crate::tree::NodeTypes;

verus! {

/// The lines of text in a drawn node.
#[derive(Debug)]
pub enum NodeShape {
    /// A closed group, which opens on a click: its name, the group's name and
    /// the names of its outputs.
    Group { name: String, group_name: String, outputs: String },
    /// A node with a description: its name and the description.
    Described { name: String, description: String },
    /// Any other node: its name.
    Plain { name: String },
}

/// The model of `NodeShape`.
pub enum Shape {
    Group { name: Seq<char>, group_name: Seq<char>, outputs: Seq<char> },
    Described { name: Seq<char>, description: Seq<char> },
    Plain { name: Seq<char> },
}

impl View for NodeShape {
    type V = Shape;

    open spec fn view(&self) -> Shape {
        match self {
            NodeShape::Group { name, group_name, outputs } => Shape::Group {
                name: name@,
                group_name: group_name@,
                outputs: outputs@,
            },
            NodeShape::Described { name, description } => Shape::Described {
                name: name@,
                description: description@,
            },
            NodeShape::Plain { name } => Shape::Plain { name: name@ },
        }
    }
}

/// The names of outputs as they stand in one line.
pub open spec fn outputs_line(names: Seq<Seq<char>>) -> Seq<char> {
    text::joined(names, " | "@)
}

/// The lines of text in a drawn node.
pub open spec fn shape_of(node: GroupTree) -> Shape {
    match node.content.kind {
        Kind::GroupIn(group_name) => match node.extra {
            Extra::GroupNode(names) => Shape::Group {
                name: node.content.name,
                group_name: group_name,
                outputs: outputs_line(names),
            },
            _ => Shape::Described { name: node.content.name, description: group_name },
        },
        Kind::Event(event_name) => Shape::Described {
            name: node.content.name,
            description: event_name,
        },
        Kind::GroupOut(out_name) => Shape::Described {
            name: node.content.name,
            description: out_name,
        },
        _ => Shape::Plain { name: node.content.name },
    }
}

/// The lines of a drawn node, the widest of which sets the node's width.
pub open spec fn lines_of(node: GroupTree) -> Seq<Seq<char>> {
    match shape_of(node) {
        Shape::Group { name, group_name, outputs } => seq![outputs, group_name, name],
        Shape::Described { name, description } => seq![description, name],
        Shape::Plain { name } => seq![name],
    }
}

/// Where the edges to the nodes below a node begin.
#[derive(Debug)]
pub enum EdgeLayout {
    /// In the middle: there is at most one.
    Centered(usize),
    /// Each under the name of an output, as far as there are names.
    UnderOutputs(Vec<String>),
    /// At even distances.
    Spread(usize),
}

/// The model of `EdgeLayout`.
pub enum Edges {
    Centered(nat),
    UnderOutputs(Seq<Seq<char>>),
    Spread(nat),
}

impl View for EdgeLayout {
    type V = Edges;

    open spec fn view(&self) -> Edges {
        match self {
            EdgeLayout::Centered(count) => Edges::Centered(*count as nat),
            EdgeLayout::UnderOutputs(names) => Edges::UnderOutputs(text::texts(names@)),
            EdgeLayout::Spread(count) => Edges::Spread(*count as nat),
        }
    }
}

/// Where the edges to the nodes below a node begin.
pub open spec fn edges_of(node: GroupTree) -> Edges {
    if node.childs.len() < 2 {
        Edges::Centered(node.childs.len())
    } else {
        match node.extra {
            Extra::GroupNode(names) => Edges::UnderOutputs(names),
            _ => Edges::Spread(node.childs.len()),
        }
    }
}

/// How many of the nodes below a node are drawn: those that an edge leads to.
pub open spec fn drawn_below(node: GroupTree) -> nat {
    match edges_of(node) {
        Edges::UnderOutputs(names) => if names.len() < node.childs.len() {
            names.len()
        } else {
            node.childs.len()
        },
        _ => node.childs.len(),
    }
}

impl GroupContent {
    /// The lines of text in the drawn node.
    pub fn shape(&self) -> (shape: NodeShape)
        ensures
            shape@ == shape_of(self@),
    {
        let name = self.watch_content.name.clone();
        match &self.watch_content.node_type {
            NodeTypes::GroupIn(group_name) => match &self.extra_data {
                ExtraData::GroupNode(out_names) => NodeShape::Group {
                    name: name,
                    group_name: group_name.clone(),
                    outputs: text::join(out_names, " | "),
                },
                _ => NodeShape::Described { name: name, description: group_name.clone() },
            },
            NodeTypes::Event(event_name) => NodeShape::Described {
                name: name,
                description: event_name.clone(),
            },
            NodeTypes::GroupOut(out_name) => NodeShape::Described {
                name: name,
                description: out_name.clone(),
            },
            _ => NodeShape::Plain { name: name },
        }
    }

    /// The lines of the drawn node, the widest of which sets the node's width.
    pub fn lines(&self) -> (lines: Vec<String>)
        ensures
            text::texts(lines@) == lines_of(self@),
    {
        let mut lines: Vec<String> = Vec::new();
        match self.shape() {
            NodeShape::Group { name, group_name, outputs } => {
                lines.push(outputs);
                lines.push(group_name);
                lines.push(name);
            },
            NodeShape::Described { name, description } => {
                lines.push(description);
                lines.push(name);
            },
            NodeShape::Plain { name } => {
                lines.push(name);
            },
        }
        assert(text::texts(lines@) =~= lines_of(self@));
        lines
    }

    /// Where the edges to the nodes below the node begin.
    pub fn edges(&self) -> (edges: EdgeLayout)
        ensures
            edges@ == edges_of(self@),
    {
        let count: usize = self.childs.len();
        if count < 2 {
            return EdgeLayout::Centered(count);
        }
        match &self.extra_data {
            ExtraData::GroupNode(out_names) => {
                let names: Vec<String> = out_names.clone();
                assert(text::texts(names@) =~= text::texts(out_names@));
                EdgeLayout::UnderOutputs(names)
            },
            _ => EdgeLayout::Spread(count),
        }
    }

    /// How many of the nodes below the node are drawn.
    pub fn drawn_childs(&self) -> (count: usize)
        ensures
            count == drawn_below(self@),
    {
        let count: usize = self.childs.len();
        match &self.extra_data {
            ExtraData::GroupNode(out_names) => if count >= 2 && out_names.len() < count {
                out_names.len()
            } else {
                count
            },
            _ => count,
        }
    }
}

/// The glyphs of one item within a line of joined items: from the glyph `left`
/// up to the glyph `right`, which is no longer one of them. The number of all
/// glyphs stands for the end of the line.
#[derive(PartialEq, Eq, Structural, Debug, Clone, Copy)]
pub struct Span {
    pub left: usize,
    pub right: usize,
}

/// How many characters of the joined items follow the item `i`.
pub open spec fn chars_after(items: Seq<Seq<char>>, separator: Seq<char>, i: int) -> nat
    decreases items.len() - i,
{
    if i >= items.len() - 1 {
        0
    } else {
        separator.len() + items[i + 1].len() + chars_after(items, separator, i + 1)
    }
}

/// The place that lies `back` glyphs before the end of a line, or its beginning
/// where the line is too short.
pub open spec fn from_end(glyphs: nat, back: nat) -> nat {
    if back <= glyphs {
        (glyphs - back) as nat
    } else {
        0
    }
}

/// The glyphs of each item in the line of the items with the separator between
/// any two of them, found from the end of the line, which has `glyphs` glyphs.
pub fn output_spans(items: &Vec<String>, separator: &str, glyphs: usize) -> (spans: Vec<Span>)
    ensures
        spans@.len() == items@.len(),
        forall|i: int|
            0 <= i < items@.len() ==> {
                let after = chars_after(text::texts(items@), separator@, i);
                &&& (#[trigger] spans@[i]).right == from_end(glyphs as nat, after)
                &&& spans@[i].left == from_end(glyphs as nat, after + items@[i]@.len())
            },
{
    let ghost all = text::texts(items@);
    let gap: usize = separator.unicode_len();
    let mut backward: Vec<Span> = Vec::new();
    let mut place: usize = glyphs;
    let mut i: usize = items.len();
    while i > 0
        invariant
            i <= items.len(),
            all == text::texts(items@),
            gap == separator@.len(),
            backward@.len() == items.len() - i,
            place == from_end(
                glyphs as nat,
                if i == items.len() {
                    0
                } else {
                    chars_after(all, separator@, i - 1)
                },
            ),
            forall|j: int|
                i <= j < items@.len() ==> {
                    let after = chars_after(all, separator@, j);
                    let span = #[trigger] backward@[items@.len() - 1 - j];
                    &&& span.right == from_end(glyphs as nat, after)
                    &&& span.left == from_end(glyphs as nat, after + items@[j]@.len())
                },
        decreases i,
    {
        i = i - 1;
        let width: usize = items[i].as_str().unicode_len();
        let right: usize = place;
        let left: usize = if width < right {
            right - width
        } else {
            0
        };
        backward.push(Span { left: left, right: right });
        place = if gap < left {
            left - gap
        } else {
            0
        };
    }
    let mut spans: Vec<Span> = Vec::new();
    let ghost found = backward@;
    while backward.len() > 0
        invariant
            found.len() == items@.len(),
            backward@.len() + spans@.len() == found.len(),
            backward@ == found.take(backward@.len() as int),
            forall|j: int|
                0 <= j < spans@.len() ==> #[trigger] spans@[j] == found[found.len() - 1 - j],
        decreases backward.len(),
    {
        match backward.pop() {
            Some(span) => {
                spans.push(span);
            },
            None => {},
        }
    }
    assert forall|j: int| 0 <= j < items@.len() implies #[trigger] spans@[j]
        == found[items@.len() - 1 - j] by {}
    spans
}

} // verus!
