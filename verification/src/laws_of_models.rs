//! What the models say of the values that they stand for.

use vstd::prelude::*;

use crate::group;
use crate::group::Extra;
use crate::group::ExtraData;
use crate::group::GroupContent;
use crate::shape::EdgeLayout;
use crate::shape::Edges;
use crate::shape::NodeShape;
use crate::shape::Shape;
use crate::state::MyApp;
use crate::state::VisualizerMessage;
use crate::text;
use crate::time;
use crate::time::Moment;
use crate::tree;
use crate::tree::Kind;
use crate::tree::NodeTypes;
use crate::tree::WatchContent;
use crate::tree::WatchTree;

verus! {

/// The model of a kind is the same kind with the same text.
pub proof fn lemma_kind_model(kind: NodeTypes)
    ensures
        kind is Flow <==> kind@ is Flow,
        kind is Leaf <==> kind@ is Leaf,
        kind is Decorator <==> kind@ is Decorator,
        kind is Event <==> kind@ is Event,
        kind is GroupIn <==> kind@ is GroupIn,
        kind is GroupOut <==> kind@ is GroupOut,
        kind matches NodeTypes::Event(name) ==> kind@ == Kind::Event(name@),
        kind matches NodeTypes::GroupIn(name) ==> kind@ == Kind::GroupIn(name@),
        kind matches NodeTypes::GroupOut(name) ==> kind@ == Kind::GroupOut(name@),
{
}

/// The model of a node has the parts of the node.
pub proof fn lemma_node_model(node: WatchContent)
    ensures
        node@.kind == node.node_type@,
        node@.name == node.name@,
        node@.state == node.watch_state,
        node@.comment is Some <==> node.comment is Some,
        node.comment matches Some(text) ==> node@.comment == Some(text@),
        node@.childs.len() == node.childs@.len(),
        forall|i: int|
            0 <= i < node.childs@.len() ==> #[trigger] node@.childs[i] == node.childs@[i]@,
{
}

/// The model of a shown node has the parts of the node.
pub proof fn lemma_shown_model(node: GroupContent)
    ensures
        node@.content == node.watch_content@,
        node@.extra == node.extra_data@,
        node@.address == node.address@,
        node@.childs.len() == node.childs@.len(),
        forall|i: int|
            0 <= i < node.childs@.len() ==> #[trigger] node@.childs[i] == node.childs@[i]@,
{
}

/// The models of listed values are those of each of them, in their order.
pub proof fn lemma_list_models(
    nodes: Seq<WatchContent>,
    shown: Seq<GroupContent>,
    texts: Seq<String>,
)
    ensures
        tree::trees(nodes).len() == nodes.len(),
        forall|i: int| 0 <= i < nodes.len() ==> #[trigger] tree::trees(nodes)[i] == nodes[i]@,
        group::groups(shown).len() == shown.len(),
        forall|i: int| 0 <= i < shown.len() ==> #[trigger] group::groups(shown)[i] == shown[i]@,
        text::texts(texts).len() == texts.len(),
        forall|i: int| 0 <= i < texts.len() ==> #[trigger] text::texts(texts)[i] == texts[i]@,
{
}

/// A node is shown with its kind, state and comment, its name in upper case and
/// nothing below it.
pub proof fn lemma_caption(node: WatchTree)
    ensures
        tree::caption(node).kind == node.kind,
        tree::caption(node).state == node.state,
        tree::caption(node).comment == node.comment,
        tree::caption(node).name == text::uppercase(node.name),
        tree::caption(node).childs.len() == 0,
{
}

/// The model of what is known beyond a node has the same names.
pub proof fn lemma_extra_model(extra: ExtraData)
    ensures
        extra is Empty <==> extra@ is Empty,
        extra is GroupBegin <==> extra@ is GroupBegin,
        extra matches ExtraData::GroupNode(names) ==> {
            &&& extra@ matches Extra::GroupNode(texts)
            &&& texts.len() == names@.len()
            &&& forall|i: int| 0 <= i < names@.len() ==> #[trigger] texts[i] == names@[i]@
        },
{
}

/// The model of a drawn node has its lines.
pub proof fn lemma_shape_model(shape: NodeShape)
    ensures
        match shape {
            NodeShape::Group { name, group_name, outputs } => shape@ == (Shape::Group {
                name: name@,
                group_name: group_name@,
                outputs: outputs@,
            }),
            NodeShape::Described { name, description } => shape@ == (Shape::Described {
                name: name@,
                description: description@,
            }),
            NodeShape::Plain { name } => shape@ == (Shape::Plain { name: name@ }),
        },
{
}

/// The model of the edges has their number or their names.
pub proof fn lemma_edges_model(edges: EdgeLayout)
    ensures
        match edges {
            EdgeLayout::Centered(count) => edges@ == Edges::Centered(count as nat),
            EdgeLayout::Spread(count) => edges@ == Edges::Spread(count as nat),
            EdgeLayout::UnderOutputs(names) => {
                &&& edges@ matches Edges::UnderOutputs(texts)
                &&& texts.len() == names@.len()
                &&& forall|i: int| 0 <= i < names@.len() ==> #[trigger] texts[i] == names@[i]@
            },
        },
{
}

/// The model of a message has the parts of the message, and that of the
/// visualizer the parts of the visualizer.
pub proof fn lemma_state_model(message: VisualizerMessage, app: MyApp)
    ensures
        message@.start == message.start_time@,
        message@.sent == message.send_time@,
        message@.content == message.watch_content@,
        app@.watching == app.watching_group@,
        app@.tree == app.tree@,
        app@.reset == app.reset_view,
        app@.start == app.start_time@,
        app@.last_message == app.last_message_time@,
{
}

/// Seconds and nanoseconds make a moment where the seconds lie in the years from
/// -262143 to 262142, and the nanoseconds in one second, or in a leap second at
/// the end of a minute in two.
pub proof fn lemma_moments(secs: int, nanos: int)
    ensures
        time::is_moment(secs, nanos) <==> {
            &&& -8_334_601_228_800 <= secs <= 8_210_266_876_799
            &&& 0 <= nanos < 2_000_000_000
            &&& nanos < 1_000_000_000 || secs % 60 == 59
        },
        time::epoch() == (Moment { secs: 0, nanos: 0 }),
{
}

/// The time from one moment to another is the time back, reversed, and none
/// from a moment to itself. Outside leap seconds it is the difference of their
/// seconds and nanoseconds. Where one lies in a leap second, that second counts
/// if the other's time of day is later.
pub proof fn lemma_time_between(a: Moment, b: Moment)
    ensures
        time::nanos_between(a, b) == -time::nanos_between(b, a),
        time::nanos_between(a, a) == 0,
        a.nanos < 1_000_000_000 && b.nanos < 1_000_000_000 ==> time::nanos_between(a, b) == (b.secs
            - a.secs) * 1_000_000_000 + b.nanos - a.nanos,
        a.nanos >= 1_000_000_000 && b.secs % 86400 > a.secs % 86400 ==> time::nanos_between(a, b)
            == (b.secs - a.secs + 1) * 1_000_000_000 + b.nanos - a.nanos,
        a.nanos >= 1_000_000_000 && b.nanos < 1_000_000_000 && b.secs % 86400 <= a.secs % 86400
            ==> time::nanos_between(a, b) == (b.secs - a.secs) * 1_000_000_000 + b.nanos - a.nanos,
{
}

} // verus!
