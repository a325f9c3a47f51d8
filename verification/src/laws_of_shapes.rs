//! What holds of what is drawn: the lines of a node, the edges below it and the
//! colors.

use vstd::prelude::*;

use crate::color;
use crate::color::Color;
use crate::group::GroupTree;
use crate::laws;
use crate::shape;
use crate::shape::Edges;
use crate::shape::Shape;
use crate::text;
use crate::tree::Kind;
use crate::tree::WatchState;

verus! {

/// In the line of joined items the first item stands at the beginning, the last
/// at the end, and between two neighbors exactly the separator.
pub proof fn lemma_separators_between(items: Seq<Seq<char>>, separator: Seq<char>, i: int)
    requires
        0 <= i < items.len(),
    ensures
        ({
            let line = text::joined(items, separator);
            let right = shape::from_end(line.len(), shape::chars_after(items, separator, i));
            let left = shape::from_end(
                line.len(),
                shape::chars_after(items, separator, i) + items[i].len(),
            );
            let next = shape::from_end(
                line.len(),
                shape::chars_after(items, separator, i + 1) + items[i + 1].len(),
            );
            &&& line.subrange(left as int, right as int) == items[i]
            &&& i == 0 ==> left == 0
            &&& i == items.len() - 1 ==> right == line.len()
            &&& i < items.len() - 1 ==> right <= next <= line.len() && line.subrange(
                right as int,
                next as int,
            ) == separator
        }),
{
    let line = text::joined(items, separator);
    let begin = text::joined(items.take(i + 1), separator);
    laws::lemma_span_holds_name(items, separator, i);
    laws::lemma_joined_begins(items, separator, i);
    if i == 0 {
        assert(items.take(1)[0] == items[0]);
        assert(begin == items[0]);
    }
    if i < items.len() - 1 {
        let longer = items.take(i + 2);
        let next = text::joined(longer, separator);
        laws::lemma_joined_begins(items, separator, i + 1);
        assert(longer.drop_last() =~= items.take(i + 1));
        assert(longer.last() == items[i + 1]);
        assert(next == begin + separator + items[i + 1]);
        let from = begin.len() as int;
        let to = from + separator.len();
        assert(next.subrange(from, to) =~= separator);
        assert(line.subrange(from, to) =~= line.take(next.len() as int).subrange(from, to));
    }
}

/// Joining nothing gives nothing.
pub proof fn lemma_nothing_joined(separator: Seq<char>)
    ensures
        text::joined(Seq::empty(), separator).len() == 0,
{
}

/// In a line with more or fewer glyphs than characters every span is moved by
/// the difference, as far as the beginning of the line.
pub proof fn lemma_spans_moved(
    items: Seq<Seq<char>>,
    separator: Seq<char>,
    i: int,
    glyphs: nat,
)
    requires
        0 <= i < items.len(),
    ensures
        ({
            let chars = text::joined(items, separator).len();
            let after = shape::chars_after(items, separator, i);
            let right = shape::from_end(chars, after);
            let left = shape::from_end(chars, after + items[i].len());
            let moved = glyphs - chars;
            &&& shape::from_end(glyphs, after) == if right + moved >= 0 {
                right + moved
            } else {
                0
            }
            &&& shape::from_end(glyphs, after + items[i].len()) == if left + moved >= 0 {
                left + moved
            } else {
                0
            }
        }),
{
    let chars = text::joined(items, separator).len();
    let begin = text::joined(items.take(i + 1), separator);
    laws::lemma_joined_begins(items, separator, i);
    assert(items.take(i + 1).last() == items[i]);
    assert(begin.len() >= items[i].len());
}

/// The text that the kind of a node carries.
pub open spec fn carried(kind: Kind) -> Option<Seq<char>> {
    match kind {
        Kind::Event(name) => Some(name),
        Kind::GroupIn(name) => Some(name),
        Kind::GroupOut(name) => Some(name),
        _ => None,
    }
}

/// A node is drawn with its name. Above its name, in the list of its lines,
/// stands the text that its kind carries, and above that, for a group with
/// outputs, the names of the outputs with bars between them. These groups and
/// no other nodes are drawn as groups.
pub proof fn lemma_lines_by_kind(node: GroupTree)
    ensures
        ({
            let lines = shape::lines_of(node);
            let name = node.content.name;
            let group = node.content.kind is GroupIn && node.extra is GroupNode;
            &&& lines.len() == 1 + (if carried(node.content.kind) is Some {
                1int
            } else {
                0
            }) + (if group {
                1int
            } else {
                0
            })
            &&& lines.last() == name
            &&& carried(node.content.kind) matches Some(text) ==> lines[lines.len() - 2] == text
            &&& group ==> lines[0] == text::joined(node.extra->GroupNode_0, " | "@)
            &&& shape::shape_of(node) is Group <==> group
            &&& shape::shape_of(node) is Plain <==> carried(node.content.kind) is None
            &&& match shape::shape_of(node) {
                Shape::Group { name: n, group_name, outputs } => n == name && Some(group_name)
                    == carried(node.content.kind) && outputs == text::joined(
                    node.extra->GroupNode_0,
                    " | "@,
                ),
                Shape::Described { name: n, description } => n == name && Some(description)
                    == carried(node.content.kind),
                Shape::Plain { name: n } => n == name,
            }
        }),
{
}

/// With fewer than two nodes below, the edges begin in the middle. With more,
/// those of a group with outputs begin under the outputs, and those of any
/// other node at even distances. All nodes below are drawn, but for those of a
/// group that there are no outputs left for.
pub proof fn lemma_edges_by_count(node: GroupTree)
    ensures
        ({
            let count = node.childs.len();
            &&& count < 2 ==> shape::edges_of(node) == Edges::Centered(count)
            &&& count >= 2 && node.extra is GroupNode ==> shape::edges_of(node)
                == Edges::UnderOutputs(node.extra->GroupNode_0)
            &&& count >= 2 && node.extra !is GroupNode ==> shape::edges_of(node) == Edges::Spread(
                count,
            )
            &&& shape::drawn_below(node) == if count >= 2 && node.extra is GroupNode
                && node.extra->GroupNode_0.len() < count {
                node.extra->GroupNode_0.len()
            } else {
                count
            }
        }),
{
}

/// Each state has its own color: cancelled is magenta, failed light red,
/// succeeded light green, running light blue, and no state light gray.
pub proof fn lemma_colors_tell_states(a: WatchState, b: WatchState)
    ensures
        color::color_of(a) == color::color_of(b) <==> a == b,
        a is Cancelled ==> color::color_of(a) == (Color { r: 255, g: 0, b: 255, a: 255 }),
        a is Failed ==> color::color_of(a) == (Color { r: 255, g: 128, b: 128, a: 255 }),
        a is Succeeded ==> color::color_of(a) == (Color { r: 0x90, g: 0xEE, b: 0x90, a: 255 }),
        a is Running ==> color::color_of(a) == (Color { r: 0xAD, g: 0xD8, b: 0xE6, a: 255 }),
        a is NoState ==> color::color_of(a) == (Color { r: 220, g: 220, b: 220, a: 255 }),
{
}

/// The product of two channels is within half a step of their product over 255,
/// and so never more than either of them.
pub proof fn lemma_channel_product(x: u8, y: u8)
    ensures
        -255 <= 510 * color::channel_product(x, y) - 2 * (x * y) <= 255,
        0 <= color::channel_product(x, y) <= x,
        color::channel_product(x, y) == color::channel_product(y, x),
        color::channel_product(x, 255) == x,
{
    assert(0 <= x * y <= x * 255) by (nonlinear_arith)
        requires
            0 <= x <= 255,
            0 <= y <= 255,
    ;
    assert(x * y == y * x) by (nonlinear_arith);
    assert(2 * x * y == 2 * (x * y)) by (nonlinear_arith);
    assert(2 * y * x == 2 * (x * y)) by (nonlinear_arith);
    assert(2 * x * 255 == 510 * x);
}

} // verus!
