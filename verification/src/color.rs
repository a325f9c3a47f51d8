//! The colors of the states.

use vstd::prelude::*;

use crate::tree::WatchState;

verus! {

/// A color by its premultiplied channels.
#[derive(PartialEq, Eq, Structural, Debug, Clone, Copy)]
pub struct Color {
    pub r: u8,
    pub g: u8,
    pub b: u8,
    pub a: u8,
}

/// Reads `egui::Color32::MAGENTA`, which is red and blue in full.
#[verifier::external_body]
fn magenta() -> (color: Color)
    ensures
        color == (Color { r: 255, g: 0, b: 255, a: 255 }),
{
    let [r, g, b, a] = egui::Color32::MAGENTA.to_array();
    Color { r, g, b, a }
}

/// Reads `egui::Color32::LIGHT_RED`, which is red in full, the rest in half.
#[verifier::external_body]
fn light_red() -> (color: Color)
    ensures
        color == (Color { r: 255, g: 128, b: 128, a: 255 }),
{
    let [r, g, b, a] = egui::Color32::LIGHT_RED.to_array();
    Color { r, g, b, a }
}

/// Reads `egui::Color32::LIGHT_GRAY`, which is 220 in each channel.
#[verifier::external_body]
fn light_gray() -> (color: Color)
    ensures
        color == (Color { r: 220, g: 220, b: 220, a: 255 }),
{
    let [r, g, b, a] = egui::Color32::LIGHT_GRAY.to_array();
    Color { r, g, b, a }
}

/// Reads `egui::Color32::LIGHT_GREEN`, which is #90ee90.
#[verifier::external_body]
fn light_green() -> (color: Color)
    ensures
        color == (Color { r: 0x90, g: 0xEE, b: 0x90, a: 255 }),
{
    let [r, g, b, a] = egui::Color32::LIGHT_GREEN.to_array();
    Color { r, g, b, a }
}

/// Reads `egui::Color32::LIGHT_BLUE`, which is #add8e6.
#[verifier::external_body]
fn light_blue() -> (color: Color)
    ensures
        color == (Color { r: 0xAD, g: 0xD8, b: 0xE6, a: 255 }),
{
    let [r, g, b, a] = egui::Color32::LIGHT_BLUE.to_array();
    Color { r, g, b, a }
}

/// The product of two channels, where 255 stands for one: rounded to the
/// nearest, which there always is, for the product is never half way between two.
pub open spec fn channel_product(x: u8, y: u8) -> int {
    (2 * x * y + 255) / 510
}

/// Multiplies two colors with `egui::Color32`'s `*`, made from their channels
/// by `from_rgba_premultiplied`. The claim is that each channel of the product
/// is the product of the channels.
#[verifier::external_body]
fn multiply(x: Color, y: Color) -> (product: Color)
    ensures
        product.r == channel_product(x.r, y.r),
        product.g == channel_product(x.g, y.g),
        product.b == channel_product(x.b, y.b),
        product.a == channel_product(x.a, y.a),
{
    let left = egui::Color32::from_rgba_premultiplied(x.r, x.g, x.b, x.a);
    let right = egui::Color32::from_rgba_premultiplied(y.r, y.g, y.b, y.a);
    let [r, g, b, a] = (left * right).to_array();
    Color { r, g, b, a }
}

/// The color of a state.
pub open spec fn color_of(state: WatchState) -> Color {
    match state {
        WatchState::Cancelled => Color { r: 255, g: 0, b: 255, a: 255 },
        WatchState::Failed => Color { r: 255, g: 128, b: 128, a: 255 },
        WatchState::NoState => Color { r: 220, g: 220, b: 220, a: 255 },
        WatchState::Succeeded => Color { r: 0x90, g: 0xEE, b: 0x90, a: 255 },
        WatchState::Running => Color { r: 0xAD, g: 0xD8, b: 0xE6, a: 255 },
    }
}

/// The color in which a node is filled, by its state.
pub fn state_color(state: WatchState) -> (color: Color)
    ensures
        color == color_of(state),
{
    match state {
        WatchState::Cancelled => magenta(),
        WatchState::Failed => light_red(),
        WatchState::NoState => light_gray(),
        WatchState::Succeeded => light_green(),
        WatchState::Running => light_blue(),
    }
}

/// The color of the edge that leads to a node: the node's own, darkened.
pub fn edge_color(state: WatchState) -> (color: Color)
    ensures
        color.r == channel_product(color_of(state).r, 200),
        color.g == channel_product(color_of(state).g, 200),
        color.b == channel_product(color_of(state).b, 200),
        color.a == 255,
{
    multiply(state_color(state), Color { r: 200, g: 200, b: 200, a: 255 })
}

} // verus!
