//! Fixed values of the game: the colors it can draw from, the limits of its
//! configuration, and the vocabulary of events between the engine and its
//! host.

use crate::grid::Color;
use vstd::prelude::*;

verus! {

pub const APPNAME: &'static str = "Gravitate";
pub const VERSION: &'static str = "8.0.4";

pub const SIZE_MIN: u8 = 5;
pub const SIZE_MAX: u8 = 30;
pub const COLORS_MIN: u8 = 3;
pub const DELAY_MS_MIN: u16 = 0;
pub const DELAY_MS_MAX: u16 = 1000;
/// How long the host shows a status message, in milliseconds.
pub const MESSAGE_DELAY_MS: u32 = 10000;
/// How many random palettes a new game draws before it settles for
/// repairing the last one.
pub const PALETTE_ATTEMPTS: u32 = 10000;

pub const MAROON: Color = 0x800000;
pub const BROWN: Color = 0x9A6324;
pub const OLIVE: Color = 0x808000;
pub const TEAL: Color = 0x469990;
pub const NAVY: Color = 0x000075;
pub const BLACK: Color = 0x000000;
pub const RED: Color = 0xE6194B;
pub const ORANGE: Color = 0xF58231;
pub const YELLOW: Color = 0xFFE119;
pub const LIME: Color = 0xBFEF45;
pub const GREEN: Color = 0x3CB44B;
pub const CYAN: Color = 0x42D4F4;
pub const BLUE: Color = 0x4363D8;
pub const PURPLE: Color = 0x911EB4;
pub const MAGENTA: Color = 0xF032E6;
pub const GREY: Color = 0xA9A9A9;
pub const PINK: Color = 0xFABED4;
pub const APRICOT: Color = 0xFFD8B1;
pub const BEIGE: Color = 0xFFFAC8;
pub const MINT: Color = 0xAAFFC3;
pub const LAVENDER: Color = 0xDCBEFF;
pub const WHITE: Color = 0xFFFFFF;

/// Every color a palette may hold, in a fixed order.
pub open spec fn all_colors() -> Seq<Color> {
    seq![
        MAROON, BROWN, OLIVE, TEAL, NAVY, BLACK, RED, ORANGE, YELLOW, LIME, GREEN,
        CYAN, BLUE, PURPLE, MAGENTA, GREY, PINK, APRICOT, BEIGE, MINT, LAVENDER, WHITE,
    ]
}

/// The colors a palette may hold.
pub fn initialize_colors() -> (r: Vec<Color>)
    ensures
        r@ == all_colors(),
        r@.no_duplicates(),
{
    let r = vec![
        MAROON, BROWN, OLIVE, TEAL, NAVY, BLACK, RED, ORANGE, YELLOW, LIME, GREEN,
        CYAN, BLUE, PURPLE, MAGENTA, GREY, PINK, APRICOT, BEIGE, MINT, LAVENDER, WHITE,
    ];
    assert(r@ =~= all_colors());
    r
}

/// `a` and `b` are hard to tell apart on the board, `a` being the first of
/// the pair as listed.
pub open spec fn confusable(a: Color, b: Color) -> bool {
    (a == BEIGE && b == WHITE) || (a == TEAL && b == GREEN) || (a == PINK && b == APRICOT)
}

/// No two colors of `p` are hard to tell apart.
pub open spec fn acceptable(p: Seq<Color>) -> bool {
    forall|i: int, j: int| 0 <= i < p.len() && 0 <= j < p.len() ==> !confusable(#[trigger] p[i], #[trigger] p[j])
}

/// An event that the host delivers to the engine, or one that the engine
/// asks the host to deliver back.
#[derive(Clone, Copy, Debug, PartialEq, Eq, Structural)]
pub enum Action {
    New,
    Options,
    About,
    Help,
    Quit,
    MoveUp,
    MoveDown,
    MoveLeft,
    MoveRight,
    ClickTile,
    PressTile,
    DeleteAdjoining,
    CloseUp,
    Redraw,
    UpdatedScore(u16),
    GameOver,
}

/// A direction in which the keyboard cursor moves.
#[derive(Clone, Copy, Debug, PartialEq, Eq, Structural)]
pub enum Arrow {
    Left,
    Right,
    Up,
    Down,
}

} // verus!
