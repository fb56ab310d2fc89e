#![allow(unused_imports)]
use vstd::prelude::*;

use crate::model::CellContent;

verus! {

/// The capability the game draws through.  The engine itself never prints:
/// it hands the renderer an owned snapshot of the grid on every successful
/// tick, and the score when the game ends.  Concrete renderers live outside
/// the verified core and implement these three calls.
pub trait View {
    fn draw_title_screen(&self);

    fn draw_frame(&self, grid: Vec<Vec<CellContent>>);

    fn draw_game_over(&self, score: usize);
}

} // verus!
