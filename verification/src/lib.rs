//! Conway's Game of Life on a fixed-size rectangular grid.
//!
//! The grid holds two equally sized bit buffers: the current generation and
//! a scratch buffer for the next one. Cells are read and written through
//! bounds-checked accessors, and a step advances the whole grid by one
//! generation, either at once or one reported cell change at a time.

mod bits;
mod rules;
mod grid;

pub use grid::GameOfLife;
pub use grid::Update;
pub use grid::Updates;
pub use grid::lemma_fresh_grid_all_dead;
pub use grid::lemma_set_then_get;
pub use grid::lemma_reads_idempotent;
pub use rules::nb;
pub use rules::live_neighbors;
pub use rules::next_state;
pub use rules::step_cell;
pub use rules::is_step;
pub use rules::visits_before;
pub use rules::unchanged_between;
pub use rules::toggled;
pub use rules::lemma_step_deterministic;
pub use rules::lemma_corner_clamped;
pub use rules::lemma_toggle_twice;
