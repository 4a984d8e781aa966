//! A verified model of the Klotski sliding-block puzzle on its fixed grid of
//! 5 rows and 4 columns: grid geometry, rectangular pieces, board states with
//! their legal slides, and a shortest-route search over the boards.

pub mod board;
pub mod coordinates;
pub mod direction;
pub mod errors;
pub mod layout;
pub mod moves;
pub mod piece;
pub mod solver;

pub use solver::solve_klotski;
