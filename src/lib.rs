//! A rectangular grid maze with randomised walls, solved by a breadth-first
//! wavefront that advances every branch one step per tick.

pub mod position;
pub mod walls;
pub mod maze;

pub use position::Position;
pub use walls::Wall;
pub use maze::{Cell, Maze, MazeError};
