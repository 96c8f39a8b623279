// Polyominoes and the hole they can surround: the grid enumerator of fixed polyominoes
// (`omino`), rotation, perimeter and merge primitives with the stack searches
// (`assemble`), the board search (`board`), and rotational equivalence (`equivalence`).

pub mod omino;
pub mod assemble;
pub mod board;
pub mod equivalence;
