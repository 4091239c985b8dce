//! Verified core of a math-tools server: integer arithmetic and number
//! theory, combinatorial counting, the text helpers of the SVG renderer and
//! the coordinate-free decisions of the plotting tools.
pub mod arithmetic;
pub mod bits;
pub mod combinatorics;
pub mod counting;
pub mod error;
pub mod graphics;
pub mod number_theory;
pub mod plot;
pub mod server;
