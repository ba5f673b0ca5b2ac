//! Fixed-precision decimal numbers (a 96-bit mantissa scaled by a power of ten),
//! their arithmetic, text forms, and the property checks run over them.
pub mod arith;
pub mod model;
pub mod digits;
pub mod decimal;
pub mod ops;
pub mod mul;
pub mod div;
pub mod maths;
pub mod bounds;
pub mod text;
pub mod parse;
pub mod etna;
pub mod report;

pub use decimal::Decimal;
pub use text::DecimalError;
