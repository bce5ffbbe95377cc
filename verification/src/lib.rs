//! Scripts that multiply big integers on a stack machine with an altstack,
//! by the fixed-window (w-width) method, with the tables of precomputed
//! multiples that the method uses.

pub mod machine;
pub mod script;
pub mod precompute;
pub mod window;
pub mod mul;
