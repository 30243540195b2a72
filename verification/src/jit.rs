//! What can be compiled to machine code, and how.
pub mod agree;
pub mod calls;
pub mod choosing;
pub mod dead;
pub mod defs;
pub mod either;
pub mod emit;
pub mod entering;
pub mod exits;
pub mod faithful;
pub mod flags;
pub mod following;
pub mod infer;
pub mod ir;
pub mod kinds;
pub mod lengths;
pub mod lower;
pub mod lowering;
pub mod made;
pub mod making;
pub mod matching;
pub mod meaning;
pub mod reading;
pub mod recursive;
pub mod running;
pub mod session;
pub mod several;
pub mod slots;
pub mod source;
pub mod sums;
pub mod unit;
pub mod usage;
pub mod walk;
pub mod writes;
