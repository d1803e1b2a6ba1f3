pub mod blocks;
pub mod dce;
pub mod ir;
pub mod lvn;
