pub mod eval;
pub mod regexs;
