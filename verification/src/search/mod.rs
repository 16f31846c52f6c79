pub mod eval;
pub mod move_ordering;
pub mod tt;
pub mod searcher;
pub mod mate_bound;
