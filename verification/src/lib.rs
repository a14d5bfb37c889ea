pub mod dedup;
pub mod extract;
pub mod pipeline;
pub mod similarity;
