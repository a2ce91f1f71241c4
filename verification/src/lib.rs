pub mod fmt;
pub mod graph;
pub mod iter;
pub mod label;
pub mod layout;
pub mod model;
pub mod parts;
pub mod render;
pub mod seqs;
pub mod topology;
pub mod util;
