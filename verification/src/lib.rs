pub mod apply;
pub mod edit;
pub mod entries;
pub mod filter;
pub mod row;
pub mod tags;
pub mod task;
pub mod text;
