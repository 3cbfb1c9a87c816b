//! Finds a chain of references leading from one wiki topic to another, by a
//! breadth-first walk of a reference graph whose articles are looked up on demand.

pub mod args;
pub mod article;
pub mod explorer;
pub mod html;
pub mod job;
pub mod path_tree;
pub mod search;
pub mod story_builder;
pub mod topic;
pub mod wiki_index;
pub mod wiki_uri;
