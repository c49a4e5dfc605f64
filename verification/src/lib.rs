//! Page-level editing of PDF documents: merging, splitting, deleting,
//! reordering, inserting and rotating pages, with every page-tree update
//! stated over a mathematical model of the document's object graph.

pub mod collector;
pub mod error;
pub mod merger;
pub mod model;
pub mod numbers;
pub mod pages;
pub mod pdf;
pub mod rebuilder;
pub mod rotation;
pub mod single_page;
pub mod store;
