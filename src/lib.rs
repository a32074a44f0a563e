//! Recovery of page annotation lists that lost references to annotation
//! objects which still survive elsewhere in a PDF object graph.
pub mod refs;
pub mod index;
pub mod recovery;
pub mod document;
pub mod laws;
