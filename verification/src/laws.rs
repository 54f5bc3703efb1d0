//! Laws that relate the operations of the library to each other, stated over the sets that the
//! operations' contracts speak of.
pub mod order;
pub mod representation;
pub mod sets;
pub mod text;
pub mod visits;
pub mod words;
