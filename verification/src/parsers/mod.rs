pub mod clippings;
pub mod notebook;
pub mod vocab;
