//! Inline scanner for a lightweight markup language: turns raw text into a
//! flat, position-indexed stream of annotated spans. A renderer turns a node
//! tree into HTML.
use vstd::prelude::*;

pub mod patterns;
pub mod span;
pub mod inline;
pub mod ast;
pub mod html;

pub use inline::{Parser, finalize};
pub use span::{Annot, Container, Match};
pub use ast::{Attrs, Document, Tag, TagKind};
pub use html::{convert, get_string_content};

verus! {

} // verus!
