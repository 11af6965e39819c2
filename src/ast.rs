//! The node tree that the renderer walks.
use vstd::prelude::*;

verus! {

/// Attributes of a node, in insertion order.
pub type Attrs = Vec<(String, String)>;

/// What a node is, with the data that its kind carries.
pub enum TagKind {
    Doc,
    Heading,
    Para,
    /// a link, with its destination once resolved
    Link(Option<String>),
    /// an image, with its source once resolved
    Image(Option<String>),
    /// a code block: its text and an optional language
    CodeBlock(String, Option<String>),
    Strong,
    Emph,
    DoubleQuoted,
    Softbreak,
    /// an autolink, with its destination
    Url(String),
    /// literal text
    Str(String),
    /// a code span's text
    Verbatim(String),
    Span,
    ReferenceDefinition,
    ReferenceKey,
    ReferenceValue,
}

/// A node: its kind, its attributes and its children.
pub struct Tag {
    pub kind: TagKind,
    pub attrs: Attrs,
    pub children: Vec<Tag>,
}

/// The root of a tree.
pub struct Document {
    pub children: Vec<Tag>,
}

/// The literal text under a node: the text of its `Str` and `Verbatim`
/// descendants, in order.
pub open spec fn string_content(t: Tag) -> Seq<char>
    decreases t, 1nat,
{
    match t.kind {
        TagKind::Str(s) => s@,
        TagKind::Verbatim(s) => s@,
        _ => children_content(t, t.children@.len() as int),
    }
}

/// The literal text under the first `n` children of `t`.
pub open spec fn children_content(t: Tag, n: int) -> Seq<char>
    decreases t, 0nat, n,
{
    if n <= 0 || n > t.children@.len() {
        Seq::empty()
    } else {
        children_content(t, n - 1) + string_content(t.children@[n - 1])
    }
}

} // verus!
