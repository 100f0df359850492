use vstd::prelude::*;

verus! {

/// An inline element of a markdown document tree.
#[derive(Debug)]
pub enum Inline {
    Text(String),
    Italic(Vec<Inline>),
    Bold(Vec<Inline>),
    Link { url: String, title: Vec<Inline> },
}

} // verus!
