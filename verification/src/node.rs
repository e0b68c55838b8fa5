//! The list element and the links that join elements together.

use vstd::prelude::*;
use vstd::string::StringExecFns;

verus! {

/// A link to a node: the arena slot that the node occupies, or nothing.
pub type Link = Option<usize>;

/// One entry of a log: its value and the links to its neighbours.
#[derive(Debug, PartialEq, Eq)]
pub struct Node {
    pub value: String,
    pub next: Link,
    pub prev: Link,
}

/// What a node holds, as plain values.
#[verifier::ext_equal]
pub struct NodeView {
    pub value: Seq<char>,
    pub next: Link,
    pub prev: Link,
}

impl View for Node {
    type V = NodeView;

    /// The text of the value, and the two links as they are.
    open spec fn view(&self) -> NodeView {
        NodeView { value: self.value@, next: self.next, prev: self.prev }
    }
}

impl Clone for Node {
    /// A node with the same value and the same links.
    fn clone(&self) -> (copy: Node)
        ensures
            copy == *self,
    {
        Node { value: self.value.clone(), next: self.next, prev: self.prev }
    }
}

impl Node {
    /// A node that holds `value` and is linked to nothing.
    pub fn new(value: String) -> (node: Node)
        ensures
            node == (Node { value, next: None, prev: None }),
    {
        Node { value, next: None, prev: None }
    }

    /// A node that holds `value` and the two given links.
    pub fn new_with(value: String, next: Link, prev: Link) -> (node: Node)
        ensures
            node == (Node { value, next, prev }),
    {
        Node { value, next, prev }
    }
}

/// The text that the standard library's `Debug` formatting gives for a
/// string: the string between double quotes, with escapes.
pub uninterp spec fn debug_text(text: Seq<char>) -> Seq<char>;

/// `"true"` or `"false"`.
pub open spec fn flag_text(flag: bool) -> Seq<char> {
    if flag {
        "true"@
    } else {
        "false"@
    }
}

/// The shallow description of a node: its value as already quoted, and
/// whether it has a backward and a forward link. It never shows where the
/// links lead.
pub open spec fn description(quoted_value: Seq<char>, has_prev: bool, has_next: bool) -> Seq<
    char,
> {
    "NOD { irreplaceable: "@ + quoted_value + ", back2back: "@ + flag_text(has_prev)
        + ", forwards: "@ + flag_text(has_next) + " }"@
}

/// Formats `text` with `format!("{:?}", ..)`, which for a `str` runs the
/// standard library's `Debug` formatting. This is not proved: the contract
/// takes on trust that the result depends on the text alone, and gives it
/// the name `debug_text`. It says nothing of what the result looks like.
#[verifier::external_body]
fn debug_quoted(text: &str) -> (quoted: String)
    ensures
        quoted@ == debug_text(text@),
{
    format!("{:?}", text)
}

/// Writes out the shallow description of a node from its quoted value and
/// its two flags.
pub fn describe_parts(quoted_value: &str, has_prev: bool, has_next: bool) -> (text: String)
    ensures
        text@ == description(quoted_value@, has_prev, has_next),
{
    let mut text = "NOD { irreplaceable: ".to_owned();
    text.append(quoted_value);
    text.append(", back2back: ");
    text.append(if has_prev { "true" } else { "false" });
    text.append(", forwards: ");
    text.append(if has_next { "true" } else { "false" });
    text.append(" }");
    text
}

impl Node {
    /// The shallow description of this node. It shows the value and whether
    /// the node has a predecessor and a successor, and never follows a
    /// link.
    pub fn describe(&self) -> (text: String)
        ensures
            text@ == description(debug_text(self.value@), self.prev is Some, self.next is Some),
    {
        let quoted = debug_quoted(self.value.as_str());
        describe_parts(quoted.as_str(), self.prev.is_some(), self.next.is_some())
    }
}

} // verus!
