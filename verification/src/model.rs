//! The mathematical model of a tree and of its text rendering.
//!
//! A [`TreeView`] is the abstract value of a tree node: a label (a sequence
//! of characters) and an ordered sequence of child views.  The rendering of
//! a whole tree is `rendering(t)`, a flat sequence of characters; it is
//! defined line by line, exactly as the renderer emits them:
//!
//! - every line of a node drawn as a child starts with one space, then two
//!   characters per open ancestor depth (`"│ "` while that ancestor still
//!   has siblings below it, `"  "` otherwise), then the two-character
//!   connector (`"└─"` for a last child, `"├─"` otherwise);
//! - the root line has no lead-in, no prefix and no connector;
//! - every line ends with a single newline.

use vstd::prelude::*;

verus! {

/// The abstract value of a tree node: its label and its children, in order.
#[verifier::ext_equal]
pub struct TreeView {
    pub label: Seq<char>,
    pub children: Seq<TreeView>,
}

/// The two characters drawn for one ancestor depth: a continuation bar
/// while that ancestor still has siblings to come, blank space otherwise.
pub open spec fn indent_unit(open_below: bool) -> Seq<char> {
    if open_below {
        seq!['│', ' ']
    } else {
        seq![' ', ' ']
    }
}

/// The indentation drawn before a node's connector: two characters per
/// entry of the indent stack, outermost ancestor first.
pub open spec fn indent_prefix(indent: Seq<bool>) -> Seq<char>
    decreases indent.len(),
{
    if indent.len() == 0 {
        Seq::empty()
    } else {
        indent_prefix(indent.drop_last()) + indent_unit(indent.last())
    }
}

/// The two-character connector of a line drawn as a child.
pub open spec fn connector(is_last: bool) -> Seq<char> {
    if is_last {
        seq!['└', '─']
    } else {
        seq!['├', '─']
    }
}

/// The single leading space that every child line carries; the root line
/// has none.
pub open spec fn lead_in(is_child: bool) -> Seq<char> {
    if is_child {
        seq![' ']
    } else {
        Seq::empty()
    }
}

/// The one line a node itself contributes: lead-in, indentation, connector
/// (for a child only), label, newline.
pub open spec fn line_text(t: TreeView, indent: Seq<bool>, is_child: bool, is_last: bool) -> Seq<
    char,
> {
    lead_in(is_child) + indent_prefix(indent) + (if is_child {
        connector(is_last)
    } else {
        Seq::empty()
    }) + t.label + seq!['\n']
}

/// The indent stack a node's children are rendered under: a node drawn as
/// a child that has children pushes "not last" (its column must keep a bar
/// while siblings follow); the root pushes nothing.
pub open spec fn next_indent(t: TreeView, indent: Seq<bool>, is_child: bool, is_last: bool) -> Seq<
    bool,
> {
    if is_child && t.children.len() > 0 {
        indent.push(!is_last)
    } else {
        indent
    }
}

/// The full rendering of a node and its subtree: its own line, then its
/// children in stored order.
pub open spec fn render_at(t: TreeView, indent: Seq<bool>, is_child: bool, is_last: bool) -> Seq<
    char,
>
    decreases t, 1int, 0int,
{
    line_text(t, indent, is_child, is_last) + render_from(
        t.children,
        next_indent(t, indent, is_child, is_last),
        0,
    )
}

/// The renderings of the children from position `i` on, concatenated;
/// the child at the final position is drawn as a last child.
pub open spec fn render_from(kids: Seq<TreeView>, indent: Seq<bool>, i: int) -> Seq<char>
    decreases kids, 0int, kids.len() - i,
{
    if i < 0 || i >= kids.len() {
        Seq::empty()
    } else {
        render_at(kids[i], indent, true, i == kids.len() - 1) + render_from(kids, indent, i + 1)
    }
}

/// The rendering of a whole tree: its root is drawn with an empty indent
/// stack and without a connector.
pub open spec fn rendering(t: TreeView) -> Seq<char> {
    render_at(t, Seq::empty(), false, false)
}

/// The number of nodes in the subtree rooted at `t`.
pub open spec fn node_count(t: TreeView) -> nat
    decreases t, 1int, 0int,
{
    1 + count_from(t.children, 0)
}

/// The number of nodes in the subtrees of the children from position `i` on.
pub open spec fn count_from(kids: Seq<TreeView>, i: int) -> nat
    decreases kids, 0int, kids.len() - i,
{
    if i < 0 || i >= kids.len() {
        0
    } else {
        node_count(kids[i]) + count_from(kids, i + 1)
    }
}

} // verus!
