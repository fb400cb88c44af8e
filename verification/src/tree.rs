//! The tree data structure and its verified renderer.
//!
//! A [`TreeNode`] owns its label and its children; the only mutation is
//! appending a child, so the structure is a strict tree and traversal
//! terminates.  `display` produces exactly the text that the spec function
//! [`render_at`] describes, and `render` the whole-tree text [`rendering`].

use vstd::prelude::*;

use crate::model::{
    TreeView, indent_prefix, indent_unit, lead_in, line_text, next_indent, render_at, render_from,
    rendering,
};

verus! {

/// A labeled tree node owning an ordered sequence of children.
pub struct TreeNode {
    name: String,
    children: Vec<TreeNode>,
}

impl View for TreeNode {
    type V = TreeView;

    closed spec fn view(&self) -> TreeView
        decreases self, 1int,
    {
        TreeView { label: self.name@, children: views_of(self.children@) }
    }
}

/// The views of a sequence of nodes, in order.
pub open spec fn views_of(nodes: Seq<TreeNode>) -> Seq<TreeView>
    decreases nodes, 0int,
{
    if nodes.len() == 0 {
        Seq::empty()
    } else {
        views_of(nodes.drop_last()).push(nodes.last()@)
    }
}

/// `views_of` maps each node to its view, position by position.
pub proof fn lemma_views_of(nodes: Seq<TreeNode>)
    ensures
        views_of(nodes).len() == nodes.len(),
        forall|i: int| 0 <= i < nodes.len() ==> #[trigger] views_of(nodes)[i] == nodes[i]@,
    decreases nodes.len(),
{
    if nodes.len() > 0 {
        lemma_views_of(nodes.drop_last());
        assert(views_of(nodes) == views_of(nodes.drop_last()).push(nodes.last()@));
        assert forall|i: int| 0 <= i < nodes.len() implies #[trigger] views_of(nodes)[i]
            == nodes[i]@ by {
            if i < nodes.len() - 1 {
                assert(views_of(nodes.drop_last()).push(nodes.last()@)[i]
                    == views_of(nodes.drop_last())[i]);
                assert(nodes.drop_last()[i] == nodes[i]);
            } else {
                assert(views_of(nodes.drop_last()).push(nodes.last()@)[i] == nodes.last()@);
            }
        }
    }
}

impl TreeNode {
    /// A leaf node: the given label, no children.
    pub fn new(name: &str) -> (node: TreeNode)
        ensures
            node@.label == name@,
            node@.children == Seq::<TreeView>::empty(),
    {
        let node = TreeNode { name: name.to_owned(), children: Vec::new() };
        proof {
            assert(node@.children =~= Seq::<TreeView>::empty());
        }
        node
    }

    /// A node whose children are the given nodes, in the given order.
    pub fn new_with_children(name: &str, children: Vec<TreeNode>) -> (node: TreeNode)
        ensures
            node@.label == name@,
            node@.children == views_of(children@),
            node@.children.len() == children@.len(),
            forall|i: int| 0 <= i < children@.len() ==> node@.children[i] == #[trigger] children@[i]@,
    {
        let node = TreeNode { name: name.to_owned(), children };
        proof {
            lemma_views_of(node.children@);
        }
        node
    }

    /// Appends `child` at the end of the child sequence; earlier children
    /// keep their places, so siblings stay in append order.
    pub fn add_child(&mut self, child: TreeNode)
        ensures
            final(self)@.label == old(self)@.label,
            final(self)@.children == old(self)@.children.push(child@),
    {
        let ghost before = self.children@;
        let ghost child_view = child@;
        self.children.push(child);
        proof {
            assert(self.children@.drop_last() =~= before);
            assert(self@.children == views_of(before).push(child_view));
        }
    }

    /// True exactly when the node has at least one child.
    pub fn has_children(&self) -> (res: bool)
        ensures
            res == (self@.children.len() > 0),
    {
        proof {
            lemma_views_of(self.children@);
        }
        !self.children.is_empty()
    }

    /// Renders this node and its subtree under the given traversal state:
    /// the indent stack of the open ancestor depths, whether the node is
    /// drawn as a child, and whether it is the last child of its parent.
    /// The indent stack is handed back exactly as it came in.
    pub fn display(&self, indent: &mut Vec<bool>, is_child: bool, is_last: bool) -> (out: String)
        ensures
            out@ == render_at(self@, old(indent)@, is_child, is_last),
            final(indent)@ == old(indent)@,
        decreases *self,
    {
        proof {
            reveal_strlit(" ");
            reveal_strlit("│ ");
            reveal_strlit("  ");
            reveal_strlit("└─");
            reveal_strlit("├─");
            reveal_strlit("\n");
        }
        let ghost ind0 = indent@;
        let mut output = String::new();
        if is_child {
            output.append(" ");
        }
        proof {
            assert(output@ =~= lead_in(is_child) + indent_prefix(ind0.take(0)));
        }
        // the indentation: one two-character unit per open ancestor depth
        let mut k: usize = 0;
        while k < indent.len()
            invariant
                indent@ == ind0,
                k <= ind0.len(),
                output@ == lead_in(is_child) + indent_prefix(ind0.take(k as int)),
            decreases ind0.len() - k,
        {
            if indent[k] {
                output.append("│ ");
            } else {
                output.append("  ");
            }
            proof {
                reveal_strlit("│ ");
                reveal_strlit("  ");
                let unit = indent_unit(ind0[k as int]);
                assert("│ "@ =~= seq!['│', ' ']);
                assert("  "@ =~= seq![' ', ' ']);
                assert(output@ == lead_in(is_child) + indent_prefix(ind0.take(k as int)) + unit);
                assert(ind0.take(k as int + 1).drop_last() =~= ind0.take(k as int));
                assert(ind0.take(k as int + 1)[k as int] == ind0[k as int]);
                assert(ind0.take(k as int + 1).last() == ind0[k as int]);
                assert(indent_prefix(ind0.take(k as int + 1)) == indent_prefix(ind0.take(k as int))
                    + unit);
                assert(output@ =~= lead_in(is_child) + indent_prefix(ind0.take(k as int + 1)));
            }
            k += 1;
        }
        // the connector, for a node drawn as a child
        if is_child {
            if is_last {
                output.append("└─");
            } else {
                output.append("├─");
            }
        }
        output.append(self.name.as_str());
        output.append("\n");
        proof {
            assert(ind0.take(ind0.len() as int) =~= ind0);
            assert(output@ =~= line_text(self@, ind0, is_child, is_last));
        }
        let ghost head = output@;

        let pushed = self.has_children() && is_child;
        if pushed {
            indent.push(!is_last);
        }
        let ghost ind1 = indent@;
        proof {
            lemma_views_of(self.children@);
            assert(ind1 =~= next_indent(self@, ind0, is_child, is_last));
        }

        // the children, in stored order; the one at the final position is last
        let n: usize = self.children.len();
        let mut x: usize = 0;
        while x < n
            invariant
                n == self.children.len(),
                x <= n,
                indent@ == ind1,
                head == line_text(self@, ind0, is_child, is_last),
                self@.children == views_of(self.children@),
                views_of(self.children@).len() == n,
                forall|i: int|
                    0 <= i < n ==> #[trigger] views_of(self.children@)[i] == self.children@[i]@,
                output@ + render_from(self@.children, ind1, x as int) == head + render_from(
                    self@.children,
                    ind1,
                    0,
                ),
            decreases n - x,
        {
            let ghost out_before = output@;
            let child = &self.children[x];
            let last = x == n - 1;
            proof {
                assert(decreases_to!(self.children => self.children[x as int]));
            }
            let child_out = child.display(indent, true, last);
            output.append(child_out.as_str());
            proof {
                let cs = self@.children;
                assert(render_from(cs, ind1, x as int) == render_at(
                    cs[x as int],
                    ind1,
                    true,
                    x == n - 1,
                ) + render_from(cs, ind1, x as int + 1));
                assert(output@ + render_from(cs, ind1, x as int + 1) =~= out_before + render_from(
                    cs,
                    ind1,
                    x as int,
                ));
            }
            x += 1;
        }
        proof {
            assert(render_from(self@.children, ind1, n as int) =~= Seq::<char>::empty());
            assert(output@ =~= output@ + render_from(self@.children, ind1, n as int));
        }

        // restore the indent stack for the caller's remaining siblings
        if pushed {
            let _ = indent.pop();
            proof {
                assert(indent@ =~= ind0);
            }
        }
        proof {
            assert(output@ =~= render_at(self@, ind0, is_child, is_last));
        }
        output
    }

    /// Renders the whole tree: the root line bare, every descendant with
    /// its lead-in, indentation and connector, one newline-terminated line
    /// per node, in pre-order.
    pub fn render(&self) -> (out: String)
        ensures
            out@ == rendering(self@),
    {
        let mut indent: Vec<bool> = Vec::new();
        let out = self.display(&mut indent, false, false);
        proof {
            assert(indent@ =~= Seq::<bool>::empty());
        }
        out
    }
}

} // verus!
