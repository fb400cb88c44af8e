//! Properties of the rendering, proved over the model in [`crate::model`].
//!
//! Together these pin the output format down: a leaf renders as its bare
//! label line, the rendering lists one line per node in pre-order with each
//! child's subtree in one contiguous block, the connector of a child line
//! is `"└─"` exactly for a last child, and the indentation column of an
//! ancestor depth carries `"│ "` exactly while that ancestor still has
//! siblings below it.

use vstd::prelude::*;

use crate::model::{
    TreeView, connector, count_from, indent_prefix, indent_unit, lead_in, line_text, next_indent,
    node_count, render_at, render_from, rendering,
};

verus! {

/// A leaf's rendering is exactly its label followed by one newline.
pub proof fn lemma_leaf_rendering(t: TreeView)
    requires
        t.children.len() == 0,
    ensures
        rendering(t) == t.label + seq!['\n'],
{
    assert(rendering(t) =~= t.label + seq!['\n']);
}

/// The indentation is two characters per stack entry, and the two at
/// depth `d` are `"│ "` exactly when the entry at `d` is open below.
#[verifier::rlimit(50)]
pub proof fn lemma_prefix_units(indent: Seq<bool>, d: int)
    requires
        0 <= d < indent.len(),
    ensures
        indent_prefix(indent).len() == 2 * indent.len(),
        indent_prefix(indent).subrange(2 * d, 2 * d + 2) == indent_unit(indent[d]),
        indent_prefix(indent).subrange(2 * d, 2 * d + 2) == seq!['│', ' '] <==> indent[d],
{
    lemma_prefix_len(indent);
    lemma_prefix_unit_at(indent, d);
    if indent[d] {
        assert(indent_unit(true) =~= seq!['│', ' ']);
    } else {
        assert(indent_unit(false)[0] == ' ');
        assert(seq!['│', ' '][0] == '│');
        assert(indent_unit(false) != seq!['│', ' ']);
    }
}

proof fn lemma_prefix_unit_at(indent: Seq<bool>, d: int)
    requires
        0 <= d < indent.len(),
    ensures
        indent_prefix(indent).subrange(2 * d, 2 * d + 2) == indent_unit(indent[d]),
    decreases indent.len(),
{
    lemma_prefix_len(indent);
    lemma_prefix_len(indent.drop_last());
    if d == indent.len() - 1 {
        assert(indent_prefix(indent).subrange(2 * d, 2 * d + 2) =~= indent_unit(indent[d]));
    } else {
        lemma_prefix_unit_at(indent.drop_last(), d);
        assert(indent_prefix(indent).subrange(2 * d, 2 * d + 2) =~= indent_prefix(
            indent.drop_last(),
        ).subrange(2 * d, 2 * d + 2));
        assert(indent.drop_last()[d] == indent[d]);
    }
}

/// The indentation's length: two characters per stack entry.
pub proof fn lemma_prefix_len(indent: Seq<bool>)
    ensures
        indent_prefix(indent).len() == 2 * indent.len(),
    decreases indent.len(),
{
    if indent.len() > 0 {
        lemma_prefix_len(indent.drop_last());
    }
}

/// In a child's line the two characters after the lead-in and the
/// indentation are the connector, and they are `"└─"` exactly when the
/// node is drawn as the last child of its parent.
pub proof fn lemma_connector_glyph(t: TreeView, indent: Seq<bool>, is_last: bool)
    ensures
        line_text(t, indent, true, is_last).len() == 4 + 2 * indent.len() + t.label.len(),
        line_text(t, indent, true, is_last).subrange(
            1 + 2 * indent.len() as int,
            3 + 2 * indent.len() as int,
        ) == connector(is_last),
        line_text(t, indent, true, is_last).subrange(1 + 2 * indent.len() as int, 3 + 2 * indent.len() as int)
            == seq!['└', '─'] <==> is_last,
{
    lemma_prefix_len(indent);
    assert(line_text(t, indent, true, is_last).subrange(
        1 + 2 * indent.len() as int,
        3 + 2 * indent.len() as int,
    ) =~= connector(is_last));
    assert(connector(true)[0] != connector(false)[0]);
}

/// No character of `s` is a newline.
pub open spec fn newline_free(s: Seq<char>) -> bool {
    forall|i: int| 0 <= i < s.len() ==> s[i] != '\n'
}

/// No label anywhere in the subtree contains a newline.
pub open spec fn labels_newline_free(t: TreeView) -> bool
    decreases t, 1int, 0int,
{
    newline_free(t.label) && forest_labels_newline_free(t.children, 0)
}

/// No label in the subtrees of the children from position `i` on contains
/// a newline.
pub open spec fn forest_labels_newline_free(kids: Seq<TreeView>, i: int) -> bool
    decreases kids, 0int, kids.len() - i,
{
    if i < 0 || i >= kids.len() {
        true
    } else {
        labels_newline_free(kids[i]) && forest_labels_newline_free(kids, i + 1)
    }
}

/// The number of newline characters in `s`.
pub open spec fn newline_count(s: Seq<char>) -> nat
    decreases s.len(),
{
    if s.len() == 0 {
        0
    } else {
        newline_count(s.drop_last()) + (if s.last() == '\n' {
            1nat
        } else {
            0nat
        })
    }
}

proof fn lemma_newline_count_add(a: Seq<char>, b: Seq<char>)
    ensures
        newline_count(a + b) == newline_count(a) + newline_count(b),
    decreases b.len(),
{
    if b.len() == 0 {
        assert(a + b =~= a);
    } else {
        assert((a + b).drop_last() =~= a + b.drop_last());
        lemma_newline_count_add(a, b.drop_last());
        assert((a + b).last() == b.last());
    }
}

proof fn lemma_newline_free_count(s: Seq<char>)
    requires
        newline_free(s),
    ensures
        newline_count(s) == 0,
    decreases s.len(),
{
    if s.len() > 0 {
        assert(newline_free(s.drop_last()));
        lemma_newline_free_count(s.drop_last());
    }
}

proof fn lemma_prefix_newline_free(indent: Seq<bool>)
    ensures
        newline_free(indent_prefix(indent)),
    decreases indent.len(),
{
    if indent.len() > 0 {
        lemma_prefix_newline_free(indent.drop_last());
        assert(indent_unit(indent.last())[0] != '\n');
        assert(indent_unit(indent.last())[1] != '\n');
    }
}

/// A node's own line holds exactly one newline, given a newline-free label.
proof fn lemma_line_one_newline(t: TreeView, indent: Seq<bool>, is_child: bool, is_last: bool)
    requires
        newline_free(t.label),
    ensures
        newline_count(line_text(t, indent, is_child, is_last)) == 1,
{
    let lead = lead_in(is_child);
    let pre = indent_prefix(indent);
    let conn: Seq<char> = if is_child {
        connector(is_last)
    } else {
        Seq::empty()
    };
    let nl = seq!['\n'];
    lemma_prefix_newline_free(indent);
    assert(newline_free(lead));
    assert(newline_free(conn));
    lemma_newline_free_count(lead);
    lemma_newline_free_count(pre);
    lemma_newline_free_count(conn);
    lemma_newline_free_count(t.label);
    assert(nl.drop_last() =~= Seq::<char>::empty());
    assert(newline_count(Seq::<char>::empty()) == 0);
    assert(newline_count(nl) == 1);
    lemma_newline_count_add(lead, pre);
    lemma_newline_count_add(lead + pre, conn);
    lemma_newline_count_add(lead + pre + conn, t.label);
    lemma_newline_count_add(lead + pre + conn + t.label, nl);
}

/// The rendering has one line per node: with newline-free labels, the
/// number of newline characters equals the number of nodes in the tree.
pub proof fn lemma_line_count(t: TreeView, indent: Seq<bool>, is_child: bool, is_last: bool)
    requires
        labels_newline_free(t),
    ensures
        newline_count(render_at(t, indent, is_child, is_last)) == node_count(t),
    decreases t, 1int, 0int,
{
    let k = next_indent(t, indent, is_child, is_last);
    lemma_newline_count_add(line_text(t, indent, is_child, is_last), render_from(t.children, k, 0));
    lemma_line_one_newline(t, indent, is_child, is_last);
    lemma_forest_line_count(t.children, k, 0);
}

proof fn lemma_forest_line_count(kids: Seq<TreeView>, indent: Seq<bool>, i: int)
    requires
        0 <= i,
        forest_labels_newline_free(kids, i),
    ensures
        newline_count(render_from(kids, indent, i)) == count_from(kids, i),
    decreases kids, 0int, kids.len() - i,
{
    if i < kids.len() {
        lemma_newline_count_add(
            render_at(kids[i], indent, true, i == kids.len() - 1),
            render_from(kids, indent, i + 1),
        );
        lemma_line_count(kids[i], indent, true, i == kids.len() - 1);
        lemma_forest_line_count(kids, indent, i + 1);
    } else {
        assert(newline_count(Seq::<char>::empty()) == 0);
    }
}

/// Where the block of child `i` begins inside its parent's rendering:
/// right after the parent's own line and the blocks of the earlier
/// children.  At `i == 0` this is the parent's line length; at
/// `i == t.children.len()` it is the whole rendering's length.
pub open spec fn child_block_start(
    t: TreeView,
    indent: Seq<bool>,
    is_child: bool,
    is_last: bool,
    i: int,
) -> int {
    let k = next_indent(t, indent, is_child, is_last);
    line_text(t, indent, is_child, is_last).len() + render_from(t.children, k, 0).len()
        - render_from(t.children, k, i).len()
}

proof fn lemma_forest_suffix_len(kids: Seq<TreeView>, indent: Seq<bool>, i: int, j: int)
    requires
        0 <= i <= j <= kids.len(),
    ensures
        render_from(kids, indent, j).len() <= render_from(kids, indent, i).len(),
    decreases j - i,
{
    if i < j {
        lemma_forest_suffix_len(kids, indent, i + 1, j);
    }
}

proof fn lemma_forest_block(kids: Seq<TreeView>, indent: Seq<bool>, i: int, j: int)
    requires
        0 <= i <= j < kids.len(),
    ensures
        ({
            let all = render_from(kids, indent, i);
            all.subrange(
                all.len() - render_from(kids, indent, j).len(),
                all.len() - render_from(kids, indent, j + 1).len(),
            ) == render_at(kids[j], indent, true, j == kids.len() - 1)
        }),
    decreases j - i,
{
    let all = render_from(kids, indent, i);
    let head = render_at(kids[i], indent, true, i == kids.len() - 1);
    let rest = render_from(kids, indent, i + 1);
    lemma_forest_suffix_len(kids, indent, i, j);
    lemma_forest_suffix_len(kids, indent, j, j + 1);
    if i == j {
        assert(all.subrange(0, head.len() as int) =~= head);
    } else {
        lemma_forest_block(kids, indent, i + 1, j);
        lemma_forest_suffix_len(kids, indent, i + 1, j);
        let lo: int = rest.len() - render_from(kids, indent, j).len();
        let hi: int = rest.len() - render_from(kids, indent, j + 1).len();
        assert(all.subrange(head.len() + lo, head.len() + hi) =~= rest.subrange(lo, hi));
    }
}

/// Pre-order layout: a node's rendering opens with its own line, and the
/// blocks of its children's subtrees follow contiguously in stored order,
/// each child drawn under the pushed indent stack, with the connector
/// state `last` exactly at the final position.  So a node's line precedes
/// every line of its descendants, and the whole subtree of an earlier
/// child precedes that of a later one.
pub proof fn lemma_preorder_layout(t: TreeView, indent: Seq<bool>, is_child: bool, is_last: bool)
    ensures
        ({
            let line = line_text(t, indent, is_child, is_last);
            let k = next_indent(t, indent, is_child, is_last);
            let all = render_at(t, indent, is_child, is_last);
            &&& all.len() == line.len() + render_from(t.children, k, 0).len()
            &&& all.subrange(0, line.len() as int) == line
            &&& child_block_start(t, indent, is_child, is_last, 0) == line.len()
            &&& child_block_start(t, indent, is_child, is_last, t.children.len() as int)
                == all.len()
            &&& forall|i: int|
                0 <= i < t.children.len() ==> #[trigger] child_block_start(
                    t,
                    indent,
                    is_child,
                    is_last,
                    i,
                ) <= child_block_start(t, indent, is_child, is_last, i + 1)
            &&& forall|i: int|
                #![trigger t.children[i]]
                0 <= i < t.children.len() ==> all.subrange(
                    child_block_start(t, indent, is_child, is_last, i),
                    child_block_start(t, indent, is_child, is_last, i + 1),
                ) == render_at(t.children[i], k, true, i == t.children.len() - 1)
        }),
{
    let line = line_text(t, indent, is_child, is_last);
    let k = next_indent(t, indent, is_child, is_last);
    let all = render_at(t, indent, is_child, is_last);
    let kids = render_from(t.children, k, 0);
    assert(all == line + kids);
    assert(all.subrange(0, line.len() as int) =~= line);
    assert forall|i: int| 0 <= i < t.children.len() implies #[trigger] child_block_start(
        t,
        indent,
        is_child,
        is_last,
        i,
    ) <= child_block_start(t, indent, is_child, is_last, i + 1) by {
        lemma_forest_suffix_len(t.children, k, i, i + 1);
        lemma_forest_suffix_len(t.children, k, 0, i);
    }
    assert forall|i: int|
        #![trigger t.children[i]]
        0 <= i < t.children.len() implies all.subrange(
        child_block_start(t, indent, is_child, is_last, i),
        child_block_start(t, indent, is_child, is_last, i + 1),
    ) == render_at(t.children[i], k, true, i == t.children.len() - 1) by {
        lemma_forest_block(t.children, k, 0, i);
        lemma_forest_suffix_len(t.children, k, 0, i);
        lemma_forest_suffix_len(t.children, k, i, i + 1);
        let lo: int = kids.len() - render_from(t.children, k, i).len();
        let hi: int = kids.len() - render_from(t.children, k, i + 1).len();
        assert(all.subrange(line.len() + lo, line.len() + hi) =~= kids.subrange(lo, hi));
    }
}

/// Each non-root line in place: inside a node's rendering, the block of
/// child `i` opens with that child's own line, drawn under the pushed
/// indent stack and marked last exactly at the final position.  With
/// `lemma_connector_glyph` this fixes every non-root line's connector, and
/// with `lemma_prefix_units` every column of its indentation.
pub proof fn lemma_child_line(
    t: TreeView,
    indent: Seq<bool>,
    is_child: bool,
    is_last: bool,
    i: int,
)
    requires
        0 <= i < t.children.len(),
    ensures
        ({
            let k = next_indent(t, indent, is_child, is_last);
            let all = render_at(t, indent, is_child, is_last);
            let start = child_block_start(t, indent, is_child, is_last, i);
            let child_line = line_text(t.children[i], k, true, i == t.children.len() - 1);
            &&& line_text(t, indent, is_child, is_last).len() <= start
            &&& start + child_line.len() <= all.len()
            &&& all.subrange(start, start + child_line.len()) == child_line
        }),
{
    let k = next_indent(t, indent, is_child, is_last);
    let all = render_at(t, indent, is_child, is_last);
    let start = child_block_start(t, indent, is_child, is_last, i);
    let stop = child_block_start(t, indent, is_child, is_last, i + 1);
    let last = i == t.children.len() - 1;
    let child_line = line_text(t.children[i], k, true, last);
    lemma_preorder_layout(t, indent, is_child, is_last);
    lemma_preorder_layout(t.children[i], k, true, last);
    lemma_forest_suffix_len(t.children, k, 0, i);
    lemma_forest_suffix_len(t.children, k, i, i + 1);
    assert(all.subrange(start, stop) == render_at(t.children[i], k, true, last));
    assert(all.subrange(start, start + child_line.len()) =~= all.subrange(start, stop).subrange(
        0,
        child_line.len() as int,
    ));
}

/// The whole-tree form: one line per node.
pub proof fn lemma_rendering_line_count(t: TreeView)
    requires
        labels_newline_free(t),
    ensures
        newline_count(rendering(t)) == node_count(t),
{
    lemma_line_count(t, Seq::empty(), false, false);
}

} // verus!

