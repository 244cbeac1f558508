use vstd::prelude::*;
use crate::order::{sort_children, sorted};
use crate::rows::{lemma_rows_count, lemma_rows_forest_count, row_of, rows, rows_forest};

verus! {

broadcast use vstd::std_specs::vec::group_vec_axioms;

/// One entry of an extracted repository: a file, or a directory with its
/// entries.
pub struct FileTreeNode {
    pub path: String,
    pub is_dir: bool,
    pub is_selected: bool,
    pub is_expanded: bool,
    pub children: Vec<FileTreeNode>,
}

/// The mathematical value of a node and everything below it.
pub struct NodeModel {
    pub path: Seq<char>,
    pub is_dir: bool,
    pub is_selected: bool,
    pub is_expanded: bool,
    pub children: Seq<NodeModel>,
}

/// The value of a node, with its entries' values in place of the entries.
pub open spec fn model(n: FileTreeNode) -> NodeModel
    decreases n, 1nat,
{
    NodeModel {
        path: n.path@,
        is_dir: n.is_dir,
        is_selected: n.is_selected,
        is_expanded: n.is_expanded,
        children: models(n.children@),
    }
}

/// The values of a sequence of sibling nodes.
pub open spec fn models(s: Seq<FileTreeNode>) -> Seq<NodeModel>
    decreases s, 0nat,
{
    if s.len() == 0 {
        Seq::empty()
    } else {
        models(s.drop_last()).push(model(s.last()))
    }
}

/// Number of rows a node occupies in the displayed list: itself, and the
/// rows of its children when it is expanded.
pub open spec fn visible(m: NodeModel) -> nat
    decreases m, 1nat,
{
    1 + if m.is_expanded { visible_forest(m.children) } else { 0 }
}

/// Rows occupied by a sequence of siblings, one after the other.
pub open spec fn visible_forest(s: Seq<NodeModel>) -> nat
    decreases s, 0nat,
{
    if s.len() == 0 {
        0
    } else {
        visible_forest(s.drop_last()) + visible(s.last())
    }
}

impl View for FileTreeNode {
    type V = NodeModel;

    open spec fn view(&self) -> NodeModel {
        model(*self)
    }
}

pub proof fn lemma_models(s: Seq<FileTreeNode>)
    ensures
        models(s).len() == s.len(),
        forall|i: int| 0 <= i < s.len() ==> #[trigger] models(s)[i] == model(s[i]),
    decreases s.len(),
{
    if s.len() > 0 {
        lemma_models(s.drop_last());
    }
}

pub proof fn lemma_children_view(n: FileTreeNode)
    ensures
        n@.children.len() == n.children@.len(),
        forall|k: int| 0 <= k < n.children@.len() ==> #[trigger] n@.children[k] == n.children@[k]@,
{
    lemma_models(n.children@);
}

/// A node with `v` as the selection of itself and of every node below it.
pub open spec fn cascade(m: NodeModel, v: bool) -> NodeModel
    decreases m, 1nat,
{
    NodeModel { is_selected: v, children: cascade_forest(m.children, v), ..m }
}

pub open spec fn cascade_forest(s: Seq<NodeModel>, v: bool) -> Seq<NodeModel>
    decreases s, 0nat,
{
    if s.len() == 0 {
        s
    } else {
        cascade_forest(s.drop_last(), v).push(cascade(s.last(), v))
    }
}

pub proof fn lemma_cascade_forest(s: Seq<NodeModel>, v: bool)
    ensures
        cascade_forest(s, v).len() == s.len(),
        forall|i: int| 0 <= i < s.len() ==> #[trigger] cascade_forest(s, v)[i] == cascade(s[i], v),
    decreases s.len(),
{
    if s.len() > 0 {
        lemma_cascade_forest(s.drop_last(), v);
    }
}

/// Gives `v` as the selection to the node and to every node below it.
pub fn set_selection(node: &mut FileTreeNode, v: bool)
    ensures
        final(node)@ == cascade(old(node)@, v),
    decreases *old(node),
{
    node.is_selected = v;
    let n = node.children.len();
    let mut j: usize = 0;
    while j < n
        invariant
            n == node.children@.len(),
            n == old(node).children@.len(),
            j <= n,
            node.path == old(node).path,
            node.is_dir == old(node).is_dir,
            node.is_selected == v,
            node.is_expanded == old(node).is_expanded,
            forall|k: int| 0 <= k < j ==> #[trigger] node.children@[k]@ == cascade(
                old(node).children@[k]@,
                v,
            ),
            forall|k: int| j <= k < n ==> #[trigger] node.children@[k] == old(node).children@[k],
        decreases n - j,
    {
        assert(decreases_to!(*old(node) => old(node).children@[j as int]));
        set_selection(&mut node.children[j], v);
        j = j + 1;
    }
    proof {
        lemma_models(node.children@);
        lemma_models(old(node).children@);
        lemma_cascade_forest(old(node)@.children, v);
        assert(node@.children == models(node.children@));
        assert(old(node)@.children == models(old(node).children@));
        assert forall|k: int| 0 <= k < n implies #[trigger] node@.children[k] == cascade_forest(
            old(node)@.children,
            v,
        )[k] by {
            assert(node@.children[k] == node.children@[k]@);
            assert(old(node)@.children[k] == old(node).children@[k]@);
        }
        assert(node@.children =~= cascade_forest(old(node)@.children, v));
    }
}

/// What a key press does to the node under the cursor.
#[derive(Clone, Copy, PartialEq, Eq, Debug)]
pub enum Toggle {
    Expansion,
    Selection,
}

/// The node after `op` was applied to it: a directory opens or closes (a
/// file stays as it is); a file's selection flips, and a directory's flips
/// together with everything below it.
pub open spec fn apply(m: NodeModel, op: Toggle) -> NodeModel {
    match op {
        Toggle::Expansion => if m.is_dir {
            NodeModel { is_expanded: !m.is_expanded, ..m }
        } else {
            m
        },
        Toggle::Selection => if m.is_dir {
            cascade(m, !m.is_selected)
        } else {
            NodeModel { is_selected: !m.is_selected, ..m }
        },
    }
}

/// The tree after `op` was applied to the node on row `i` of the displayed
/// list; unchanged when there is no such row.
pub open spec fn update_row(m: NodeModel, i: int, op: Toggle) -> NodeModel
    decreases m, 1nat,
{
    if i == 0 {
        apply(m, op)
    } else if m.is_expanded {
        NodeModel { children: update_row_forest(m.children, i - 1, op), ..m }
    } else {
        m
    }
}

pub open spec fn update_row_forest(s: Seq<NodeModel>, i: int, op: Toggle) -> Seq<NodeModel>
    decreases s, 0nat,
{
    if s.len() == 0 {
        s
    } else if i < visible_forest(s.drop_last()) {
        update_row_forest(s.drop_last(), i, op).push(s.last())
    } else {
        s.drop_last().push(update_row(s.last(), i - visible_forest(s.drop_last()), op))
    }
}

/// The rows of a prefix of siblings never outnumber those of a longer one.
pub proof fn lemma_visible_prefix(s: Seq<NodeModel>, j: int, k: int)
    requires
        0 <= j <= k <= s.len(),
    ensures
        visible_forest(s.take(j)) <= visible_forest(s.take(k)),
        j < s.len() ==> visible_forest(s.take(j + 1)) == visible_forest(s.take(j)) + visible(
            s[j],
        ),
    decreases k - j,
{
    if j < s.len() {
        assert(s.take(j + 1).drop_last() =~= s.take(j));
    }
    if j < k {
        lemma_visible_prefix(s, j + 1, k);
    }
}

/// The row of a forest that falls in the `j`th tree is that tree's row.
pub proof fn lemma_update_forest_at(s: Seq<NodeModel>, j: int, i: int, op: Toggle)
    requires
        0 <= j < s.len(),
        visible_forest(s.take(j)) <= i < visible_forest(s.take(j)) + visible(s[j]),
    ensures
        update_row_forest(s, i, op) == s.update(
            j,
            update_row(s[j], i - visible_forest(s.take(j)), op),
        ),
    decreases s.len(),
{
    let p = s.drop_last();
    if j == s.len() - 1 {
        assert(s.take(j) =~= p);
        assert(s.drop_last().push(update_row(s.last(), i - visible_forest(p), op)) =~= s.update(
            j,
            update_row(s[j], i - visible_forest(s.take(j)), op),
        ));
    } else {
        lemma_visible_prefix(s, j, s.len() - 1);
        lemma_visible_prefix(s, j + 1, s.len() - 1);
        assert(s.take(s.len() - 1) =~= p);
        assert(p.take(j) =~= s.take(j));
        lemma_update_forest_at(p, j, i, op);
        assert(update_row_forest(p, i, op).push(s.last()) =~= s.update(
            j,
            update_row(s[j], i - visible_forest(s.take(j)), op),
        ));
    }
}

/// A row past the end of the list names no node, and nothing changes.
pub proof fn lemma_update_out_of_range(m: NodeModel, i: int, op: Toggle)
    requires
        i >= visible(m),
    ensures
        update_row(m, i, op) == m,
    decreases m, 1nat,
{
    if m.is_expanded {
        lemma_update_forest_out_of_range(m.children, i - 1, op);
    }
}

pub proof fn lemma_update_forest_out_of_range(s: Seq<NodeModel>, i: int, op: Toggle)
    requires
        i >= visible_forest(s),
    ensures
        update_row_forest(s, i, op) == s,
    decreases s, 0nat,
{
    if s.len() > 0 {
        lemma_update_out_of_range(s.last(), i - visible_forest(s.drop_last()), op);
        assert(s.drop_last().push(s.last()) =~= s);
    }
}

fn apply_toggle(node: &mut FileTreeNode, op: Toggle)
    ensures
        final(node)@ == apply(old(node)@, op),
{
    match op {
        Toggle::Expansion => {
            if node.is_dir {
                node.is_expanded = !node.is_expanded;
            }
        },
        Toggle::Selection => {
            if node.is_dir {
                let v = !node.is_selected;
                set_selection(node, v);
            } else {
                node.is_selected = !node.is_selected;
            }
        },
    }
}

/// Every node of the tree carries `v` as its selection.
pub open spec fn uniform(m: NodeModel, v: bool) -> bool
    decreases m, 1nat,
{
    m.is_selected == v && uniform_forest(m.children, v)
}

pub open spec fn uniform_forest(s: Seq<NodeModel>, v: bool) -> bool
    decreases s, 0nat,
{
    s.len() == 0 || (uniform_forest(s.drop_last(), v) && uniform(s.last(), v))
}

proof fn lemma_cascade_forest_drop_last(s: Seq<NodeModel>, v: bool)
    requires
        s.len() > 0,
    ensures
        cascade_forest(s, v).drop_last() == cascade_forest(s.drop_last(), v),
        cascade_forest(s, v).last() == cascade(s.last(), v),
{
    assert(cascade_forest(s, v).drop_last() =~= cascade_forest(s.drop_last(), v));
}

/// After a cascade every node below carries the cascaded value.
pub proof fn lemma_cascade_uniform(m: NodeModel, v: bool)
    ensures
        uniform(cascade(m, v), v),
    decreases m, 1nat,
{
    lemma_cascade_forest_uniform(m.children, v);
}

pub proof fn lemma_cascade_forest_uniform(s: Seq<NodeModel>, v: bool)
    ensures
        uniform_forest(cascade_forest(s, v), v),
    decreases s, 0nat,
{
    if s.len() > 0 {
        lemma_cascade_forest_drop_last(s, v);
        lemma_cascade_forest_uniform(s.drop_last(), v);
        lemma_cascade_uniform(s.last(), v);
    }
}

/// Cascading the value that every node already carries changes nothing.
pub proof fn lemma_cascade_of_uniform(m: NodeModel, v: bool)
    requires
        uniform(m, v),
    ensures
        cascade(m, v) == m,
    decreases m, 1nat,
{
    lemma_cascade_forest_of_uniform(m.children, v);
}

pub proof fn lemma_cascade_forest_of_uniform(s: Seq<NodeModel>, v: bool)
    requires
        uniform_forest(s, v),
    ensures
        cascade_forest(s, v) == s,
    decreases s, 0nat,
{
    if s.len() > 0 {
        lemma_cascade_forest_of_uniform(s.drop_last(), v);
        lemma_cascade_of_uniform(s.last(), v);
        assert(s.drop_last().push(s.last()) =~= s);
    }
}

/// Toggling the selection of a directory gives the new value to every node
/// below it; toggling it again brings every node back to the value that all
/// of them carried before.
pub proof fn lemma_selection_cascade(m: NodeModel)
    requires
        m.is_dir,
    ensures
        uniform(apply(m, Toggle::Selection), !m.is_selected),
        uniform(m, m.is_selected) ==> apply(apply(m, Toggle::Selection), Toggle::Selection) == m,
{
    lemma_cascade_uniform(m, !m.is_selected);
    if uniform(m, m.is_selected) {
        let t = cascade(m, !m.is_selected);
        lemma_cascade_uniform(t, m.is_selected);
        lemma_cascade_of_uniform(m, m.is_selected);
        lemma_cascade_twice(m, !m.is_selected, m.is_selected);
    }
}

/// A second cascade overrides the first.
pub proof fn lemma_cascade_twice(m: NodeModel, w: bool, v: bool)
    ensures
        cascade(cascade(m, w), v) == cascade(m, v),
    decreases m, 1nat,
{
    lemma_cascade_forest_twice(m.children, w, v);
}

pub proof fn lemma_cascade_forest_twice(s: Seq<NodeModel>, w: bool, v: bool)
    ensures
        cascade_forest(cascade_forest(s, w), v) == cascade_forest(s, v),
    decreases s, 0nat,
{
    if s.len() > 0 {
        lemma_cascade_forest_drop_last(s, w);
        lemma_cascade_forest_drop_last(cascade_forest(s, w), v);
        lemma_cascade_forest_twice(s.drop_last(), w, v);
        lemma_cascade_twice(s.last(), w, v);
    }
}

/// The node that occupies row `i` of the displayed list.
pub open spec fn node_at(m: NodeModel, i: int) -> NodeModel
    decreases m, 1nat,
{
    if i == 0 || !m.is_expanded {
        m
    } else {
        node_at_forest(m.children, i - 1)
    }
}

pub open spec fn node_at_forest(s: Seq<NodeModel>, i: int) -> NodeModel
    decreases s, 0nat,
{
    if s.len() == 0 {
        arbitrary()
    } else if i < visible_forest(s.drop_last()) {
        node_at_forest(s.drop_last(), i)
    } else {
        node_at(s.last(), i - visible_forest(s.drop_last()))
    }
}

/// Opening or closing a row that holds a file changes nothing in the tree:
/// no row count and no selection.
pub proof fn lemma_expand_file_row(m: NodeModel, i: int)
    requires
        0 <= i < visible(m),
        !node_at(m, i).is_dir,
    ensures
        update_row(m, i, Toggle::Expansion) == m,
        visible(update_row(m, i, Toggle::Expansion)) == visible(m),
    decreases m, 1nat,
{
    if i > 0 {
        lemma_expand_file_row_forest(m.children, i - 1);
    }
}

pub proof fn lemma_expand_file_row_forest(s: Seq<NodeModel>, i: int)
    requires
        0 <= i < visible_forest(s),
        !node_at_forest(s, i).is_dir,
    ensures
        update_row_forest(s, i, Toggle::Expansion) == s,
    decreases s, 0nat,
{
    let p = s.drop_last();
    if i < visible_forest(p) {
        lemma_expand_file_row_forest(p, i);
    } else {
        lemma_expand_file_row(s.last(), i - visible_forest(p));
    }
    assert(p.push(s.last()) =~= s);
}

/// After a toggle, the row holds the toggled node.
pub proof fn lemma_update_node_at(m: NodeModel, i: int, op: Toggle)
    requires
        0 <= i < visible(m),
    ensures
        node_at(update_row(m, i, op), i) == apply(node_at(m, i), op),
    decreases m, 1nat,
{
    if i > 0 {
        lemma_update_node_at_forest(m.children, i - 1, op);
    }
}

pub proof fn lemma_update_node_at_forest(s: Seq<NodeModel>, i: int, op: Toggle)
    requires
        0 <= i < visible_forest(s),
    ensures
        node_at_forest(update_row_forest(s, i, op), i) == apply(node_at_forest(s, i), op),
    decreases s, 0nat,
{
    let p = s.drop_last();
    if i < visible_forest(p) {
        let q = update_row_forest(p, i, op);
        lemma_update_node_at_forest(p, i, op);
        lemma_update_forest_keeps_row(p, i, op);
        assert(q.push(s.last()).drop_last() =~= q);
    } else {
        lemma_update_node_at(s.last(), i - visible_forest(p), op);
        assert(p.push(update_row(s.last(), i - visible_forest(p), op)).drop_last() =~= p);
    }
}

/// Toggling a row twice undoes the first toggle wherever doing `op` twice
/// to the node on that row gives the node back.
pub proof fn lemma_update_twice(m: NodeModel, i: int, op: Toggle)
    requires
        0 <= i < visible(m),
        apply(apply(node_at(m, i), op), op) == node_at(m, i),
    ensures
        update_row(update_row(m, i, op), i, op) == m,
    decreases m, 1nat,
{
    if i > 0 {
        lemma_update_twice_forest(m.children, i - 1, op);
    }
}

pub proof fn lemma_update_twice_forest(s: Seq<NodeModel>, i: int, op: Toggle)
    requires
        0 <= i < visible_forest(s),
        apply(apply(node_at_forest(s, i), op), op) == node_at_forest(s, i),
    ensures
        update_row_forest(update_row_forest(s, i, op), i, op) == s,
    decreases s, 0nat,
{
    let p = s.drop_last();
    if i < visible_forest(p) {
        let q = update_row_forest(p, i, op);
        lemma_update_twice_forest(p, i, op);
        lemma_update_forest_keeps_row(p, i, op);
        assert(q.push(s.last()).drop_last() =~= q);
        assert(update_row_forest(q, i, op).push(s.last()) =~= s);
    } else {
        let u = update_row(s.last(), i - visible_forest(p), op);
        lemma_update_twice(s.last(), i - visible_forest(p), op);
        assert(p.push(u).drop_last() =~= p);
        assert(p.push(update_row(u, i - visible_forest(p), op)) =~= s);
    }
}

/// Toggling the selection on a directory's row gives the new value to every
/// node below it; toggling the same row again restores the tree when all of
/// that directory's nodes carried one value before.
pub proof fn lemma_selection_row_round_trip(m: NodeModel, i: int)
    requires
        0 <= i < visible(m),
        node_at(m, i).is_dir,
    ensures
        uniform(
            node_at(update_row(m, i, Toggle::Selection), i),
            !node_at(m, i).is_selected,
        ),
        uniform(node_at(m, i), node_at(m, i).is_selected) ==> update_row(
            update_row(m, i, Toggle::Selection),
            i,
            Toggle::Selection,
        ) == m,
{
    let n = node_at(m, i);
    lemma_update_node_at(m, i, Toggle::Selection);
    lemma_selection_cascade(n);
    if uniform(n, n.is_selected) {
        lemma_update_twice(m, i, Toggle::Selection);
    }
}

/// Row `i` of the drawn list shows the node that a toggle on row `i`
/// addresses.
pub proof fn lemma_rows_node_at(m: NodeModel, depth: nat, i: int)
    requires
        0 <= i < visible(m),
    ensures
        rows(m, depth)[i] == row_of(node_at(m, i), rows(m, depth)[i].depth),
    decreases m, 1nat,
{
    lemma_rows_forest_count(m.children, depth + 1);
    if i > 0 {
        lemma_rows_node_at_forest(m.children, depth + 1, i - 1);
    }
}

pub proof fn lemma_rows_node_at_forest(s: Seq<NodeModel>, depth: nat, i: int)
    requires
        0 <= i < visible_forest(s),
    ensures
        rows_forest(s, depth)[i] == row_of(node_at_forest(s, i), rows_forest(s, depth)[i].depth),
    decreases s, 0nat,
{
    let p = s.drop_last();
    lemma_rows_forest_count(p, depth);
    let a = rows_forest(p, depth);
    let b = rows(s.last(), depth);
    assert(rows_forest(s, depth) == a + b);
    if i < visible_forest(p) {
        lemma_rows_node_at_forest(p, depth, i);
        assert((a + b)[i] == a[i]);
    } else {
        lemma_rows_count(s.last(), depth);
        lemma_rows_node_at(s.last(), depth, i - visible_forest(p));
        assert((a + b)[i] == b[i - a.len()]);
    }
}

/// Files have no entries, at every depth.
pub open spec fn well_formed(m: NodeModel) -> bool
    decreases m, 1nat,
{
    (!m.is_dir ==> m.children.len() == 0) && well_formed_forest(m.children)
}

pub open spec fn well_formed_forest(s: Seq<NodeModel>) -> bool
    decreases s, 0nat,
{
    s.len() == 0 || (well_formed_forest(s.drop_last()) && well_formed(s.last()))
}

pub proof fn lemma_well_formed_forest(s: Seq<NodeModel>)
    ensures
        well_formed_forest(s) <==> forall|i: int| 0 <= i < s.len() ==> #[trigger] well_formed(s[i]),
    decreases s.len(),
{
    if s.len() > 0 {
        lemma_well_formed_forest(s.drop_last());
        if forall|i: int| 0 <= i < s.len() ==> #[trigger] well_formed(s[i]) {
            assert forall|i: int| 0 <= i < s.drop_last().len() implies #[trigger] well_formed(
                s.drop_last()[i],
            ) by {
                assert(well_formed(s[i]));
            }
            assert(well_formed(s[s.len() - 1]));
        }
        if well_formed_forest(s) {
            assert forall|i: int| 0 <= i < s.len() implies #[trigger] well_formed(s[i]) by {
                if i < s.len() - 1 {
                    assert(well_formed(s.drop_last()[i]));
                } else {
                    assert(s[i] == s.last());
                }
            }
        }
    }
}

/// A cascade keeps the shape of the tree.
pub proof fn lemma_cascade_well_formed(m: NodeModel, v: bool)
    requires
        well_formed(m),
    ensures
        well_formed(cascade(m, v)),
    decreases m, 1nat,
{
    lemma_cascade_forest(m.children, v);
    lemma_cascade_forest_well_formed(m.children, v);
}

pub proof fn lemma_cascade_forest_well_formed(s: Seq<NodeModel>, v: bool)
    requires
        well_formed_forest(s),
    ensures
        well_formed_forest(cascade_forest(s, v)),
    decreases s, 0nat,
{
    if s.len() > 0 {
        lemma_cascade_forest_drop_last(s, v);
        lemma_cascade_forest_well_formed(s.drop_last(), v);
        lemma_cascade_well_formed(s.last(), v);
    }
}

/// Toggles keep files free of entries.
pub proof fn lemma_update_well_formed(m: NodeModel, i: int, op: Toggle)
    requires
        well_formed(m),
    ensures
        well_formed(update_row(m, i, op)),
    decreases m, 1nat,
{
    if i == 0 {
        if op == Toggle::Selection && m.is_dir {
            lemma_cascade_well_formed(m, !m.is_selected);
        }
    } else if m.is_expanded {
        lemma_update_forest_well_formed(m.children, i - 1, op);
        lemma_update_forest_len(m.children, i - 1, op);
    }
}

pub proof fn lemma_update_forest_len(s: Seq<NodeModel>, i: int, op: Toggle)
    ensures
        update_row_forest(s, i, op).len() == s.len(),
    decreases s.len(),
{
    if s.len() > 0 {
        lemma_update_forest_len(s.drop_last(), i, op);
    }
}

pub proof fn lemma_update_forest_well_formed(s: Seq<NodeModel>, i: int, op: Toggle)
    requires
        well_formed_forest(s),
    ensures
        well_formed_forest(update_row_forest(s, i, op)),
    decreases s, 0nat,
{
    if s.len() > 0 {
        let p = s.drop_last();
        if i < visible_forest(p) {
            lemma_update_forest_well_formed(p, i, op);
            assert(update_row_forest(p, i, op).push(s.last()).drop_last() =~= update_row_forest(
                p,
                i,
                op,
            ));
        } else {
            lemma_update_well_formed(s.last(), i - visible_forest(p), op);
            assert(p.push(update_row(s.last(), i - visible_forest(p), op)).drop_last() =~= p);
        }
    }
}

/// Every node of the tree in pre-order, expanded or not.
pub open spec fn all_nodes(m: NodeModel) -> Seq<NodeModel>
    decreases m, 1nat,
{
    seq![m] + all_nodes_forest(m.children)
}

pub open spec fn all_nodes_forest(s: Seq<NodeModel>) -> Seq<NodeModel>
    decreases s, 0nat,
{
    if s.len() == 0 {
        Seq::empty()
    } else {
        all_nodes_forest(s.drop_last()) + all_nodes(s.last())
    }
}

pub open spec fn is_selected_file(n: NodeModel) -> bool {
    !n.is_dir && n.is_selected
}

/// Paths of the selected files among `ns`, in order.
pub open spec fn selected_paths(ns: Seq<NodeModel>) -> Seq<Seq<char>> {
    ns.filter(|n: NodeModel| is_selected_file(n)).map_values(|n: NodeModel| n.path)
}

proof fn lemma_selected_paths_add(a: Seq<NodeModel>, b: Seq<NodeModel>)
    ensures
        selected_paths(a + b) == selected_paths(a) + selected_paths(b),
{
    let f = |n: NodeModel| is_selected_file(n);
    Seq::filter_distributes_over_add(a, b, f);
    assert(selected_paths(a + b) =~= selected_paths(a) + selected_paths(b));
}

proof fn lemma_selected_paths_one(n: NodeModel)
    ensures
        selected_paths(seq![n]) == if is_selected_file(n) {
            seq![n.path]
        } else {
            Seq::empty()
        },
{
    let f = |n: NodeModel| is_selected_file(n);
    reveal_with_fuel(Seq::filter, 2);
    assert(seq![n].drop_last() =~= Seq::<NodeModel>::empty());
    assert(selected_paths(seq![n]) =~= if is_selected_file(n) {
        seq![n.path]
    } else {
        Seq::empty()
    });
}

/// The collected files are exactly the selected files of the whole tree, in
/// pre-order: no directory, no unselected file, and none left out for
/// standing under a collapsed directory.
pub proof fn lemma_collect_exact(m: NodeModel)
    ensures
        selected_files(m) == selected_paths(all_nodes(m)),
    decreases m, 1nat,
{
    lemma_selected_paths_add(seq![m], all_nodes_forest(m.children));
    lemma_selected_paths_one(m);
    lemma_collect_exact_forest(m.children);
}

pub proof fn lemma_collect_exact_forest(s: Seq<NodeModel>)
    ensures
        selected_forest(s) == selected_paths(all_nodes_forest(s)),
    decreases s, 0nat,
{
    if s.len() == 0 {
        assert(selected_paths(Seq::<NodeModel>::empty()) =~= Seq::<Seq<char>>::empty());
    } else {
        lemma_collect_exact_forest(s.drop_last());
        lemma_collect_exact(s.last());
        lemma_selected_paths_add(all_nodes_forest(s.drop_last()), all_nodes(s.last()));
    }
}

/// With no file of the tree selected, nothing is collected, so confirming
/// writes nothing.
pub proof fn lemma_nothing_selected(m: NodeModel)
    requires
        forall|k: int| 0 <= k < all_nodes(m).len() ==> !is_selected_file(#[trigger] all_nodes(m)[k]),
    ensures
        selected_files(m).len() == 0,
{
    let f = |n: NodeModel| is_selected_file(n);
    lemma_collect_exact(m);
    let kept = all_nodes(m).filter(f);
    if kept.len() > 0 {
        all_nodes(m).lemma_filter_pred(f, 0);
        assert(kept.contains(kept[0]));
        all_nodes(m).lemma_filter_contains_rev(f, kept[0]);
        let k = choose|k: int| 0 <= k < all_nodes(m).len() && all_nodes(m)[k] == kept[0];
        assert(!is_selected_file(all_nodes(m)[k]));
    }
}

/// A selected file with no entries.
pub open spec fn plain_file(n: NodeModel) -> bool {
    !n.is_dir && n.is_selected && n.children.len() == 0
}

/// In an open directory of three selected files A, B and C, deselecting B
/// (the third row) leaves A and C to be written, in that order.
pub proof fn lemma_deselect_middle_of_three(m: NodeModel)
    requires
        m.is_dir,
        m.is_expanded,
        m.children.len() == 3,
        plain_file(m.children[0]),
        plain_file(m.children[1]),
        plain_file(m.children[2]),
    ensures
        selected_files(update_row(m, 2, Toggle::Selection)) == seq![
            m.children[0].path,
            m.children[2].path,
        ],
{
    let a = m.children[0];
    let b = m.children[1];
    let c = m.children[2];
    let s = m.children;
    let ab = s.drop_last();
    assert(ab =~= seq![a, b]);
    assert(ab.drop_last() =~= seq![a]);
    assert(seq![a].drop_last() =~= Seq::<NodeModel>::empty());
    assert(visible_forest(Seq::<NodeModel>::empty()) == 0);
    assert(visible(a) == 1);
    assert(visible(b) == 1);
    assert(visible_forest(seq![a]) == 1);
    assert(visible_forest(ab) == 2);
    let b2 = apply(b, Toggle::Selection);
    assert(update_row(b, 0, Toggle::Selection) == b2);
    assert(update_row_forest(seq![a, b], 1, Toggle::Selection) =~= seq![a, b2]);
    let t = seq![a, b2, c];
    assert(update_row_forest(s, 1, Toggle::Selection) =~= t);
    assert(selected_forest(Seq::<NodeModel>::empty()) =~= Seq::<Seq<char>>::empty());
    assert(selected_files(a) =~= seq![a.path]);
    assert(selected_files(b2) =~= Seq::<Seq<char>>::empty());
    assert(selected_files(c) =~= seq![c.path]);
    assert(t.drop_last() =~= seq![a, b2]);
    assert(seq![a, b2].drop_last() =~= seq![a]);
    assert(selected_forest(seq![a]) =~= seq![a.path]);
    assert(selected_forest(seq![a, b2]) =~= seq![a.path]);
    assert(selected_forest(t) =~= seq![a.path, c.path]);
    assert(selected_files(update_row(m, 2, Toggle::Selection)) =~= seq![a.path, c.path]);
}

/// Walks the displayed rows in order, counting `index` down, and applies
/// `op` to the node on the row where it reaches zero.
fn toggle_recursive(node: &mut FileTreeNode, index: &mut usize, op: Toggle) -> (found: bool)
    ensures
        found == (*old(index) < visible(old(node)@)),
        found ==> final(node)@ == update_row(old(node)@, *old(index) as int, op),
        !found ==> final(node)@ == old(node)@,
        !found ==> *final(index) == *old(index) - visible(old(node)@),
    decreases *old(node),
{
    if *index == 0 {
        apply_toggle(node, op);
        return true;
    }
    *index = *index - 1;
    if node.is_expanded {
        let n = node.children.len();
        let ghost s = old(node)@.children;
        proof {
            lemma_models(old(node).children@);
        }
        let mut j: usize = 0;
        while j < n
            invariant
                n == node.children@.len(),
                n == s.len(),
                n == old(node).children@.len(),
                s == old(node)@.children,
                s == models(old(node).children@),
                forall|k: int| 0 <= k < n ==> #[trigger] s[k] == old(node).children@[k]@,
                forall|k: int| 0 <= k < n ==> #[trigger] node.children@[k]@ == s[k],
                forall|k: int| j <= k < n ==> #[trigger] node.children@[k] == old(node).children@[k],
                j <= n,
                node.path == old(node).path,
                node.is_dir == old(node).is_dir,
                node.is_selected == old(node).is_selected,
                node.is_expanded == old(node).is_expanded,
                old(node).is_expanded,
                *old(index) - 1 >= visible_forest(s.take(j as int)),
                *index == *old(index) - 1 - visible_forest(s.take(j as int)),
            decreases n - j,
        {
            assert(decreases_to!(*old(node) => old(node).children@[j as int]));
            proof {
                lemma_visible_prefix(s, j as int, j as int);
            }
            let ghost rem = *index;
            if toggle_recursive(&mut node.children[j], index, op) {
                proof {
                    lemma_visible_prefix(s, j as int + 1, n as int);
                    assert(s.take(n as int) =~= s);
                    lemma_update_forest_at(s, j as int, *old(index) - 1, op);
                    lemma_children_view(*node);
                    assert(node@.children =~= update_row_forest(s, *old(index) - 1, op));
                    assert(node@ == update_row(old(node)@, *old(index) as int, op));
                }
                return true;
            }
            j = j + 1;
        }
        proof {
            assert(s.take(n as int) =~= s);
            lemma_children_view(*node);
            assert(node@.children =~= s);
        }
    }
    false
}

/// Applies `op` to the node on row `index` of the displayed list.
pub fn toggle_at(root: &mut FileTreeNode, index: usize, op: Toggle)
    ensures
        final(root)@ == update_row(old(root)@, index as int, op),
{
    let mut current_index = index;
    let found = toggle_recursive(root, &mut current_index, op);
    proof {
        if !found {
            lemma_update_out_of_range(old(root)@, index as int, op);
        }
    }
}

/// Opens or closes the directory on row `index` of the displayed list.
pub fn toggle_node_expansion(root: &mut FileTreeNode, index: usize)
    ensures
        final(root)@ == update_row(old(root)@, index as int, Toggle::Expansion),
        well_formed(old(root)@) ==> well_formed(final(root)@),
{
    toggle_at(root, index, Toggle::Expansion);
    proof {
        if well_formed(old(root)@) {
            lemma_update_well_formed(old(root)@, index as int, Toggle::Expansion);
        }
    }
}

/// Flips the selection of the node on row `index` of the displayed list,
/// and of everything below it when it is a directory.
pub fn toggle_node_selection(root: &mut FileTreeNode, index: usize)
    ensures
        final(root)@ == update_row(old(root)@, index as int, Toggle::Selection),
        well_formed(old(root)@) ==> well_formed(final(root)@),
{
    toggle_at(root, index, Toggle::Selection);
    proof {
        if well_formed(old(root)@) {
            lemma_update_well_formed(old(root)@, index as int, Toggle::Selection);
        }
    }
}

/// `n`, or `usize::MAX` when `n` does not fit.
pub open spec fn capped(n: nat) -> usize {
    if n <= usize::MAX {
        n as usize
    } else {
        usize::MAX
    }
}

/// Number of rows that the node and its expanded descendants occupy (at
/// most `usize::MAX`).
pub fn count_visible_nodes(node: &FileTreeNode) -> (r: usize)
    ensures
        r == capped(visible(node@)),
    decreases *node,
{
    let mut count: usize = 1;
    if node.is_expanded {
        let n = node.children.len();
        let ghost s = node@.children;
        proof {
            lemma_children_view(*node);
        }
        let mut j: usize = 0;
        while j < n
            invariant
                n == node.children@.len(),
                n == s.len(),
                s == node@.children,
                forall|k: int| 0 <= k < n ==> #[trigger] s[k] == node.children@[k]@,
                j <= n,
                count == capped(1 + visible_forest(s.take(j as int))),
            decreases n - j,
        {
            assert(decreases_to!(*node => node.children@[j as int]));
            proof {
                lemma_visible_prefix(s, j as int, j as int);
            }
            let c = count_visible_nodes(&node.children[j]);
            count = count.saturating_add(c);
            j = j + 1;
        }
        proof {
            assert(s.take(n as int) =~= s);
        }
    }
    count
}

/// The row that a toggle addresses is still there afterwards.
pub proof fn lemma_update_keeps_row(m: NodeModel, i: int, op: Toggle)
    requires
        0 <= i < visible(m),
    ensures
        i < visible(update_row(m, i, op)),
    decreases m, 1nat,
{
    if i > 0 {
        lemma_update_forest_keeps_row(m.children, i - 1, op);
    }
}

pub proof fn lemma_update_forest_keeps_row(s: Seq<NodeModel>, i: int, op: Toggle)
    requires
        0 <= i < visible_forest(s),
    ensures
        i < visible_forest(update_row_forest(s, i, op)),
    decreases s, 0nat,
{
    let p = s.drop_last();
    if i < visible_forest(p) {
        lemma_update_forest_keeps_row(p, i, op);
        assert(update_row_forest(p, i, op).push(s.last()).drop_last() =~= update_row_forest(p, i, op));
    } else {
        lemma_update_keeps_row(s.last(), i - visible_forest(p), op);
        assert(p.push(update_row(s.last(), i - visible_forest(p), op)).drop_last() =~= p);
    }
}

/// Paths of the selected files at or below the node, in pre-order, whether
/// or not the directories on the way are expanded.
pub open spec fn selected_files(m: NodeModel) -> Seq<Seq<char>>
    decreases m, 1nat,
{
    (if !m.is_dir && m.is_selected {
        seq![m.path]
    } else {
        Seq::empty()
    }) + selected_forest(m.children)
}

pub open spec fn selected_forest(s: Seq<NodeModel>) -> Seq<Seq<char>>
    decreases s, 0nat,
{
    if s.len() == 0 {
        Seq::empty()
    } else {
        selected_forest(s.drop_last()) + selected_files(s.last())
    }
}

/// The text of each path.
pub open spec fn path_views(v: Seq<String>) -> Seq<Seq<char>> {
    v.map_values(|p: String| p@)
}

impl FileTreeNode {
    /// A file entry: selected, with no children.
    pub fn file(path: String) -> (r: FileTreeNode)
        ensures
            r@ == (NodeModel {
                path: path@,
                is_dir: false,
                is_selected: true,
                is_expanded: false,
                children: Seq::empty(),
            }),
            well_formed(r@),
    {
        let r = FileTreeNode {
            path,
            is_dir: false,
            is_selected: true,
            is_expanded: false,
            children: Vec::new(),
        };
        proof {
            lemma_children_view(r);
            assert(r@.children =~= Seq::<NodeModel>::empty());
        }
        r
    }

    /// A directory entry: selected, collapsed, holding the given entries in
    /// display order.
    pub fn directory(path: String, children: Vec<FileTreeNode>) -> (r: FileTreeNode)
        ensures
            r@.path == path@,
            r@.is_dir,
            r@.is_selected,
            !r@.is_expanded,
            sorted(r@.children),
            r@.children.to_multiset() == models(children@).to_multiset(),
            (forall|i: int| 0 <= i < children@.len() ==> #[trigger] well_formed(children@[i]@))
                ==> well_formed(r@),
    {
        let ghost given = children@;
        let sorted_children = sort_children(children);
        proof {
            broadcast use vstd::seq_lib::group_to_multiset_ensures;

            let s = models(sorted_children@);
            let t = models(given);
            lemma_models(given);
            lemma_models(sorted_children@);
            if forall|i: int| 0 <= i < given.len() ==> #[trigger] well_formed(given[i]@) {
                assert forall|i: int| 0 <= i < s.len() implies #[trigger] well_formed(s[i]) by {
                    assert(s.to_multiset().count(s[i]) > 0);
                    assert(t.contains(s[i]));
                    let k = choose|k: int| 0 <= k < t.len() && t[k] == s[i];
                    assert(well_formed(given[k]@));
                }
                lemma_well_formed_forest(s);
            }
        }
        FileTreeNode {
            path,
            is_dir: true,
            is_selected: true,
            is_expanded: false,
            children: sorted_children,
        }
    }

    fn collect_into(&self, out: &mut Vec<String>)
        ensures
            path_views(final(out)@) == path_views(old(out)@) + selected_files(self@),
        decreases *self,
    {
        if !self.is_dir && self.is_selected {
            out.push(self.path.clone());
        }
        let ghost start = path_views(out@);
        proof {
            assert(start =~= path_views(old(out)@) + (if !self.is_dir && self.is_selected {
                seq![self.path@]
            } else {
                Seq::empty()
            }));
        }
        let n = self.children.len();
        let ghost s = self@.children;
        proof {
            lemma_children_view(*self);
        }
        let mut j: usize = 0;
        while j < n
            invariant
                n == self.children@.len(),
                n == s.len(),
                s == self@.children,
                forall|k: int| 0 <= k < n ==> #[trigger] s[k] == self.children@[k]@,
                j <= n,
                path_views(out@) == start + selected_forest(s.take(j as int)),
            decreases n - j,
        {
            assert(decreases_to!(*self => self.children@[j as int]));
            self.children[j].collect_into(out);
            proof {
                assert(s.take(j as int + 1).drop_last() =~= s.take(j as int));
                assert(path_views(out@) =~= start + selected_forest(s.take(j as int + 1)));
            }
            j = j + 1;
        }
        proof {
            assert(s.take(n as int) =~= s);
            assert(path_views(out@) =~= path_views(old(out)@) + selected_files(self@));
        }
    }

    /// Paths of every selected file in the tree, in pre-order.
    pub fn collect_selected_files(&self) -> (r: Vec<String>)
        ensures
            path_views(r@) == selected_files(self@),
    {
        let mut out: Vec<String> = Vec::new();
        self.collect_into(&mut out);
        proof {
            assert(path_views(Seq::<String>::empty()) + selected_files(self@) =~= selected_files(
                self@,
            ));
        }
        out
    }

    /// The files to write when the selection is confirmed: `None` when no
    /// file is selected, so that nothing is written.
    pub fn files_to_write(&self) -> (r: Option<Vec<String>>)
        ensures
            match r {
                Some(files) => selected_files(self@).len() > 0 && path_views(files@)
                    == selected_files(self@),
                None => selected_files(self@).len() == 0,
            },
    {
        let files = self.collect_selected_files();
        if files.len() == 0 {
            None
        } else {
            Some(files)
        }
    }
}

} // verus!
