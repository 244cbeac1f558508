use vstd::prelude::*;
use crate::tree::{lemma_children_view, visible, visible_forest, FileTreeNode, NodeModel};

verus! {

broadcast use vstd::std_specs::vec::group_vec_axioms;

/// One row of the displayed list.
pub struct TreeRow {
    pub depth: usize,
    pub path: String,
    pub is_dir: bool,
    pub is_expanded: bool,
    pub is_selected: bool,
}

pub struct RowModel {
    pub depth: nat,
    pub path: Seq<char>,
    pub is_dir: bool,
    pub is_expanded: bool,
    pub is_selected: bool,
}

impl View for TreeRow {
    type V = RowModel;

    open spec fn view(&self) -> RowModel {
        RowModel {
            depth: self.depth as nat,
            path: self.path@,
            is_dir: self.is_dir,
            is_expanded: self.is_expanded,
            is_selected: self.is_selected,
        }
    }
}

/// The row that shows node `m` at `depth`.
pub open spec fn row_of(m: NodeModel, depth: nat) -> RowModel {
    RowModel {
        depth,
        path: m.path,
        is_dir: m.is_dir,
        is_expanded: m.is_expanded,
        is_selected: m.is_selected,
    }
}

/// The pre-order flattening of the node, restricted to expanded branches,
/// with each row's depth counted from `depth`.
pub open spec fn rows(m: NodeModel, depth: nat) -> Seq<RowModel>
    decreases m, 1nat,
{
    seq![row_of(m, depth)] + if m.is_expanded {
        rows_forest(m.children, depth + 1)
    } else {
        Seq::empty()
    }
}

pub open spec fn rows_forest(s: Seq<NodeModel>, depth: nat) -> Seq<RowModel>
    decreases s, 0nat,
{
    if s.len() == 0 {
        Seq::empty()
    } else {
        rows_forest(s.drop_last(), depth) + rows(s.last(), depth)
    }
}

pub open spec fn row_views(v: Seq<TreeRow>) -> Seq<RowModel> {
    v.map_values(|r: TreeRow| r@)
}

/// The displayed list has exactly as many rows as the visible count says.
pub proof fn lemma_rows_count(m: NodeModel, depth: nat)
    ensures
        rows(m, depth).len() == visible(m),
    decreases m, 1nat,
{
    lemma_rows_forest_count(m.children, depth + 1);
}

pub proof fn lemma_rows_forest_count(s: Seq<NodeModel>, depth: nat)
    ensures
        rows_forest(s, depth).len() == visible_forest(s),
    decreases s, 0nat,
{
    if s.len() > 0 {
        lemma_rows_forest_count(s.drop_last(), depth);
        lemma_rows_count(s.last(), depth);
    }
}

fn push_rows(node: &FileTreeNode, depth: usize, items: &mut Vec<TreeRow>)
    requires
        depth <= old(items)@.len(),
    ensures
        row_views(final(items)@) == row_views(old(items)@) + rows(node@, depth as nat),
    decreases *node,
{
    items.push(
        TreeRow {
            depth,
            path: node.path.clone(),
            is_dir: node.is_dir,
            is_expanded: node.is_expanded,
            is_selected: node.is_selected,
        },
    );
    proof {
        assert(row_views(items@) =~= row_views(old(items)@) + seq![row_of(node@, depth as nat)]);
    }
    if node.is_expanded {
        let n = node.children.len();
        let ghost s = node@.children;
        let ghost start = row_views(items@);
        proof {
            lemma_children_view(*node);
        }
        let mut j: usize = 0;
        while j < n
            invariant
                n == node.children@.len(),
                n == s.len(),
                s == node@.children,
                forall|k: int| 0 <= k < n ==> #[trigger] s[k] == node.children@[k]@,
                j <= n,
                depth < items@.len(),
                row_views(items@) == start + rows_forest(s.take(j as int), depth as nat + 1),
            decreases n - j,
        {
            assert(decreases_to!(*node => node.children@[j as int]));
            let emitted = items.len();
            assert(depth < emitted);
            push_rows(&node.children[j], depth + 1, items);
            proof {
                assert(s.take(j as int + 1).drop_last() =~= s.take(j as int));
                assert(row_views(items@) =~= start + rows_forest(
                    s.take(j as int + 1),
                    depth as nat + 1,
                ));
            }
            j = j + 1;
        }
        proof {
            assert(s.take(n as int) =~= s);
            assert(row_views(items@) =~= row_views(old(items)@) + rows(node@, depth as nat));
        }
    } else {
        proof {
            assert(row_views(items@) =~= row_views(old(items)@) + rows(node@, depth as nat));
        }
    }
}

/// The rows of the displayed list, in the order in which they are drawn.
pub fn create_tree_items(root: &FileTreeNode) -> (r: Vec<TreeRow>)
    ensures
        row_views(r@) == rows(root@, 0),
        r@.len() == visible(root@),
{
    let mut items: Vec<TreeRow> = Vec::new();
    push_rows(root, 0, &mut items);
    proof {
        assert(row_views(Seq::<TreeRow>::empty()) + rows(root@, 0) =~= rows(root@, 0));
        lemma_rows_count(root@, 0);
        assert(row_views(items@).len() == items@.len());
    }
    items
}

} // verus!
