use vstd::prelude::*;
use crate::tree::{
    FileTreeNode, NodeModel, Toggle, capped, count_visible_nodes, lemma_update_keeps_row, path_views,
    selected_files, toggle_node_expansion, well_formed, toggle_node_selection, update_row, visible,
};

verus! {

/// A key press, as the selection screen understands it.
#[derive(Clone, Copy, PartialEq, Eq, Debug)]
pub enum Key {
    Quit,
    Confirm,
    SwitchFocus,
    ToggleSelect,
    Up,
    Down,
    Other,
}

/// What the caller does after a key press.
#[derive(Debug)]
pub enum Action {
    /// Draw the screen again and wait for the next key.
    Continue,
    /// End the session without writing anything.
    Exit,
    /// Write these files, in this order, then end the session.
    Write(Vec<String>),
}

/// The row above the cursor, or the first row.
pub open spec fn cursor_up(cursor: usize) -> usize {
    if cursor > 0 {
        (cursor - 1) as usize
    } else {
        0
    }
}

/// The row below the cursor, or the last of `count` rows.
pub open spec fn cursor_down(cursor: usize, count: usize) -> usize {
    if cursor + 1 < count {
        (cursor + 1) as usize
    } else {
        (count - 1) as usize
    }
}

/// The state of the selection screen: the tree, which part has the focus,
/// and the row under the cursor.
pub struct Session {
    pub root: FileTreeNode,
    pub focus_on_tree: bool,
    pub cursor: usize,
}

impl Session {
    /// The cursor stands on a row of the displayed list, and a root
    /// directory always shows its entries.
    pub open spec fn wf(&self) -> bool {
        &&& self.cursor < visible(self.root@)
        &&& self.root@.is_dir ==> self.root@.is_expanded
    }

    /// A session on a freshly built tree: the root directory shows its
    /// entries, the tree has the focus and the cursor stands on the first
    /// row.
    pub fn new(root: FileTreeNode) -> (r: Session)
        ensures
            r.wf(),
            r.root@ == (NodeModel { is_expanded: root@.is_dir || root@.is_expanded, ..root@ }),
            well_formed(root@) ==> well_formed(r.root@),
            r.focus_on_tree,
            r.cursor == 0,
    {
        let mut root = root;
        if root.is_dir {
            root.is_expanded = true;
        }
        Session { root, focus_on_tree: true, cursor: 0 }
    }

    /// Reacts to one key press.
    pub fn handle(&mut self, key: Key) -> (a: Action)
        requires
            old(self).wf(),
        ensures
            final(self).wf(),
            well_formed(old(self).root@) ==> well_formed(final(self).root@),
            key == Key::Quit ==> a is Exit && *final(self) == *old(self),
            key == Key::Confirm && old(self).focus_on_tree && old(self).cursor > 0 ==> a is Continue
                && final(self).root@ == update_row(
                old(self).root@,
                old(self).cursor as int,
                Toggle::Expansion,
            ) && final(self).focus_on_tree && final(self).cursor == old(self).cursor,
            key == Key::Confirm && old(self).focus_on_tree && old(self).cursor == 0 ==> a is Continue
                && *final(self) == *old(self),
            key == Key::Confirm && !old(self).focus_on_tree ==> *final(self) == *old(self) && (
            match a {
                Action::Write(files) => selected_files(old(self).root@).len() > 0 && path_views(
                    files@,
                ) == selected_files(old(self).root@),
                Action::Exit => selected_files(old(self).root@).len() == 0,
                Action::Continue => false,
            }),
            key == Key::SwitchFocus ==> a is Continue && final(self).root == old(self).root
                && final(self).focus_on_tree == !old(self).focus_on_tree && final(self).cursor
                == old(self).cursor,
            key == Key::ToggleSelect && old(self).focus_on_tree ==> a is Continue
                && final(self).root@ == update_row(
                old(self).root@,
                old(self).cursor as int,
                Toggle::Selection,
            ) && final(self).focus_on_tree && final(self).cursor == old(self).cursor,
            key == Key::Up && old(self).focus_on_tree ==> a is Continue && final(self).root
                == old(self).root && final(self).focus_on_tree && final(self).cursor
                == cursor_up(old(self).cursor),
            key == Key::Down && old(self).focus_on_tree ==> a is Continue && final(self).root
                == old(self).root && final(self).focus_on_tree && final(self).cursor
                == cursor_down(old(self).cursor, capped(visible(old(self).root@))),
            (key == Key::Other || (!old(self).focus_on_tree && (key == Key::ToggleSelect || key
                == Key::Up || key == Key::Down))) ==> a is Continue && *final(self) == *old(self),
    {
        match key {
            Key::Quit => Action::Exit,
            Key::Confirm => {
                if self.focus_on_tree {
                    if self.cursor > 0 {
                        proof {
                            lemma_update_keeps_row(self.root@, self.cursor as int, Toggle::Expansion);
                        }
                        toggle_node_expansion(&mut self.root, self.cursor);
                    }
                    Action::Continue
                } else {
                    match self.root.files_to_write() {
                        Some(files) => Action::Write(files),
                        None => Action::Exit,
                    }
                }
            },
            Key::SwitchFocus => {
                self.focus_on_tree = !self.focus_on_tree;
                Action::Continue
            },
            Key::ToggleSelect => {
                if self.focus_on_tree {
                    proof {
                        lemma_update_keeps_row(self.root@, self.cursor as int, Toggle::Selection);
                    }
                    toggle_node_selection(&mut self.root, self.cursor);
                }
                Action::Continue
            },
            Key::Up => {
                if self.focus_on_tree && self.cursor > 0 {
                    self.cursor = self.cursor - 1;
                }
                Action::Continue
            },
            Key::Down => {
                if self.focus_on_tree {
                    let count = count_visible_nodes(&self.root);
                    if self.cursor < count - 1 {
                        self.cursor = self.cursor + 1;
                    } else {
                        self.cursor = count - 1;
                    }
                }
                Action::Continue
            },
            Key::Other => Action::Continue,
        }
    }
}

} // verus!
