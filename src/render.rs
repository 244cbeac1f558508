use vstd::prelude::*;
use vstd::string::{StrSliceExecFns, StringExecFns};
use crate::rows::{RowModel, TreeRow};

verus! {

/// Two spaces for each level of depth.
pub open spec fn indent(depth: nat) -> Seq<char>
    decreases depth,
{
    if depth == 0 {
        Seq::empty()
    } else {
        indent((depth - 1) as nat) + "  "@
    }
}

/// The disclosure mark: open or closed for a directory, blank for a file.
pub open spec fn icon(r: RowModel) -> Seq<char> {
    if r.is_dir {
        if r.is_expanded {
            "▼ "@
        } else {
            "▶ "@
        }
    } else {
        "  "@
    }
}

pub open spec fn checkbox(r: RowModel) -> Seq<char> {
    if r.is_selected {
        "[✓]"@
    } else {
        "[ ]"@
    }
}

/// The last component of a path: what follows its last `/`.
pub open spec fn base_name(p: Seq<char>) -> Seq<char>
    decreases p.len(),
{
    if p.len() == 0 || p.last() == '/' {
        Seq::empty()
    } else {
        base_name(p.drop_last()).push(p.last())
    }
}

/// The text of a row as it is drawn.
pub open spec fn label_of(r: RowModel) -> Seq<char> {
    indent(r.depth) + icon(r) + checkbox(r) + " "@ + base_name(r.path)
}

fn base_name_exec(p: &str) -> (r: &str)
    ensures
        r@ == base_name(p@),
{
    let n = p.unicode_len();
    let mut k: usize = n;
    proof {
        assert(p@.take(n as int) =~= p@);
        assert(p@.subrange(n as int, n as int) =~= Seq::<char>::empty());
    }
    while k > 0 && p.get_char(k - 1) != '/'
        invariant
            n == p@.len(),
            k <= n,
            base_name(p@) == base_name(p@.take(k as int)) + p@.subrange(k as int, n as int),
        decreases k,
    {
        proof {
            let t = p@.take(k as int);
            assert(t.drop_last() =~= p@.take(k - 1));
            assert(t.last() == p@[k - 1]);
            assert(base_name(p@.take(k - 1)).push(p@[k - 1]) + p@.subrange(k as int, n as int)
                =~= base_name(p@.take(k - 1)) + p@.subrange(k - 1, n as int));
        }
        k = k - 1;
    }
    proof {
        let t = p@.take(k as int);
        if k > 0 {
            assert(t.last() == p@[k - 1]);
        }
        assert(base_name(t) =~= Seq::<char>::empty());
        assert(base_name(p@) =~= p@.subrange(k as int, n as int));
    }
    p.substring_char(k, n)
}

/// The text of a row of the file list: indentation by depth, the
/// disclosure mark, the checkbox and the entry's name.
pub fn row_label(row: &TreeRow) -> (r: String)
    ensures
        r@ == label_of(row@),
{
    let mut s = String::new();
    let mut i: usize = 0;
    while i < row.depth
        invariant
            i <= row.depth,
            s@ == indent(i as nat),
        decreases row.depth - i,
    {
        s.append("  ");
        i = i + 1;
    }
    if row.is_dir {
        if row.is_expanded {
            s.append("▼ ");
        } else {
            s.append("▶ ");
        }
    } else {
        s.append("  ");
    }
    if row.is_selected {
        s.append("[✓]");
    } else {
        s.append("[ ]");
    }
    s.append(" ");
    s.append(base_name_exec(row.path.as_str()));
    s
}

} // verus!
