use vstd::prelude::*;
use vstd::string::StrSliceExecFns;
use crate::tree::{lemma_models, models, FileTreeNode, NodeModel};

verus! {

/// `a` comes no later than `b` in lexicographic order of code points.
pub open spec fn chars_le(a: Seq<char>, b: Seq<char>) -> bool
    decreases a.len(),
{
    if a.len() == 0 {
        true
    } else if b.len() == 0 {
        false
    } else if a[0] != b[0] {
        (a[0] as int) < (b[0] as int)
    } else {
        chars_le(a.drop_first(), b.drop_first())
    }
}

/// Sibling order: files before directories, each group by path.
pub open spec fn key_le(x: NodeModel, y: NodeModel) -> bool {
    if x.is_dir != y.is_dir {
        !x.is_dir
    } else {
        chars_le(x.path, y.path)
    }
}

pub open spec fn sorted(s: Seq<NodeModel>) -> bool {
    forall|i: int, j: int| 0 <= i < j < s.len() ==> #[trigger] key_le(s[i], s[j])
}

pub proof fn lemma_chars_trans(a: Seq<char>, b: Seq<char>, c: Seq<char>)
    requires
        chars_le(a, b),
        chars_le(b, c),
    ensures
        chars_le(a, c),
    decreases a.len(),
{
    if a.len() > 0 && b.len() > 0 && c.len() > 0 && a[0] == b[0] && b[0] == c[0] {
        lemma_chars_trans(a.drop_first(), b.drop_first(), c.drop_first());
    }
}

pub proof fn lemma_key_trans(x: NodeModel, y: NodeModel, z: NodeModel)
    requires
        key_le(x, y),
        key_le(y, z),
    ensures
        key_le(x, z),
{
    if x.is_dir == y.is_dir && y.is_dir == z.is_dir {
        lemma_chars_trans(x.path, y.path, z.path);
    }
}

pub proof fn lemma_chars_total(a: Seq<char>, b: Seq<char>)
    ensures
        chars_le(a, b) || chars_le(b, a),
    decreases a.len(),
{
    if a.len() > 0 && b.len() > 0 {
        if a[0] == b[0] {
            lemma_chars_total(a.drop_first(), b.drop_first());
        } else {
            assert((a[0] as int) != (b[0] as int));
        }
    }
}

fn chars_le_exec(a: &str, b: &str) -> (r: bool)
    ensures
        r == chars_le(a@, b@),
{
    let n = a.unicode_len();
    let m = b.unicode_len();
    let mut i: usize = 0;
    proof {
        assert(a@.skip(0) =~= a@);
        assert(b@.skip(0) =~= b@);
    }
    while i < n && i < m
        invariant
            n == a@.len(),
            m == b@.len(),
            i <= n,
            i <= m,
            chars_le(a@, b@) == chars_le(a@.skip(i as int), b@.skip(i as int)),
        decreases n - i,
    {
        let c = a.get_char(i);
        let d = b.get_char(i);
        proof {
            assert(a@.skip(i as int)[0] == c);
            assert(b@.skip(i as int)[0] == d);
            assert(a@.skip(i as int).drop_first() =~= a@.skip(i as int + 1));
            assert(b@.skip(i as int).drop_first() =~= b@.skip(i as int + 1));
        }
        if c != d {
            return (c as u32) < (d as u32);
        }
        i = i + 1;
    }
    i == n
}

fn key_le_exec(a: &FileTreeNode, b: &FileTreeNode) -> (r: bool)
    ensures
        r == key_le(a@, b@),
{
    if a.is_dir != b.is_dir {
        !a.is_dir
    } else {
        chars_le_exec(a.path.as_str(), b.path.as_str())
    }
}

/// Puts siblings in display order, keeping every one of them.
pub fn sort_children(children: Vec<FileTreeNode>) -> (r: Vec<FileTreeNode>)
    ensures
        sorted(models(r@)),
        models(r@).to_multiset() == models(children@).to_multiset(),
{
    broadcast use vstd::seq_lib::group_to_multiset_ensures;

    let mut rest = children;
    let mut out: Vec<FileTreeNode> = Vec::new();
    proof {
        lemma_models(out@);
    }
    while rest.len() > 0
        invariant
            sorted(models(out@)),
            models(out@).to_multiset().add(models(rest@).to_multiset()) == models(
                children@,
            ).to_multiset(),
        decreases rest@.len(),
    {
        let ghost rest_before = rest@;
        let x = rest.pop().unwrap();
        proof {
            lemma_models(out@);
            assert(rest@ == rest_before.drop_last());
            assert(models(rest_before) == models(rest@).push(x@));
            models(rest@).to_multiset_ensures();
            assert(models(rest_before).to_multiset() == models(rest@).to_multiset().insert(x@));
        }
        let mut p: usize = 0;
        while p < out.len() && key_le_exec(&out[p], &x)
            invariant
                p <= out@.len(),
                forall|k: int| 0 <= k < p ==> #[trigger] key_le(out@[k]@, x@),
            decreases out@.len() - p,
        {
            p = p + 1;
        }
        let ghost before = models(out@);
        out.insert(p, x);
        proof {
            lemma_models(out@);
            assert(models(out@) =~= before.insert(p as int, x@));
            vstd::seq_lib::to_multiset_insert(before, p as int, x@);
            assert(models(out@).to_multiset() == before.to_multiset().insert(x@));
            assert(models(out@).to_multiset().add(models(rest@).to_multiset()) =~= before.to_multiset().add(
                models(rest@).to_multiset().insert(x@),
            ));
            if p < before.len() {
                lemma_chars_total(before[p as int].path, x@.path);
                assert(key_le(x@, before[p as int]));
            }
            assert forall|k: int| 0 <= k < p implies #[trigger] key_le(before[k], x@) by {
                assert(key_le(out@[k]@, x@));
            }
            assert forall|i: int, j: int| 0 <= i < j < models(out@).len() implies #[trigger] key_le(
                models(out@)[i],
                models(out@)[j],
            ) by {
                if j < p {
                    assert(key_le(before[i], before[j]));
                } else if j == p {
                    assert(key_le(before[i], x@));
                } else if i < p {
                    assert(key_le(before[i], x@));
                    assert(key_le(x@, before[p as int]));
                    if p as int != j - 1 {
                        assert(key_le(before[p as int], before[j - 1]));
                        lemma_key_trans(x@, before[p as int], before[j - 1]);
                    }
                    lemma_key_trans(before[i], x@, before[j - 1]);
                } else if i == p {
                    if p as int != j - 1 {
                        assert(key_le(before[p as int], before[j - 1]));
                        lemma_key_trans(x@, before[p as int], before[j - 1]);
                    }
                } else {
                    assert(key_le(before[i - 1], before[j - 1]));
                }
            }
        }
    }
    out
}

} // verus!
