use vstd::prelude::*;
use vstd::string::{StrSliceExecFns, StringExecFns};

verus! {

/// The URL ends in `/`.
pub open spec fn ends_with_slash(u: Seq<char>) -> bool {
    u.len() > 0 && u.last() == '/'
}

/// The suffix that marks a repository URL as a git remote.
pub open spec fn git_suffix() -> Seq<char> {
    seq!['.', 'g', 'i', 't']
}

/// The URL ends in `.git`.
pub open spec fn ends_with_git(u: Seq<char>) -> bool {
    u.len() >= 4 && u.subrange(u.len() - 4, u.len() as int) == git_suffix()
}

/// The URL without one trailing `/`, if it ends with one.
pub open spec fn strip_slash(u: Seq<char>) -> Seq<char> {
    if ends_with_slash(u) {
        u.drop_last()
    } else {
        u
    }
}

/// The URL without one trailing `.git`, if it ends with one.
pub open spec fn strip_git(u: Seq<char>) -> Seq<char> {
    if ends_with_git(u) {
        u.subrange(0, u.len() - 4)
    } else {
        u
    }
}

/// The canonical form of a repository URL: at most one trailing `/` and at
/// most one trailing `.git` are dropped, whichever of the two comes last.
pub open spec fn resolved(u: Seq<char>) -> Seq<char> {
    if ends_with_slash(u) {
        strip_git(strip_slash(u))
    } else {
        strip_slash(strip_git(u))
    }
}

/// The first `end` characters of `s` end in `.git`.
fn git_before(s: &str, end: usize) -> (r: bool)
    requires
        end <= s@.len(),
    ensures
        r == ends_with_git(s@.take(end as int)),
{
    if end < 4 {
        return false;
    }
    let r = s.get_char(end - 4) == '.' && s.get_char(end - 3) == 'g' && s.get_char(end - 2) == 'i'
        && s.get_char(end - 1) == 't';
    proof {
        let t = s@.take(end as int);
        let tail = t.subrange(end - 4, end as int);
        assert(tail =~= s@.subrange(end - 4, end as int));
        if tail == git_suffix() {
            assert(tail[0] == '.' && tail[1] == 'g' && tail[2] == 'i' && tail[3] == 't');
        }
        if r {
            assert(tail =~= git_suffix());
        }
    }
    r
}

/// Canonical base URL of a repository, from which the archive URL is formed.
pub fn resolve_url(url: &str) -> (r: String)
    ensures
        r@ == resolved(url@),
{
    let n = url.unicode_len();
    let ghost u = url@;
    proof {
        assert(u.take(n as int) =~= u);
    }
    let end: usize;
    if n > 0 && url.get_char(n - 1) == '/' {
        let e1 = n - 1;
        proof {
            assert(u.take(e1 as int) =~= u.drop_last());
        }
        if git_before(url, e1) {
            end = e1 - 4;
            proof {
                assert(u.take(end as int) =~= u.drop_last().subrange(0, e1 - 4));
            }
        } else {
            end = e1;
        }
    } else if git_before(url, n) {
        let e1 = n - 4;
        proof {
            assert(u.take(e1 as int) =~= u.subrange(0, n - 4));
        }
        if e1 > 0 && url.get_char(e1 - 1) == '/' {
            end = e1 - 1;
            proof {
                assert(u.take(end as int) =~= u.subrange(0, n - 4).drop_last());
            }
        } else {
            end = e1;
        }
    } else {
        end = n;
    }
    url.substring_char(0, end).to_owned()
}

/// Resolving an already resolved URL changes nothing, unless the URL carried
/// a second trailing `/` or `.git` (as in `https://host/x//`,
/// `https://host/x.git.git` or `https://host/x/.git/`), which one resolution
/// leaves in place.
pub proof fn lemma_resolve_idempotent(u: Seq<char>)
    requires
        !ends_with_slash(resolved(u)),
        !ends_with_git(resolved(u)),
    ensures
        resolved(resolved(u)) == resolved(u),
{
}

/// Resolving keeps a prefix of the URL and removes one of `/`, `.git`,
/// `.git/` or `/.git` from its end, or nothing.
pub proof fn lemma_resolve_strips_suffixes(u: Seq<char>)
    ensures
        resolved(u).len() <= u.len(),
        resolved(u) == u.take(resolved(u).len() as int),
        ({
            let d = u.skip(resolved(u).len() as int);
            d == Seq::<char>::empty() || d == seq!['/'] || d == git_suffix() || d == git_suffix()
                + seq!['/'] || d == seq!['/'] + git_suffix()
        }),
{
    let r = resolved(u);
    let d = u.skip(r.len() as int);
    if ends_with_slash(u) {
        let s = u.drop_last();
        if ends_with_git(s) {
            assert(r =~= u.take(r.len() as int));
            assert(d =~= git_suffix() + seq!['/']);
        } else {
            assert(r =~= u.take(r.len() as int));
            assert(d =~= seq!['/']);
        }
    } else if ends_with_git(u) {
        let s = u.subrange(0, u.len() - 4);
        if ends_with_slash(s) {
            assert(r =~= u.take(r.len() as int));
            assert(d =~= seq!['/'] + git_suffix());
        } else {
            assert(r =~= u.take(r.len() as int));
            assert(d =~= git_suffix());
        }
    } else {
        assert(r =~= u.take(r.len() as int));
        assert(d =~= Seq::<char>::empty());
    }
}

/// The address of the archive of a repository's default branch.
pub fn archive_url(resolved_url: &str) -> (r: String)
    ensures
        r@ == resolved_url@ + "/zipball/master"@,
{
    let mut r = resolved_url.to_owned();
    r.append("/zipball/master");
    r
}

/// An archive entry whose name ends in `/` stands for a directory.
pub fn is_directory_entry(name: &str) -> (r: bool)
    ensures
        r == (name@.len() > 0 && name@.last() == '/'),
{
    let n = name.unicode_len();
    n > 0 && name.get_char(n - 1) == '/'
}

} // verus!
