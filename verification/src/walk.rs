//! The filter a directory traversal applies to each visited entry: an
//! entry under an explicitly excluded path prefix is pruned, and so is a
//! hidden entry unless hidden entries are allowed.  Paths are handled as
//! their component names, root first.

use vstd::prelude::*;
use vstd::string::StrSliceExecFns;

verus! {

/// A name is hidden when its first character is a dot.
pub open spec fn is_hidden_name(name: Seq<char>) -> bool {
    name.len() > 0 && name[0] == '.'
}

/// `pre` is a component-wise prefix of `p`.
pub open spec fn is_path_prefix(pre: Seq<Seq<char>>, p: Seq<Seq<char>>) -> bool {
    pre.len() <= p.len() && forall|i: int| 0 <= i < pre.len() ==> pre[i] == p[i]
}

/// The filter's verdict on one visited entry: it passes when no
/// exclusion is a prefix of its path, and its own name is not hidden
/// unless hidden entries are allowed.
pub open spec fn allowed_spec(
    p: Seq<Seq<char>>,
    excludes: Seq<Seq<Seq<char>>>,
    allow_hidden: bool,
) -> bool {
    &&& !(exists|k: int| 0 <= k < excludes.len() && is_path_prefix(#[trigger] excludes[k], p))
    &&& (allow_hidden || !is_hidden_name(p.last()))
}

/// An entry is reached by the pruning descent exactly when every
/// ancestor of it, itself included, passes the filter.
pub open spec fn survives_spec(
    p: Seq<Seq<char>>,
    excludes: Seq<Seq<Seq<char>>>,
    allow_hidden: bool,
) -> bool {
    forall|j: int|
        1 <= j <= p.len() ==> allowed_spec(#[trigger] p.take(j), excludes, allow_hidden)
}

/// Exclusion is absolute: an entry whose path extends an excluded path
/// does not pass the filter, whatever the hidden-entry policy.
pub proof fn lemma_excluded(
    p: Seq<Seq<char>>,
    excludes: Seq<Seq<Seq<char>>>,
    allow_hidden: bool,
    k: int,
)
    requires
        0 <= k < excludes.len(),
        is_path_prefix(excludes[k], p),
    ensures
        !allowed_spec(p, excludes, allow_hidden),
{
}

/// A hidden entry does not pass the filter unless hidden entries are
/// explicitly allowed.
pub proof fn lemma_hidden_filtered(p: Seq<Seq<char>>, excludes: Seq<Seq<Seq<char>>>)
    requires
        p.len() > 0,
        is_hidden_name(p.last()),
    ensures
        !allowed_spec(p, excludes, false),
{
}

/// Whether `pre` names a component-wise prefix of `p`.
fn is_path_prefix_exec(pre: &Vec<String>, p: &Vec<String>) -> (r: bool)
    ensures
        r == is_path_prefix(pre.deep_view(), p.deep_view()),
{
    if pre.len() > p.len() {
        return false;
    }
    let mut i: usize = 0;
    while i < pre.len()
        invariant
            i <= pre@.len() <= p@.len(),
            forall|t: int| 0 <= t < i ==> pre.deep_view()[t] == p.deep_view()[t],
        decreases pre@.len() - i,
    {
        let same = pre[i].eq(&p[i]);
        if !same {
            proof {
                assert(pre.deep_view()[i as int] == pre@[i as int]@);
                assert(p.deep_view()[i as int] == p@[i as int]@);
            }
            return false;
        }
        proof {
            assert(pre.deep_view()[i as int] == pre@[i as int]@);
            assert(p.deep_view()[i as int] == p@[i as int]@);
        }
        i = i + 1;
    }
    true
}

/// The traversal filter's verdict on one visited entry, given as its
/// path components, the excluded paths' components, and the
/// hidden-entry policy.
pub fn entry_allowed(path: &Vec<String>, excludes: &Vec<Vec<String>>, allow_hidden: bool) -> (r:
    bool)
    requires
        path@.len() > 0,
    ensures
        r == allowed_spec(path.deep_view(), excludes.deep_view(), allow_hidden),
{
    let mut k: usize = 0;
    while k < excludes.len()
        invariant
            k <= excludes@.len(),
            forall|t: int|
                0 <= t < k ==> !is_path_prefix(
                    #[trigger] excludes.deep_view()[t],
                    path.deep_view(),
                ),
        decreases excludes@.len() - k,
    {
        let pruned = is_path_prefix_exec(&excludes[k], path);
        proof {
            assert(excludes.deep_view()[k as int] == excludes@[k as int].deep_view());
        }
        if pruned {
            return false;
        }
        k = k + 1;
    }
    if allow_hidden {
        return true;
    }
    let name = &path[path.len() - 1];
    let name_str = name.as_str();
    let name_len = name_str.unicode_len();
    proof {
        assert(path.deep_view().last() == path@[path@.len() - 1]@);
    }
    if name_len == 0 {
        return true;
    }
    let first = name_str.get_char(0);
    !(first == '.')
}

/// Whether an entry is reached at all: every ancestor of it, itself
/// included, must pass the filter, since the descent prunes a rejected
/// directory together with everything below it.
pub fn survives(path: &Vec<String>, excludes: &Vec<Vec<String>>, allow_hidden: bool) -> (r: bool)
    requires
        path@.len() > 0,
    ensures
        r == survives_spec(path.deep_view(), excludes.deep_view(), allow_hidden),
{
    let mut prefix: Vec<String> = Vec::new();
    let mut j: usize = 0;
    let mut ok = true;
    while j < path.len()
        invariant
            j <= path@.len(),
            prefix@.len() == j,
            prefix.deep_view() == path.deep_view().take(j as int),
            ok == (forall|t: int|
                1 <= t <= j ==> allowed_spec(
                    #[trigger] path.deep_view().take(t),
                    excludes.deep_view(),
                    allow_hidden,
                )),
        decreases path@.len() - j,
    {
        let comp = path[j].clone();
        prefix.push(comp);
        proof {
            assert(prefix.deep_view() =~= path.deep_view().take(j + 1));
        }
        let a = entry_allowed(&prefix, excludes, allow_hidden);
        if !a {
            ok = false;
        }
        j = j + 1;
    }
    proof {
        if ok {
            assert(path.deep_view().take(path@.len() as int) =~= path.deep_view());
        }
    }
    ok
}

} // verus!
