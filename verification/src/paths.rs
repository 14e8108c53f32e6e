//! Path mapping: re-rooting a source path under the destination root.
//!
//! A path is a vector of name components, read from some filesystem root
//! downward. The mapper takes a path known to lie under the source base and
//! produces the path with the same relative suffix under the target root.

use vstd::prelude::*;

verus! {

/// Error returned when a path handed to the mapper is not a descendant of
/// the base it is supposed to lie under. This signals a broken internal
/// invariant of the caller, not a user error.
#[derive(Debug, PartialEq, Eq, Structural, Clone, Copy)]
pub enum PathError {
    NotDescendant,
}

/// `base` is a (non-strict) ancestor of `p`: every component of `base` is a
/// component of `p` at the same position.
pub open spec fn is_under(base: Seq<Seq<char>>, p: Seq<Seq<char>>) -> bool {
    base.is_prefix_of(p)
}

/// `p` re-rooted from `base` to `target`: the target root followed by the
/// suffix of `p` below `base`.
pub open spec fn map_spec(
    base: Seq<Seq<char>>,
    target: Seq<Seq<char>>,
    p: Seq<Seq<char>>,
) -> Seq<Seq<char>> {
    target + p.skip(base.len() as int)
}

/// `p` is a strict descendant of `base`: an ancestor chain leads from `base`
/// properly down to `p`.
pub open spec fn strictly_under(base: Seq<Seq<char>>, p: Seq<Seq<char>>) -> bool {
    is_under(base, p) && base.len() < p.len()
}

/// The directory a path lies directly in: the path without its last
/// component.
pub open spec fn parent_of(p: Seq<Seq<char>>) -> Seq<Seq<char>> {
    p.drop_last()
}

/// Lying under a directory is transitive.
pub proof fn lemma_under_trans(a: Seq<Seq<char>>, b: Seq<Seq<char>>, c: Seq<Seq<char>>)
    requires
        is_under(a, b),
        is_under(b, c),
    ensures
        is_under(a, c),
{
    assert(a =~= c.subrange(0, a.len() as int));
}

/// Whatever lies under a prefix of `b` lies under `b` itself.
pub proof fn lemma_under_take(a: Seq<Seq<char>>, b: Seq<Seq<char>>, k: int)
    requires
        0 <= k <= b.len(),
        is_under(a, b.take(k)),
    ensures
        is_under(a, b),
{
    assert(b.take(k).is_prefix_of(b));
    lemma_under_trans(a, b.take(k), b);
}

/// Two ancestors of one path are comparable: one lies under the other.
pub proof fn lemma_ancestors_comparable(a: Seq<Seq<char>>, b: Seq<Seq<char>>, c: Seq<Seq<char>>)
    requires
        is_under(a, c),
        is_under(b, c),
    ensures
        is_under(a, b) || is_under(b, a),
{
    if a.len() <= b.len() {
        assert(a =~= b.subrange(0, a.len() as int));
    } else {
        assert(b =~= a.subrange(0, b.len() as int));
    }
}

/// Clone a path, component by component.
pub fn clone_path(p: &Vec<String>) -> (r: Vec<String>)
    ensures
        r@ == p@,
        r.deep_view() == p.deep_view(),
{
    let mut out: Vec<String> = Vec::new();
    let mut i: usize = 0;
    while i < p.len()
        invariant
            i <= p.len(),
            out@ =~= p@.take(i as int),
        decreases p.len() - i,
    {
        out.push(p[i].clone());
        i += 1;
    }
    proof {
        assert(out@ =~= p@);
        assert(out.deep_view() =~= p.deep_view());
    }
    out
}

/// Whether two paths name the same node, component by component.
pub fn path_eq(a: &Vec<String>, b: &Vec<String>) -> (r: bool)
    ensures
        r == (a.deep_view() == b.deep_view()),
{
    if a.len() != b.len() {
        assert(a.deep_view().len() != b.deep_view().len());
        return false;
    }
    let mut i: usize = 0;
    while i < a.len()
        invariant
            i <= a.len() == b.len(),
            forall|j: int| 0 <= j < i ==> a.deep_view()[j] == b.deep_view()[j],
        decreases a.len() - i,
    {
        if a[i] != b[i] {
            assert(a.deep_view()[i as int] != b.deep_view()[i as int]);
            return false;
        }
        i += 1;
    }
    proof {
        assert(a.deep_view() =~= b.deep_view());
    }
    true
}

/// Whether `q` lies at or below `p`.
pub fn path_starts_with(q: &Vec<String>, p: &Vec<String>) -> (r: bool)
    ensures
        r == is_under(p.deep_view(), q.deep_view()),
{
    if q.len() < p.len() {
        assert(!is_under(p.deep_view(), q.deep_view()));
        return false;
    }
    let mut i: usize = 0;
    while i < p.len()
        invariant
            i <= p.len() <= q.len(),
            forall|j: int| 0 <= j < i ==> p.deep_view()[j] == q.deep_view()[j],
        decreases p.len() - i,
    {
        if p[i] != q[i] {
            assert(p.deep_view()[i as int] != q.deep_view()[i as int]);
            return false;
        }
        i += 1;
    }
    proof {
        assert(p.deep_view() =~= q.deep_view().take(p.deep_view().len() as int));
    }
    true
}

/// The path of an entry named `name` directly inside `dir`.
pub fn child_path(dir: &Vec<String>, name: String) -> (r: Vec<String>)
    ensures
        r@ == dir@.push(name),
        r.deep_view() == dir.deep_view().push(name@),
{
    let mut out = clone_path(dir);
    out.push(name);
    proof {
        assert(out@ =~= dir@.push(name));
        assert(out.deep_view() =~= dir.deep_view().push(name@));
    }
    out
}

/// The first `k` components of `p`.
pub fn prefix_path(p: &Vec<String>, k: usize) -> (r: Vec<String>)
    requires
        k <= p@.len(),
    ensures
        r@ == p@.take(k as int),
        r.deep_view() == p.deep_view().take(k as int),
{
    let mut out: Vec<String> = Vec::new();
    let mut i: usize = 0;
    while i < k
        invariant
            i <= k <= p@.len(),
            out@ =~= p@.take(i as int),
        decreases k - i,
    {
        out.push(p[i].clone());
        i += 1;
    }
    proof {
        assert(out@ =~= p@.take(k as int));
        assert(out.deep_view() =~= p.deep_view().take(k as int));
    }
    out
}

/// Compute `target_root / (p relative to base)`.
///
/// Returns `Ok` exactly when `p` lies under `base`; otherwise the defensive
/// `PathError` of the design.
pub fn map_path(base: &Vec<String>, target_root: &Vec<String>, p: &Vec<String>) -> (r: Result<
    Vec<String>,
    PathError,
>)
    ensures
        r is Ok <==> is_under(base.deep_view(), p.deep_view()),
        r matches Ok(m) ==> m.deep_view() == map_spec(
            base.deep_view(),
            target_root.deep_view(),
            p.deep_view(),
        ),
{
    if p.len() < base.len() {
        assert(!is_under(base.deep_view(), p.deep_view()));
        return Err(PathError::NotDescendant);
    }
    let mut i: usize = 0;
    while i < base.len()
        invariant
            i <= base.len() <= p.len(),
            forall|j: int| 0 <= j < i ==> base.deep_view()[j] == p.deep_view()[j],
        decreases base.len() - i,
    {
        if base[i] != p[i] {
            assert(base.deep_view()[i as int] != p.deep_view()[i as int]);
            return Err(PathError::NotDescendant);
        }
        i += 1;
    }
    assert(is_under(base.deep_view(), p.deep_view())) by {
        assert(base.deep_view() =~= p.deep_view().take(base.deep_view().len() as int));
    }
    let mut out: Vec<String> = Vec::new();
    let mut j: usize = 0;
    while j < target_root.len()
        invariant
            j <= target_root.len(),
            out@ =~= target_root@.take(j as int),
        decreases target_root.len() - j,
    {
        out.push(target_root[j].clone());
        j += 1;
    }
    let mut k: usize = base.len();
    while k < p.len()
        invariant
            base.len() <= k <= p.len(),
            out@ =~= target_root@ + p@.subrange(base.len() as int, k as int),
        decreases p.len() - k,
    {
        out.push(p[k].clone());
        k += 1;
    }
    proof {
        assert(out@ =~= target_root@ + p@.skip(base.len() as int));
        assert(out.deep_view() =~= map_spec(
            base.deep_view(),
            target_root.deep_view(),
            p.deep_view(),
        ));
    }
    Ok(out)
}

} // verus!
