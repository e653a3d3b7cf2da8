//! Laws of scopes: which paths lie where, and what a policy says to them.
use crate::error::{ErrorKind, ErrorView, IoErrorView};
use crate::scope;
use crate::scope::{CanonicalView, Component, PathComponent, Policy};
use vstd::prelude::*;

verus! {

/// True iff a path is one of the roots with something, or nothing, behind it.
pub open spec fn extends_one(p: Seq<Component>, roots: Seq<Seq<Component>>) -> bool {
    exists|i: int, below: Seq<Component>|
        0 <= i < roots.len() && p == #[trigger] (roots[i] + below)
}

/// A root with anything behind it lies under the root, and what lies under a
/// root is the root with something behind it.
pub proof fn law_what_lies_under_a_root(
    root: Seq<Component>,
    below: Seq<Component>,
    child: Seq<Component>,
)
    ensures
        scope::lies_under(root + below, root),
        scope::lies_under(child, root) <==> exists|rest: Seq<Component>|
            child == #[trigger] (root + rest),
{
    assert((root + below).take(root.len() as int) =~= root);
    if scope::lies_under(child, root) {
        assert(child =~= root + child.skip(root.len() as int));
    }
    if exists|rest: Seq<Component>| child == #[trigger] (root + rest) {
        let rest = choose|rest: Seq<Component>| child == #[trigger] (root + rest);
        assert((root + rest).take(root.len() as int) =~= root);
    }
}

proof fn lemma_extends_one(p: Seq<Component>, roots: Seq<Seq<Component>>)
    ensures
        scope::under_any(p, roots) <==> extends_one(p, roots),
{
    if scope::under_any(p, roots) {
        let i = choose|i: int|
            0 <= i < roots.len() && scope::lies_under(p, #[trigger] roots[i]);
        law_what_lies_under_a_root(roots[i], Seq::empty(), p);
        let rest = choose|rest: Seq<Component>| p == #[trigger] (roots[i] + rest);
        assert(p == roots[i] + rest);
    }
    if extends_one(p, roots) {
        let (i, below) = choose|i: int, below: Seq<Component>|
            0 <= i < roots.len() && p == #[trigger] (roots[i] + below);
        law_what_lies_under_a_root(roots[i], below, p);
        assert(scope::lies_under(p, roots[i]));
    }
}

/// A path is admitted where it extends no denied root, and extends an allowed
/// one or everything is allowed.
pub proof fn law_paths_that_are_admitted(policy: Policy, p: Seq<Component>)
    ensures
        policy.denies_path(p) <==> extends_one(p, policy.denies),
        policy.lists(p) <==> policy.permissive || extends_one(p, policy.roots),
        policy.admits(p) <==> !extends_one(p, policy.denies) && (policy.permissive || extends_one(
            p,
            policy.roots,
        )),
{
    lemma_extends_one(p, policy.roots);
    lemma_extends_one(p, policy.denies);
}

/// What a directory is allowed or denied for: itself and everything below it.
pub proof fn law_directories_cover_what_is_below(
    policy: Policy,
    dir: Seq<Component>,
    below: Seq<Component>,
)
    ensures
        (Policy { denies: scope::with_root(policy.denies, dir), ..policy }).admits(dir + below)
            == false,
        (Policy { roots: scope::with_root(policy.roots, dir), ..policy }).admits(dir + below) <==>
            !extends_one(dir + below, policy.denies),
{
    law_what_lies_under_a_root(dir, below, dir + below);
    scope::lemma_dirs_change_their_subtree_only(policy, dir, dir + below);
    law_paths_that_are_admitted(policy, dir + below);
}

/// Adding a root keeps those that are there and adds no other.
pub proof fn law_roots_are_added(
    roots: Seq<Seq<Component>>,
    root: Seq<Component>,
    other: Seq<Component>,
)
    ensures
        scope::with_root(roots, root).contains(other) <==> roots.contains(other) || other == root,
        roots.contains(root) ==> scope::with_root(roots, root) == roots,
        !roots.contains(root) ==> scope::with_root(roots, root) == roots + seq![root],
{
    let more = scope::with_root(roots, root);
    if !roots.contains(root) {
        assert(more =~= roots + seq![root]);
        assert(more[roots.len() as int] == root);
        if roots.contains(other) {
            let i = choose|i: int| 0 <= i < roots.len() && roots[i] == other;
            assert(more[i] == other);
        }
        if more.contains(other) {
            let i = choose|i: int| 0 <= i < more.len() && more[i] == other;
            if i < roots.len() {
                assert(roots[i] == other);
            }
        }
    }
}

/// Paths are looked at component by component, and components differ in kind
/// or in a byte of their name.
pub proof fn law_components_are_told_apart(
    a: PathComponent,
    b: PathComponent,
    p: Seq<PathComponent>,
)
    ensures
        a@ == b@ <==> match (a, b) {
            (PathComponent::Prefix(x), PathComponent::Prefix(y)) => x@ == y@,
            (PathComponent::Normal(x), PathComponent::Normal(y)) => x@ == y@,
            (PathComponent::RootDir, PathComponent::RootDir) => true,
            (PathComponent::CurDir, PathComponent::CurDir) => true,
            (PathComponent::ParentDir, PathComponent::ParentDir) => true,
            _ => false,
        },
        scope::path(p).len() == p.len(),
        forall|i: int| 0 <= i < p.len() ==> #[trigger] scope::path(p)[i] == p[i]@,
{
}

/// A scope starts out with no roots; a permissive one allows all the same.
pub proof fn law_scopes_start_without_roots(p: Seq<Component>)
    ensures
        !Policy::nothing().admits(p),
        Policy::everything().admits(p),
        Policy::nothing().roots.len() == 0 && Policy::nothing().denies.len() == 0,
        Policy::everything().roots.len() == 0 && Policy::everything().denies.len() == 0,
{
}

/// A policy hands on exactly the paths that it admits, and says of every other
/// which list it fell foul of. A path that has no canonical form is reported
/// with the kind of failure that came of looking for it.
pub proof fn law_verdicts<P>(
    policy: Policy,
    asked: Seq<char>,
    found: Result<CanonicalView<P>, IoErrorView>,
)
    ensures
        match found {
            Err(e) => scope::verdict(policy, asked, found) == Err::<CanonicalView<P>, _>(
                ErrorView::Io(
                    IoErrorView {
                        kind: e.kind,
                        message: "file '"@ + asked + "' did not canonicalise: "@ + e.message,
                        code: None,
                    },
                ),
            ),
            Ok(c) => {
                let denied = extends_one(c.components, policy.denies);
                let listed = policy.permissive || extends_one(c.components, policy.roots);
                let front = "file '"@ + asked + "' (canonical '"@ + c.shown;
                if denied {
                    scope::verdict(policy, asked, found) == Err::<CanonicalView<P>, _>(
                        ErrorView::Io(
                            IoErrorView {
                                kind: ErrorKind::PermissionDenied,
                                message: front + "') is inside a FileScope deny-listed root"@,
                                code: None,
                            },
                        ),
                    )
                } else if !listed {
                    scope::verdict(policy, asked, found) == Err::<CanonicalView<P>, _>(
                        ErrorView::Io(
                            IoErrorView {
                                kind: ErrorKind::PermissionDenied,
                                message: front + "') is outside the FileScope allow-list"@,
                                code: None,
                            },
                        ),
                    )
                } else {
                    scope::verdict(policy, asked, found) == Ok::<_, ErrorView>(c)
                }
            },
        },
{
    if let Ok(c) = found {
        law_paths_that_are_admitted(policy, c.components);
    }
}

} // verus!
