//! Which files may be opened: roots that are allowed, and roots that are not.
//!
//! A path is judged in its canonical form, component by component. Finding
//! the canonical form, and opening the file, is left to functions that the
//! caller hands in.
use crate::error::{Error, ErrorKind, ErrorView, IoError, IoErrorView};
use crate::stream::{BytesSource, Source};
use crate::text;
use crate::uri;
use vstd::prelude::*;
use vstd::string::StringExecFns;

verus! {

/// A component of a path, with the names that std's `path::Component` gives
/// them.
#[derive(Clone, Debug, PartialEq, Eq)]
pub enum PathComponent {
    Prefix(Vec<u8>),
    RootDir,
    CurDir,
    ParentDir,
    Normal(Vec<u8>),
}

/// The content of a [`PathComponent`].
pub ghost enum Component {
    Prefix(Seq<u8>),
    RootDir,
    CurDir,
    ParentDir,
    Normal(Seq<u8>),
}

impl View for PathComponent {
    type V = Component;

    open spec fn view(&self) -> Component {
        match self {
            PathComponent::Prefix(b) => Component::Prefix(b@),
            PathComponent::RootDir => Component::RootDir,
            PathComponent::CurDir => Component::CurDir,
            PathComponent::ParentDir => Component::ParentDir,
            PathComponent::Normal(b) => Component::Normal(b@),
        }
    }
}

/// The components of a path.
pub open spec fn path(p: Seq<PathComponent>) -> Seq<Component> {
    p.map_values(|c: PathComponent| c@)
}

/// The components of several paths.
pub open spec fn paths(v: Seq<Vec<PathComponent>>) -> Seq<Seq<Component>> {
    v.map_values(|p: Vec<PathComponent>| path(p@))
}

/// True iff `child` is `root` or lies below it.
pub open spec fn lies_under(child: Seq<Component>, root: Seq<Component>) -> bool {
    root.len() <= child.len() && child.take(root.len() as int) == root
}

/// True iff `child` lies under one of the roots.
pub open spec fn under_any(child: Seq<Component>, roots: Seq<Seq<Component>>) -> bool {
    exists|i: int| 0 <= i < roots.len() && lies_under(child, #[trigger] roots[i])
}

/// A policy for opening files.
#[derive(Clone, Debug)]
pub struct FileScope {
    roots: Vec<Vec<PathComponent>>,
    denies: Vec<Vec<PathComponent>>,
    permissive: bool,
}

/// The content of a [`FileScope`].
#[verifier::ext_equal]
pub ghost struct Policy {
    /// What lies under one of these is allowed.
    pub roots: Seq<Seq<Component>>,
    /// What lies under one of these is denied, allowed or not.
    pub denies: Seq<Seq<Component>>,
    /// True iff everything is allowed.
    pub permissive: bool,
}

impl View for FileScope {
    type V = Policy;

    closed spec fn view(&self) -> Policy {
        Policy {
            roots: paths(self.roots@),
            denies: paths(self.denies@),
            permissive: self.permissive,
        }
    }
}

impl Policy {
    /// The policy that allows nothing.
    pub open spec fn nothing() -> Policy {
        Policy { roots: Seq::empty(), denies: Seq::empty(), permissive: false }
    }

    /// The policy that allows everything.
    pub open spec fn everything() -> Policy {
        Policy { roots: Seq::empty(), denies: Seq::empty(), permissive: true }
    }

    /// True iff the path is allowed, as far as the denied roots let it.
    pub open spec fn lists(self, p: Seq<Component>) -> bool {
        self.permissive || under_any(p, self.roots)
    }

    /// True iff the path is denied.
    pub open spec fn denies_path(self, p: Seq<Component>) -> bool {
        under_any(p, self.denies)
    }

    /// True iff the path may be opened.
    pub open spec fn admits(self, p: Seq<Component>) -> bool {
        !self.denies_path(p) && self.lists(p)
    }
}

/// `roots`, with `root` among them.
pub open spec fn with_root(
    roots: Seq<Seq<Component>>,
    root: Seq<Component>,
) -> Seq<Seq<Component>> {
    if roots.contains(root) {
        roots
    } else {
        roots.push(root)
    }
}

/// A path in its canonical form: its components, how it is shown, and the
/// caller's own handle on it.
pub struct Canonical<P> {
    pub components: Vec<PathComponent>,
    pub shown: String,
    pub handle: P,
}

/// The content of a [`Canonical`].
pub ghost struct CanonicalView<P> {
    pub components: Seq<Component>,
    pub shown: Seq<char>,
    pub handle: P,
}

impl<P> View for Canonical<P> {
    type V = CanonicalView<P>;

    open spec fn view(&self) -> CanonicalView<P> {
        CanonicalView {
            components: path(self.components@),
            shown: self.shown@,
            handle: self.handle,
        }
    }
}

/// The path that a URI asks for.
pub open spec fn requested(u: Seq<u8>) -> Result<Seq<u8>, ErrorView> {
    if !uri::same_word(uri::parts(u).0, text::octets("file"@)) {
        Err(
            ErrorView::InvalidData(
                "FileScope cannot resolve non-file URI: "@ + text::letters(u),
            ),
        )
    } else {
        match uri::file_path(u) {
            Ok(p) => if p.contains(0u8) {
                Err(ErrorView::InvalidData("file path contains NUL byte"@))
            } else {
                Ok(p)
            },
            Err(e) => Err(e),
        }
    }
}

/// The error for a path that the policy does not let through.
pub open spec fn refusal(
    asked: Seq<char>,
    shown: Seq<char>,
    verdict: Seq<char>,
) -> ErrorView {
    ErrorView::Io(
        IoErrorView {
            kind: ErrorKind::PermissionDenied,
            message: "file '"@ + asked + "' (canonical '"@ + shown + verdict,
            code: None,
        },
    )
}

/// What a policy says to a path, given what became of finding its canonical
/// form.
pub open spec fn verdict<P>(
    policy: Policy,
    asked: Seq<char>,
    found: Result<CanonicalView<P>, IoErrorView>,
) -> Result<CanonicalView<P>, ErrorView> {
    match found {
        Err(e) => Err(
            ErrorView::Io(
                IoErrorView {
                    kind: e.kind,
                    message: "file '"@ + asked + "' did not canonicalise: "@ + e.message,
                    code: None,
                },
            ),
        ),
        Ok(c) => if policy.denies_path(c.components) {
            Err(refusal(asked, c.shown, "') is inside a FileScope deny-listed root"@))
        } else if !policy.lists(c.components) {
            Err(refusal(asked, c.shown, "') is outside the FileScope allow-list"@))
        } else {
            Ok(c)
        },
    }
}

/// The content of what finding a canonical form gave.
pub open spec fn found<P>(r: Result<Canonical<P>, IoError>) -> Result<
    CanonicalView<P>,
    IoErrorView,
> {
    match r {
        Ok(c) => Ok(c@),
        Err(e) => Err(e@),
    }
}

/// What opening a URI under a policy gives: the error of a request that names
/// no path; else what the policy says to an answer of `canonicalize` for that
/// path; and where it lets the path through, an answer of `opener` for it.
pub open spec fn opens_under<
    P,
    C: Fn(&str) -> Result<Canonical<P>, IoError>,
    O: Fn(P) -> Result<Source, IoError>,
>(policy: Policy, u: Seq<u8>, canonicalize: &C, opener: &O, r: Result<Source, Error>) -> bool {
    match requested(u) {
        Err(e) => r matches Err(f) && f@ == e,
        Ok(p) => exists|asked: &str, answer: Result<Canonical<P>, IoError>|
            {
                &&& text::octets(asked@) == p
                &&& #[trigger] call_ensures(*canonicalize, (asked,), answer)
                &&& match verdict(policy, asked@, found(answer)) {
                    Err(e) => r matches Err(f) && f@ == e,
                    Ok(c) => {
                        &&& policy.admits(c.components)
                        &&& match r {
                            Ok(s) => call_ensures(*opener, (c.handle,), Ok(s)),
                            Err(Error::Io(e)) => call_ensures(*opener, (c.handle,), Err(e)),
                            Err(_) => false,
                        }
                    },
                }
            },
    }
}

fn same_bytes(a: &Vec<u8>, b: &Vec<u8>) -> (r: bool)
    ensures
        r == (a@ == b@),
{
    if a.len() != b.len() {
        return false;
    }
    let mut i: usize = 0;
    while i < a.len()
        invariant
            i <= a@.len(),
            a@.len() == b@.len(),
            forall|j: int| 0 <= j < i ==> a@[j] == b@[j],
        decreases a@.len() - i,
    {
        if a[i] != b[i] {
            assert(a@[i as int] != b@[i as int]);
            return false;
        }
        i = i + 1;
    }
    assert(a@ =~= b@);
    true
}

fn same_component(a: &PathComponent, b: &PathComponent) -> (r: bool)
    ensures
        r == (a@ == b@),
{
    match (a, b) {
        (PathComponent::Prefix(x), PathComponent::Prefix(y)) => same_bytes(x, y),
        (PathComponent::Normal(x), PathComponent::Normal(y)) => same_bytes(x, y),
        (PathComponent::RootDir, PathComponent::RootDir) => true,
        (PathComponent::CurDir, PathComponent::CurDir) => true,
        (PathComponent::ParentDir, PathComponent::ParentDir) => true,
        _ => false,
    }
}

/// True iff `child` is `root` or lies below it, component by component.
fn under_root(root: &Vec<PathComponent>, child: &Vec<PathComponent>) -> (r: bool)
    ensures
        r == lies_under(path(child@), path(root@)),
{
    if root.len() > child.len() {
        return false;
    }
    let mut i: usize = 0;
    while i < root.len()
        invariant
            i <= root@.len() <= child@.len(),
            forall|j: int| 0 <= j < i ==> path(child@)[j] == path(root@)[j],
        decreases root@.len() - i,
    {
        if !same_component(&root[i], &child[i]) {
            proof {
                assert(path(child@)[i as int] != path(root@)[i as int]);
                assert(path(child@).take(root@.len() as int)[i as int] == path(child@)[i as int]);
            }
            return false;
        }
        i = i + 1;
    }
    assert(path(child@).take(root@.len() as int) =~= path(root@));
    true
}

fn under_one(roots: &Vec<Vec<PathComponent>>, child: &Vec<PathComponent>) -> (r: bool)
    ensures
        r == under_any(path(child@), paths(roots@)),
{
    let mut i: usize = 0;
    while i < roots.len()
        invariant
            i <= roots@.len(),
            forall|j: int| 0 <= j < i ==> !lies_under(path(child@), #[trigger] paths(roots@)[j]),
        decreases roots@.len() - i,
    {
        if under_root(&roots[i], child) {
            assert(lies_under(path(child@), paths(roots@)[i as int]));
            return true;
        }
        i = i + 1;
    }
    false
}

fn same_path(a: &Vec<PathComponent>, b: &Vec<PathComponent>) -> (r: bool)
    ensures
        r == (path(a@) == path(b@)),
{
    if a.len() == b.len() {
        let r = under_root(a, b);
        assert(path(b@).take(a@.len() as int) =~= path(b@));
        r
    } else {
        assert(path(a@).len() != path(b@).len());
        false
    }
}

/// Adds a root unless it is there already.
fn add_root(roots: &mut Vec<Vec<PathComponent>>, root: Vec<PathComponent>)
    ensures
        paths(final(roots)@) == with_root(paths(old(roots)@), path(root@)),
{
    let mut i: usize = 0;
    while i < roots.len()
        invariant
            i <= roots@.len(),
            roots@ == old(roots)@,
            forall|j: int| 0 <= j < i ==> #[trigger] paths(roots@)[j] != path(root@),
        decreases roots@.len() - i,
    {
        if same_path(&roots[i], &root) {
            assert(paths(roots@)[i as int] == path(root@));
            return ;
        }
        i = i + 1;
    }
    roots.push(root);
    assert(paths(roots@) =~= paths(old(roots)@).push(path(root@)));
}

impl FileScope {
    /// A scope that admits nothing.
    pub fn new() -> (r: Self)
        ensures
            r@ == Policy::nothing(),
    {
        let r = FileScope { roots: Vec::new(), denies: Vec::new(), permissive: false };
        assert(r@ =~= Policy::nothing());
        r
    }

    /// A scope that admits everything.
    pub fn permissive() -> (r: Self)
        ensures
            r@ == Policy::everything(),
    {
        let r = FileScope { roots: Vec::new(), denies: Vec::new(), permissive: true };
        assert(r@ =~= Policy::everything());
        r
    }

    /// Allows what lies under `dir`, in its canonical form where it has one.
    pub fn allow_dir(
        self,
        dir: Vec<PathComponent>,
        canonical: Option<Vec<PathComponent>>,
    ) -> (r: Self)
        ensures
            r@ == (Policy {
                roots: with_root(
                    self@.roots,
                    match canonical {
                        Some(c) => path(c@),
                        None => path(dir@),
                    },
                ),
                ..self@
            }),
    {
        let mut s = self;
        let root = match canonical {
            Some(c) => c,
            None => dir,
        };
        add_root(&mut s.roots, root);
        s
    }

    /// Denies what lies under `dir`, in its canonical form where it has one.
    pub fn deny_dir(
        self,
        dir: Vec<PathComponent>,
        canonical: Option<Vec<PathComponent>>,
    ) -> (r: Self)
        ensures
            r@ == (Policy {
                denies: with_root(
                    self@.denies,
                    match canonical {
                        Some(c) => path(c@),
                        None => path(dir@),
                    },
                ),
                ..self@
            }),
    {
        let mut s = self;
        let root = match canonical {
            Some(c) => c,
            None => dir,
        };
        add_root(&mut s.denies, root);
        s
    }

    /// True iff the path is allowed, as far as the denied roots let it.
    fn is_allow_listed(&self, canon: &Vec<PathComponent>) -> (r: bool)
        ensures
            r == self@.lists(path(canon@)),
    {
        if self.permissive {
            return true;
        }
        under_one(&self.roots, canon)
    }

    /// True iff the path is denied.
    fn is_denied(&self, canon: &Vec<PathComponent>) -> (r: bool)
        ensures
            r == self@.denies_path(path(canon@)),
    {
        under_one(&self.denies, canon)
    }

    /// True iff the scope would let the path through. The path is taken as it
    /// is.
    pub fn is_allowed_path(&self, canon: &Vec<PathComponent>) -> (r: bool)
        ensures
            r == self@.admits(path(canon@)),
    {
        !self.is_denied(canon) && self.is_allow_listed(canon)
    }

    /// The path that a URI asks for, before anything is looked up.
    pub fn request(uri_str: &str) -> (r: Result<String, Error>)
        ensures
            r matches Ok(p) ==> requested(text::octets(uri_str@)) == Ok::<_, ErrorView>(
                text::octets(p@),
            ),
            r matches Err(e) ==> requested(text::octets(uri_str@)) == Err::<Seq<u8>, _>(e@),
    {
        let (scheme, rest) = uri::split(uri_str);
        if !uri::scheme_is(scheme, "file") {
            proof {
                text::lemma_letters_of_octets(uri_str@);
            }
            let mut m = "FileScope cannot resolve non-file URI: ".to_owned();
            m.append(uri_str);
            return Err(Error::InvalidData(m));
        }
        let p = uri::path_of(uri_str, rest)?;
        if text::contains_byte(p.as_str(), 0) {
            return Err(Error::invalid("file path contains NUL byte"));
        }
        Ok(p)
    }

    /// Judges a path by its canonical form, or reports that it has none.
    pub fn judge<P>(&self, asked: &str, found_path: Result<Canonical<P>, IoError>) -> (r: Result<
        Canonical<P>,
        Error,
    >)
        ensures
            r matches Ok(c) ==> verdict(self@, asked@, found(found_path)) == Ok::<_, ErrorView>(
                c@,
            ),
            r matches Err(e) ==> verdict(self@, asked@, found(found_path)) == Err::<
                CanonicalView<P>,
                _,
            >(e@),
            r matches Ok(c) ==> self@.admits(c@.components),
    {
        match found_path {
            Err(e) => {
                let mut m = "file '".to_owned();
                m.append(asked);
                m.append("' did not canonicalise: ");
                m.append(e.message.as_str());
                Err(Error::Io(IoError::new(e.kind, m)))
            },
            Ok(c) => {
                if self.is_denied(&c.components) {
                    return Err(
                        refuse(
                            asked,
                            c.shown.as_str(),
                            "') is inside a FileScope deny-listed root",
                        ),
                    );
                }
                if !self.is_allow_listed(&c.components) {
                    return Err(
                        refuse(
                            asked,
                            c.shown.as_str(),
                            "') is outside the FileScope allow-list",
                        ),
                    );
                }
                Ok(c)
            },
        }
    }

    /// Finds the canonical form of the path that a URI asks for, and judges
    /// it.
    pub fn resolve<P, C: Fn(&str) -> Result<Canonical<P>, IoError>>(
        &self,
        uri_str: &str,
        canonicalize: &C,
    ) -> (r: Result<Canonical<P>, Error>)
        requires
            forall|p: &str| #[trigger] call_requires(*canonicalize, (p,)),
        ensures
            requested(text::octets(uri_str@)) matches Err(e) ==> r matches Err(f) && f@ == e,
            requested(text::octets(uri_str@)) matches Ok(p) ==> exists|
                asked: &str,
                answer: Result<Canonical<P>, IoError>,
            |
                {
                    &&& text::octets(asked@) == p
                    &&& #[trigger] call_ensures(*canonicalize, (asked,), answer)
                    &&& match r {
                        Ok(c) => verdict(self@, asked@, found(answer)) == Ok::<_, ErrorView>(c@),
                        Err(e) => verdict(self@, asked@, found(answer)) == Err::<
                            CanonicalView<P>,
                            _,
                        >(e@),
                    }
                },
            r matches Ok(c) ==> self@.admits(c@.components),
    {
        let asked = FileScope::request(uri_str)?;
        let answer = canonicalize(asked.as_str());
        self.judge(asked.as_str(), answer)
    }

    /// Opens the file that a URI asks for, if the scope admits it.
    pub fn open<
        P,
        C: Fn(&str) -> Result<Canonical<P>, IoError>,
        O: Fn(P) -> Result<Source, IoError>,
    >(&self, uri_str: &str, canonicalize: &C, opener: &O) -> (r: Result<Source, Error>)
        requires
            forall|p: &str| #[trigger] call_requires(*canonicalize, (p,)),
            forall|h: P| #[trigger] call_requires(*opener, (h,)),
        ensures
            opens_under(self@, text::octets(uri_str@), canonicalize, opener, r),
    {
        let asked = FileScope::request(uri_str)?;
        let answer = canonicalize(asked.as_str());
        let c = self.judge(asked.as_str(), answer)?;
        match opener(c.handle) {
            Ok(s) => Ok(s),
            Err(e) => Err(Error::Io(e)),
        }
    }
}

/// The place that the scope in force stands in, if there is one.
#[derive(Clone, Debug)]
pub struct ScopeSlot {
    installed: Option<FileScope>,
}

impl View for ScopeSlot {
    type V = Option<Policy>;

    closed spec fn view(&self) -> Option<Policy> {
        match self.installed {
            Some(scope) => Some(scope@),
            None => None,
        }
    }
}

impl ScopeSlot {
    /// A slot with no scope in it.
    pub fn new() -> (r: Self)
        ensures
            r@ is None,
    {
        ScopeSlot { installed: None }
    }

    /// Puts a scope in force, in place of the one before.
    pub fn install(&mut self, scope: FileScope)
        ensures
            final(self)@ == Some(scope@),
    {
        self.installed = Some(scope);
    }
}

/// What is in force after scopes were installed one after the other.
pub open spec fn in_force(slot: Option<Policy>, scopes: Seq<Policy>) -> Option<Policy>
    decreases scopes.len(),
{
    if scopes.len() == 0 {
        slot
    } else {
        in_force(Some(scopes[0]), scopes.drop_first())
    }
}

/// What opening a URI gives under the scope in force. Where there is none,
/// nothing is opened.
pub open spec fn opens_in<
    P,
    C: Fn(&str) -> Result<Canonical<P>, IoError>,
    O: Fn(P) -> Result<Source, IoError>,
>(
    slot: Option<Policy>,
    u: Seq<u8>,
    canonicalize: &C,
    opener: &O,
    r: Result<Source, Error>,
) -> bool {
    match slot {
        Some(policy) => opens_under(policy, u, canonicalize, opener, r),
        None => r matches Err(e) && e@ == ErrorView::InvalidData(
            "file driver: no FileScope installed"@,
        ),
    }
}

/// Opens a file under the scope in force.
pub fn open_file_scoped<
    P,
    C: Fn(&str) -> Result<Canonical<P>, IoError>,
    O: Fn(P) -> Result<Source, IoError>,
>(slot: &ScopeSlot, uri_str: &str, canonicalize: &C, opener: &O) -> (r: Result<Source, Error>)
    requires
        forall|p: &str| #[trigger] call_requires(*canonicalize, (p,)),
        forall|h: P| #[trigger] call_requires(*opener, (h,)),
    ensures
        opens_in(slot@, text::octets(uri_str@), canonicalize, opener, r),
{
    match &slot.installed {
        Some(scope) => scope.open(uri_str, canonicalize, opener),
        None => Err(Error::invalid("file driver: no FileScope installed")),
    }
}

/// Only the scope installed last decides; where none was installed, nothing is
/// opened.
pub proof fn lemma_last_scope_decides<
    P,
    C: Fn(&str) -> Result<Canonical<P>, IoError>,
    O: Fn(P) -> Result<Source, IoError>,
>(
    scopes: Seq<Policy>,
    u: Seq<u8>,
    canonicalize: &C,
    opener: &O,
    r: Result<Source, Error>,
)
    ensures
        opens_in(in_force(None, scopes), u, canonicalize, opener, r) == if scopes.len() == 0 {
            r matches Err(e) && e@ == ErrorView::InvalidData(
                "file driver: no FileScope installed"@,
            )
        } else {
            opens_under(scopes.last(), u, canonicalize, opener, r)
        },
{
    lemma_last_in_force(None, scopes);
}

proof fn lemma_last_in_force(slot: Option<Policy>, scopes: Seq<Policy>)
    ensures
        in_force(slot, scopes) == if scopes.len() == 0 {
            slot
        } else {
            Some(scopes.last())
        },
    decreases scopes.len(),
{
    if scopes.len() > 0 {
        lemma_last_in_force(Some(scopes[0]), scopes.drop_first());
    }
}

impl Default for FileScope {
    fn default() -> (r: Self)
        ensures
            r@ == Policy::nothing(),
    {
        FileScope::new()
    }
}

fn refuse(asked: &str, shown: &str, reason: &str) -> (r: Error)
    ensures
        r@ == refusal(asked@, shown@, reason@),
{
    let mut m = "file '".to_owned();
    m.append(asked);
    m.append("' (canonical '");
    m.append(shown);
    m.append(reason);
    Error::Io(IoError::new(ErrorKind::PermissionDenied, m))
}

/// Nothing passes a scope that allows nothing.
pub proof fn lemma_empty_scope_admits_nothing(p: Seq<Component>)
    ensures
        !Policy::nothing().admits(p),
{
}

/// Everything passes a permissive scope that denies nothing.
pub proof fn lemma_permissive_scope_admits_everything(p: Seq<Component>)
    ensures
        Policy::everything().admits(p),
{
}

/// What lies under a denied root is refused, allowed or not.
pub proof fn lemma_deny_wins(policy: Policy, root: Seq<Component>, p: Seq<Component>)
    requires
        lies_under(p, root),
    ensures
        !(Policy { denies: with_root(policy.denies, root), ..policy }).admits(p),
{
    lemma_with_root(policy.denies, root, p);
}

/// Adding a root adds what lies under it, and nothing else.
proof fn lemma_with_root(roots: Seq<Seq<Component>>, root: Seq<Component>, p: Seq<Component>)
    ensures
        under_any(p, with_root(roots, root)) <==> under_any(p, roots) || lies_under(p, root),
{
    let more = with_root(roots, root);
    if under_any(p, roots) {
        let i = choose|i: int| 0 <= i < roots.len() && lies_under(p, #[trigger] roots[i]);
        assert(lies_under(p, more[i]));
    }
    if lies_under(p, root) {
        if roots.contains(root) {
            let i = choose|i: int| 0 <= i < roots.len() && roots[i] == root;
            assert(lies_under(p, more[i]));
        } else {
            assert(lies_under(p, more[roots.len() as int]));
        }
    }
    if under_any(p, more) {
        let i = choose|i: int| 0 <= i < more.len() && lies_under(p, #[trigger] more[i]);
        if i < roots.len() {
            assert(lies_under(p, roots[i]));
        }
    }
}

/// Allowing a directory lets through what lies under it and is not denied,
/// and changes nothing else. Denying one takes away what lies under it, and
/// changes nothing else.
pub proof fn lemma_dirs_change_their_subtree_only(
    policy: Policy,
    root: Seq<Component>,
    p: Seq<Component>,
)
    ensures
        (Policy { roots: with_root(policy.roots, root), ..policy }).admits(p) <==> policy.admits(p)
            || (!policy.denies_path(p) && lies_under(p, root)),
        (Policy { denies: with_root(policy.denies, root), ..policy }).admits(p) <==> policy.admits(
            p,
        ) && !lies_under(p, root),
{
    lemma_with_root(policy.roots, root, p);
    lemma_with_root(policy.denies, root, p);
}

/// Adding a root twice is adding it once.
pub proof fn lemma_adding_twice_is_adding_once(roots: Seq<Seq<Component>>, root: Seq<Component>)
    ensures
        with_root(with_root(roots, root), root) == with_root(roots, root),
{
    let once = with_root(roots, root);
    if !roots.contains(root) {
        assert(once[roots.len() as int] == root);
    }
}

/// Paths are compared by whole components: a name that merely starts like the
/// name of a root does not lie under it.
pub proof fn lemma_siblings_are_not_under(
    parent: Seq<Component>,
    a: Seq<u8>,
    b: Seq<u8>,
    below: Seq<Component>,
)
    requires
        a != b,
    ensures
        !lies_under(
            parent.push(Component::Normal(b)) + below,
            parent.push(Component::Normal(a)),
        ),
{
    let root = parent.push(Component::Normal(a));
    let child = parent.push(Component::Normal(b)) + below;
    let n = parent.len() as int;
    assert(child.take(n + 1)[n] == Component::Normal(b));
    assert(root[n] == Component::Normal(a));
}

/// What lies under a root lies under every root of that root.
pub proof fn lemma_under_is_transitive(p: Seq<Component>, q: Seq<Component>, r: Seq<Component>)
    requires
        lies_under(p, q),
        lies_under(q, r),
    ensures
        lies_under(p, r),
        lies_under(p, p),
{
    assert(p.take(r.len() as int) =~= q.take(r.len() as int));
    assert(p.take(p.len() as int) =~= p);
}

} // verus!
