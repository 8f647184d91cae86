//! Dependency types, packages and the search for unused packages.
use vstd::prelude::*;

verus! {

/// The kind of a declared dependency. `All` is a wildcard.
#[derive(PartialEq, Eq, Structural, Clone, Copy, Debug, PartialOrd, Ord, Default)]
pub enum DepType {
    #[default]
    All,
    Build,
    Exec,
    Test,
}

/// Two dependency types are compatible when either is the wildcard or both are equal.
pub open spec fn types_match(a: DepType, b: DepType) -> bool {
    a == DepType::All || b == DepType::All || a == b
}

impl DepType {
    pub fn matches(&self, b: &DepType) -> (r: bool)
        ensures
            r == types_match(*self, *b),
    {
        *self == DepType::All || *b == DepType::All || *self == *b
    }
}


/// One declared edge from a package to another package, named by its identifier.
#[derive(Clone, Debug)]
pub struct Dependency {
    pub name: String,
    pub dep_type: DepType,
}

/// What a dependency is, as a mathematical value.
pub struct DependencyView {
    pub name: Seq<char>,
    pub dep_type: DepType,
}

impl View for Dependency {
    type V = DependencyView;

    open spec fn view(&self) -> DependencyView {
        DependencyView { name: self.name@, dep_type: self.dep_type }
    }
}

impl PartialEq for Dependency {
    fn eq(&self, o: &Dependency) -> (r: bool) {
        self.name == o.name && self.dep_type == o.dep_type
    }
}

impl vstd::std_specs::cmp::PartialEqSpecImpl for Dependency {
    open spec fn obeys_eq_spec() -> bool {
        true
    }

    open spec fn eq_spec(&self, o: &Dependency) -> bool {
        self@ == o@
    }
}

impl Dependency {
    pub fn new(name: String, dep_type: DepType) -> (r: Dependency)
        ensures
            r.name == name,
            r.dep_type == dep_type,
    {
        Dependency { name, dep_type }
    }

    /// A copy that owns its own name.
    pub fn duplicate(&self) -> (r: Dependency)
        ensures
            r@ == self@,
    {
        Dependency { name: self.name.clone(), dep_type: self.dep_type }
    }

    /// The filter that admits every dependency.
    pub fn all(_candidate: &Dependency) -> (r: bool)
        ensures
            r,
    {
        true
    }

    /// The filter that admits the dependencies compatible with `Build`.
    pub fn build(candidate: &Dependency) -> (r: bool)
        ensures
            r == types_match(candidate.dep_type, DepType::Build),
    {
        candidate.dep_type.matches(&DepType::Build)
    }
}

/// A package: its identifier, where it lives, and its declared dependencies.
/// Two packages are the same package when name and path agree.
#[derive(Clone, Debug)]
pub struct Package {
    pub name: String,
    pub path: String,
    pub deps: Vec<Dependency>,
}

pub struct PackageView {
    pub name: Seq<char>,
    pub path: Seq<char>,
    pub deps: Seq<DependencyView>,
}

/// The views of a list of dependencies.
pub open spec fn dep_views(deps: Seq<Dependency>) -> Seq<DependencyView> {
    deps.map_values(|d: Dependency| d@)
}

impl View for Package {
    type V = PackageView;

    open spec fn view(&self) -> PackageView {
        PackageView { name: self.name@, path: self.path@, deps: dep_views(self.deps@) }
    }
}

fn deps_equal(a: &Vec<Dependency>, b: &Vec<Dependency>) -> (r: bool)
    ensures
        r == (dep_views(a@) == dep_views(b@)),
{
    if a.len() != b.len() {
        proof {
            assert(dep_views(a@).len() != dep_views(b@).len());
        }
        return false;
    }
    let mut i: usize = 0;
    while i < a.len()
        invariant
            a.len() == b.len(),
            0 <= i <= a.len(),
            forall|k: int| 0 <= k < i ==> a@[k]@ == b@[k]@,
        decreases a.len() - i,
    {
        if !(a[i] == b[i]) {
            proof {
                assert(dep_views(a@)[i as int] != dep_views(b@)[i as int]);
            }
            return false;
        }
        i = i + 1;
    }
    proof {
        assert(dep_views(a@) =~= dep_views(b@));
    }
    true
}

impl PartialEq for Package {
    fn eq(&self, o: &Package) -> (r: bool) {
        self.name == o.name && self.path == o.path && deps_equal(&self.deps, &o.deps)
    }
}

impl vstd::std_specs::cmp::PartialEqSpecImpl for Package {
    open spec fn obeys_eq_spec() -> bool {
        true
    }

    open spec fn eq_spec(&self, o: &Package) -> bool {
        self@ == o@
    }
}

impl Package {
    /// A copy that shares nothing with `self`.
    pub fn duplicate(&self) -> (r: Package)
        ensures
            r@ == self@,
    {
        let mut deps: Vec<Dependency> = Vec::new();
        let mut i: usize = 0;
        while i < self.deps.len()
            invariant
                0 <= i <= self.deps.len(),
                deps.len() == i,
                forall|k: int| 0 <= k < i ==> deps@[k]@ == self.deps@[k]@,
            decreases self.deps.len() - i,
        {
            deps.push(self.deps[i].duplicate());
            i = i + 1;
        }
        proof {
            assert(dep_views(deps@) =~= dep_views(self.deps@));
        }
        Package { name: self.name.clone(), path: self.path.clone(), deps }
    }
}

/// Which dependencies a search follows: every one, those compatible with
/// `Build`, or those compatible with one of the listed types.
#[derive(Clone, Debug)]
pub enum DepFilter {
    All,
    Build,
    Types(Vec<DepType>),
}

/// The position of a type in the order All, Build, Exec, Test.
pub open spec fn type_rank(t: DepType) -> int {
    match t {
        DepType::All => 0,
        DepType::Build => 1,
        DepType::Exec => 2,
        DepType::Test => 3,
    }
}

/// `f` is the filter built from `types`: it lists each requested type once, in
/// the order of `type_rank`.
pub open spec fn is_matcher_of(f: DepFilter, types: Seq<DepType>) -> bool {
    match f {
        DepFilter::Types(v) => {
            &&& forall|t: DepType| v@.contains(t) <==> types.contains(t)
            &&& forall|i: int, j: int|
                0 <= i < j < v@.len() ==> type_rank(#[trigger] v@[i]) < type_rank(#[trigger] v@[j])
        },
        _ => false,
    }
}

impl DepFilter {
    /// Whether the filter lets the search follow `d`.
    pub open spec fn admits(&self, d: DependencyView) -> bool {
        match self {
            DepFilter::All => true,
            DepFilter::Build => types_match(d.dep_type, DepType::Build),
            DepFilter::Types(v) => exists|i: int| 0 <= i < v@.len() && types_match(#[trigger] v@[i], d.dep_type),
        }
    }

    pub fn accepts(&self, d: &Dependency) -> (r: bool)
        ensures
            r == self.admits(d@),
    {
        match self {
            DepFilter::All => Dependency::all(d),
            DepFilter::Build => Dependency::build(d),
            DepFilter::Types(v) => any_matches(v, d.dep_type),
        }
    }
}

fn any_matches(v: &Vec<DepType>, t: DepType) -> (r: bool)
    ensures
        r == exists|i: int| 0 <= i < v@.len() && types_match(#[trigger] v@[i], t),
{
    let mut i: usize = 0;
    while i < v.len()
        invariant
            0 <= i <= v.len(),
            forall|k: int| 0 <= k < i ==> !types_match(#[trigger] v@[k], t),
        decreases v.len() - i,
    {
        if v[i].matches(&t) {
            assert(types_match(v@[i as int], t));
            return true;
        }
        i = i + 1;
    }
    false
}

fn lists(types: &Vec<DepType>, t: DepType) -> (r: bool)
    ensures
        r == types@.contains(t),
{
    let mut i: usize = 0;
    while i < types.len()
        invariant
            0 <= i <= types.len(),
            forall|k: int| 0 <= k < i ==> types@[k] != t,
        decreases types.len() - i,
    {
        if types[i] == t {
            return true;
        }
        i = i + 1;
    }
    false
}

/// The types of `v` are those of `types` whose rank is below `bound`, in
/// increasing rank.
spec fn collected(v: Seq<DepType>, types: Seq<DepType>, bound: int) -> bool {
    &&& forall|x: DepType| v.contains(x) <==> (types.contains(x) && type_rank(x) < bound)
    &&& forall|i: int| 0 <= i < v.len() ==> type_rank(#[trigger] v[i]) < bound
    &&& forall|i: int, j: int| 0 <= i < j < v.len() ==> type_rank(#[trigger] v[i]) < type_rank(#[trigger] v[j])
}

fn collect_type(v: &mut Vec<DepType>, types: &Vec<DepType>, t: DepType)
    requires
        collected(old(v)@, types@, type_rank(t)),
    ensures
        collected(final(v)@, types@, type_rank(t) + 1),
{
    if lists(types, t) {
        let ghost before = v@;
        v.push(t);
        proof {
            assert forall|x: DepType| v@.contains(x) <==> (types@.contains(x) && type_rank(x) < type_rank(t) + 1) by {
                if v@.contains(x) {
                    let k = choose|k: int| 0 <= k < v@.len() && v@[k] == x;
                    if k < before.len() {
                        assert(before.contains(x));
                    }
                }
                if types@.contains(x) && type_rank(x) < type_rank(t) + 1 {
                    if x == t {
                        assert(v@[before.len() as int] == x);
                    } else {
                        assert(before.contains(x));
                        let k = choose|k: int| 0 <= k < before.len() && before[k] == x;
                        assert(v@[k] == x);
                    }
                }
            }
        }
    } else {
        proof {
            assert forall|x: DepType| v@.contains(x) <==> (types@.contains(x) && type_rank(x) < type_rank(t) + 1) by {
                if types@.contains(x) && type_rank(x) < type_rank(t) + 1 {
                    assert(x != t);
                }
            }
        }
    }
}

impl Dependency {
    /// The filter that admits a dependency when one of `types` is compatible
    /// with it. Duplicates and order in `types` make no difference; an empty
    /// list admits nothing.
    pub fn matcher(types: Vec<DepType>) -> (r: DepFilter)
        ensures
            is_matcher_of(r, types@),
            forall|d: DependencyView|
                r.admits(d) <==> exists|i: int| 0 <= i < types@.len() && types_match(#[trigger] types@[i], d.dep_type),
    {
        let mut v: Vec<DepType> = Vec::new();
        proof {
            assert forall|x: DepType| v@.contains(x) <==> (types@.contains(x) && type_rank(x) < 0) by {
                if v@.contains(x) {
                    let k = choose|k: int| 0 <= k < v@.len() && v@[k] == x;
                }
            }
        }
        collect_type(&mut v, &types, DepType::All);
        collect_type(&mut v, &types, DepType::Build);
        collect_type(&mut v, &types, DepType::Exec);
        collect_type(&mut v, &types, DepType::Test);
        let ghost members = v@;
        let r = DepFilter::Types(v);
        proof {
            assert(r->Types_0@ == members);
            assert forall|t: DepType| v@.contains(t) <==> types@.contains(t) by {
                assert(type_rank(t) < 4);
            }
            assert forall|d: DependencyView|
                r.admits(d) <==> exists|i: int| 0 <= i < types@.len() && types_match(#[trigger] types@[i], d.dep_type) by {
                if r.admits(d) {
                    let i = choose|i: int| 0 <= i < v@.len() && types_match(#[trigger] v@[i], d.dep_type);
                    assert(v@.contains(v@[i]));
                    assert(types@.contains(v@[i]));
                    let k = choose|k: int| 0 <= k < types@.len() && types@[k] == v@[i];
                    assert(types_match(types@[k], d.dep_type));
                }
                if exists|i: int| 0 <= i < types@.len() && types_match(#[trigger] types@[i], d.dep_type) {
                    let k = choose|i: int| 0 <= i < types@.len() && types_match(#[trigger] types@[i], d.dep_type);
                    assert(types@.contains(types@[k]));
                    assert(v@.contains(types@[k]));
                    let i = choose|i: int| 0 <= i < v@.len() && v@[i] == types@[k];
                    assert(types_match(v@[i], d.dep_type));
                }
            }
        }
        r
    }
}

/// `a` and `b` are the same package: name and path agree.
pub open spec fn same_package(a: Package, b: Package) -> bool {
    a.name@ == b.name@ && a.path@ == b.path@
}

/// `p` is one of the kept packages.
pub open spec fn is_kept(kept: Seq<Package>, p: Package) -> bool {
    exists|k: int| 0 <= k < kept.len() && same_package(#[trigger] kept[k], p)
}

/// The upstream entry at `i` is the one that the candidate table holds under
/// its name: the last upstream entry with that name that is not kept.
pub open spec fn is_candidate(kept: Seq<Package>, up: Seq<Package>, i: int) -> bool {
    &&& 0 <= i < up.len()
    &&& !is_kept(kept, up[i])
    &&& forall|j: int|
        i < j < up.len() && (#[trigger] up[j]).name@ == up[i].name@ ==> is_kept(kept, up[j])
}

/// `p` declares a dependency named `n` that the filter lets the search follow.
pub open spec fn leads_to(p: Package, f: DepFilter, n: Seq<char>) -> bool {
    exists|j: int|
        0 <= j < p.deps.len() && f.admits((#[trigger] p.deps@[j])@) && p.deps@[j].name@ == n
}

/// `n` is the name of a followed dependency of some kept package.
pub open spec fn is_seed(kept: Seq<Package>, f: DepFilter, n: Seq<char>) -> bool {
    exists|k: int| 0 <= k < kept.len() && leads_to(#[trigger] kept[k], f, n)
}

/// `n` is reached from the seeds in at most `steps` followed edges of candidates.
pub open spec fn reached_within(
    kept: Seq<Package>,
    up: Seq<Package>,
    f: DepFilter,
    n: Seq<char>,
    steps: nat,
) -> bool
    decreases steps,
{
    if steps == 0 {
        is_seed(kept, f, n)
    } else {
        reached_within(kept, up, f, n, (steps - 1) as nat) || exists|i: int|
            is_candidate(kept, up, i) && reached_within(kept, up, f, up[i].name@, (steps - 1) as nat)
                && #[trigger] leads_to(up[i], f, n)
    }
}

/// `n` is used: reached from the seeds through any number of followed edges.
pub open spec fn is_used(kept: Seq<Package>, up: Seq<Package>, f: DepFilter, n: Seq<char>) -> bool {
    exists|steps: nat| reached_within(kept, up, f, n, steps)
}

/// The upstream entry at `i` is a candidate whose name is never used.
#[verifier::opaque]
pub open spec fn is_unused(kept: Seq<Package>, up: Seq<Package>, f: DepFilter, i: int) -> bool {
    is_candidate(kept, up, i) && !is_used(kept, up, f, up[i].name@)
}

/// `v` is what an unused candidate is.
pub open spec fn unused_copy(kept: Seq<Package>, up: Seq<Package>, f: DepFilter, v: PackageView) -> bool {
    exists|i: int| 0 <= i < up.len() && #[trigger] is_unused(kept, up, f, i) && up[i]@ == v
}

/// `r` holds a copy of each unused candidate and nothing else, one per name.
pub open spec fn is_unused_result(
    kept: Seq<Package>,
    up: Seq<Package>,
    f: DepFilter,
    r: Seq<Package>,
) -> bool {
    &&& forall|a: int| 0 <= a < r.len() ==> unused_copy(kept, up, f, (#[trigger] r[a])@)
    &&& forall|i: int|
        0 <= i < up.len() && #[trigger] is_unused(kept, up, f, i) ==> exists|a: int| 0 <= a < r.len() && r[a]@ == up[i]@
    &&& forall|a: int, b: int|
        0 <= a < b < r.len() ==> (#[trigger] r[a]).name@ != (#[trigger] r[b]).name@
}

fn kept_contains(kept: &[Package], p: &Package) -> (r: bool)
    ensures
        r == is_kept(kept@, *p),
{
    let mut k: usize = 0;
    while k < kept.len()
        invariant
            0 <= k <= kept.len(),
            forall|x: int| 0 <= x < k ==> !same_package(#[trigger] kept@[x], *p),
        decreases kept.len() - k,
    {
        if kept[k].name == p.name && kept[k].path == p.path {
            assert(same_package(kept@[k as int], *p));
            return true;
        }
        k = k + 1;
    }
    false
}

/// Marks, for each upstream entry, whether it is a candidate.
fn candidates(kept: &[Package], up: &[Package]) -> (c: Vec<bool>)
    ensures
        c.len() == up.len(),
        forall|i: int| 0 <= i < up.len() ==> c@[i] == is_candidate(kept@, up@, i),
{
    let mut free: Vec<bool> = Vec::new();
    let mut i: usize = 0;
    while i < up.len()
        invariant
            0 <= i <= up.len(),
            free.len() == i,
            forall|x: int| 0 <= x < i ==> free@[x] == !is_kept(kept@, up@[x]),
        decreases up.len() - i,
    {
        free.push(!kept_contains(kept, &up[i]));
        i = i + 1;
    }
    let mut c: Vec<bool> = Vec::new();
    let mut i: usize = 0;
    while i < up.len()
        invariant
            0 <= i <= up.len(),
            free.len() == up.len(),
            forall|x: int| 0 <= x < up.len() ==> free@[x] == !is_kept(kept@, up@[x]),
            c.len() == i,
            forall|x: int| 0 <= x < i ==> c@[x] == is_candidate(kept@, up@, x),
        decreases up.len() - i,
    {
        let mut last = free[i];
        let mut j: usize = i + 1;
        while last && j < up.len()
            invariant
                i < j <= up.len(),
                free.len() == up.len(),
                forall|x: int| 0 <= x < up.len() ==> free@[x] == !is_kept(kept@, up@[x]),
                last ==> free@[i as int],
                last ==> forall|y: int|
                    i < y < j && (#[trigger] up@[y]).name@ == up@[i as int].name@ ==> !free@[y],
                !last ==> !is_candidate(kept@, up@, i as int),
            decreases up.len() - j,
        {
            if free[j] && up[j].name == up[i].name {
                last = false;
            }
            j = j + 1;
        }
        c.push(last);
        i = i + 1;
    }
    c
}

/// Looks up the candidate with the given name.
fn find_candidate(up: &[Package], cand: &Vec<bool>, name: &String) -> (r: Option<usize>)
    requires
        cand.len() == up.len(),
    ensures
        match r {
            Some(i) => i < up.len() && cand@[i as int] && up@[i as int].name@ == name@,
            None => forall|i: int|
                0 <= i < up.len() && cand@[i] ==> (#[trigger] up@[i]).name@ != name@,
        },
{
    let mut i: usize = 0;
    while i < up.len()
        invariant
            0 <= i <= up.len(),
            cand.len() == up.len(),
            forall|x: int| 0 <= x < i && cand@[x] ==> (#[trigger] up@[x]).name@ != name@,
        decreases up.len() - i,
    {
        if cand[i] && up[i].name == *name {
            return Some(i);
        }
        i = i + 1;
    }
    None
}

/// No two marked candidates share a name.
spec fn distinct_names(up: Seq<Package>, cand: Seq<bool>) -> bool {
    forall|a: int, b: int|
        0 <= a < up.len() && 0 <= b < up.len() && cand[a] && cand[b] && (#[trigger] up[a]).name@
            == (#[trigger] up[b]).name@ ==> a == b
}

proof fn lemma_candidates_distinct(kept: Seq<Package>, up: Seq<Package>, cand: Seq<bool>)
    requires
        cand.len() == up.len(),
        forall|i: int| 0 <= i < up.len() ==> cand[i] == is_candidate(kept, up, i),
    ensures
        distinct_names(up, cand),
{
    assert forall|a: int, b: int|
        0 <= a < up.len() && 0 <= b < up.len() && cand[a] && cand[b] && (#[trigger] up[a]).name@
            == (#[trigger] up[b]).name@ implies a == b by {
        if a < b {
            assert(is_kept(kept, up[b]));
        } else if b < a {
            assert(is_kept(kept, up[a]));
        }
    }
}

/// Every candidate named `m` is marked.
spec fn covers(up: Seq<Package>, cand: Seq<bool>, used: Seq<bool>, m: Seq<char>) -> bool {
    forall|c: int| 0 <= c < up.len() && cand[c] && (#[trigger] up[c]).name@ == m ==> used[c]
}

/// The first `upto` dependencies of `p` that the filter admits lead to marked
/// candidates only.
spec fn handled(
    up: Seq<Package>,
    f: DepFilter,
    cand: Seq<bool>,
    used: Seq<bool>,
    p: Package,
    upto: int,
) -> bool {
    forall|j: int|
        0 <= j < upto && f.admits((#[trigger] p.deps@[j])@) ==> covers(up, cand, used, p.deps@[j].name@)
}

/// Every marked entry that is neither on the stack nor the one in hand has all
/// its followed dependencies marked.
spec fn closed(
    up: Seq<Package>,
    f: DepFilter,
    cand: Seq<bool>,
    used: Seq<bool>,
    stack: Seq<usize>,
    cur: int,
) -> bool {
    forall|c: int|
        0 <= c < up.len() && #[trigger] used[c] && !stack.contains(c as usize) && c != cur ==> handled(
            up,
            f,
            cand,
            used,
            up[c],
            up[c].deps.len() as int,
        )
}

/// The marks are those of used candidates, and the stack holds marked entries.
spec fn sound(
    kept: Seq<Package>,
    up: Seq<Package>,
    f: DepFilter,
    cand: Seq<bool>,
    used: Seq<bool>,
    stack: Seq<usize>,
) -> bool {
    &&& cand.len() == up.len()
    &&& used.len() == up.len()
    &&& forall|i: int| 0 <= i < up.len() ==> cand[i] == is_candidate(kept, up, i)
    &&& distinct_names(up, cand)
    &&& forall|c: int|
        0 <= c < up.len() && #[trigger] used[c] ==> cand[c] && is_used(kept, up, f, up[c].name@)
    &&& forall|k: int| 0 <= k < stack.len() ==> (#[trigger] stack[k]) < up.len() && used[stack[k] as int]
}

proof fn lemma_handled_grow(
    up: Seq<Package>,
    f: DepFilter,
    cand: Seq<bool>,
    used0: Seq<bool>,
    used1: Seq<bool>,
    p: Package,
    upto: int,
)
    requires
        used0.len() == up.len(),
        used1.len() == up.len(),
        forall|c: int| 0 <= c < up.len() && #[trigger] used0[c] ==> used1[c],
        handled(up, f, cand, used0, p, upto),
    ensures
        handled(up, f, cand, used1, p, upto),
{
    assert forall|j: int|
        0 <= j < upto && f.admits((#[trigger] p.deps@[j])@) implies covers(up, cand, used1, p.deps@[j].name@) by {
        assert(covers(up, cand, used0, p.deps@[j].name@));
    }
}

/// What `mark` changes keeps `closed`, and keeps what was handled.
proof fn lemma_mark_keeps(
    up: Seq<Package>,
    f: DepFilter,
    cand: Seq<bool>,
    used0: Seq<bool>,
    used1: Seq<bool>,
    stack0: Seq<usize>,
    stack1: Seq<usize>,
    cur: int,
)
    requires
        used0.len() == up.len(),
        closed(up, f, cand, used0, stack0, cur),
        (used1 == used0 && stack1 == stack0) || exists|c: int|
            0 <= c < up.len() && !used0[c] && used1 == used0.update(c, true) && stack1 == stack0.push(c as usize),
    ensures
        used1.len() == up.len(),
        forall|c: int| 0 <= c < up.len() && #[trigger] used0[c] ==> used1[c],
        closed(up, f, cand, used1, stack1, cur),
{
    if used1 == used0 && stack1 == stack0 {
    } else {
        let n = choose|c: int|
            0 <= c < up.len() && !used0[c] && used1 == used0.update(c, true) && stack1 == stack0.push(c as usize);
        assert(stack1[stack1.len() - 1] == n as usize);
        assert forall|c: int|
            0 <= c < up.len() && #[trigger] used1[c] && !stack1.contains(c as usize) && c != cur implies handled(
                up,
                f,
                cand,
                used1,
                up[c],
                up[c].deps.len() as int,
            ) by {
            if stack0.contains(c as usize) {
                let i = choose|i: int| 0 <= i < stack0.len() && stack0[i] == c as usize;
                assert(stack1[i] == c as usize);
            }
            lemma_handled_grow(up, f, cand, used0, used1, up[c], up[c].deps.len() as int);
        }
    }
}

proof fn lemma_reach_covered(
    kept: Seq<Package>,
    up: Seq<Package>,
    f: DepFilter,
    cand: Seq<bool>,
    used: Seq<bool>,
    n: Seq<char>,
    steps: nat,
)
    requires
        sound(kept, up, f, cand, used, Seq::empty()),
        closed(up, f, cand, used, Seq::empty(), -1),
        forall|x: int| 0 <= x < kept.len() ==> handled(up, f, cand, used, #[trigger] kept[x], kept[x].deps.len() as int),
        reached_within(kept, up, f, n, steps),
    ensures
        covers(up, cand, used, n),
    decreases steps,
{
    if steps == 0 {
        let k = choose|k: int| 0 <= k < kept.len() && leads_to(#[trigger] kept[k], f, n);
        let j = choose|j: int|
            0 <= j < kept[k].deps.len() && f.admits((#[trigger] kept[k].deps@[j])@) && kept[k].deps@[j].name@ == n;
        assert(handled(up, f, cand, used, kept[k], kept[k].deps.len() as int));
    } else if reached_within(kept, up, f, n, (steps - 1) as nat) {
        lemma_reach_covered(kept, up, f, cand, used, n, (steps - 1) as nat);
    } else {
        let i = choose|i: int|
            is_candidate(kept, up, i) && reached_within(kept, up, f, up[i].name@, (steps - 1) as nat)
                && #[trigger] leads_to(up[i], f, n);
        lemma_reach_covered(kept, up, f, cand, used, up[i].name@, (steps - 1) as nat);
        assert(used[i]);
        assert(!Seq::<usize>::empty().contains(i as usize));
        assert(handled(up, f, cand, used, up[i], up[i].deps.len() as int));
        let j = choose|j: int|
            0 <= j < up[i].deps.len() && f.admits((#[trigger] up[i].deps@[j])@) && up[i].deps@[j].name@ == n;
    }
}

/// The number of unmarked entries.
spec fn count_unmarked(s: Seq<bool>) -> nat
    decreases s.len(),
{
    if s.len() == 0 {
        0
    } else {
        count_unmarked(s.drop_last()) + if s.last() {
            0nat
        } else {
            1nat
        }
    }
}

proof fn lemma_mark_one(s: Seq<bool>, i: int)
    requires
        0 <= i < s.len(),
        !s[i],
    ensures
        count_unmarked(s.update(i, true)) + 1 == count_unmarked(s),
    decreases s.len(),
{
    if i == s.len() - 1 {
        assert(s.update(i, true).drop_last() =~= s.drop_last());
    } else {
        lemma_mark_one(s.drop_last(), i);
        assert(s.update(i, true).drop_last() =~= s.drop_last().update(i, true));
    }
}

/// Marks the candidate named `name`, if there is one and it is not marked yet,
/// and puts it on the stack.
fn mark(up: &[Package], cand: &Vec<bool>, used: &mut Vec<bool>, stack: &mut Vec<usize>, name: &String)
    requires
        cand.len() == up.len(),
        distinct_names(up@, cand@),
        old(used).len() == up.len(),
    ensures
        covers(up@, cand@, final(used)@, name@),
        (final(used)@ == old(used)@ && final(stack)@ == old(stack)@) || exists|c: int|
            0 <= c < up.len() && cand@[c] && !old(used)@[c] && up@[c].name@ == name@
                && final(used)@ == old(used)@.update(c, true) && final(stack)@ == old(
                stack,
            )@.push(c as usize),
{
    match find_candidate(up, cand, name) {
        Some(c) => {
            if !used[c] {
                used.set(c, true);
                stack.push(c);
            }
        },
        None => {},
    }
}

/// All followed dependencies of the kept packages are marked.
spec fn seeds_marked(
    kept: Seq<Package>,
    up: Seq<Package>,
    f: DepFilter,
    cand: Seq<bool>,
    used: Seq<bool>,
) -> bool {
    forall|x: int| 0 <= x < kept.len() ==> handled(up, f, cand, used, #[trigger] kept[x], kept[x].deps.len() as int)
}

/// Marks the followed dependencies of the kept packages.
fn mark_seeds(
    build_space: &[Package],
    upstream: &[Package],
    filter: &DepFilter,
    cand: &Vec<bool>,
    used: &mut Vec<bool>,
    stack: &mut Vec<usize>,
)
    requires
        sound(build_space@, upstream@, *filter, cand@, old(used)@, old(stack)@),
        closed(upstream@, *filter, cand@, old(used)@, old(stack)@, -1),
    ensures
        sound(build_space@, upstream@, *filter, cand@, final(used)@, final(stack)@),
        closed(upstream@, *filter, cand@, final(used)@, final(stack)@, -1),
        seeds_marked(build_space@, upstream@, *filter, cand@, final(used)@),
{
    let ghost kept = build_space@;
    let ghost up = upstream@;
    let ghost f = *filter;
    let mut k: usize = 0;
    while k < build_space.len()
        invariant
            0 <= k <= build_space.len(),
            kept == build_space@,
            up == upstream@,
            f == *filter,
            sound(kept, up, f, cand@, used@, stack@),
            closed(up, f, cand@, used@, stack@, -1),
            forall|x: int| 0 <= x < k ==> handled(up, f, cand@, used@, #[trigger] kept[x], kept[x].deps.len() as int),
        decreases build_space.len() - k,
    {
        let p = &build_space[k];
        let mut j: usize = 0;
        while j < p.deps.len()
            invariant
                0 <= j <= p.deps.len(),
                kept == build_space@,
                up == upstream@,
                f == *filter,
                k < build_space.len(),
                *p == kept[k as int],
                sound(kept, up, f, cand@, used@, stack@),
                closed(up, f, cand@, used@, stack@, -1),
                forall|x: int| 0 <= x < k ==> handled(up, f, cand@, used@, #[trigger] kept[x], kept[x].deps.len() as int),
                handled(up, f, cand@, used@, *p, j as int),
            decreases p.deps.len() - j,
        {
            if filter.accepts(&p.deps[j]) {
                let ghost before = used@;
                let ghost stack0 = stack@;
                proof {
                    assert(0 <= k < kept.len());
                    assert(leads_to(kept[k as int], f, p.deps@[j as int].name@));
                    assert(is_seed(kept, f, p.deps@[j as int].name@));
                    assert(reached_within(kept, up, f, p.deps@[j as int].name@, 0));
                }
                mark(upstream, cand, used, stack, &p.deps[j].name);
                proof {
                    lemma_mark_keeps(up, f, cand@, before, used@, stack0, stack@, -1);
                    lemma_handled_grow(up, f, cand@, before, used@, *p, j as int);
                    assert forall|x: int| 0 <= x < k implies handled(up, f, cand@, used@, #[trigger] kept[x], kept[x].deps.len() as int) by {
                        lemma_handled_grow(up, f, cand@, before, used@, kept[x], kept[x].deps.len() as int);
                    }
                }
            }
            j = j + 1;
        }
        k = k + 1;
    }
}

/// Follows the dependencies of the entries on the stack until it is empty.
fn sweep(
    build_space: &[Package],
    upstream: &[Package],
    filter: &DepFilter,
    cand: &Vec<bool>,
    used: &mut Vec<bool>,
    stack: &mut Vec<usize>,
)
    requires
        sound(build_space@, upstream@, *filter, cand@, old(used)@, old(stack)@),
        closed(upstream@, *filter, cand@, old(used)@, old(stack)@, -1),
        seeds_marked(build_space@, upstream@, *filter, cand@, old(used)@),
    ensures
        final(stack)@ == Seq::<usize>::empty(),
        sound(build_space@, upstream@, *filter, cand@, final(used)@, final(stack)@),
        closed(upstream@, *filter, cand@, final(used)@, final(stack)@, -1),
        seeds_marked(build_space@, upstream@, *filter, cand@, final(used)@),
{
    let ghost kept = build_space@;
    let ghost up = upstream@;
    let ghost f = *filter;
    while stack.len() > 0
        invariant
            kept == build_space@,
            up == upstream@,
            f == *filter,
            sound(kept, up, f, cand@, used@, stack@),
            closed(up, f, cand@, used@, stack@, -1),
            forall|x: int| 0 <= x < kept.len() ==> handled(up, f, cand@, used@, #[trigger] kept[x], kept[x].deps.len() as int),
        decreases 2 * count_unmarked(used@) + stack.len(),
    {
        let ghost measure = 2 * count_unmarked(used@) + stack.len();
        let ghost whole = stack@;
        let c = stack.pop().unwrap();
        proof {
            assert(whole[whole.len() - 1] == c);
            assert forall|x: usize| #[trigger] whole.contains(x) && x != c implies stack@.contains(x) by {
                let i = choose|i: int| 0 <= i < whole.len() && whole[i] == x;
                assert(stack@[i] == x);
            }
        }
        let p = &upstream[c];
        let mut j: usize = 0;
        while j < p.deps.len()
            invariant
                0 <= j <= p.deps.len(),
                kept == build_space@,
                up == upstream@,
                f == *filter,
                c < up.len(),
                *p == up[c as int],
                used@[c as int],
                sound(kept, up, f, cand@, used@, stack@),
                closed(up, f, cand@, used@, stack@, c as int),
                forall|x: int| 0 <= x < kept.len() ==> handled(up, f, cand@, used@, #[trigger] kept[x], kept[x].deps.len() as int),
                handled(up, f, cand@, used@, *p, j as int),
                2 * count_unmarked(used@) + stack.len() < measure,
            decreases p.deps.len() - j,
        {
            if filter.accepts(&p.deps[j]) {
                let ghost before = used@;
                proof {
                    let m = p.deps@[j as int].name@;
                    let steps = choose|steps: nat| reached_within(kept, up, f, up[c as int].name@, steps);
                    assert(leads_to(up[c as int], f, m));
                    assert(reached_within(kept, up, f, m, steps + 1));
                }
                let ghost stack0 = stack@;
                mark(upstream, cand, used, stack, &p.deps[j].name);
                proof {
                    if used@ != before {
                        let d = choose|d: int| 0 <= d < up.len() && !before[d] && used@ == before.update(d, true);
                        lemma_mark_one(before, d);
                    }
                    lemma_mark_keeps(up, f, cand@, before, used@, stack0, stack@, c as int);
                    lemma_handled_grow(up, f, cand@, before, used@, *p, j as int);
                    assert forall|x: int| 0 <= x < kept.len() implies handled(up, f, cand@, used@, #[trigger] kept[x], kept[x].deps.len() as int) by {
                        lemma_handled_grow(up, f, cand@, before, used@, kept[x], kept[x].deps.len() as int);
                    }
                }
            }
            j = j + 1;
        }
    }
    proof {
        assert(stack@ =~= Seq::<usize>::empty());
    }
}

/// Once the stack is empty, the unmarked candidates are exactly the unused ones.
proof fn lemma_unmarked_unused(
    kept: Seq<Package>,
    up: Seq<Package>,
    f: DepFilter,
    cand: Seq<bool>,
    used: Seq<bool>,
)
    requires
        sound(kept, up, f, cand, used, Seq::empty()),
        closed(up, f, cand, used, Seq::empty(), -1),
        seeds_marked(kept, up, f, cand, used),
    ensures
        forall|c: int| 0 <= c < up.len() ==> (#[trigger] is_unused(kept, up, f, c) <==> cand[c] && !used[c]),
{
    assert forall|c: int| 0 <= c < up.len() implies (#[trigger] is_unused(kept, up, f, c) <==> cand[c] && !used[c]) by {
        reveal(is_unused);
        if cand[c] && is_used(kept, up, f, up[c].name@) {
            let steps = choose|steps: nat| reached_within(kept, up, f, up[c].name@, steps);
            lemma_reach_covered(kept, up, f, cand, used, up[c].name@, steps);
        }
    }
}

proof fn lemma_collected(
    kept: Seq<Package>,
    up: Seq<Package>,
    f: DepFilter,
    cand: Seq<bool>,
    used: Seq<bool>,
    r: Seq<Package>,
    idx: Seq<int>,
)
    requires
        cand.len() == up.len(),
        used.len() == up.len(),
        distinct_names(up, cand),
        forall|c: int| 0 <= c < up.len() ==> (#[trigger] is_unused(kept, up, f, c) <==> cand[c] && !used[c]),
        r.len() == idx.len(),
        forall|a: int| 0 <= a < idx.len() ==> 0 <= #[trigger] idx[a] < up.len() && cand[idx[a]] && !used[idx[a]] && r[a]@ == up[idx[a]]@,
        forall|a: int, b: int| 0 <= a < b < idx.len() ==> #[trigger] idx[a] < #[trigger] idx[b],
        forall|x: int| 0 <= x < up.len() && cand[x] && !used[x] ==> exists|a: int| 0 <= a < idx.len() && #[trigger] idx[a] == x,
    ensures
        is_unused_result(kept, up, f, r),
{
    assert forall|a: int| 0 <= a < r.len() implies unused_copy(kept, up, f, (#[trigger] r[a])@) by {
        assert(is_unused(kept, up, f, idx[a]));
    }
    assert forall|x: int| 0 <= x < up.len() && #[trigger] is_unused(kept, up, f, x) implies exists|a: int| 0 <= a < r.len() && r[a]@ == up[x]@ by {
        let a = choose|a: int| 0 <= a < idx.len() && #[trigger] idx[a] == x;
        assert(r[a]@ == up[x]@);
    }
    lemma_collected_distinct(up, cand, r, idx);
}

proof fn lemma_collected_distinct(up: Seq<Package>, cand: Seq<bool>, r: Seq<Package>, idx: Seq<int>)
    requires
        cand.len() == up.len(),
        distinct_names(up, cand),
        r.len() == idx.len(),
        forall|a: int| 0 <= a < idx.len() ==> 0 <= #[trigger] idx[a] < up.len() && cand[idx[a]] && r[a].name@ == up[idx[a]].name@,
        forall|a: int, b: int| 0 <= a < b < idx.len() ==> #[trigger] idx[a] < #[trigger] idx[b],
    ensures
        forall|a: int, b: int| 0 <= a < b < r.len() ==> (#[trigger] r[a]).name@ != (#[trigger] r[b]).name@,
{
    assert forall|a: int, b: int| 0 <= a < b < r.len() implies (#[trigger] r[a]).name@ != (#[trigger] r[b]).name@ by {
        assert(idx[a] < idx[b]);
        assert(up[idx[a]].name@ == r[a].name@);
        assert(up[idx[b]].name@ == r[b].name@);
    }
}

/// Copies the candidates that were not marked.
fn collect_unused(
    build_space: &[Package],
    upstream: &[Package],
    filter: &DepFilter,
    cand: &Vec<bool>,
    used: &Vec<bool>,
) -> (r: Vec<Package>)
    requires
        cand.len() == upstream.len(),
        used.len() == upstream.len(),
        distinct_names(upstream@, cand@),
        forall|c: int|
            0 <= c < upstream.len() ==> (#[trigger] is_unused(build_space@, upstream@, *filter, c) <==> cand@[c]
                && !used@[c]),
    ensures
        is_unused_result(build_space@, upstream@, *filter, r@),
{
    let ghost kept = build_space@;
    let ghost up = upstream@;
    let ghost f = *filter;
    let mut r: Vec<Package> = Vec::new();
    let ghost mut idx: Seq<int> = Seq::empty();
    let mut i: usize = 0;
    while i < upstream.len()
        invariant
            0 <= i <= upstream.len(),
            kept == build_space@,
            up == upstream@,
            f == *filter,
            cand.len() == up.len(),
            used.len() == up.len(),
            forall|c: int| 0 <= c < up.len() ==> (#[trigger] is_unused(kept, up, f, c) <==> cand@[c] && !used@[c]),
            r.len() == idx.len(),
            forall|a: int| 0 <= a < idx.len() ==> 0 <= #[trigger] idx[a] < i && cand@[idx[a]] && !used@[idx[a]] && r@[a]@ == up[idx[a]]@,
            forall|a: int, b: int| 0 <= a < b < idx.len() ==> #[trigger] idx[a] < #[trigger] idx[b],
            forall|x: int| 0 <= x < i && cand@[x] && !used@[x] ==> exists|a: int| 0 <= a < idx.len() && #[trigger] idx[a] == x,
        decreases upstream.len() - i,
    {
        if cand[i] && !used[i] {
            r.push(upstream[i].duplicate());
            let ghost idx0 = idx;
            proof {
                idx = idx.push(i as int);
                assert(idx[idx.len() - 1] == i as int);
                assert forall|x: int| 0 <= x < i + 1 && cand@[x] && !used@[x] implies exists|a: int| 0 <= a < idx.len() && #[trigger] idx[a] == x by {
                    if x < i {
                        let a = choose|a: int| 0 <= a < idx0.len() && #[trigger] idx0[a] == x;
                        assert(idx[a] == x);
                    }
                }
            }
        }
        i = i + 1;
    }
    proof {
        lemma_collected(kept, up, f, cand@, used@, r@, idx);
    }
    r
}

/// The packages of `upstream` that `build_space` does not need.
///
/// Every followed dependency of a package of `build_space` is used, and so is
/// every followed dependency of a used candidate. A candidate is the last
/// upstream package of its name that is not itself in `build_space`. The
/// result holds a copy of each candidate whose name is not used, once.
pub fn find_unused_pkgs(build_space: &[Package], upstream: &[Package], filter: &DepFilter) -> (r: Vec<Package>)
    ensures
        is_unused_result(build_space@, upstream@, *filter, r@),
{
    let cand = candidates(build_space, upstream);
    proof {
        lemma_candidates_distinct(build_space@, upstream@, cand@);
    }
    let mut used: Vec<bool> = Vec::new();
    while used.len() < upstream.len()
        invariant
            used.len() <= upstream.len(),
            forall|c: int| 0 <= c < used.len() ==> !used@[c],
        decreases upstream.len() - used.len(),
    {
        used.push(false);
    }
    let mut stack: Vec<usize> = Vec::new();
    mark_seeds(build_space, upstream, filter, &cand, &mut used, &mut stack);
    sweep(build_space, upstream, filter, &cand, &mut used, &mut stack);
    proof {
        lemma_unmarked_unused(build_space@, upstream@, *filter, cand@, used@);
    }
    collect_unused(build_space, upstream, filter, &cand, &used)
}

/// With an empty upstream pool nothing is unused.
pub proof fn lemma_empty_pool_nothing_unused(kept: Seq<Package>, f: DepFilter, r: Seq<Package>)
    requires
        is_unused_result(kept, Seq::empty(), f, r),
    ensures
        r.len() == 0,
{
    if r.len() > 0 {
        assert(unused_copy(kept, Seq::empty(), f, r[0]@));
    }
}

/// A package whose name is reached from the kept packages through followed
/// dependencies is never reported, however long the chain and whatever cycles
/// the dependencies form.
pub proof fn lemma_used_never_unused(
    kept: Seq<Package>,
    up: Seq<Package>,
    f: DepFilter,
    r: Seq<Package>,
    n: Seq<char>,
)
    requires
        is_unused_result(kept, up, f, r),
        is_used(kept, up, f, n),
    ensures
        forall|a: int| 0 <= a < r.len() ==> (#[trigger] r[a]).name@ != n,
{
    reveal(is_unused);
    assert forall|a: int| 0 <= a < r.len() implies (#[trigger] r[a]).name@ != n by {
        assert(unused_copy(kept, up, f, r[a]@));
        let i = choose|i: int| 0 <= i < up.len() && #[trigger] is_unused(kept, up, f, i) && up[i]@ == r[a]@;
    }
}

/// A package that is also kept (same name and path) is never reported, even
/// when the upstream pool holds it too.
pub proof fn lemma_kept_never_unused(kept: Seq<Package>, up: Seq<Package>, f: DepFilter, r: Seq<Package>)
    requires
        is_unused_result(kept, up, f, r),
    ensures
        forall|a: int| 0 <= a < r.len() ==> !is_kept(kept, #[trigger] r[a]),
{
    reveal(is_unused);
    assert forall|a: int| 0 <= a < r.len() implies !is_kept(kept, #[trigger] r[a]) by {
        assert(unused_copy(kept, up, f, r[a]@));
        let i = choose|i: int| 0 <= i < up.len() && #[trigger] is_unused(kept, up, f, i) && up[i]@ == r[a]@;
        if is_kept(kept, r[a]) {
            let k = choose|k: int| 0 <= k < kept.len() && same_package(#[trigger] kept[k], r[a]);
            assert(same_package(kept[k], up[i]));
        }
    }
}

/// A filter built from no types admits no dependency.
pub proof fn lemma_matcher_of_nothing(f: DepFilter, d: DependencyView)
    requires
        is_matcher_of(f, Seq::empty()),
    ensures
        !f.admits(d),
{
    if f.admits(d) {
        let v = f->Types_0@;
        let i = choose|i: int| 0 <= i < v.len() && types_match(#[trigger] v[i], d.dep_type);
        assert(v.contains(v[i]));
        assert(!Seq::<DepType>::empty().contains(v[i]));
    }
}

/// Filters built from lists with the same members, however often each occurs
/// and in whatever order, admit the same dependencies.
pub proof fn lemma_matcher_ignores_repeats(f: DepFilter, g: DepFilter, a: Seq<DepType>, b: Seq<DepType>)
    requires
        is_matcher_of(f, a),
        is_matcher_of(g, b),
        forall|t: DepType| a.contains(t) <==> b.contains(t),
    ensures
        forall|d: DependencyView| f.admits(d) <==> g.admits(d),
{
    let v = f->Types_0@;
    let w = g->Types_0@;
    assert forall|d: DependencyView| f.admits(d) implies g.admits(d) by {
        let i = choose|i: int| 0 <= i < v.len() && types_match(#[trigger] v[i], d.dep_type);
        assert(v.contains(v[i]));
        assert(a.contains(v[i]));
        assert(b.contains(v[i]));
        assert(w.contains(v[i]));
        let k = choose|k: int| 0 <= k < w.len() && w[k] == v[i];
        assert(types_match(w[k], d.dep_type));
    }
    assert forall|d: DependencyView| g.admits(d) implies f.admits(d) by {
        let i = choose|i: int| 0 <= i < w.len() && types_match(#[trigger] w[i], d.dep_type);
        assert(w.contains(w[i]));
        assert(b.contains(w[i]));
        assert(a.contains(w[i]));
        assert(v.contains(w[i]));
        let k = choose|k: int| 0 <= k < v.len() && v[k] == w[i];
        assert(types_match(v[k], d.dep_type));
    }
}

} // verus!
