//! Arena of packages, addressed by their position, with parent and child edges.
use vstd::prelude::*;
use crate::annotate::{
    deepest, graph_size_for, lemma_members_below, lemma_members_same_levels, lemma_equal_sizes, lemma_scaled_size_range, lemma_size_bounds, max_size,
    members, min_size, paths_of, scaled_size, short_name_at, sort_positions, sorted,
};

verus! {

/// One store path of the closure.
pub struct Package {
    /// Distance from the root along the edges known when this package was last re-levelled.
    pub level: usize,
    /// Absolute store path, unique in a tree.
    pub path: String,
    /// Size of the store path in bytes.
    pub size_bytes: usize,
    /// Positions of the packages this one depends on.
    pub dependencies: Vec<usize>,
    /// Positions of the packages that depend on this one.
    pub used_by: Vec<usize>,
    /// Smallest name that tells this package apart from the others.
    pub short_name: String,
    /// Drawing scale, in thousandths, between 200 and 2200 once annotated.
    pub graph_size: usize,
}

impl Package {
    /// A package with no edges yet, at level 0, named by its full path.
    pub fn new(path: String, size_bytes: usize) -> (r: Package)
        ensures
            r.is_fresh(),
            r.path@ == path@,
            r.short_name@ == path@,
            r.size_bytes == size_bytes,
            r.graph_size == 500,
    {
        let short_name = path.clone();
        Package {
            level: 0,
            path,
            size_bytes,
            dependencies: Vec::new(),
            used_by: Vec::new(),
            short_name,
            graph_size: 500,
        }
    }

    /// Not yet linked to any other package.
    pub open spec fn is_fresh(&self) -> bool {
        &&& self.level == 0
        &&& self.dependencies@.len() == 0
        &&& self.used_by@.len() == 0
    }
}

/// Highest level among the packages at the positions `ps` (0 when there are none).
pub open spec fn max_level(nodes: Seq<Package>, ps: Seq<usize>) -> int
    decreases ps.len(),
{
    if ps.len() == 0 {
        0
    } else {
        let rest = max_level(nodes, ps.drop_last());
        let here = nodes[ps.last() as int].level as int;
        if rest >= here { rest } else { here }
    }
}

/// The level that a package takes from its current parents: one more than
/// the deepest of them, held at `usize::MAX`.
pub open spec fn level_below(nodes: Seq<Package>, ps: Seq<usize>) -> int {
    let l = max_level(nodes, ps) + 1;
    if l > usize::MAX { usize::MAX as int } else { l }
}

/// `max_level` reads only the levels at the positions it is given.
pub proof fn lemma_max_level_same_levels(a: Seq<Package>, b: Seq<Package>, ps: Seq<usize>)
    requires
        forall|j: int| 0 <= j < ps.len() ==> (#[trigger] a[ps[j] as int]).level == b[ps[j] as int].level,
    ensures
        max_level(a, ps) == max_level(b, ps),
    decreases ps.len(),
{
    if ps.len() > 0 {
        let r = ps.drop_last();
        assert forall|j: int| 0 <= j < r.len() implies (#[trigger] a[r[j] as int]).level == b[r[j] as int].level by {
            assert(r[j] == ps[j]);
        }
        lemma_max_level_same_levels(a, b, r);
        assert(a[ps[ps.len() - 1] as int].level == b[ps[ps.len() - 1] as int].level);
    }
}

/// Sum of the sizes of the packages `ps`.
pub open spec fn total_size(ps: Seq<Package>) -> int
    decreases ps.len(),
{
    if ps.len() == 0 {
        0
    } else {
        total_size(ps.drop_last()) + ps.last().size_bytes
    }
}

/// What the parser builds: the path, children, parents and level of each package.
pub struct GraphModel {
    pub paths: Seq<Seq<char>>,
    pub deps: Seq<Seq<usize>>,
    pub used_by: Seq<Seq<usize>>,
    pub levels: Seq<int>,
}

/// Highest of the `levels` at the positions `ps` (0 when there are none).
pub open spec fn model_max(levels: Seq<int>, ps: Seq<usize>) -> int
    decreases ps.len(),
{
    if ps.len() == 0 {
        0
    } else {
        let rest = model_max(levels, ps.drop_last());
        let here = levels[ps.last() as int];
        if rest >= here { rest } else { here }
    }
}

/// `max_level` over packages is `model_max` over their levels.
pub proof fn lemma_model_max(nodes: Seq<Package>, ps: Seq<usize>)
    requires
        forall|j: int| 0 <= j < ps.len() ==> ps[j] < nodes.len(),
    ensures
        max_level(nodes, ps) == model_max(nodes.map_values(|p: Package| p.level as int), ps),
    decreases ps.len(),
{
    if ps.len() > 0 {
        lemma_model_max(nodes, ps.drop_last());
    }
}

/// A package appended with the path `path` and no edges, at level 0.
pub open spec fn model_add(m: GraphModel, path: Seq<char>) -> GraphModel {
    GraphModel {
        paths: m.paths.push(path),
        deps: m.deps.push(Seq::empty()),
        used_by: m.used_by.push(Seq::empty()),
        levels: m.levels.push(0),
    }
}

/// The edge from `p` to `c` added, and `c` re-levelled from all of its parents.
pub open spec fn model_register(m: GraphModel, p: int, c: int) -> GraphModel {
    let ub = m.used_by[c].push(p as usize);
    let l = model_max(m.levels, ub) + 1;
    GraphModel {
        paths: m.paths,
        deps: m.deps.update(p, m.deps[p].push(c as usize)),
        used_by: m.used_by.update(c, ub),
        levels: m.levels.update(c, if l > usize::MAX { usize::MAX as int } else { l }),
    }
}

/// Arena of packages; position 0 is the root.
pub struct PackageTree {
    nodes: Vec<Package>,
    by_level: Vec<Vec<usize>>,
}

impl PackageTree {
    /// The packages, by position.
    pub closed spec fn nodes(&self) -> Seq<Package> {
        self.nodes@
    }

    /// The paths, children, parents and levels of the packages.
    pub open spec fn model(&self) -> GraphModel {
        GraphModel {
            paths: self.nodes().map_values(|p: Package| p.path@),
            deps: self.nodes().map_values(|p: Package| p.dependencies@),
            used_by: self.nodes().map_values(|p: Package| p.used_by@),
            levels: self.nodes().map_values(|p: Package| p.level as int),
        }
    }

    /// The positions at each level, once the graph properties are computed.
    pub closed spec fn levels(&self) -> Seq<Seq<usize>> {
        self.by_level@.map_values(|b: Vec<usize>| b@)
    }

    /// Edges and level buckets point at existing packages, edges never at their
    /// own source, child and parent edges mirror each other, and a package
    /// with no parent is at level 0.
    pub open spec fn wf(&self) -> bool {
        let n = self.nodes();
        &&& n.len() >= 1
        &&& forall|i: int, j: int|
            0 <= i < n.len() && 0 <= j < n[i].dependencies@.len() ==> {
                let d = #[trigger] n[i].dependencies@[j];
                &&& d < n.len()
                &&& d != i
                &&& n[d as int].used_by@.contains(i as usize)
            }
        &&& forall|i: int, j: int|
            0 <= i < n.len() && 0 <= j < n[i].used_by@.len() ==> {
                let u = #[trigger] n[i].used_by@[j];
                &&& u < n.len()
                &&& u != i
                &&& n[u as int].dependencies@.contains(i as usize)
            }
        &&& forall|i: int| 0 <= i < n.len() && #[trigger] n[i].used_by@.len() == 0 ==> n[i].level == 0
        &&& forall|l: int, j: int|
            0 <= l < self.levels().len() && 0 <= j < self.levels()[l].len() ==> #[trigger] self.levels()[l][j] < n.len()
    }

    /// A tree that holds only its root.
    pub fn new(root: Package) -> (r: PackageTree)
        requires
            root.is_fresh(),
        ensures
            r.wf(),
            r.nodes() == seq![root],
            r.levels().len() == 0,
    {
        let r = PackageTree { nodes: vec![root], by_level: Vec::new() };
        assert(r.levels() =~= Seq::<Seq<usize>>::empty());
        r
    }

    /// The package at `pos`.
    pub fn package(&self, pos: usize) -> (r: &Package)
        requires
            pos < self.nodes().len(),
        ensures
            *r == self.nodes()[pos as int],
    {
        &self.nodes[pos]
    }

    /// The package at `pos`, to change in place. Nothing keeps the tree
    /// well-formed through such a change: the caller's proof must.
    pub fn package_mut(&mut self, pos: usize) -> (r: &mut Package)
        requires
            pos < old(self).nodes().len(),
        ensures
            *r == old(self).nodes()[pos as int],
            final(self).nodes() == old(self).nodes().update(pos as int, *final(r)),
            final(self).levels() == old(self).levels(),
    {
        &mut self.nodes[pos]
    }

    /// Number of packages.
    pub fn len(&self) -> (r: usize)
        ensures
            r == self.nodes().len(),
    {
        self.nodes.len()
    }

    /// Appends a package with no edges and returns its position; nothing else changes.
    pub fn add_package(&mut self, package: Package) -> (pos: usize)
        requires
            old(self).wf(),
            package.is_fresh(),
            old(self).nodes().len() < usize::MAX,
        ensures
            final(self).wf(),
            pos == old(self).nodes().len(),
            final(self).nodes() == old(self).nodes().push(package),
            final(self).levels() == old(self).levels(),
            final(self).model() == model_add(old(self).model(), package.path@),
    {
        let pos = self.nodes.len();
        self.nodes.push(package);
        assert(package.dependencies@ =~= Seq::<usize>::empty());
        assert(package.used_by@ =~= Seq::<usize>::empty());
        assert(self.model().paths =~= model_add(old(self).model(), package.path@).paths);
        assert(self.model().deps =~= model_add(old(self).model(), package.path@).deps);
        assert(self.model().used_by =~= model_add(old(self).model(), package.path@).used_by);
        assert(self.model().levels =~= model_add(old(self).model(), package.path@).levels);
        proof {
            let n = self.nodes();
            assert forall|i: int, j: int|
                0 <= i < n.len() && 0 <= j < n[i].dependencies@.len() implies {
                    let d = #[trigger] n[i].dependencies@[j];
                    &&& d < n.len()
                    &&& d != i
                    &&& n[d as int].used_by@.contains(i as usize)
                } by {
                assert(i < pos);
                let d = n[i].dependencies@[j];
                assert(old(self).nodes()[i].dependencies@[j] == d);
            }
        }
        assert forall|l: int, j: int| 0 <= l < self.levels().len() && 0 <= j < self.levels()[l].len()
            implies #[trigger] self.levels()[l][j] < self.nodes().len() by {
            assert(old(self).levels()[l][j] < old(self).nodes().len());
        }
        pos
    }

    /// Records that the package at `package_pos` depends on the one at
    /// `depends_pos`, and re-levels the latter from all of its current parents.
    /// No other package changes: the packages below `depends_pos` keep the
    /// levels they had.
    pub fn register_dependency(&mut self, package_pos: usize, depends_pos: usize)
        requires
            old(self).wf(),
            package_pos < old(self).nodes().len(),
            depends_pos < old(self).nodes().len(),
            package_pos != depends_pos,
        ensures
            final(self).wf(),
            final(self).levels() == old(self).levels(),
            final(self).nodes().len() == old(self).nodes().len(),
            forall|i: int|
                0 <= i < old(self).nodes().len() && i != package_pos && i != depends_pos
                    ==> #[trigger] final(self).nodes()[i] == old(self).nodes()[i],
            ({
                let p = final(self).nodes()[package_pos as int];
                let q = old(self).nodes()[package_pos as int];
                &&& p.dependencies@ == q.dependencies@.push(depends_pos)
                &&& p == Package { dependencies: p.dependencies, ..q }
            }),
            ({
                let c = final(self).nodes()[depends_pos as int];
                let q = old(self).nodes()[depends_pos as int];
                &&& c.used_by@ == q.used_by@.push(package_pos)
                &&& c.level == level_below(old(self).nodes(), c.used_by@)
                &&& c == Package { used_by: c.used_by, level: c.level, ..q }
            }),
            final(self).model() == model_register(old(self).model(), package_pos as int, depends_pos as int),
    {
        self.nodes[package_pos].dependencies.push(depends_pos);
        self.nodes[depends_pos].used_by.push(package_pos);
        let ghost mid = self.nodes();
        let parents = &self.nodes[depends_pos].used_by;
        let n_parents = parents.len();
        let mut deepest: usize = 0;
        let mut k: usize = 0;
        while k < n_parents
            invariant
                self.nodes() == mid,
                parents@ == mid[depends_pos as int].used_by@,
                n_parents == parents@.len(),
                k <= n_parents,
                mid.len() == old(self).nodes().len(),
                forall|j: int| 0 <= j < n_parents ==> #[trigger] parents@[j] < mid.len(),
                deepest == max_level(mid, parents@.take(k as int)),
            decreases n_parents - k,
        {
            let l = self.nodes[parents[k]].level;
            proof {
                assert(parents@.take(k + 1).drop_last() =~= parents@.take(k as int));
            }
            if l > deepest {
                deepest = l;
            }
            k = k + 1;
        }
        proof {
            assert(parents@.take(k as int) =~= parents@);
            assert forall|j: int| 0 <= j < parents@.len() implies
                (#[trigger] mid[parents@[j] as int]).level == old(self).nodes()[parents@[j] as int].level by {
                if j < parents@.len() - 1 {
                    assert(old(self).nodes()[depends_pos as int].used_by@[j] == parents@[j]);
                }
            }
            lemma_max_level_same_levels(mid, old(self).nodes(), parents@);
        }
        let level = if deepest == usize::MAX { usize::MAX } else { deepest + 1 };
        self.nodes[depends_pos].level = level;
        proof {
            let om = old(self).model();
            let want = model_register(om, package_pos as int, depends_pos as int);
            let m = self.model();
            assert(om.used_by[depends_pos as int] == old(self).nodes()[depends_pos as int].used_by@);
            assert forall|j: int| 0 <= j < parents@.len() implies #[trigger] parents@[j] < old(self).nodes().len() by {}
            lemma_model_max(old(self).nodes(), parents@);
            assert(om.levels =~= old(self).nodes().map_values(|p: Package| p.level as int));
            assert(m.paths =~= want.paths);
            assert(m.deps =~= want.deps);
            assert(m.used_by =~= want.used_by);
            assert(m.levels =~= want.levels);
        }
        assert forall|l: int, j: int| 0 <= l < self.levels().len() && 0 <= j < self.levels()[l].len()
            implies #[trigger] self.levels()[l][j] < self.nodes().len() by {
            assert(old(self).levels()[l][j] < old(self).nodes().len());
        }
        proof {
            let n = self.nodes();
            let o = old(self).nodes();
            assert forall|i: int, j: int|
                0 <= i < n.len() && 0 <= j < n[i].dependencies@.len() implies {
                    let d = #[trigger] n[i].dependencies@[j];
                    &&& d < n.len()
                    &&& d != i
                    &&& n[d as int].used_by@.contains(i as usize)
                } by {
                let d = n[i].dependencies@[j];
                if i == package_pos && j == o[i].dependencies@.len() {
                    assert(n[d as int].used_by@.last() == package_pos);
                } else {
                    assert(o[i].dependencies@[j] == d);
                    let k = choose|k: int| 0 <= k < o[d as int].used_by@.len() && o[d as int].used_by@[k] == i as usize;
                    assert(n[d as int].used_by@[k] == i as usize);
                }
            }
            assert forall|i: int, j: int|
                0 <= i < n.len() && 0 <= j < n[i].used_by@.len() implies {
                    let u = #[trigger] n[i].used_by@[j];
                    &&& u < n.len()
                    &&& u != i
                    &&& n[u as int].dependencies@.contains(i as usize)
                } by {
                let u = n[i].used_by@[j];
                if !(i == depends_pos && j == o[i].used_by@.len()) {
                    assert(o[i].used_by@[j] == u);
                    let k = choose|k: int| 0 <= k < o[u as int].dependencies@.len() && o[u as int].dependencies@[k] == i as usize;
                    assert(n[u as int].dependencies@[k] == i as usize);
                } else {
                    assert(n[u as int].dependencies@.last() == depends_pos);
                }
            }
            assert forall|i: int| 0 <= i < n.len() && #[trigger] n[i].used_by@.len() == 0 implies n[i].level == 0 by {
                assert(i != depends_pos);
                if i == package_pos {
                    assert(n[i].used_by@ == o[i].used_by@);
                }
            }
        }
    }

    /// Position of the first package whose path is `path`, if there is one.
    pub fn find_path_pos(&self, path: &str) -> (r: Option<usize>)
        ensures
            match r {
                Some(i) => {
                    &&& i < self.nodes().len()
                    &&& self.nodes()[i as int].path@ == path@
                    &&& forall|j: int| 0 <= j < i ==> (#[trigger] self.nodes()[j]).path@ != path@
                },
                None => forall|j: int| 0 <= j < self.nodes().len() ==> (#[trigger] self.nodes()[j]).path@ != path@,
            },
    {
        let wanted = path.to_owned();
        let mut i: usize = 0;
        while i < self.nodes.len()
            invariant
                wanted@ == path@,
                i <= self.nodes().len(),
                forall|j: int| 0 <= j < i ==> (#[trigger] self.nodes()[j]).path@ != path@,
            decreases self.nodes().len() - i,
        {
            if self.nodes[i].path == wanted {
                return Some(i);
            }
            i = i + 1;
        }
        None
    }

    /// Sets the size of the package at `pos`; nothing else changes.
    pub fn set_size_bytes(&mut self, pos: usize, size_bytes: usize)
        requires
            old(self).wf(),
            pos < old(self).nodes().len(),
        ensures
            final(self).wf(),
            final(self).levels() == old(self).levels(),
            final(self).nodes() == old(self).nodes().update(
                pos as int,
                (Package { size_bytes, ..old(self).nodes()[pos as int] }),
            ),
    {
        self.nodes[pos].size_bytes = size_bytes;
        assert forall|l: int, j: int| 0 <= l < self.levels().len() && 0 <= j < self.levels()[l].len()
            implies #[trigger] self.levels()[l][j] < self.nodes().len() by {
            assert(old(self).levels()[l][j] < old(self).nodes().len());
        }
        proof {
            let n = self.nodes();
            let o = old(self).nodes();
            assert forall|i: int, j: int|
                0 <= i < n.len() && 0 <= j < n[i].dependencies@.len() implies {
                    let d = #[trigger] n[i].dependencies@[j];
                    &&& d < n.len()
                    &&& d != i
                    &&& n[d as int].used_by@.contains(i as usize)
                } by {
                assert(o[i].dependencies@[j] == n[i].dependencies@[j]);
                assert(n[n[i].dependencies@[j] as int].used_by@ == o[o[i].dependencies@[j] as int].used_by@);
            }
            assert forall|i: int, j: int|
                0 <= i < n.len() && 0 <= j < n[i].used_by@.len() implies {
                    let u = #[trigger] n[i].used_by@[j];
                    &&& u < n.len()
                    &&& u != i
                } by {
                assert(o[i].used_by@[j] == n[i].used_by@[j]);
            }
        }
        assert(self.nodes() =~= old(self).nodes().update(
                pos as int,
                (Package { size_bytes, ..old(self).nodes()[pos as int] })));
    }

    /// Total size of all packages, in bytes.
    pub fn sum_package_bytes(&self) -> (r: u128)
        ensures
            r == total_size(self.nodes()),
    {
        let mut total: u128 = 0;
        let mut i: usize = 0;
        while i < self.nodes.len()
            invariant
                i <= self.nodes().len(),
                total == total_size(self.nodes().take(i as int)),
                total <= i * (usize::MAX as int),
            decreases self.nodes().len() - i,
        {
            proof {
                assert(self.nodes().take(i + 1).drop_last() =~= self.nodes().take(i as int));
                assert(total + self.nodes()[i as int].size_bytes <= (i + 1) * (usize::MAX as int)) by (nonlinear_arith)
                    requires total <= i * (usize::MAX as int), self.nodes()[i as int].size_bytes <= usize::MAX;
                assert((i + 1) * (usize::MAX as int) <= u128::MAX) by (nonlinear_arith)
                    requires i < usize::MAX;
            }
            total = total + self.nodes[i].size_bytes as u128;
            i = i + 1;
        }
        assert(self.nodes().take(i as int) =~= self.nodes());
        total
    }

    /// Annotates the finished tree: each package's edges are sorted, its
    /// drawing size is scaled between the smallest and the largest package,
    /// its short name is chosen, and the positions are bucketed by level.
    /// Sizes, levels, paths and parents do not change.
    pub fn calculate_graph_properties(&mut self)
        requires
            old(self).wf(),
        ensures
            final(self).wf(),
            final(self).nodes().len() == old(self).nodes().len(),
            forall|i: int| 0 <= i < old(self).nodes().len() ==> {
                let p = #[trigger] final(self).nodes()[i];
                let q = old(self).nodes()[i];
                &&& p == Package { dependencies: p.dependencies, short_name: p.short_name, graph_size: p.graph_size, ..q }
                &&& p.dependencies@.to_multiset() == q.dependencies@.to_multiset()
                &&& sorted(p.dependencies@)
                &&& p.short_name@ == short_name_at(paths_of(old(self).nodes()), i)
                &&& p.graph_size == scaled_size(q.size_bytes as int, min_size(old(self).nodes()), max_size(old(self).nodes()))
                &&& 200 <= p.graph_size <= 2200
            },
            (forall|i: int, j: int| 0 <= i < old(self).nodes().len() && 0 <= j < old(self).nodes().len()
                ==> old(self).nodes()[i].size_bytes == old(self).nodes()[j].size_bytes)
                ==> forall|i: int| 0 <= i < old(self).nodes().len() ==> (#[trigger] final(self).nodes()[i]).graph_size == 200,
            final(self).levels().len() == deepest(old(self).nodes()) + 1,
            forall|l: int| 0 <= l < final(self).levels().len()
                ==> #[trigger] final(self).levels()[l] == members(old(self).nodes(), l, old(self).nodes().len() as int),
    {
        let ghost o = self.nodes();
        let (lo, hi) = self.size_bounds();
        let top = self.deepest_level();
        let names = self.short_names();
        let n = self.nodes.len();
        let mut i: usize = 0;
        while i < n
            invariant
                n == o.len(),
                self.nodes().len() == n,
                names@.len() == n,
                forall|j: int| 0 <= j < n ==> (#[trigger] names@[j])@ == short_name_at(paths_of(o), j),
                lo == min_size(o),
                hi == max_size(o),
                i <= n,
                forall|j: int| i <= j < n ==> #[trigger] self.nodes()[j] == o[j],
                forall|j: int| 0 <= j < i ==> {
                    let p = #[trigger] self.nodes()[j];
                    let q = o[j];
                    &&& p == Package { dependencies: p.dependencies, short_name: p.short_name, graph_size: p.graph_size, ..q }
                    &&& p.dependencies@.to_multiset() == q.dependencies@.to_multiset()
                    &&& sorted(p.dependencies@)
                    &&& p.short_name@ == short_name_at(paths_of(o), j)
                    &&& p.graph_size == scaled_size(q.size_bytes as int, lo as int, hi as int)
                    &&& 200 <= p.graph_size <= 2200
                },
            decreases n - i,
        {
            proof {
                lemma_size_bounds(o, i as int);
            }
            let size = self.nodes[i].size_bytes;
            sort_positions(&mut self.nodes[i].dependencies);
            self.nodes[i].graph_size = graph_size_for(size, lo, hi);
            self.nodes[i].short_name = names[i].clone();
            i = i + 1;
        }
        proof {
            let m = self.nodes();
            assert forall|a: int, j: int|
                0 <= a < m.len() && 0 <= j < m[a].dependencies@.len() implies {
                    let d = #[trigger] m[a].dependencies@[j];
                    &&& d < m.len()
                    &&& d != a
                    &&& m[d as int].used_by@.contains(a as usize)
                } by {
                let d = m[a].dependencies@[j];
                assert(m[a].dependencies@.contains(d));
                vstd::seq_lib::to_multiset_contains(m[a].dependencies@, d);
                vstd::seq_lib::to_multiset_contains(o[a].dependencies@, d);
                let k = choose|k: int| 0 <= k < o[a].dependencies@.len() && o[a].dependencies@[k] == d;
                assert(o[a].dependencies@[k] == d);
                assert(m[d as int].used_by == o[d as int].used_by);
            }
            assert forall|a: int, j: int|
                0 <= a < m.len() && 0 <= j < m[a].used_by@.len() implies {
                    let u = #[trigger] m[a].used_by@[j];
                    &&& u < m.len()
                    &&& u != a
                    &&& m[u as int].dependencies@.contains(a as usize)
                } by {
                assert(m[a].used_by == o[a].used_by);
                let u = m[a].used_by@[j];
                assert(o[a].used_by@[j] == u);
                vstd::seq_lib::to_multiset_contains(m[u as int].dependencies@, a as usize);
                vstd::seq_lib::to_multiset_contains(o[u as int].dependencies@, a as usize);
                assert(o[u as int].dependencies@.contains(a as usize));
            }
            assert forall|a: int| 0 <= a < m.len() && #[trigger] m[a].used_by@.len() == 0 implies m[a].level == 0 by {
                assert(m[a].used_by == o[a].used_by);
            }
            if forall|a: int, j: int| 0 <= a < o.len() && 0 <= j < o.len() ==> o[a].size_bytes == o[j].size_bytes {
                lemma_equal_sizes(o);
            }
        }
        let ghost after = self.nodes();
        let mut buckets: Vec<Vec<usize>> = Vec::new();
        let mut l: usize = 0;
        loop
            invariant_except_break
                buckets@.len() == l,
                l <= top,
            invariant
                self.nodes() == after,
                top == deepest(o),
                n == o.len(),
                after.len() == n,
                forall|k: int| 0 <= k < n ==> (#[trigger] after[k]).level == o[k].level,
                forall|k: int| 0 <= k < buckets@.len() ==> (#[trigger] buckets@[k])@ == members(o, k, n as int),
            ensures
                buckets@.len() == top + 1,
            decreases top - l,
        {
            proof {
                lemma_members_same_levels(after, o, l as int, n as int);
            }
            buckets.push(self.level_bucket(l));
            if l == top {
                break;
            }
            l = l + 1;
        }
        self.by_level = buckets;
        assert forall|l: int| 0 <= l < self.levels().len()
            implies #[trigger] self.levels()[l] == members(o, l, n as int) by {
            assert(self.levels()[l] == self.by_level@[l]@);
        }
        assert forall|l: int, j: int| 0 <= l < self.levels().len() && 0 <= j < self.levels()[l].len()
            implies #[trigger] self.levels()[l][j] < self.nodes().len() by {
            lemma_members_below(o, l, n as int);
            assert(self.levels()[l] == members(o, l, n as int));
        }
    }

    /// Number of level buckets.
    pub fn level_count(&self) -> (r: usize)
        ensures
            r == self.levels().len(),
    {
        self.by_level.len()
    }

    /// The positions at level `l`.
    pub fn level(&self, l: usize) -> (r: &Vec<usize>)
        requires
            l < self.levels().len(),
        ensures
            r@ == self.levels()[l as int],
    {
        &self.by_level[l]
    }
}

/// A well-formed tree whose root no package depends on has its root at level 0.
pub proof fn lemma_root_level(t: PackageTree)
    requires
        t.wf(),
        t.nodes()[0].used_by@.len() == 0,
    ensures
        t.nodes()[0].level == 0,
{
}

} // verus!
