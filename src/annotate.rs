//! The pass over a finished tree: drawing sizes, level buckets, sorted edges
//! and short names.
use vstd::prelude::*;
use vstd::string::*;
use crate::graph::{Package, PackageTree};

verus! {

/// Characters of `/nix/store/` plus the 32-character hash and its dash.
pub const HASHED_PREFIX_LEN: usize = 44;

/// The store root that every store path starts with.
pub open spec fn store_root() -> Seq<char> {
    seq!['/', 'n', 'i', 'x', '/', 's', 't', 'o', 'r', 'e', '/']
}

/// The path without its hashed prefix; a path too short to hold one is kept whole.
pub open spec fn symbolic_key(p: Seq<char>) -> Seq<char> {
    if p.len() >= HASHED_PREFIX_LEN { p.skip(HASHED_PREFIX_LEN as int) } else { p }
}

/// The path with every leading copy of the store root cut off.
pub open spec fn strip_store_root(p: Seq<char>) -> Seq<char>
    decreases p.len(),
{
    if p.len() >= 11 && p.take(11) == store_root() {
        strip_store_root(p.skip(11))
    } else {
        p
    }
}

/// Number of positions before `i` whose key equals that of `i`.
pub open spec fn same_key_before(keys: Seq<Seq<char>>, i: int, k: int) -> nat
    decreases k,
{
    if k <= 0 {
        0
    } else {
        same_key_before(keys, i, k - 1) + if keys[k - 1] == keys[i] { 1nat } else { 0nat }
    }
}

/// Whether the package at `i` loses its symbolic name. Names are claimed in
/// order and collide in pairs: the first holder of a key is displaced by the
/// next package with that key, which then frees the key for the one after.
pub open spec fn collides(keys: Seq<Seq<char>>, i: int) -> bool {
    let seen = same_key_before(keys, i, i);
    seen % 2 == 1 || exists|j: int| i < j < keys.len() && keys[j] == keys[i]
}

/// The symbolic key of each path.
pub open spec fn keys_of(paths: Seq<Seq<char>>) -> Seq<Seq<char>> {
    paths.map_values(|p: Seq<char>| symbolic_key(p))
}

/// The paths of the packages.
pub open spec fn paths_of(nodes: Seq<Package>) -> Seq<Seq<char>> {
    nodes.map_values(|p: Package| p.path@)
}

/// The short name that the package at `i` gets.
pub open spec fn short_name_at(paths: Seq<Seq<char>>, i: int) -> Seq<char> {
    if collides(keys_of(paths), i) {
        strip_store_root(paths[i])
    } else {
        symbolic_key(paths[i])
    }
}

/// Smallest size among the packages (`usize::MAX` when there are none).
pub open spec fn min_size(ns: Seq<Package>) -> int
    decreases ns.len(),
{
    if ns.len() == 0 {
        usize::MAX as int
    } else {
        let r = min_size(ns.drop_last());
        if ns.last().size_bytes < r { ns.last().size_bytes as int } else { r }
    }
}

/// Largest size among the packages (0 when there are none).
pub open spec fn max_size(ns: Seq<Package>) -> int
    decreases ns.len(),
{
    if ns.len() == 0 {
        0
    } else {
        let r = max_size(ns.drop_last());
        if ns.last().size_bytes > r { ns.last().size_bytes as int } else { r }
    }
}

/// Deepest level among the packages (0 when there are none).
pub open spec fn deepest(ns: Seq<Package>) -> int
    decreases ns.len(),
{
    if ns.len() == 0 {
        0
    } else {
        let r = deepest(ns.drop_last());
        if ns.last().level > r { ns.last().level as int } else { r }
    }
}

/// Drawing size in thousandths: 200 plus 2000 times the place of `s` between
/// `lo` and `hi`, rounded half up; 200 when `hi` is not above `lo`.
pub open spec fn scaled_size(s: int, lo: int, hi: int) -> int {
    if hi <= lo {
        200
    } else {
        200 + (4000 * (s - lo) + (hi - lo)) / (2 * (hi - lo))
    }
}

/// Positions below `k` of the packages at level `l`, in order.
pub open spec fn members(ns: Seq<Package>, l: int, k: int) -> Seq<usize>
    decreases k,
{
    if k <= 0 {
        Seq::empty()
    } else if ns[k - 1].level == l {
        members(ns, l, k - 1).push((k - 1) as usize)
    } else {
        members(ns, l, k - 1)
    }
}

/// `members` reads only the levels of the packages.
pub proof fn lemma_members_same_levels(a: Seq<Package>, b: Seq<Package>, l: int, k: int)
    requires
        0 <= k <= a.len(),
        k <= b.len(),
        forall|j: int| 0 <= j < k ==> (#[trigger] a[j]).level == b[j].level,
    ensures
        members(a, l, k) == members(b, l, k),
    decreases k,
{
    if k > 0 {
        lemma_members_same_levels(a, b, l, k - 1);
        assert(a[k - 1].level == b[k - 1].level);
    }
}

/// `members` holds positions below `k` only.
pub proof fn lemma_members_below(ns: Seq<Package>, l: int, k: int)
    ensures
        forall|j: int| 0 <= j < members(ns, l, k).len() ==> #[trigger] members(ns, l, k)[j] < k,
    decreases k,
{
    if k > 0 {
        lemma_members_below(ns, l, k - 1);
        let m = members(ns, l, k);
        let p = members(ns, l, k - 1);
        assert forall|j: int| 0 <= j < m.len() implies #[trigger] m[j] < k by {
            if j < p.len() {
                assert(m[j] == p[j]);
            }
        }
    }
}

/// The sequence is in non-decreasing order.
pub open spec fn sorted(s: Seq<usize>) -> bool {
    forall|a: int, b: int| 0 <= a < b < s.len() ==> s[a] <= s[b]
}

/// A drawing size always lies between 200 and 2200 thousandths.
pub proof fn lemma_scaled_size_range(s: int, lo: int, hi: int)
    requires
        lo <= s <= hi,
    ensures
        200 <= scaled_size(s, lo, hi) <= 2200,
{
    if hi > lo {
        let d = hi - lo;
        let a = s - lo;
        assert(0 <= 4000 * a + d) by (nonlinear_arith)
            requires 0 <= a, 0 < d;
        assert(4000 * a + d < 2 * d * 2001) by (nonlinear_arith)
            requires a <= d, 0 < d;
        assert((4000 * a + d) / (2 * d) <= 2000) by (nonlinear_arith)
            requires 4000 * a + d < 2 * d * 2001, 0 < d;
        assert((4000 * a + d) / (2 * d) >= 0) by (nonlinear_arith)
            requires 4000 * a + d >= 0, 0 < d;
    }
}

/// Every size lies between the smallest and the largest.
pub proof fn lemma_size_bounds(ns: Seq<Package>, i: int)
    requires
        0 <= i < ns.len(),
    ensures
        min_size(ns) <= ns[i].size_bytes <= max_size(ns),
        ns[i].level <= deepest(ns),
    decreases ns.len(),
{
    if i < ns.len() - 1 {
        lemma_size_bounds(ns.drop_last(), i);
    }
}

/// When all sizes are equal, the smallest is the largest.
pub proof fn lemma_equal_sizes(ns: Seq<Package>)
    requires
        ns.len() > 0,
        forall|i: int, j: int| 0 <= i < ns.len() && 0 <= j < ns.len() ==> ns[i].size_bytes == ns[j].size_bytes,
    ensures
        min_size(ns) == ns[0].size_bytes,
        max_size(ns) == ns[0].size_bytes,
    decreases ns.len(),
{
    if ns.len() > 1 {
        let r = ns.drop_last();
        assert forall|i: int, j: int| 0 <= i < r.len() && 0 <= j < r.len() implies r[i].size_bytes == r[j].size_bytes by {
            assert(r[i] == ns[i] && r[j] == ns[j]);
        }
        lemma_equal_sizes(r);
        assert(r[0] == ns[0]);
        assert(ns.last().size_bytes == ns[0].size_bytes);
    } else {
        assert(ns.drop_last().len() == 0);
        assert(min_size(ns.drop_last()) == usize::MAX as int);
        assert(max_size(ns.drop_last()) == 0);
    }
}

/// Drawing size of a package of `size` bytes when sizes range from `lo` to `hi`.
pub fn graph_size_for(size: usize, lo: usize, hi: usize) -> (r: usize)
    requires
        lo <= size <= hi,
    ensures
        r == scaled_size(size as int, lo as int, hi as int),
        200 <= r <= 2200,
{
    proof {
        lemma_scaled_size_range(size as int, lo as int, hi as int);
    }
    if hi == lo {
        return 200;
    }
    let d = (hi - lo) as u128;
    let a = (size - lo) as u128;
    assert(4000 * a + d <= 4001 * (usize::MAX as int)) by (nonlinear_arith)
        requires a <= d, d <= usize::MAX;
    let q = (4000 * a + d) / (2 * d);
    (200 + q) as usize
}

/// Relies on slice::sort: the same items, in non-decreasing order.
#[verifier::external_body]
pub(crate) fn sort_positions(v: &mut Vec<usize>)
    ensures
        final(v)@.to_multiset() == old(v)@.to_multiset(),
        sorted(final(v)@),
{
    v.sort();
}

/// Whether the store root starts at position `from` of `s`.
fn store_root_at(s: &str, from: usize) -> (r: bool)
    requires
        from <= s@.len(),
    ensures
        r == (s@.len() - from >= 11 && s@.skip(from as int).take(11) == store_root()),
{
    let len = s.unicode_len();
    if len - from < 11 {
        return false;
    }
    let root = vec!['/', 'n', 'i', 'x', '/', 's', 't', 'o', 'r', 'e', '/'];
    assert(root@ =~= store_root());
    let mut k: usize = 0;
    while k < 11
        invariant
            len == s@.len(),
            from + 11 <= len,
            root@ == store_root(),
            k <= 11,
            forall|j: int| 0 <= j < k ==> s@[from + j] == root@[j],
        decreases 11 - k,
    {
        if s.get_char(from + k) != root[k] {
            assert(s@.skip(from as int).take(11)[k as int] != store_root()[k as int]);
            return false;
        }
        k = k + 1;
    }
    assert(s@.skip(from as int).take(11) =~= store_root());
    true
}

/// The path without its hashed prefix.
pub fn symbolic_name(path: &str) -> (r: String)
    ensures
        r@ == symbolic_key(path@),
{
    let len = path.unicode_len();
    if len >= HASHED_PREFIX_LEN {
        let r = path.substring_char(HASHED_PREFIX_LEN, len).to_owned();
        assert(path@.subrange(HASHED_PREFIX_LEN as int, len as int) =~= path@.skip(HASHED_PREFIX_LEN as int));
        r
    } else {
        path.to_owned()
    }
}

/// The path without the store root in front of it.
pub fn store_name(path: &str) -> (r: String)
    ensures
        r@ == strip_store_root(path@),
{
    let len = path.unicode_len();
    let mut from: usize = 0;
    assert(path@.skip(0) =~= path@);
    while store_root_at(path, from)
        invariant
            len == path@.len(),
            from <= len,
            strip_store_root(path@) == strip_store_root(path@.skip(from as int)),
        decreases len - from,
    {
        assert(path@.skip(from as int).skip(11) =~= path@.skip(from + 11));
        from = from + 11;
    }
    assert(path@.subrange(from as int, len as int) =~= path@.skip(from as int));
    path.substring_char(from, len).to_owned()
}

impl PackageTree {
    /// Smallest and largest package size.
    pub(crate) fn size_bounds(&self) -> (r: (usize, usize))
        ensures
            r.0 == min_size(self.nodes()),
            r.1 == max_size(self.nodes()),
    {
        let mut lo: usize = usize::MAX;
        let mut hi: usize = 0;
        let mut i: usize = 0;
        while i < self.len()
            invariant
                i <= self.nodes().len(),
                lo == min_size(self.nodes().take(i as int)),
                hi == max_size(self.nodes().take(i as int)),
            decreases self.nodes().len() - i,
        {
            let s = self.package(i).size_bytes;
            assert(self.nodes().take(i + 1).drop_last() =~= self.nodes().take(i as int));
            if s < lo {
                lo = s;
            }
            if s > hi {
                hi = s;
            }
            i = i + 1;
        }
        assert(self.nodes().take(i as int) =~= self.nodes());
        (lo, hi)
    }

    /// Deepest level of any package.
    pub(crate) fn deepest_level(&self) -> (r: usize)
        ensures
            r == deepest(self.nodes()),
    {
        let mut top: usize = 0;
        let mut i: usize = 0;
        while i < self.len()
            invariant
                i <= self.nodes().len(),
                top == deepest(self.nodes().take(i as int)),
            decreases self.nodes().len() - i,
        {
            let l = self.package(i).level;
            assert(self.nodes().take(i + 1).drop_last() =~= self.nodes().take(i as int));
            if l > top {
                top = l;
            }
            i = i + 1;
        }
        assert(self.nodes().take(i as int) =~= self.nodes());
        top
    }

    /// Positions of the packages at `level`, in order.
    pub(crate) fn level_bucket(&self, level: usize) -> (r: Vec<usize>)
        ensures
            r@ == members(self.nodes(), level as int, self.nodes().len() as int),
    {
        let mut bucket: Vec<usize> = Vec::new();
        let mut i: usize = 0;
        while i < self.len()
            invariant
                i <= self.nodes().len(),
                bucket@ == members(self.nodes(), level as int, i as int),
            decreases self.nodes().len() - i,
        {
            if self.package(i).level == level {
                bucket.push(i);
            }
            i = i + 1;
        }
        bucket
    }

    /// The short name of every package, by position.
    pub fn short_names(&self) -> (r: Vec<String>)
        ensures
            r@.len() == self.nodes().len(),
            forall|i: int| 0 <= i < r@.len() ==> (#[trigger] r@[i])@ == short_name_at(paths_of(self.nodes()), i),
    {
        let n = self.len();
        let ghost paths = paths_of(self.nodes());
        let ghost ks = keys_of(paths);
        let mut keys: Vec<String> = Vec::new();
        let mut i: usize = 0;
        while i < n
            invariant
                n == self.nodes().len(),
                paths == paths_of(self.nodes()),
                ks == keys_of(paths),
                i <= n,
                keys@.len() == i,
                forall|j: int| 0 <= j < i ==> (#[trigger] keys@[j])@ == ks[j],
            decreases n - i,
        {
            keys.push(symbolic_name(self.package(i).path.as_str()));
            i = i + 1;
        }
        let mut names: Vec<String> = Vec::new();
        let mut i: usize = 0;
        while i < n
            invariant
                n == self.nodes().len(),
                paths == paths_of(self.nodes()),
                ks == keys_of(paths),
                keys@.len() == n,
                forall|j: int| 0 <= j < n ==> (#[trigger] keys@[j])@ == ks[j],
                i <= n,
                names@.len() == i,
                forall|j: int| 0 <= j < i ==> (#[trigger] names@[j])@ == short_name_at(paths, j),
            decreases n - i,
        {
            let mut seen: usize = 0;
            let mut j: usize = 0;
            while j < i
                invariant
                    keys@.len() == n,
                    forall|j: int| 0 <= j < n ==> (#[trigger] keys@[j])@ == ks[j],
                    i < n,
                    ks.len() == n,
                    j <= i,
                    seen == same_key_before(ks, i as int, j as int),
                    seen <= j,
                decreases i - j,
            {
                if keys[j] == keys[i] {
                    seen = seen + 1;
                }
                j = j + 1;
            }
            let mut later = false;
            let mut j: usize = i + 1;
            while j < n
                invariant
                    keys@.len() == n,
                    forall|j: int| 0 <= j < n ==> (#[trigger] keys@[j])@ == ks[j],
                    i < n,
                    ks.len() == n,
                    i < j <= n,
                    later == exists|k: int| i < k < j && ks[k] == ks[i as int],
                decreases n - j,
            {
                if keys[j] == keys[i] {
                    later = true;
                }
                j = j + 1;
            }
            let path = self.package(i).path.as_str();
            let name = if seen % 2 == 1 || later {
                store_name(path)
            } else {
                symbolic_name(path)
            };
            names.push(name);
            i = i + 1;
        }
        names
    }
}

/// Counts the earlier holders of a key held by `a`, `b` and `c` alone.
proof fn lemma_same_key_count(keys: Seq<Seq<char>>, i: int, k: int, a: int, b: int, c: int)
    requires
        0 <= k <= keys.len(),
        0 <= i < keys.len(),
        0 <= a < b < c < keys.len(),
        keys[i] == keys[a] && keys[i] == keys[b] && keys[i] == keys[c],
        forall|x: int| 0 <= x < keys.len() && x != a && x != b && x != c ==> keys[x] != keys[i],
    ensures
        same_key_before(keys, i, k) == (if a < k { 1int } else { 0int }) + (if b < k { 1int } else { 0int })
            + (if c < k { 1int } else { 0int }),
    decreases k,
{
    if k > 0 {
        lemma_same_key_count(keys, i, k - 1, a, b, c);
        let x = k - 1;
        if x != a && x != b && x != c {
            assert(keys[x] != keys[i]);
        }
    }
}

/// Of three packages that alone share a symbolic key, the first two are named
/// by their path without the store root, and the third keeps the bare key:
/// collisions are settled in pairs.
pub proof fn lemma_three_way_collision(paths: Seq<Seq<char>>, a: int, b: int, c: int)
    requires
        0 <= a < b < c < paths.len(),
        symbolic_key(paths[a]) == symbolic_key(paths[b]),
        symbolic_key(paths[a]) == symbolic_key(paths[c]),
        forall|x: int| 0 <= x < paths.len() && x != a && x != b && x != c
            ==> symbolic_key(#[trigger] paths[x]) != symbolic_key(paths[a]),
    ensures
        short_name_at(paths, a) == strip_store_root(paths[a]),
        short_name_at(paths, b) == strip_store_root(paths[b]),
        short_name_at(paths, c) == symbolic_key(paths[c]),
{
    let keys = keys_of(paths);
    assert forall|x: int| 0 <= x < keys.len() && x != a && x != b && x != c implies keys[x] != keys[c] by {
        assert(keys[x] == symbolic_key(paths[x]));
    }
    assert(keys[a] == keys[c] && keys[b] == keys[c]);
    lemma_same_key_count(keys, b, b, a, b, c);
    lemma_same_key_count(keys, c, c, a, b, c);
    assert(collides(keys, a));
    assert(collides(keys, b));
    assert(!collides(keys, c));
}

} // verus!
