//! Text of the graph for the layout engine, with the packages grouped into
//! ranks level by level.
use vstd::prelude::*;
use vstd::string::*;
use crate::graph::{Package, PackageTree};
use crate::text::{dec, decimal, milli, milli_text};

verus! {

/// Most packages that one rank group holds when a level is small.
pub const RANK_CHUNK_MIN: usize = 20;

/// Size of the rank groups for a level of `population` packages.
pub open spec fn chunk_size_of(population: int) -> int {
    let c = 1 + population / (1 + population / 20);
    if c > 20 { c } else { 20 }
}

/// Size of the rank groups for a level of `population` packages:
/// `max(20, 1 + population / (1 + population / 20))`.
pub fn rank_chunk_size(population: usize) -> (r: usize)
    ensures
        r == chunk_size_of(population as int),
        r >= RANK_CHUNK_MIN,
{
    let d = 1 + population / 20;
    assert(population < 20 * d) by (nonlinear_arith)
        requires d == 1 + population / 20;
    assert(population / d < 20) by (nonlinear_arith)
        requires population < 20 * d, d > 0;
    let c = 1 + population / d;
    if c > RANK_CHUNK_MIN { c } else { RANK_CHUNK_MIN }
}

/// The statement of the package at `pos`.
pub open spec fn node_stmt(pos: int, p: Package) -> Seq<char> {
    dec(pos as nat) + " [fixedsize = true, height = "@ + milli(p.graph_size as nat) + ", width = "@
        + milli(p.graph_size as nat) + ", penwidth = 2, label = \""@ + p.short_name@ + "\"];\n"@
}

/// The statement of the edge from `a` to `b`.
pub open spec fn edge_stmt(a: int, b: int) -> Seq<char> {
    dec(a as nat) + " -> "@ + dec(b as nat) + " [penwidth = 0.5];\n"@
}

/// The edge statements of `a` from its `j`-th dependency on.
pub open spec fn edges_text(a: int, deps: Seq<usize>, j: int) -> Seq<char>
    decreases deps.len() - j,
{
    if j < 0 || j >= deps.len() {
        Seq::empty()
    } else {
        edge_stmt(a, deps[j] as int) + edges_text(a, deps, j + 1)
    }
}

/// Node and edge statements of the packages from position `i` on.
pub open spec fn node_section(ns: Seq<Package>, i: int) -> Seq<char>
    decreases ns.len() - i,
{
    if i < 0 || i >= ns.len() {
        Seq::empty()
    } else {
        node_stmt(i, ns[i]) + edges_text(i, ns[i].dependencies@, 0) + node_section(ns, i + 1)
    }
}

/// The members of a rank group, from the `j`-th on.
pub open spec fn members_text(m: Seq<usize>, j: int) -> Seq<char>
    decreases m.len() - j,
{
    if j < 0 || j >= m.len() {
        Seq::empty()
    } else {
        dec(m[j] as nat) + "; "@ + members_text(m, j + 1)
    }
}

/// Name of the invisible placeholder of group `s` of level `l`.
pub open spec fn lnode(l: int, s: int) -> Seq<char> {
    "lnode"@ + dec(l as nat) + "_"@ + dec(s as nat)
}

/// The block of group `s` of level `l`, which holds `m`.
pub open spec fn chunk_block(l: int, s: int, m: Seq<usize>) -> Seq<char> {
    "subgraph level_"@ + dec(l as nat) + "_"@ + dec(s as nat) + " {\nrank = same;\n"@ + members_text(m, 0)
        + lnode(l, s) + " [style=\"invis\"];\n}\n"@
}

/// Length of the next group of `rest` when groups hold `c`.
pub open spec fn next_chunk(rest: Seq<usize>, c: int) -> int {
    if c < rest.len() { c } else { rest.len() as int }
}

/// The blocks of level `l` for the positions `rest`, numbered from `s`.
pub open spec fn level_blocks(l: int, s: int, rest: Seq<usize>, c: int) -> Seq<char>
    decreases rest.len(),
{
    if rest.len() == 0 || c <= 0 {
        Seq::empty()
    } else {
        let k = next_chunk(rest, c);
        chunk_block(l, s, rest.take(k)) + level_blocks(l, s + 1, rest.skip(k), c)
    }
}

/// The placeholders of level `l` for the positions `rest`, numbered from `s`.
pub open spec fn level_lnodes(l: int, s: int, rest: Seq<usize>, c: int) -> Seq<Seq<char>>
    decreases rest.len(),
{
    if rest.len() == 0 || c <= 0 {
        Seq::empty()
    } else {
        let k = next_chunk(rest, c);
        seq![lnode(l, s)] + level_lnodes(l, s + 1, rest.skip(k), c)
    }
}

/// The rank blocks of the levels from `l` on.
pub open spec fn rank_section(levels: Seq<Seq<usize>>, l: int) -> Seq<char>
    decreases levels.len() - l,
{
    if l < 0 || l >= levels.len() {
        Seq::empty()
    } else {
        level_blocks(l, 0, levels[l], chunk_size_of(levels[l].len() as int)) + rank_section(levels, l + 1)
    }
}

/// The placeholders of the levels from `l` on, in order.
pub open spec fn all_lnodes(levels: Seq<Seq<usize>>, l: int) -> Seq<Seq<char>>
    decreases levels.len() - l,
{
    if l < 0 || l >= levels.len() {
        Seq::empty()
    } else {
        level_lnodes(l, 0, levels[l], chunk_size_of(levels[l].len() as int)) + all_lnodes(levels, l + 1)
    }
}

/// Invisible edges between each placeholder from the `i`-th on and the one before it.
pub open spec fn chain_text(names: Seq<Seq<char>>, i: int) -> Seq<char>
    decreases names.len() - i,
{
    if i < 1 || i >= names.len() {
        Seq::empty()
    } else {
        names[i - 1] + " -> "@ + names[i] + " [style=\"invis\"];\n"@ + chain_text(names, i + 1)
    }
}

/// The whole layout description of a tree.
pub open spec fn dot_text(ns: Seq<Package>, levels: Seq<Seq<usize>>) -> Seq<char> {
    "digraph {\n"@ + node_section(ns, 0) + rank_section(levels, 0) + chain_text(all_lnodes(levels, 0), 1) + "}\n"@
}

/// The characters of each string.
pub open spec fn strings_view(v: Seq<String>) -> Seq<Seq<char>> {
    v.map_values(|s: String| s@)
}

/// Appends the statement of the package at `pos`.
fn push_node_stmt(out: &mut String, pos: usize, p: &Package)
    ensures
        final(out)@ == old(out)@ + node_stmt(pos as int, *p),
{
    let size = milli_text(p.graph_size);
    out.append(decimal(pos).as_str());
    out.append(" [fixedsize = true, height = ");
    out.append(size.as_str());
    out.append(", width = ");
    out.append(size.as_str());
    out.append(", penwidth = 2, label = \"");
    out.append(p.short_name.as_str());
    out.append("\"];\n");
    assert(final(out)@ =~= old(out)@ + node_stmt(pos as int, *p));
}

/// Appends the edge statements of the package at `pos`.
fn push_edges(out: &mut String, pos: usize, deps: &Vec<usize>)
    ensures
        final(out)@ == old(out)@ + edges_text(pos as int, deps@, 0),
{
    let ghost target = out@ + edges_text(pos as int, deps@, 0);
    let mut j: usize = 0;
    while j < deps.len()
        invariant
            j <= deps@.len(),
            out@ + edges_text(pos as int, deps@, j as int) == target,
        decreases deps@.len() - j,
    {
        let ghost before = out@;
        out.append(decimal(pos).as_str());
        out.append(" -> ");
        out.append(decimal(deps[j]).as_str());
        out.append(" [penwidth = 0.5];\n");
        assert(out@ =~= before + edge_stmt(pos as int, deps@[j as int] as int));
        assert(before + edges_text(pos as int, deps@, j as int)
            =~= out@ + edges_text(pos as int, deps@, j + 1));
        j = j + 1;
    }
    assert(edges_text(pos as int, deps@, j as int) =~= Seq::<char>::empty());
}

/// Appends the block of group `s` of level `l`, which holds `b[start..end]`.
fn push_chunk_block(out: &mut String, l: usize, s: usize, b: &Vec<usize>, start: usize, end: usize)
    requires
        start <= end <= b@.len(),
    ensures
        final(out)@ == old(out)@ + chunk_block(l as int, s as int, b@.subrange(start as int, end as int)),
{
    let ghost m = b@.subrange(start as int, end as int);
    out.append("subgraph level_");
    out.append(decimal(l).as_str());
    out.append("_");
    out.append(decimal(s).as_str());
    out.append(" {\nrank = same;\n");
    let ghost head = out@;
    let mut j: usize = start;
    while j < end
        invariant
            start <= j <= end,
            end <= b@.len(),
            m == b@.subrange(start as int, end as int),
            out@ + members_text(m, j - start) == head + members_text(m, 0),
        decreases end - j,
    {
        let ghost before = out@;
        out.append(decimal(b[j]).as_str());
        out.append("; ");
        assert(m[j - start] == b@[j as int]);
        assert(before + members_text(m, j - start) =~= out@ + members_text(m, j + 1 - start));
        j = j + 1;
    }
    assert(members_text(m, j - start) =~= Seq::<char>::empty());
    out.append("lnode");
    out.append(decimal(l).as_str());
    out.append("_");
    out.append(decimal(s).as_str());
    out.append(" [style=\"invis\"];\n}\n");
    assert(final(out)@ =~= old(out)@ + chunk_block(l as int, s as int, m));
}

/// The placeholder name of group `s` of level `l`.
fn lnode_name(l: usize, s: usize) -> (r: String)
    ensures
        r@ == lnode(l as int, s as int),
{
    let mut r = String::from_str("lnode");
    r.append(decimal(l).as_str());
    r.append("_");
    r.append(decimal(s).as_str());
    assert(r@ =~= lnode(l as int, s as int));
    r
}

/// Appends the blocks of level `l`, holding `b`, and pushes their placeholders onto `names`.
fn push_level_blocks(out: &mut String, names: &mut Vec<String>, l: usize, b: &Vec<usize>)
    ensures
        final(out)@ == old(out)@ + level_blocks(l as int, 0, b@, chunk_size_of(b@.len() as int)),
        strings_view(final(names)@) == strings_view(old(names)@) + level_lnodes(l as int, 0, b@, chunk_size_of(b@.len() as int)),
{
    let c = rank_chunk_size(b.len());
    let ghost ci = c as int;
    let ghost target = out@ + level_blocks(l as int, 0, b@, ci);
    let ghost target_names = strings_view(names@) + level_lnodes(l as int, 0, b@, ci);
    let mut s: usize = 0;
    let mut start: usize = 0;
    assert(b@.skip(0) =~= b@);
    while start < b.len()
        invariant
            c >= 1,
            ci == c,
            start <= b@.len(),
            s <= start,
            out@ + level_blocks(l as int, s as int, b@.skip(start as int), ci) == target,
            strings_view(names@) + level_lnodes(l as int, s as int, b@.skip(start as int), ci) == target_names,
        decreases b@.len() - start,
    {
        let end = if c < b.len() - start { start + c } else { b.len() };
        let ghost rest = b@.skip(start as int);
        let ghost k = next_chunk(rest, ci);
        assert(rest.take(k) =~= b@.subrange(start as int, end as int));
        assert(rest.skip(k) =~= b@.skip(end as int));
        let ghost before = out@;
        let ghost before_names = strings_view(names@);
        push_chunk_block(out, l, s, b, start, end);
        let name = lnode_name(l, s);
        names.push(name);
        assert(strings_view(names@) =~= before_names.push(name@));
        assert(before + level_blocks(l as int, s as int, rest, ci)
            =~= out@ + level_blocks(l as int, s + 1, b@.skip(end as int), ci));
        assert(before_names + level_lnodes(l as int, s as int, rest, ci)
            =~= strings_view(names@) + level_lnodes(l as int, s + 1, b@.skip(end as int), ci));
        s = s + 1;
        start = end;
    }
    assert(level_blocks(l as int, s as int, b@.skip(start as int), ci) =~= Seq::<char>::empty());
    assert(level_lnodes(l as int, s as int, b@.skip(start as int), ci) =~= Seq::<Seq<char>>::empty());
}

/// The layout description of the tree: a node statement per package, each
/// followed by its edge statements; then, level by level, the rank groups of
/// at most `rank_chunk_size` packages, each with an invisible placeholder;
/// then invisible edges that chain the placeholders in order.
pub fn generate_dot_text(tree: &PackageTree) -> (r: String)
    ensures
        r@ == dot_text(tree.nodes(), tree.levels()),
{
    let ghost ns = tree.nodes();
    let mut out = String::from_str("digraph {\n");
    let ghost head = out@;
    let n = tree.len();
    let mut i: usize = 0;
    while i < n
        invariant
            n == ns.len(),
            ns == tree.nodes(),
            i <= n,
            out@ + node_section(ns, i as int) == head + node_section(ns, 0),
        decreases n - i,
    {
        let ghost before = out@;
        let p = tree.package(i);
        push_node_stmt(&mut out, i, p);
        push_edges(&mut out, i, &p.dependencies);
        assert(before + node_section(ns, i as int) =~= out@ + node_section(ns, i + 1));
        i = i + 1;
    }
    assert(node_section(ns, i as int) =~= Seq::<char>::empty());
    let ghost nodes_done = out@;
    let ghost lv = tree.levels();
    let mut names: Vec<String> = Vec::new();
    let nl = tree.level_count();
    let mut l: usize = 0;
    while l < nl
        invariant
            nl == lv.len(),
            lv == tree.levels(),
            l <= nl,
            out@ + rank_section(lv, l as int) == nodes_done + rank_section(lv, 0),
            strings_view(names@) + all_lnodes(lv, l as int) == all_lnodes(lv, 0),
        decreases nl - l,
    {
        let ghost before = out@;
        let ghost before_names = strings_view(names@);
        push_level_blocks(&mut out, &mut names, l, tree.level(l));
        assert(before + rank_section(lv, l as int) =~= out@ + rank_section(lv, l + 1));
        assert(before_names + all_lnodes(lv, l as int) =~= strings_view(names@) + all_lnodes(lv, l + 1));
        l = l + 1;
    }
    assert(rank_section(lv, l as int) =~= Seq::<char>::empty());
    assert(all_lnodes(lv, l as int) =~= Seq::<Seq<char>>::empty());
    assert(strings_view(names@) =~= all_lnodes(lv, 0));
    let ghost ranks_done = out@;
    let ghost all = strings_view(names@);
    let mut k: usize = 1;
    while k < names.len()
        invariant
            all == strings_view(names@),
            1 <= k,
            out@ + chain_text(all, k as int) == ranks_done + chain_text(all, 1),
        decreases names@.len() - k,
    {
        let ghost before = out@;
        out.append(names[k - 1].as_str());
        out.append(" -> ");
        out.append(names[k].as_str());
        out.append(" [style=\"invis\"];\n");
        assert(before + chain_text(all, k as int) =~= out@ + chain_text(all, k + 1));
        k = k + 1;
    }
    assert(chain_text(all, k as int) =~= Seq::<char>::empty());
    out.append("}\n");
    assert(out@ =~= dot_text(tree.nodes(), tree.levels()));
    out
}

} // verus!
