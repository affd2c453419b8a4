//! The table of packages, one row per package, level by level.
use vstd::prelude::*;
use vstd::string::*;
use crate::annotate::{deepest, lemma_size_bounds, members};
use crate::graph::{Package, PackageTree};
use crate::text::{dec, decimal};

verus! {

/// The first `k` positions of `d`, separated by commas.
pub open spec fn joined(d: Seq<usize>, k: int) -> Seq<char>
    decreases k,
{
    if k <= 0 {
        Seq::empty()
    } else if k == 1 {
        dec(d[0] as nat)
    } else {
        joined(d, k - 1) + seq![','] + dec(d[k - 1] as nat)
    }
}

/// The value of a decimal digit character.
pub open spec fn digit_value(c: char) -> int {
    if c == '1' { 1 } else if c == '2' { 2 } else if c == '3' { 3 } else if c == '4' { 4 }
    else if c == '5' { 5 } else if c == '6' { 6 } else if c == '7' { 7 } else if c == '8' { 8 }
    else if c == '9' { 9 } else { 0 }
}

/// The number that a run of decimal digits writes.
pub open spec fn parse_dec(s: Seq<char>) -> int
    decreases s.len(),
{
    if s.len() == 0 { 0 } else { 10 * parse_dec(s.drop_last()) + digit_value(s.last()) }
}

/// The comma-separated fields of `s`; the empty text is one empty field.
pub open spec fn split_commas(s: Seq<char>) -> Seq<Seq<char>>
    decreases s.len(),
{
    if s.len() == 0 {
        seq![Seq::empty()]
    } else {
        let r = split_commas(s.drop_last());
        if s.last() == ',' {
            r.push(Seq::empty())
        } else {
            r.update(r.len() - 1, r.last().push(s.last()))
        }
    }
}

/// The numbers of a dependency column: none for the empty text.
pub open spec fn decode_column(s: Seq<char>) -> Seq<int> {
    if s.len() == 0 { Seq::empty() } else { split_commas(s).map_values(|f: Seq<char>| parse_dec(f)) }
}

/// Each digit character reads back as its digit.
proof fn lemma_digit_value(m: int)
    requires
        0 <= m < 10,
    ensures
        digit_value(seq!['0', '1', '2', '3', '4', '5', '6', '7', '8', '9'][m]) == m,
        seq!['0', '1', '2', '3', '4', '5', '6', '7', '8', '9'][m] != ',',
{
    let ds = seq!['0', '1', '2', '3', '4', '5', '6', '7', '8', '9'];
    assert(ds[0] == '0' && ds[1] == '1' && ds[2] == '2' && ds[3] == '3' && ds[4] == '4');
    assert(ds[5] == '5' && ds[6] == '6' && ds[7] == '7' && ds[8] == '8' && ds[9] == '9');
}

/// Decimal digits read back as the number, and hold no comma.
proof fn lemma_dec_digits(n: nat)
    ensures
        parse_dec(dec(n)) == n,
        dec(n).len() > 0,
        forall|j: int| 0 <= j < dec(n).len() ==> #[trigger] dec(n)[j] != ',',
    decreases n,
{
    let ds = seq!['0', '1', '2', '3', '4', '5', '6', '7', '8', '9'];
    assert(ds[0] == '0' && ds[1] == '1' && ds[2] == '2' && ds[3] == '3' && ds[4] == '4');
    assert(ds[5] == '5' && ds[6] == '6' && ds[7] == '7' && ds[8] == '8' && ds[9] == '9');
    if n < 10 {
        lemma_digit_value(n as int);
        assert(dec(n) == seq![ds[n as int]]);
        assert(dec(n).drop_last() =~= Seq::<char>::empty());
        assert(dec(n).last() == ds[n as int]);
        assert(parse_dec(dec(n).drop_last()) == 0);
    } else {
        lemma_digit_value((n % 10) as int);
        lemma_dec_digits(n / 10);
        let m = (n % 10) as int;
        assert(dec(n) == dec(n / 10).push(ds[m]));
        assert(dec(n).drop_last() =~= dec(n / 10));
        assert(dec(n).last() == ds[m]);
        assert(digit_value(ds[m]) == m);
        assert(n == 10 * (n / 10) + m);
        assert forall|j: int| 0 <= j < dec(n).len() implies #[trigger] dec(n)[j] != ',' by {
            if j < dec(n / 10).len() {
                assert(dec(n)[j] == dec(n / 10)[j]);
            }
        }
    }
}

/// Fields of a text without commas, after a comma, form one more field.
proof fn lemma_split_append(a: Seq<char>, b: Seq<char>)
    requires
        forall|j: int| 0 <= j < b.len() ==> b[j] != ',',
    ensures
        split_commas(a + seq![','] + b) == split_commas(a).push(b),
        b.len() > 0 ==> split_commas(b) == seq![b],
    decreases b.len(),
{
    if b.len() == 0 {
        assert((a + seq![',']).drop_last() =~= a);
        assert(a + seq![','] + b =~= a + seq![',']);
        assert((a + seq![',']).last() == ',');
        assert(split_commas(a + seq![',']) == split_commas(a).push(Seq::empty()));
        assert(b =~= Seq::<char>::empty());
        assert(split_commas(a + seq![','] + b) == split_commas(a).push(b));
    } else {
        let c = b.drop_last();
        lemma_split_append(a, c);
        assert((a + seq![','] + b).drop_last() =~= a + seq![','] + c);
        assert((a + seq![','] + b).last() == b.last());
        let r = split_commas(a).push(c);
        assert(split_commas(a + seq![','] + c) == r);
        assert(r.last() == c);
        assert(split_commas(a + seq![','] + b) == r.update(r.len() - 1, r.last().push(b.last())));
        assert(b.last() != ',');
        assert(c.push(b.last()) =~= b);
        assert(split_commas(a).push(c).update(split_commas(a).len() as int, c.push(b.last()))
            =~= split_commas(a).push(b));
        assert(c.push(b.last()) =~= b);
        if c.len() == 0 {
            assert(b.drop_last() =~= Seq::<char>::empty());
            assert(seq![Seq::<char>::empty()].update(0, Seq::<char>::empty().push(b.last())) =~= seq![b]);
        } else {
            assert(seq![c].update(0, c.push(b.last())) =~= seq![b]);
        }
    }
}

proof fn lemma_split_joined(d: Seq<usize>, k: int)
    requires
        1 <= k <= d.len(),
    ensures
        split_commas(joined(d, k)) == Seq::new(k as nat, |j: int| dec(d[j] as nat)),
    decreases k,
{
    lemma_dec_digits(d[k - 1] as nat);
    if k == 1 {
        lemma_split_append(Seq::empty(), dec(d[0] as nat));
        assert(split_commas(joined(d, 1)) =~= Seq::new(1, |j: int| dec(d[j] as nat)));
    } else {
        lemma_split_joined(d, k - 1);
        lemma_split_append(joined(d, k - 1), dec(d[k - 1] as nat));
        assert(Seq::new((k - 1) as nat, |j: int| dec(d[j] as nat)).push(dec(d[k - 1] as nat))
            =~= Seq::new(k as nat, |j: int| dec(d[j] as nat)));
    }
}

/// Reading a dependency column back, split at its commas, gives the
/// positions it was written from, in order.
pub proof fn lemma_column_round_trip(d: Seq<usize>)
    ensures
        decode_column(joined(d, d.len() as int)) == d.map_values(|x: usize| x as int),
{
    if d.len() == 0 {
        assert(decode_column(joined(d, 0)) =~= d.map_values(|x: usize| x as int));
    } else {
        lemma_dec_digits(d[0] as nat);
        assert(joined(d, d.len() as int).len() > 0) by {
            lemma_joined_nonempty(d, d.len() as int);
        }
        lemma_split_joined(d, d.len() as int);
        assert forall|j: int| 0 <= j < d.len() implies parse_dec(dec(#[trigger] d[j] as nat)) == d[j] by {
            lemma_dec_digits(d[j] as nat);
        }
        assert(decode_column(joined(d, d.len() as int)) =~= d.map_values(|x: usize| x as int));
    }
}

proof fn lemma_joined_nonempty(d: Seq<usize>, k: int)
    requires
        1 <= k <= d.len(),
    ensures
        joined(d, k).len() > 0,
    decreases k,
{
    lemma_dec_digits(d[k - 1] as nat);
    if k > 1 {
        lemma_joined_nonempty(d, k - 1);
    }
}

/// The row of the package `p`, at position `pos` and level `l`.
pub open spec fn csv_row(pos: int, l: int, p: Package) -> Seq<char> {
    dec(pos as nat) + ","@ + dec(l as nat) + ","@ + p.short_name@ + ","@ + dec(p.size_bytes as nat) + ",\""@
        + joined(p.dependencies@, p.dependencies@.len() as int) + "\","@ + p.path@ + "\n"@
}

/// The rows of the positions `b` of level `l`, from the `j`-th on.
pub open spec fn level_rows(ns: Seq<Package>, l: int, b: Seq<usize>, j: int) -> Seq<char>
    decreases b.len() - j,
{
    if j < 0 || j >= b.len() {
        Seq::empty()
    } else {
        csv_row(b[j] as int, l, ns[b[j] as int]) + level_rows(ns, l, b, j + 1)
    }
}

/// The rows of the levels from `l` on.
pub open spec fn rows_section(ns: Seq<Package>, levels: Seq<Seq<usize>>, l: int) -> Seq<char>
    decreases levels.len() - l,
{
    if l < 0 || l >= levels.len() {
        Seq::empty()
    } else {
        level_rows(ns, l, levels[l], 0) + rows_section(ns, levels, l + 1)
    }
}

/// The first line of the table.
pub open spec fn csv_header() -> Seq<char> {
    "pos,level,package_name,size_bytes,dependencies,path\n"@
}

/// The whole table.
pub open spec fn csv_text(ns: Seq<Package>, levels: Seq<Seq<usize>>) -> Seq<char> {
    csv_header() + rows_section(ns, levels, 0)
}

/// Number of rows in the levels below `d`, when the level `l` holds `members(ns, l, k)`.
pub open spec fn row_count(ns: Seq<Package>, k: int, d: int) -> int
    decreases d,
{
    if d <= 0 {
        0
    } else {
        row_count(ns, k, d - 1) + members(ns, d - 1, k).len()
    }
}

/// Counting one package more adds one row, at its level, when that level is counted.
proof fn lemma_row_count_step(ns: Seq<Package>, k: int, d: int)
    requires
        0 < k <= ns.len(),
        0 <= d,
    ensures
        row_count(ns, k, d) == row_count(ns, k - 1, d) + if ns[k - 1].level < d { 1int } else { 0int },
    decreases d,
{
    if d > 0 {
        lemma_row_count_step(ns, k, d - 1);
    }
}

/// When every level is below `d`, the first `k` packages give `k` rows.
proof fn lemma_row_count_all(ns: Seq<Package>, k: int, d: int)
    requires
        0 <= k <= ns.len(),
        forall|j: int| 0 <= j < ns.len() ==> (#[trigger] ns[j]).level < d,
    ensures
        row_count(ns, k, d) == k,
    decreases k,
{
    if k > 0 {
        lemma_row_count_all(ns, k - 1, d);
        assert(ns[k - 1].level < d);
        lemma_row_count_step(ns, k, d);
    } else {
        lemma_row_count_zero(ns, d);
    }
}

/// No package gives no row.
proof fn lemma_row_count_zero(ns: Seq<Package>, d: int)
    ensures
        row_count(ns, 0, d) == 0,
    decreases d,
{
    if d > 0 {
        lemma_row_count_zero(ns, d - 1);
    }
}

/// Level buckets built from every level up to the deepest one hold each
/// package exactly once in all: the table has one row per package.
pub proof fn lemma_one_row_per_package(ns: Seq<Package>)
    ensures
        row_count(ns, ns.len() as int, deepest(ns) + 1) == ns.len(),
{
    assert forall|j: int| 0 <= j < ns.len() implies (#[trigger] ns[j]).level < deepest(ns) + 1 by {
        lemma_size_bounds(ns, j);
    }
    lemma_row_count_all(ns, ns.len() as int, deepest(ns) + 1);
}

/// Number of rows that the buckets below `d` give.
pub open spec fn bucket_total(levels: Seq<Seq<usize>>, d: int) -> int
    decreases d,
{
    if d <= 0 {
        0
    } else {
        bucket_total(levels, d - 1) + levels[d - 1].len()
    }
}

/// Buckets that hold `members` give the rows that `row_count` counts.
proof fn lemma_bucket_total_rows(ns: Seq<Package>, levels: Seq<Seq<usize>>, d: int)
    requires
        0 <= d <= levels.len(),
        forall|l: int| 0 <= l < levels.len() ==> #[trigger] levels[l] == members(ns, l, ns.len() as int),
    ensures
        bucket_total(levels, d) == row_count(ns, ns.len() as int, d),
    decreases d,
{
    if d > 0 {
        lemma_bucket_total_rows(ns, levels, d - 1);
        assert(levels[d - 1] == members(ns, d - 1, ns.len() as int));
    }
}

/// Buckets laid out as `calculate_graph_properties` lays them out, one per
/// level up to the deepest, give the table exactly one row per package.
pub proof fn lemma_table_rows(ns: Seq<Package>, levels: Seq<Seq<usize>>)
    requires
        levels.len() == deepest(ns) + 1,
        forall|l: int| 0 <= l < levels.len() ==> #[trigger] levels[l] == members(ns, l, ns.len() as int),
    ensures
        bucket_total(levels, levels.len() as int) == ns.len(),
{
    lemma_bucket_total_rows(ns, levels, levels.len() as int);
    lemma_one_row_per_package(ns);
}

/// Appends the row of the package `p` at position `pos` and level `l`.
fn push_row(out: &mut String, pos: usize, l: usize, p: &Package)
    ensures
        final(out)@ == old(out)@ + csv_row(pos as int, l as int, *p),
{
    out.append(decimal(pos).as_str());
    out.append(",");
    out.append(decimal(l).as_str());
    out.append(",");
    out.append(p.short_name.as_str());
    out.append(",");
    out.append(decimal(p.size_bytes).as_str());
    out.append(",\"");
    let ghost head = out@;
    let d = &p.dependencies;
    let mut j: usize = 0;
    while j < d.len()
        invariant
            j <= d@.len(),
            out@ == head + joined(d@, j as int),
        decreases d@.len() - j,
    {
        let ghost before = out@;
        if j > 0 {
            out.append(",");
        }
        out.append(decimal(d[j]).as_str());
        proof {
            reveal_strlit(",");
        }
        assert(out@ =~= head + joined(d@, j + 1));
        j = j + 1;
    }
    out.append("\",");
    out.append(p.path.as_str());
    out.append("\n");
    assert(final(out)@ =~= old(out)@ + csv_row(pos as int, l as int, *p));
}

/// The table of packages: a header line, then one row per entry of the level
/// buckets, level by level, giving position, level, short name, size, the
/// quoted comma-separated dependencies and the path.
pub fn generate_package_list_text(tree: &PackageTree) -> (r: String)
    requires
        tree.wf(),
    ensures
        r@ == csv_text(tree.nodes(), tree.levels()),
{
    let ghost ns = tree.nodes();
    let ghost lv = tree.levels();
    let mut out = String::from_str("pos,level,package_name,size_bytes,dependencies,path\n");
    let ghost head = out@;
    let nl = tree.level_count();
    let mut l: usize = 0;
    while l < nl
        invariant
            tree.wf(),
            ns == tree.nodes(),
            nl == lv.len(),
            lv == tree.levels(),
            l <= nl,
            out@ + rows_section(ns, lv, l as int) == head + rows_section(ns, lv, 0),
        decreases nl - l,
    {
        let ghost start = out@;
        let b = tree.level(l);
        let mut j: usize = 0;
        while j < b.len()
            invariant
                tree.wf(),
                ns == tree.nodes(),
                lv == tree.levels(),
                l < lv.len(),
                b@ == lv[l as int],
                j <= b@.len(),
                out@ + level_rows(ns, l as int, b@, j as int) == start + level_rows(ns, l as int, b@, 0),
            decreases b@.len() - j,
        {
            let ghost before = out@;
            let pos = b[j];
            assert(lv[l as int][j as int] < ns.len());
            push_row(&mut out, pos, l, tree.package(pos));
            assert(before + level_rows(ns, l as int, b@, j as int) =~= out@ + level_rows(ns, l as int, b@, j + 1));
            j = j + 1;
        }
        assert(level_rows(ns, l as int, b@, j as int) =~= Seq::<char>::empty());
        assert(start + rows_section(ns, lv, l as int) =~= out@ + rows_section(ns, lv, l + 1));
        l = l + 1;
    }
    assert(rows_section(ns, lv, l as int) =~= Seq::<char>::empty());
    assert(out@ =~= csv_text(ns, lv));
    out
}

} // verus!
