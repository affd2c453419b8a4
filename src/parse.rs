//! Reading of the drawn dependency tree, one nesting level at a time.
use vstd::prelude::*;
use vstd::string::*;
use crate::graph::{model_add, model_register, GraphModel, Package, PackageTree};

verus! {

/// Why a tree text was refused.
#[derive(Debug, PartialEq, Eq, Structural)]
pub enum ParseError {
    /// A line that does not start with a branch marker, or an empty text.
    UnexpectedLine,
    /// A path token that does not start with `/`.
    NotAbsolutePath,
    /// A back-reference to a path that no earlier line created.
    UnknownBackReference,
}

/// The suffix that marks a path seen earlier in the tree.
pub open spec fn backref_marker() -> Seq<char> {
    seq!['[', '.', '.', '.', ']']
}

/// The line ends with the back-reference marker.
pub open spec fn ends_with_marker(l: Seq<char>) -> bool {
    l.len() >= 5 && l.subrange(l.len() - 5, l.len() as int) == backref_marker()
}

/// Number of lines that name a new path (no back-reference marker).
pub open spec fn count_new(ls: Seq<Seq<char>>) -> nat
    decreases ls.len(),
{
    if ls.len() == 0 {
        0
    } else {
        count_new(ls.drop_last()) + if ends_with_marker(ls.last()) { 0nat } else { 1nat }
    }
}

/// The characters of each line.
pub open spec fn lines_view(v: Seq<String>) -> Seq<Seq<char>> {
    v.map_values(|s: String| s@)
}

/// A character that can occur in the back-reference marker.
pub open spec fn marker_char(c: char) -> bool {
    c == '[' || c == '.' || c == ']'
}

/// Cutting marker-free characters off the front keeps whether a line ends with the marker.
pub proof fn lemma_marker_skip(l: Seq<char>, k: int)
    requires
        0 <= k <= l.len(),
        forall|j: int| 0 <= j < k ==> !marker_char(#[trigger] l[j]),
    ensures
        ends_with_marker(l.skip(k)) == ends_with_marker(l),
{
    let t = l.skip(k);
    if ends_with_marker(l) {
        assert(l[l.len() - 5] == l.subrange(l.len() - 5, l.len() as int)[0]);
        assert(marker_char(l[l.len() - 5]));
        assert(k <= l.len() - 5);
        assert(t.subrange(t.len() - 5, t.len() as int) =~= l.subrange(l.len() - 5, l.len() as int));
    }
    if ends_with_marker(t) {
        assert(t.subrange(t.len() - 5, t.len() as int) =~= l.subrange(l.len() - 5, l.len() as int));
    }
}

/// One more line adds one to the count exactly when it names a new path.
pub proof fn lemma_count_new_push(ls: Seq<Seq<char>>, l: Seq<char>)
    ensures
        count_new(ls.push(l)) == count_new(ls) + if ends_with_marker(l) { 0nat } else { 1nat },
{
    assert(ls.push(l).drop_last() =~= ls);
}

/// A white-space character, as `char::is_whitespace` defines it (Unicode
/// `White_Space`).
pub open spec fn is_white(c: char) -> bool {
    let u = c as u32;
    (0x9 <= u <= 0xd) || u == 0x20 || u == 0x85 || u == 0xa0 || u == 0x1680 || (0x2000 <= u <= 0x200a)
        || u == 0x2028 || u == 0x2029 || u == 0x202f || u == 0x205f || u == 0x3000
}

/// `s` without the white space in front.
pub open spec fn trim_front(s: Seq<char>) -> Seq<char>
    decreases s.len(),
{
    if s.len() > 0 && is_white(s[0]) { trim_front(s.skip(1)) } else { s }
}

/// `s` without the white space at its end.
pub open spec fn trim_back(s: Seq<char>) -> Seq<char>
    decreases s.len(),
{
    if s.len() > 0 && is_white(s.last()) { trim_back(s.drop_last()) } else { s }
}

/// `s` without white space at either end.
pub open spec fn trimmed(s: Seq<char>) -> Seq<char> {
    trim_back(trim_front(s))
}

fn white(c: char) -> (r: bool)
    ensures
        r == is_white(c),
{
    let u = c as u32;
    (0x9 <= u && u <= 0xd) || u == 0x20 || u == 0x85 || u == 0xa0 || u == 0x1680 || (0x2000 <= u && u <= 0x200a)
        || u == 0x2028 || u == 0x2029 || u == 0x202f || u == 0x205f || u == 0x3000
}

proof fn lemma_trim_front(s: Seq<char>, a: int)
    requires
        0 <= a <= s.len(),
        forall|j: int| 0 <= j < a ==> is_white(#[trigger] s[j]),
        a == s.len() || !is_white(s[a]),
    ensures
        trim_front(s) == s.skip(a),
    decreases a,
{
    if a == 0 {
        assert(s.skip(0) =~= s);
    } else {
        let t = s.skip(1);
        assert forall|j: int| 0 <= j < a - 1 implies is_white(#[trigger] t[j]) by {
            assert(t[j] == s[j + 1]);
        }
        if a < s.len() {
            assert(t[a - 1] == s[a]);
        }
        assert(is_white(s[0]));
        lemma_trim_front(t, a - 1);
        assert(t.skip(a - 1) =~= s.skip(a));
    }
}

proof fn lemma_trim_back(s: Seq<char>, b: int)
    requires
        0 <= b <= s.len(),
        forall|j: int| b <= j < s.len() ==> is_white(#[trigger] s[j]),
        b == 0 || !is_white(s[b - 1]),
    ensures
        trim_back(s) == s.take(b),
    decreases s.len() - b,
{
    if b == s.len() {
        assert(s.take(b) =~= s);
    } else {
        let t = s.drop_last();
        assert(is_white(s[s.len() - 1]));
        assert forall|j: int| b <= j < t.len() implies is_white(#[trigger] t[j]) by {
            assert(t[j] == s[j]);
        }
        if b > 0 {
            assert(t[b - 1] == s[b - 1]);
        }
        lemma_trim_back(t, b);
        assert(t.take(b) =~= s.take(b));
    }
}

/// The text without white space at either end.
fn trim(s: &str) -> (r: &str)
    ensures
        r@ == trimmed(s@),
{
    let len = s.unicode_len();
    let mut a: usize = 0;
    while a < len && white(s.get_char(a))
        invariant
            len == s@.len(),
            a <= len,
            forall|j: int| 0 <= j < a ==> is_white(#[trigger] s@[j]),
        decreases len - a,
    {
        a = a + 1;
    }
    let mut b: usize = len;
    while b > a && white(s.get_char(b - 1))
        invariant
            len == s@.len(),
            a <= b <= len,
            forall|j: int| b <= j < len ==> is_white(#[trigger] s@[j]),
        decreases b - a,
    {
        b = b - 1;
    }
    proof {
        lemma_trim_front(s@, a as int);
        let f = s@.skip(a as int);
        assert forall|j: int| b - a <= j < f.len() implies is_white(#[trigger] f[j]) by {
            assert(f[j] == s@[j + a]);
        }
        if b > a {
            assert(f[b - a - 1] == s@[b - 1]);
        }
        lemma_trim_back(f, b - a);
        assert(f.take(b - a) =~= s@.subrange(a as int, b as int));
    }
    s.substring_char(a, b)
}

/// First position at or after `from` that does not hold `c`.
fn skip_run(s: &str, from: usize, c: char) -> (k: usize)
    requires
        from <= s@.len(),
    ensures
        from <= k <= s@.len(),
        forall|j: int| from <= j < k ==> s@[j] == c,
        k < s@.len() ==> s@[k as int] != c,
{
    let len = s.unicode_len();
    let mut k = from;
    while k < len && s.get_char(k) == c
        invariant
            len == s@.len(),
            from <= k <= len,
            forall|j: int| from <= j < k ==> s@[j] == c,
        decreases len - k,
    {
        k = k + 1;
    }
    k
}

/// Whether `s` ends with the back-reference marker.
fn ends_with_backref(s: &str) -> (r: bool)
    ensures
        r == ends_with_marker(s@),
{
    let len = s.unicode_len();
    if len < 5 {
        return false;
    }
    let r = s.get_char(len - 5) == '[' && s.get_char(len - 4) == '.' && s.get_char(len - 3) == '.'
        && s.get_char(len - 2) == '.' && s.get_char(len - 1) == ']';
    proof {
        let t = s@.subrange(len - 5, len as int);
        if r {
            assert(t =~= backref_marker());
        } else if ends_with_marker(s@) {
            assert(t[0] == s@[len - 5]);
            assert(t[1] == s@[len - 4]);
            assert(t[2] == s@[len - 3]);
            assert(t[3] == s@[len - 2]);
            assert(t[4] == s@[len - 1]);
        }
    }
    r
}

/// `s` without the run of `c` at its front.
pub open spec fn drop_run(s: Seq<char>, c: char) -> Seq<char>
    decreases s.len(),
{
    if s.len() > 0 && s[0] == c {
        drop_run(s.skip(1), c)
    } else {
        s
    }
}

/// A run of `k` copies of `c` that ends where `s` does or at another character
/// is what `drop_run` takes away.
pub proof fn lemma_drop_run(s: Seq<char>, c: char, k: int)
    requires
        0 <= k <= s.len(),
        forall|j: int| 0 <= j < k ==> s[j] == c,
        k == s.len() || s[k] != c,
    ensures
        drop_run(s, c) == s.skip(k),
    decreases k,
{
    if k == 0 {
        assert(s.skip(0) =~= s);
    } else {
        let t = s.skip(1);
        assert forall|j: int| 0 <= j < k - 1 implies t[j] == c by {
            assert(t[j] == s[j + 1]);
        }
        if k < s.len() {
            assert(t[k - 1] == s[k]);
        }
        lemma_drop_run(t, c, k - 1);
        assert(t.skip(k - 1) =~= s.skip(k));
    }
}

/// Whether the line starts with one layer of nesting: a continuation glyph
/// or a space, then three spaces.
pub open spec fn has_layer(l: Seq<char>) -> bool {
    l.len() >= 4 && (l[0] == '│' || l[0] == ' ') && l[1] == ' ' && l[2] == ' ' && l[3] == ' '
}

/// The line one level further out, with one four-column layer cut off;
/// `None` for a line of the current level.
pub open spec fn nested_of(l: Seq<char>) -> Option<Seq<char>> {
    if has_layer(l) {
        Some(l.skip(4))
    } else {
        None
    }
}

/// End of the run of nested lines that starts at `j`.
pub open spec fn batch_end(lines: Seq<Seq<char>>, j: int) -> int
    decreases lines.len() - j,
{
    if 0 <= j < lines.len() && nested_of(lines[j]) is Some {
        batch_end(lines, j + 1)
    } else {
        j
    }
}

/// A run of nested lines ends between its start and the last line.
pub proof fn lemma_batch_end_bounds(lines: Seq<Seq<char>>, j: int)
    requires
        0 <= j <= lines.len(),
    ensures
        j <= batch_end(lines, j) <= lines.len(),
    decreases lines.len() - j,
{
    if j < lines.len() && nested_of(lines[j]) is Some {
        lemma_batch_end_bounds(lines, j + 1);
    }
}

/// The nested lines from `from` to `to`, each one level further out.
pub open spec fn batch(lines: Seq<Seq<char>>, from: int, to: int) -> Seq<Seq<char>> {
    lines.subrange(from, to).map_values(|l: Seq<char>| nested_of(l)->0)
}

/// The path token of a line of the current level: the branch glyph and the
/// run of horizontal glyphs after it cut off.
pub open spec fn path_token(l: Seq<char>) -> Seq<char> {
    drop_run(l.skip(1), '─')
}

/// The line starts with a branch glyph.
pub open spec fn is_branch_line(l: Seq<char>) -> bool {
    l.len() > 0 && (l[0] == '├' || l[0] == '└')
}

/// The path that a back-reference token names.
pub open spec fn backref_target(tok: Seq<char>) -> Seq<char> {
    trimmed(tok.take(tok.len() - 5))
}

/// Position of the first package whose path is `name`.
pub open spec fn first_with_path(paths: Seq<Seq<char>>, name: Seq<char>) -> int {
    choose|k: int| 0 <= k < paths.len() && paths[k] == name && forall|j: int| 0 <= j < k ==> paths[j] != name
}

/// The path token names an absolute path.
pub open spec fn is_absolute(tok: Seq<char>) -> bool {
    tok.len() > 0 && tok[0] == '/'
}

/// Reading `lines` from the `i`-th on below the package at `parent`, when the
/// tree is `m`: the tree afterwards, or the first error. A new path becomes a
/// package with an edge from `parent`, and the run of nested lines after it is
/// read below it before the next line of this level. A back-reference adds an
/// edge from `parent` to the first package with that path, unless that is
/// `parent` itself.
pub open spec fn parse_from(m: GraphModel, parent: int, lines: Seq<Seq<char>>, i: int) -> Result<GraphModel, ParseError>
    decreases lines.len(), lines.len() - i,
{
    if i < 0 || i >= lines.len() {
        Ok(m)
    } else if !is_branch_line(lines[i]) {
        Err(ParseError::UnexpectedLine)
    } else {
        let tok = path_token(lines[i]);
        if !is_absolute(tok) {
            Err(ParseError::NotAbsolutePath)
        } else if ends_with_marker(tok) {
            let name = backref_target(tok);
            if exists|k: int| 0 <= k < m.paths.len() && m.paths[k] == name {
                let k = first_with_path(m.paths, name);
                if k != parent {
                    parse_from(model_register(m, parent, k), parent, lines, i + 1)
                } else {
                    parse_from(m, parent, lines, i + 1)
                }
            } else {
                Err(ParseError::UnknownBackReference)
            }
        } else {
            proof {
                lemma_batch_end_bounds(lines, i + 1);
            }
            let end = batch_end(lines, i + 1);
            let pos = m.paths.len() as int;
            let m1 = model_register(model_add(m, tok), parent, pos);
            match parse_from(m1, pos, batch(lines, i + 1, end), 0) {
                Ok(m2) => parse_from(m2, parent, lines, end),
                Err(e) => Err(e),
            }
        }
    }
}

/// A line nested one level deeper, without that level's prefix: `Some`
/// exactly when the line starts with one four-column layer, which is cut off.
pub fn nested_line(line: &str) -> (r: Option<String>)
    ensures
        r is Some <==> has_layer(line@),
        r matches Some(t) ==> Some(t@) == nested_of(line@),
        r matches Some(t) ==> ends_with_marker(t@) == ends_with_marker(line@),
{
    let len = line.unicode_len();
    if len < 4 {
        return None;
    }
    let c = line.get_char(0);
    if (c != '│' && c != ' ') || line.get_char(1) != ' ' || line.get_char(2) != ' ' || line.get_char(3) != ' ' {
        return None;
    }
    let t = line.substring_char(4, len).to_owned();
    proof {
        assert(line@.subrange(4, len as int) =~= line@.skip(4));
        assert forall|j: int| 0 <= j < 4 implies !marker_char(#[trigger] line@[j]) by {}
        lemma_marker_skip(line@, 4);
    }
    Some(t)
}

/// What a parse may do to a tree: it stays well-formed, keeps its level
/// buckets and its packages' paths, only appends packages, each with a parent,
/// and parent edges are never removed.
pub open spec fn grows_from(t: PackageTree, o: PackageTree) -> bool {
    &&& t.wf()
    &&& t.levels() == o.levels()
    &&& o.nodes().len() <= t.nodes().len()
    &&& forall|i: int| 0 <= i < o.nodes().len() ==> (#[trigger] t.nodes()[i]).path == o.nodes()[i].path
    &&& forall|i: int| o.nodes().len() <= i < t.nodes().len() ==> (#[trigger] t.nodes()[i]).used_by@.len() > 0
    &&& forall|i: int| 0 <= i < o.nodes().len() ==> (#[trigger] t.nodes()[i]).used_by@.len() >= o.nodes()[i].used_by@.len()
}

/// Growth of a tree composes.
pub proof fn lemma_grows_trans(a: PackageTree, b: PackageTree, c: PackageTree)
    requires
        grows_from(b, a),
        grows_from(c, b),
    ensures
        grows_from(c, a),
{
    assert forall|i: int| a.nodes().len() <= i < c.nodes().len() implies (#[trigger] c.nodes()[i]).used_by@.len() > 0 by {
        if i < b.nodes().len() {
            assert(b.nodes()[i].used_by@.len() > 0);
            assert(c.nodes()[i].used_by@.len() >= b.nodes()[i].used_by@.len());
        }
    }
}

/// Reads the lines below the package at `parent_pos`, adding a package and an
/// edge for each new path and an edge for each back-reference (none from a
/// package to itself). It fails exactly when `parse_from` does, with the same
/// error, and otherwise leaves the paths, edges and levels that `parse_from`
/// gives; the tree has then gained exactly one package per line without the
/// back-reference marker. A first line that is refused leaves the tree as it was.
pub fn process_lines(tree: &mut PackageTree, parent_pos: usize, lines: Vec<String>) -> (r: Result<(), ParseError>)
    requires
        old(tree).wf(),
        parent_pos < old(tree).nodes().len(),
        old(tree).nodes().len() + lines@.len() < usize::MAX,
    ensures
        grows_from(*final(tree), *old(tree)),
        final(tree).nodes().len() <= old(tree).nodes().len() + lines@.len(),
        r is Ok ==> final(tree).nodes().len() == old(tree).nodes().len() + count_new(lines_view(lines@)),
        r is Ok <==> parse_from(old(tree).model(), parent_pos as int, lines_view(lines@), 0) is Ok,
        r matches Err(e) ==> parse_from(old(tree).model(), parent_pos as int, lines_view(lines@), 0)
            == Err::<GraphModel, ParseError>(e),
        r is Ok ==> parse_from(old(tree).model(), parent_pos as int, lines_view(lines@), 0)
            == Ok::<GraphModel, ParseError>(final(tree).model()),
        lines@.len() > 0 && (!is_branch_line(lines@[0]@) || !is_absolute(path_token(lines@[0]@)))
            ==> *final(tree) == *old(tree),
    decreases lines@.len(),
{
    let ghost start = *tree;
    let ghost lv = lines_view(lines@);
    let n = lines.len();
    let mut i: usize = 0;
    assert(n > 0 ==> lv[0] == lines@[0]@);
    while i < n
        invariant
            n == lines@.len(),
            lv == lines_view(lines@),
            i <= n,
            parent_pos < start.nodes().len(),
            start.nodes().len() + n < usize::MAX,
            start == *old(tree),
            parse_from(start.model(), parent_pos as int, lv, 0) == parse_from(tree.model(), parent_pos as int, lv, i as int),
            i == 0 ==> *tree == start,
            i > 0 ==> is_branch_line(lv[0]) && is_absolute(path_token(lv[0])),
            grows_from(*tree, start),
            tree.nodes().len() <= start.nodes().len() + i,
            tree.nodes().len() == start.nodes().len() + count_new(lv.take(i as int)),
        decreases n - i,
    {
        let line = lines[i].as_str();
        let len = line.unicode_len();
        if len == 0 {
            return Err(ParseError::UnexpectedLine);
        }
        proof {
            assert(lv[i as int] == line@);
        }
        let c = line.get_char(0);
        if c != '├' && c != '└' {
            return Err(ParseError::UnexpectedLine);
        }
        let from = skip_run(line, 1, '─');
        proof {
            assert(lv[i as int] == line@);
            let rest = line@.skip(1);
            assert forall|j: int| 0 <= j < from - 1 implies rest[j] == '─' by {
                assert(rest[j] == line@[j + 1]);
            }
            if from < len {
                assert(rest[from - 1] == line@[from as int]);
            }
            lemma_drop_run(rest, '─', from - 1);
            assert(rest.skip(from - 1) =~= line@.skip(from as int));
            assert(path_token(line@) == line@.skip(from as int));
        }
        if from >= len || line.get_char(from) != '/' {
            return Err(ParseError::NotAbsolutePath);
        }
        let object_path = line.substring_char(from, len);
        proof {
            assert(line@.subrange(from as int, len as int) =~= line@.skip(from as int));
            assert forall|j: int| 0 <= j < from implies !marker_char(#[trigger] line@[j]) by {}
            lemma_marker_skip(line@, from as int);
            assert(lv[i as int] == line@);
            assert(lv.take(i + 1) =~= lv.take(i as int).push(line@));
            lemma_count_new_push(lv.take(i as int), line@);
        }
        let ghost before = *tree;
        if ends_with_backref(object_path) {
            let olen = object_path.unicode_len();
            let name = trim(object_path.substring_char(0, olen - 5));
            proof {
                assert(object_path@.subrange(0, olen - 5) =~= object_path@.take(olen - 5));
            }
            match tree.find_path_pos(name) {
                None => {
                    proof {
                        assert forall|k: int| 0 <= k < tree.model().paths.len()
                            implies tree.model().paths[k] != backref_target(object_path@) by {
                            assert(tree.model().paths[k] == tree.nodes()[k].path@);
                        }
                    }
                    return Err(ParseError::UnknownBackReference);
                },
                Some(pos) => {
                    proof {
                        let ps = tree.model().paths;
                        let name = backref_target(object_path@);
                        assert(ps[pos as int] == name);
                        assert forall|j: int| 0 <= j < pos implies ps[j] != name by {
                            assert(ps[j] == tree.nodes()[j].path@);
                        }
                        let k = first_with_path(ps, name);
                        assert(0 <= k < ps.len() && ps[k] == name && forall|j: int| 0 <= j < k ==> ps[j] != name);
                        if k < pos {
                            assert(ps[k] != name);
                        }
                        if k > pos {
                            assert(ps[pos as int] != name);
                        }
                        assert(k == pos);
                    }
                    if pos != parent_pos {
                        tree.register_dependency(parent_pos, pos);
                        proof {
                            assert forall|k: int| 0 <= k < start.nodes().len() implies
                                (#[trigger] tree.nodes()[k]).path == start.nodes()[k].path by {
                                assert(tree.nodes()[k].path == before.nodes()[k].path);
                            }
                            assert forall|k: int| start.nodes().len() <= k < tree.nodes().len() implies
                                (#[trigger] tree.nodes()[k]).used_by@.len() > 0 by {
                                assert(before.nodes()[k].used_by@.len() > 0);
                            }
                            assert forall|k: int| 0 <= k < start.nodes().len() implies
                                (#[trigger] tree.nodes()[k]).used_by@.len() >= start.nodes()[k].used_by@.len() by {
                                assert(before.nodes()[k].used_by@.len() >= start.nodes()[k].used_by@.len());
                            }
                        }
                    }
                },
            }
            i = i + 1;
        } else {
            let pos = tree.add_package(Package::new(object_path.to_owned(), 0));
            let ghost added = *tree;
            tree.register_dependency(parent_pos, pos);
            proof {
                assert(pos == before.model().paths.len());
            }
            proof {
                assert forall|k: int| 0 <= k < start.nodes().len() implies
                    (#[trigger] tree.nodes()[k]).path == start.nodes()[k].path by {
                    assert(before.nodes()[k] == tree.nodes()[k] || k == parent_pos);
                }
                assert forall|k: int| start.nodes().len() <= k < tree.nodes().len() implies
                    (#[trigger] tree.nodes()[k]).used_by@.len() > 0 by {
                    if k < before.nodes().len() {
                        assert(before.nodes()[k].used_by@.len() > 0);
                        assert(k != pos);
                    }
                }
                assert forall|k: int| 0 <= k < start.nodes().len() implies
                    (#[trigger] tree.nodes()[k]).used_by@.len() >= start.nodes()[k].used_by@.len() by {
                    assert(before.nodes()[k].used_by@.len() >= start.nodes()[k].used_by@.len());
                }
            }
            let ghost mid = *tree;
            let mut children: Vec<String> = Vec::new();
            let mut j: usize = i + 1;
            loop
                invariant
                    n == lines@.len(),
                    lv == lines_view(lines@),
                    i < j <= n,
                    children@.len() == j - (i + 1),
                    count_new(lines_view(children@)) == count_new(lv.subrange(i + 1, j as int)),
                    lines_view(children@) == batch(lv, i + 1, j as int),
                    batch_end(lv, i + 1) == batch_end(lv, j as int),
                ensures
                    batch_end(lv, j as int) == j,
                decreases n - j,
            {
                if j >= n {
                    break;
                }
                match nested_line(lines[j].as_str()) {
                    Some(t) => {
                        proof {
                            assert(lines_view(children@.push(t)) =~= lines_view(children@).push(t@));
                            lemma_count_new_push(lines_view(children@), t@);
                            assert(lv.subrange(i + 1, j + 1) =~= lv.subrange(i + 1, j as int).push(lv[j as int]));
                            lemma_count_new_push(lv.subrange(i + 1, j as int), lv[j as int]);
                            assert(lv[j as int] == lines@[j as int]@);
                            assert(batch(lv, i + 1, j + 1) =~= batch(lv, i + 1, j as int).push(t@));
                        }
                        children.push(t);
                        j = j + 1;
                    },
                    None => {
                        proof {
                            assert(lv[j as int] == lines@[j as int]@);
                        }
                        break;
                    },
                }
            }
            let ghost nc = children@.len();
            match process_lines(tree, pos, children) {
                Err(e) => {
                    proof {
                        lemma_grows_trans(start, before, mid);
                        lemma_grows_trans(start, mid, *tree);
                    }
                    return Err(e);
                },
                Ok(()) => {},
            }
            proof {
                lemma_grows_trans(start, before, mid);
                lemma_grows_trans(start, mid, *tree);
                lemma_count_new_concat(lv.take(i + 1), lv.subrange(i + 1, j as int));
                assert(lv.take(i + 1) + lv.subrange(i + 1, j as int) =~= lv.take(j as int));
            }
            i = j;
        }
    }
    proof {
        assert(lv.take(n as int) =~= lv);
    }
    Ok(())
}

/// New-path lines of two runs of lines add up.
pub proof fn lemma_count_new_concat(a: Seq<Seq<char>>, b: Seq<Seq<char>>)
    ensures
        count_new(a + b) == count_new(a) + count_new(b),
    decreases b.len(),
{
    if b.len() > 0 {
        lemma_count_new_concat(a, b.drop_last());
        assert((a + b).drop_last() =~= a + b.drop_last());
    } else {
        assert(a + b =~= a);
    }
}

/// The tree that holds only a root with the path `p`.
pub open spec fn root_model(p: Seq<char>) -> GraphModel {
    GraphModel { paths: seq![p], deps: seq![Seq::empty()], used_by: seq![Seq::empty()], levels: seq![0] }
}

/// Builds a tree from the lines of a tree text: the first line is the root's
/// path, the others are read by `process_lines` below it. Every package is
/// created with size 0.
pub fn parse_tree(lines: Vec<String>) -> (r: Result<PackageTree, ParseError>)
    requires
        lines@.len() < usize::MAX,
    ensures
        lines@.len() == 0 ==> r == Err::<PackageTree, ParseError>(ParseError::UnexpectedLine),
        lines@.len() > 0 && (lines@[0]@.len() == 0 || lines@[0]@[0] != '/')
            ==> r == Err::<PackageTree, ParseError>(ParseError::NotAbsolutePath),
        r matches Ok(t) ==> {
            &&& lines@.len() > 0
            &&& t.wf()
            &&& t.levels().len() == 0
            &&& t.nodes().len() == 1 + count_new(lines_view(lines@).skip(1))
            &&& t.nodes()[0].path@ == lines@[0]@
            &&& forall|i: int| 0 < i < t.nodes().len() ==> (#[trigger] t.nodes()[i]).used_by@.len() > 0
        },
        lines@.len() > 0 && lines@[0]@.len() > 0 && lines@[0]@[0] == '/' ==> {
            let spec_r = parse_from(root_model(lines@[0]@), 0, lines_view(lines@).skip(1), 0);
            &&& (r is Ok <==> spec_r is Ok)
            &&& (r matches Err(e) ==> spec_r == Err::<GraphModel, ParseError>(e))
            &&& (r matches Ok(t) ==> spec_r == Ok::<GraphModel, ParseError>(t.model()))
        },
{
    let mut lines = lines;
    let ghost all = lines_view(lines@);
    if lines.len() == 0 {
        return Err(ParseError::UnexpectedLine);
    }
    let ghost orig = lines@;
    let root_path = lines.remove(0);
    assert(all[0] == orig[0]@);
    assert(orig[0] == root_path);
    if root_path.as_str().unicode_len() == 0 || root_path.as_str().get_char(0) != '/' {
        return Err(ParseError::NotAbsolutePath);
    }
    let mut tree = PackageTree::new(Package::new(root_path, 0));
    proof {
        assert(tree.model().paths =~= root_model(all[0]).paths);
        assert(tree.nodes()[0].dependencies@ =~= Seq::<usize>::empty());
        assert(tree.nodes()[0].used_by@ =~= Seq::<usize>::empty());
        assert(tree.model().deps =~= root_model(all[0]).deps);
        assert(tree.model().used_by =~= root_model(all[0]).used_by);
        assert(tree.model().levels =~= root_model(all[0]).levels);
        assert(lines_view(lines@) =~= all.skip(1));
    }
    let ghost t0 = tree;
    let ghost rest = lines_view(lines@);
    let res = process_lines(&mut tree, 0, lines);
    proof {
        assert(rest == all.skip(1));
        assert(t0.model() == root_model(orig[0]@));
    }
    match res {
        Ok(()) => {
            assert(parse_from(t0.model(), 0, rest, 0) == Ok::<GraphModel, ParseError>(tree.model()));
            Ok(tree)
        },
        Err(e) => Err(e),
    }
}

/// A path that occurs has a first occurrence.
proof fn lemma_first_exists(paths: Seq<Seq<char>>, name: Seq<char>, k0: int)
    requires
        0 <= k0 < paths.len(),
        paths[k0] == name,
    ensures
        exists|k: int| 0 <= k < paths.len() && paths[k] == name && forall|j: int| 0 <= j < k ==> paths[j] != name,
    decreases k0,
{
    if exists|j: int| 0 <= j < k0 && paths[j] == name {
        let j = choose|j: int| 0 <= j < k0 && paths[j] == name;
        lemma_first_exists(paths, name, j);
    }
}

/// Every line of a run of nested lines has a layer to cut.
proof fn lemma_batch_nested(lines: Seq<Seq<char>>, j: int, x: int)
    requires
        0 <= j <= x < batch_end(lines, j),
    ensures
        nested_of(lines[x]) is Some,
    decreases lines.len() - j,
{
    if x > j {
        lemma_batch_nested(lines, j + 1, x);
    }
}

/// No back-reference that `lines` can hold, at any depth, names `root`.
pub open spec fn never_names(lines: Seq<Seq<char>>, root: Seq<char>) -> bool {
    forall|x: int, k: int| 0 <= x < lines.len() && 0 <= k <= lines[x].len()
        ==> backref_target(path_token(#[trigger] lines[x].skip(k))) != root
}

/// All four sequences of the model have one entry per package, and there is a root.
pub open spec fn model_sized(m: GraphModel) -> bool {
    &&& m.paths.len() >= 1
    &&& m.deps.len() == m.paths.len()
    &&& m.used_by.len() == m.paths.len()
    &&& m.levels.len() == m.paths.len()
}

proof fn lemma_parse_keeps_first(m: GraphModel, parent: int, lines: Seq<Seq<char>>, i: int)
    requires
        model_sized(m),
        0 <= parent < m.paths.len(),
        never_names(lines, m.paths[0]),
    ensures
        parse_from(m, parent, lines, i) matches Ok(m2) ==> {
            &&& model_sized(m2)
            &&& m2.paths.len() >= m.paths.len()
            &&& m2.paths[0] == m.paths[0]
            &&& m2.used_by[0] == m.used_by[0]
            &&& m2.levels[0] == m.levels[0]
        },
    decreases lines.len(), lines.len() - i,
{
    if i < 0 || i >= lines.len() || !is_branch_line(lines[i]) {
    } else {
        let tok = path_token(lines[i]);
        assert(lines[i].skip(0) =~= lines[i]);
        if !is_absolute(tok) {
        } else if ends_with_marker(tok) {
            let name = backref_target(tok);
            if exists|k: int| 0 <= k < m.paths.len() && m.paths[k] == name {
                let k0 = choose|k: int| 0 <= k < m.paths.len() && m.paths[k] == name;
                lemma_first_exists(m.paths, name, k0);
                let k = first_with_path(m.paths, name);
                assert(m.paths[k] == name);
                assert(k != 0);
                if k != parent {
                    lemma_parse_keeps_first(model_register(m, parent, k), parent, lines, i + 1);
                } else {
                    lemma_parse_keeps_first(m, parent, lines, i + 1);
                }
            }
        } else {
            lemma_batch_end_bounds(lines, i + 1);
            let end = batch_end(lines, i + 1);
            let pos = m.paths.len() as int;
            let m1 = model_register(model_add(m, tok), parent, pos);
            let b = batch(lines, i + 1, end);
            assert forall|x: int, k: int| 0 <= x < b.len() && 0 <= k <= b[x].len()
                implies backref_target(path_token(#[trigger] b[x].skip(k))) != m1.paths[0] by {
                let l = lines[i + 1 + x];
                lemma_batch_nested(lines, i + 1, i + 1 + x);
                assert(b[x] == l.skip(4));
                assert(l.skip(4).skip(k) =~= l.skip(4 + k));
            }
            lemma_parse_keeps_first(m1, pos, b, 0);
            match parse_from(m1, pos, b, 0) {
                Ok(m2) => {
                    lemma_parse_keeps_first(m2, parent, lines, end);
                },
                Err(e) => {},
            }
        }
    }
}

/// A parse below the root in which no back-reference names the root leaves
/// the root without parents, at level 0.
pub proof fn lemma_root_stays_root(root: Seq<char>, lines: Seq<Seq<char>>)
    requires
        never_names(lines, root),
    ensures
        parse_from(root_model(root), 0, lines, 0) matches Ok(m) ==> m.used_by[0].len() == 0 && m.levels[0] == 0,
{
    lemma_parse_keeps_first(root_model(root), 0, lines, 0);
}

} // verus!
