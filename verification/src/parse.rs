//! The input format: one edge per line, given by two vertex names
//! separated by white space; `#` starts a comment that runs to the end of
//! the line; lines without names are skipped. Vertices get ids in the
//! order in which their names first appear.

use vstd::prelude::*;
use std::collections::HashMap;
use fnv::FnvBuildHasher;
use crate::graph::{Vx, Edge, Graph, has_edge, lists_edge};

verus! {

/// Why the input was refused.
pub enum ParseError {
    /// The line with this index (from zero) holds neither zero nor two
    /// names; its text before any comment comes with it.
    InvalidLine(usize, Vec<char>),
    /// The line with this index joins a vertex to itself.
    SelfLoop(usize, Vec<char>),
    /// More vertices than the graph can hold.
    TooManyVertices,
}

/// The white-space characters of Unicode (those of `char::is_whitespace`).
pub open spec fn is_white(c: char) -> bool {
    let u = c as u32;
    (0x9 <= u <= 0xD) || u == 0x20 || u == 0x85 || u == 0xA0 || u == 0x1680 || (0x2000 <= u <= 0x200A)
        || u == 0x2028 || u == 0x2029 || u == 0x202F || u == 0x205F || u == 0x3000
}

/// Whether `c` is white space.
pub fn white(c: char) -> (r: bool)
    ensures
        r == is_white(c),
{
    let u = c as u32;
    (0x9 <= u && u <= 0xD) || u == 0x20 || u == 0x85 || u == 0xA0 || u == 0x1680 || (0x2000 <= u && u <= 0x200A)
        || u == 0x2028 || u == 0x2029 || u == 0x202F || u == 0x205F || u == 0x3000
}

/// The length of the run of non-white characters that `s` starts with.
pub open spec fn run_len(s: Seq<char>) -> nat
    decreases s.len(),
{
    if s.len() == 0 || is_white(s[0]) {
        0
    } else {
        1 + run_len(s.skip(1))
    }
}

/// A run is no longer than the text.
pub proof fn lemma_run_len(s: Seq<char>)
    ensures
        run_len(s) <= s.len(),
        s.len() > 0 && !is_white(s[0]) ==> run_len(s) >= 1,
    decreases s.len(),
{
    if s.len() > 0 && !is_white(s[0]) {
        lemma_run_len(s.skip(1));
    }
}

/// The maximal runs of non-white characters of `s`, in order.
pub open spec fn tokens(s: Seq<char>) -> Seq<Seq<char>>
    decreases s.len(),
{
    if s.len() == 0 {
        Seq::empty()
    } else if is_white(s[0]) {
        tokens(s.skip(1))
    } else {
        proof {
            lemma_run_len(s);
        }
        seq![s.take(run_len(s) as int)] + tokens(s.skip(run_len(s) as int))
    }
}

/// `s` up to its first `#`.
pub open spec fn before_hash(s: Seq<char>) -> Seq<char>
    decreases s.len(),
{
    if s.len() == 0 {
        s
    } else if s[0] == '#' {
        Seq::empty()
    } else {
        seq![s[0]] + before_hash(s.skip(1))
    }
}

/// The length of `s` up to its first line break.
pub open spec fn line_len(s: Seq<char>) -> nat
    decreases s.len(),
{
    if s.len() == 0 || s[0] == '\n' {
        0
    } else {
        1 + line_len(s.skip(1))
    }
}

/// A line is no longer than the text.
pub proof fn lemma_line_len(s: Seq<char>)
    ensures
        line_len(s) <= s.len(),
        line_len(s) < s.len() ==> s[line_len(s) as int] == '\n',
        forall|i: int| 0 <= i < line_len(s) ==> s[i] != '\n',
    decreases s.len(),
{
    if s.len() > 0 && s[0] != '\n' {
        lemma_line_len(s.skip(1));
        assert forall|i: int| 0 <= i < line_len(s) implies s[i] != '\n' by {
            if i > 0 {
                assert(s.skip(1)[i - 1] == s[i]);
            }
        }
    }
}

/// The lines of `s`: the pieces between line breaks.
pub open spec fn lines(s: Seq<char>) -> Seq<Seq<char>>
    decreases s.len(),
{
    if s.len() == 0 {
        Seq::empty()
    } else {
        proof {
            lemma_line_len(s);
        }
        let k = line_len(s) as int;
        if k < s.len() {
            seq![s.take(k)] + lines(s.skip(k + 1))
        } else {
            seq![s]
        }
    }
}

/// The names on a line.
pub open spec fn names_on(line: Seq<char>) -> Seq<Seq<char>> {
    tokens(before_hash(line))
}

/// The names in `ts`, each once, in the order of their first appearance.
pub open spec fn first_seen(ts: Seq<Seq<char>>) -> Seq<Seq<char>>
    decreases ts.len(),
{
    if ts.len() == 0 {
        Seq::empty()
    } else {
        let p = first_seen(ts.drop_last());
        if p.contains(ts.last()) { p } else { p.push(ts.last()) }
    }
}

/// The pairs of names of the lines of `ls` that hold names, in order.
pub open spec fn edge_pairs(ls: Seq<Seq<char>>) -> Seq<(Seq<char>, Seq<char>)>
    decreases ls.len(),
{
    if ls.len() == 0 {
        Seq::empty()
    } else {
        let p = edge_pairs(ls.drop_last());
        let t = names_on(ls.last());
        if t.len() == 2 { p.push((t[0], t[1])) } else { p }
    }
}

/// The names of the pairs of `ps`, pair after pair.
pub open spec fn pair_names(ps: Seq<(Seq<char>, Seq<char>)>) -> Seq<Seq<char>>
    decreases ps.len(),
{
    if ps.len() == 0 {
        Seq::empty()
    } else {
        pair_names(ps.drop_last()).push(ps.last().0).push(ps.last().1)
    }
}

/// The character sequences of `v`.
pub open spec fn char_views(v: Seq<Vec<char>>) -> Seq<Seq<char>> {
    v.map_values(|c: Vec<char>| c@)
}

/// The index of the first line break at or after `a` (the length of `s`
/// where there is none).
fn newline_at(s: &Vec<char>, a: usize) -> (e: usize)
    requires
        a <= s@.len(),
    ensures
        a <= e <= s@.len(),
        e - a == line_len(s@.subrange(a as int, s@.len() as int)),
{
    let mut j = a;
    while j < s.len() && s[j] != '\n'
        invariant
            a <= j <= s@.len(),
            line_len(s@.subrange(a as int, s@.len() as int)) == (j - a) + line_len(s@.subrange(j as int, s@.len() as int)),
        decreases s@.len() - j,
    {
        proof {
            assert(s@.subrange(j as int, s@.len() as int).skip(1) == s@.subrange(j + 1, s@.len() as int));
        }
        j = j + 1;
    }
    j
}

/// The index of the first `#` in `a..e` (`e` where there is none).
fn hash_at(s: &Vec<char>, a: usize, e: usize) -> (h: usize)
    requires
        a <= e <= s@.len(),
    ensures
        a <= h <= e,
        before_hash(s@.subrange(a as int, e as int)) == s@.subrange(a as int, h as int),
{
    let mut j = a;
    while j < e && s[j] != '#'
        invariant
            a <= j <= e,
            e <= s@.len(),
            before_hash(s@.subrange(a as int, e as int)) == s@.subrange(a as int, j as int) + before_hash(s@.subrange(j as int, e as int)),
        decreases e - j,
    {
        proof {
            let r = s@.subrange(j as int, e as int);
            assert(r.skip(1) == s@.subrange(j + 1, e as int));
            assert(before_hash(r) == seq![s@[j as int]] + before_hash(s@.subrange(j + 1, e as int)));
            assert(s@.subrange(a as int, j + 1) == s@.subrange(a as int, j as int) + seq![s@[j as int]]);
        }
        j = j + 1;
    }
    proof {
        assert(before_hash(s@.subrange(j as int, e as int)) == Seq::<char>::empty());
        assert(s@.subrange(a as int, j as int) + Seq::<char>::empty() == s@.subrange(a as int, j as int));
    }
    j
}

/// The names in `a..e` of `s`.
fn tokens_in(s: &Vec<char>, a: usize, e: usize) -> (r: Vec<Vec<char>>)
    requires
        a <= e <= s@.len(),
    ensures
        char_views(r@) == tokens(s@.subrange(a as int, e as int)),
{
    let mut r: Vec<Vec<char>> = Vec::new();
    let mut j = a;
    while j < e
        invariant
            a <= j <= e,
            e <= s@.len(),
            char_views(r@) + tokens(s@.subrange(j as int, e as int)) == tokens(s@.subrange(a as int, e as int)),
        decreases e - j,
    {
        let ghost rest = s@.subrange(j as int, e as int);
        if white(s[j]) {
            proof {
                assert(rest.skip(1) == s@.subrange(j + 1, e as int));
            }
            j = j + 1;
        } else {
            let mut m = j;
            let mut tok: Vec<char> = Vec::new();
            while m < e && !white(s[m])
                invariant
                    j <= m <= e,
                    e <= s@.len(),
                    run_len(rest) == (m - j) + run_len(s@.subrange(m as int, e as int)),
                    rest == s@.subrange(j as int, e as int),
                    tok@ == s@.subrange(j as int, m as int),
                decreases e - m,
            {
                proof {
                    assert(s@.subrange(m as int, e as int).skip(1) == s@.subrange(m + 1, e as int));
                    assert(s@.subrange(j as int, m + 1) == s@.subrange(j as int, m as int).push(s@[m as int]));
                }
                tok.push(s[m]);
                m = m + 1;
            }
            proof {
                assert(run_len(s@.subrange(m as int, e as int)) == 0);
                lemma_run_len(rest);
                assert(rest.take(run_len(rest) as int) == s@.subrange(j as int, m as int));
                assert(rest.skip(run_len(rest) as int) == s@.subrange(m as int, e as int));
                assert(tokens(rest) == seq![tok@] + tokens(s@.subrange(m as int, e as int)));
            }
            let ghost r0 = r@;
            r.push(tok);
            proof {
                assert(char_views(r@) == char_views(r0).push(tok@));
                assert(char_views(r@) + tokens(s@.subrange(m as int, e as int)) == char_views(r0) + tokens(rest));
            }
            j = m;
        }
    }
    proof {
        assert(char_views(r@) + Seq::<Seq<char>>::empty() == char_views(r@));
    }
    r
}

/// Whether `a` and `b` hold the same characters.
fn same_chars(a: &Vec<char>, b: &Vec<char>) -> (r: bool)
    ensures
        r == (a@ == b@),
{
    if a.len() != b.len() {
        return false;
    }
    let mut i: usize = 0;
    while i < a.len()
        invariant
            a@.len() == b@.len(),
            i <= a@.len(),
            forall|k: int| 0 <= k < i ==> a@[k] == b@[k],
        decreases a@.len() - i,
    {
        if a[i] != b[i] {
            return false;
        }
        i = i + 1;
    }
    proof {
        assert(a@ =~= b@);
    }
    true
}

/// A copy of the characters of `v`.
fn copy_chars(v: &Vec<char>) -> (r: Vec<char>)
    ensures
        r@ == v@,
{
    let mut r: Vec<char> = Vec::new();
    let mut i: usize = 0;
    while i < v.len()
        invariant
            i <= v@.len(),
            r@ == v@.subrange(0, i as int),
        decreases v@.len() - i,
    {
        r.push(v[i]);
        proof {
            assert(v@.subrange(0, i + 1) == v@.subrange(0, i as int).push(v@[i as int]));
        }
        i = i + 1;
    }
    proof {
        assert(v@.subrange(0, i as int) == v@);
    }
    r
}

/// The names seen so far and the ids they were given, held in a
/// `HashMap<Vec<char>, usize, fnv::FnvBuildHasher>`; Verus sees it only
/// through `name_table_contents`.
#[verifier::external_body]
pub struct NameTable {
    inner: HashMap<Vec<char>, usize, FnvBuildHasher>,
}

/// What a `NameTable` maps each name to.
pub uninterp spec fn name_table_contents(t: NameTable) -> Map<Seq<char>, usize>;

impl NameTable {
    /// `HashMap::default()` with `fnv`'s hasher: an empty table.
    #[verifier::external_body]
    pub(crate) fn empty() -> (r: NameTable)
        ensures
            name_table_contents(r).dom() == Set::<Seq<char>>::empty(),
    {
        NameTable { inner: HashMap::default() }
    }

    /// `*HashMap::entry(k).or_insert(v)`: the id of `k`, which becomes
    /// `v` where `k` had none. Keys are compared by their characters.
    #[verifier::external_body]
    pub(crate) fn entry_or_insert(&mut self, k: Vec<char>, v: usize) -> (r: usize)
        ensures
            name_table_contents(*old(self)).dom().contains(k@) ==> r == name_table_contents(*old(self))[k@],
            name_table_contents(*old(self)).dom().contains(k@) ==> name_table_contents(*final(self)) == name_table_contents(*old(self)),
            !name_table_contents(*old(self)).dom().contains(k@) ==> r == v,
            !name_table_contents(*old(self)).dom().contains(k@) ==> name_table_contents(*final(self)) == name_table_contents(*old(self)).insert(k@, v),
    {
        *self.inner.entry(k).or_insert(v)
    }
}

/// `m` gives each name of `ns` its position there, and nothing else;
/// `ns` holds each name once.
pub open spec fn table_ok(m: Map<Seq<char>, usize>, ns: Seq<Seq<char>>) -> bool {
    &&& ns.no_duplicates()
    &&& forall|k: Seq<char>| #[trigger] m.dom().contains(k) <==> ns.contains(k)
    &&& forall|k: Seq<char>| #[trigger] m.dom().contains(k) ==> m[k] < ns.len() && ns[m[k] as int] == k
}

/// The names of `ns`, with `k` added at the end where it is new.
pub open spec fn with_name(ns: Seq<Seq<char>>, k: Seq<char>) -> Seq<Seq<char>> {
    if ns.contains(k) { ns } else { ns.push(k) }
}

/// The id of the name `k`, given a new one where it has none yet.
fn intern(table: &mut NameTable, names: &mut Vec<Vec<char>>, k: &Vec<char>) -> (id: usize)
    requires
        table_ok(name_table_contents(*old(table)), char_views(old(names)@)),
    ensures
        table_ok(name_table_contents(*final(table)), char_views(final(names)@)),
        char_views(final(names)@) == with_name(char_views(old(names)@), k@),
        id < final(names)@.len(),
        final(names)@[id as int]@ == k@,
{
    let ghost m0 = name_table_contents(*table);
    let ghost ns0 = char_views(names@);
    let n = names.len();
    let id = table.entry_or_insert(copy_chars(k), n);
    if id == n {
        proof {
            if m0.dom().contains(k@) {
                assert(m0[k@] < ns0.len());
            }
            assert(!ns0.contains(k@));
        }
        names.push(copy_chars(k));
        proof {
            let ns1 = char_views(names@);
            assert(ns1 == ns0.push(k@));
            let m1 = m0.insert(k@, n);
            assert(ns1.no_duplicates()) by {
                assert forall|i: int, j: int| 0 <= i < ns1.len() && 0 <= j < ns1.len() && i != j implies ns1[i] != ns1[j] by {
                    if i < ns0.len() && j < ns0.len() {
                    } else if i == ns0.len() {
                        assert(ns0[j] == ns1[j]);
                    } else {
                        assert(ns0[i] == ns1[i]);
                    }
                }
            }
            assert forall|q: Seq<char>| #[trigger] m1.dom().contains(q) <==> ns1.contains(q) by {
                if q != k@ && ns1.contains(q) {
                    let j = choose|j: int| 0 <= j < ns1.len() && ns1[j] == q;
                    assert(ns0[j] == q);
                }
                if q != k@ && ns0.contains(q) {
                    let j = choose|j: int| 0 <= j < ns0.len() && ns0[j] == q;
                    assert(ns1[j] == q);
                }
                if q == k@ {
                    assert(ns1[n as int] == q);
                }
            }
            assert forall|q: Seq<char>| #[trigger] m1.dom().contains(q) implies m1[q] < ns1.len() && ns1[m1[q] as int] == q by {
                if q != k@ {
                    assert(ns1[m0[q] as int] == ns0[m0[q] as int]);
                }
            }
        }
        id
    } else {
        proof {
            assert(m0.dom().contains(k@));
            assert(ns0[id as int] == k@);
        }
        id
    }
}

/// The characters of `a..b` of `s`.
fn slice_chars(s: &Vec<char>, a: usize, b: usize) -> (r: Vec<char>)
    requires
        a <= b <= s@.len(),
    ensures
        r@ == s@.subrange(a as int, b as int),
{
    let mut r: Vec<char> = Vec::new();
    let mut i: usize = a;
    while i < b
        invariant
            a <= i <= b,
            b <= s@.len(),
            r@ == s@.subrange(a as int, i as int),
        decreases b - i,
    {
        r.push(s[i]);
        proof {
            assert(s@.subrange(a as int, i + 1) == s@.subrange(a as int, i as int).push(s@[i as int]));
        }
        i = i + 1;
    }
    r
}

/// Each name of `ts` is listed once by `first_seen`, and no other.
pub proof fn law_names_once(ts: Seq<Seq<char>>)
    ensures
        first_seen(ts).no_duplicates(),
        forall|x: Seq<char>| first_seen(ts).contains(x) <==> ts.contains(x),
    decreases ts.len(),
{
    if ts.len() > 0 {
        let d = ts.drop_last();
        law_names_once(d);
        let p = first_seen(d);
        assert forall|x: Seq<char>| first_seen(ts).contains(x) <==> ts.contains(x) by {
            if ts.contains(x) && x != ts.last() {
                let j = choose|j: int| 0 <= j < ts.len() && ts[j] == x;
                assert(d[j] == x);
            }
            if d.contains(x) {
                let j = choose|j: int| 0 <= j < d.len() && d[j] == x;
                assert(ts[j] == x);
            }
            if x == ts.last() {
                assert(ts[ts.len() - 1] == x);
                if !p.contains(x) {
                    assert(p.push(x)[p.len() as int] == x);
                }
            }
            if !p.contains(ts.last()) && p.contains(x) {
                let j = choose|j: int| 0 <= j < p.len() && p[j] == x;
                assert(p.push(ts.last())[j] == x);
            }
            if !p.contains(ts.last()) && p.push(ts.last()).contains(x) && x != ts.last() {
                let j = choose|j: int| 0 <= j < p.len() + 1 && p.push(ts.last())[j] == x;
                assert(p[j] == x);
            }
        }
        if !p.contains(ts.last()) {
            let q = p.push(ts.last());
            assert forall|i: int, j: int| 0 <= i < q.len() && 0 <= j < q.len() && i != j implies q[i] != q[j] by {
                if i < p.len() && j < p.len() {
                    assert(q[i] == p[i] && q[j] == p[j]);
                } else if i == p.len() {
                    assert(q[j] == p[j]);
                } else {
                    assert(q[i] == p[i]);
                }
            }
        }
    }
}

/// A line is accepted: it holds no names, or two different ones.
pub open spec fn line_ok(l: Seq<char>) -> bool {
    let t = names_on(l);
    t.len() == 0 || (t.len() == 2 && t[0] != t[1])
}

/// Every line of `ls` is accepted.
pub open spec fn all_ok(ls: Seq<Seq<char>>) -> bool {
    forall|j: int| 0 <= j < ls.len() ==> #[trigger] line_ok(ls[j])
}

/// The pairs of names that the text `s` lists as edges, in order.
pub open spec fn input_pairs(s: Seq<char>) -> Seq<(Seq<char>, Seq<char>)> {
    edge_pairs(lines(s))
}

/// The vertex names of the text `s`, in the order of their first appearance.
pub open spec fn input_names(s: Seq<char>) -> Seq<Seq<char>> {
    first_seen(pair_names(input_pairs(s)))
}

/// `es` gives the pairs of `ps` by the positions of their names in `ns`.
pub open spec fn ids_match(es: Seq<Edge>, ns: Seq<Seq<char>>, ps: Seq<(Seq<char>, Seq<char>)>) -> bool {
    &&& es.len() == ps.len()
    &&& forall|i: int| #![trigger es[i]] 0 <= i < es.len() ==> {
        &&& es[i].0 < ns.len() && es[i].1 < ns.len()
        &&& ns[es[i].0 as int] == ps[i].0 && ns[es[i].1 as int] == ps[i].1
        &&& es[i].0 != es[i].1
    }
}

/// What the text `s` is refused for, where `e` is the answer.
pub open spec fn refused_for(s: Seq<char>, e: ParseError) -> bool {
    let ls = lines(s);
    match e {
        ParseError::InvalidLine(i, text) => {
            &&& i < ls.len()
            &&& all_ok(ls.take(i as int))
            &&& names_on(ls[i as int]).len() != 0 && names_on(ls[i as int]).len() != 2
            &&& text@ == before_hash(ls[i as int])
        },
        ParseError::SelfLoop(i, text) => {
            &&& i < ls.len()
            &&& all_ok(ls.take(i as int))
            &&& names_on(ls[i as int]).len() == 2
            &&& names_on(ls[i as int])[0] == names_on(ls[i as int])[1]
            &&& text@ == before_hash(ls[i as int])
        },
        ParseError::TooManyVertices => all_ok(ls) && input_names(s).len() >= u32::MAX,
    }
}

/// Reads the edges of the text `input`: each line holds two names or
/// none, the vertices are numbered in the order in which their names
/// first appear. Refused at the first line with another number of names
/// or with a name twice, and where there are `u32::MAX` names or more.
pub fn parse_edges(input: &Vec<char>) -> (r: Result<(Vec<Edge>, Vec<Vec<char>>), ParseError>)
    ensures
        match r {
            Ok((es, ns)) => {
                &&& all_ok(lines(input@))
                &&& char_views(ns@) == input_names(input@)
                &&& ns@.len() < u32::MAX
                &&& ids_match(es@, char_views(ns@), input_pairs(input@))
            },
            Err(e) => refused_for(input@, e),
        },
{
    let n = input.len();
    let mut pos: usize = 0;
    let mut li: usize = 0;
    let mut edges: Vec<Edge> = Vec::new();
    let mut names: Vec<Vec<char>> = Vec::new();
    let mut table = NameTable::empty();
    let ghost mut done: Seq<Seq<char>> = Seq::empty();
    proof {
        assert(input@.subrange(0, n as int) == input@);
        assert(done + lines(input@) == lines(input@));
        assert(char_views(names@) == Seq::<Seq<char>>::empty());
    }
    while pos < n
        invariant
            n == input@.len(),
            pos <= n,
            li <= pos,
            done.len() == li,
            lines(input@) == done + lines(input@.subrange(pos as int, n as int)),
            all_ok(done),
            table_ok(name_table_contents(table), char_views(names@)),
            char_views(names@) == first_seen(pair_names(edge_pairs(done))),
            ids_match(edges@, char_views(names@), edge_pairs(done)),
        decreases n - pos,
    {
        let ghost rest = input@.subrange(pos as int, n as int);
        let e = newline_at(input, pos);
        let h = hash_at(input, pos, e);
        let toks = tokens_in(input, pos, h);
        let ghost line = input@.subrange(pos as int, e as int);
        let next = if e < n { e + 1 } else { n };
        proof {
            lemma_line_len(rest);
            if e < n {
                assert(rest.take(e - pos) == line);
                assert(rest.skip(e - pos + 1) == input@.subrange(next as int, n as int));
            } else {
                assert(rest == line);
                assert(input@.subrange(next as int, n as int) == Seq::<char>::empty());
                assert(seq![rest] + Seq::<Seq<char>>::empty() == seq![rest]);
            }
            assert(lines(rest) == seq![line] + lines(input@.subrange(next as int, n as int)));
            assert(lines(input@) == done.push(line) + lines(input@.subrange(next as int, n as int)));
            assert(lines(input@)[li as int] == line);
            assert(lines(input@).take(li as int) == done);
            assert(char_views(toks@) == names_on(line));
        }
        let ghost pairs0 = edge_pairs(done);
        let ghost ns0 = char_views(names@);
        if toks.len() == 2 && !same_chars(&toks[0], &toks[1]) {
            let a = intern(&mut table, &mut names, &toks[0]);
            let b = intern(&mut table, &mut names, &toks[1]);
            let ghost t = names_on(line);
            proof {
                assert(toks@[0]@ == t[0] && toks@[1]@ == t[1]);
                assert(done.push(line).drop_last() == done);
                assert(edge_pairs(done.push(line)) == pairs0.push((t[0], t[1])));
                let pn = pair_names(pairs0);
                assert(pairs0.push((t[0], t[1])).drop_last() == pairs0);
                assert(pair_names(pairs0.push((t[0], t[1]))) == pn.push(t[0]).push(t[1]));
                assert(pn.push(t[0]).drop_last() == pn);
                assert(pn.push(t[0]).push(t[1]).drop_last() == pn.push(t[0]));
                assert(first_seen(pn.push(t[0])) == with_name(first_seen(pn), t[0]));
                assert(first_seen(pn.push(t[0]).push(t[1])) == with_name(first_seen(pn.push(t[0])), t[1]));
            }
            let ghost es0 = edges@;
            edges.push((a, b));
            proof {
                let ns2 = char_views(names@);
                assert(ns2[a as int] == t[0] && ns2[b as int] == t[1]);
                assert forall|i: int| 0 <= i < ns0.len() implies ns2[i] == ns0[i] by {
                    let ns1 = with_name(ns0, t[0]);
                    assert(ns1[i] == ns0[i]);
                }
                assert forall|i: int| #![trigger edges@[i]] 0 <= i < edges@.len() implies {
                    &&& edges@[i].0 < ns2.len() && edges@[i].1 < ns2.len()
                    &&& ns2[edges@[i].0 as int] == edge_pairs(done.push(line))[i].0
                    &&& ns2[edges@[i].1 as int] == edge_pairs(done.push(line))[i].1
                    &&& edges@[i].0 != edges@[i].1
                } by {
                    if i < es0.len() {
                        assert(edges@[i] == es0[i]);
                    }
                }
                assert forall|j: int| 0 <= j < done.push(line).len() implies #[trigger] line_ok(done.push(line)[j]) by {
                    if j < done.len() {
                        assert(done.push(line)[j] == done[j]);
                    }
                }
            }
        } else if toks.len() == 0 {
            proof {
                assert(done.push(line).drop_last() == done);
                assert(edge_pairs(done.push(line)) == pairs0);
                assert forall|j: int| 0 <= j < done.push(line).len() implies #[trigger] line_ok(done.push(line)[j]) by {
                    if j < done.len() {
                        assert(done.push(line)[j] == done[j]);
                    }
                }
            }
        } else {
            let text = slice_chars(input, pos, h);
            if toks.len() == 2 {
                return Err(ParseError::SelfLoop(li, text));
            } else {
                return Err(ParseError::InvalidLine(li, text));
            }
        }
        proof {
            done = done.push(line);
        }
        pos = next;
        li = li + 1;
    }
    proof {
        assert(input@.subrange(pos as int, n as int) == Seq::<char>::empty());
        assert(done + Seq::<Seq<char>>::empty() == done);
    }
    if names.len() >= 4294967295 {
        return Err(ParseError::TooManyVertices);
    }
    Ok((edges, names))
}

/// Two names `ns[a]` and `ns[b]` stand on one line of `ps`.
pub open spec fn names_edge(ns: Seq<Seq<char>>, ps: Seq<(Seq<char>, Seq<char>)>, a: Vx, b: Vx) -> bool {
    &&& a < ns.len() && b < ns.len()
    &&& exists|i: int| 0 <= i < ps.len() && ((ps[i].0 == ns[a as int] && ps[i].1 == ns[b as int]) || (ps[i].0 == ns[b as int] && ps[i].1 == ns[a as int]))
}

/// Reads the graph of the text `input` (see `parse_edges`): the graph
/// on one vertex per name, with an edge between two vertices exactly
/// where a line names both, and the names by vertex id.
pub fn parse(input: &Vec<char>) -> (r: Result<(Graph, Vec<Vec<char>>), ParseError>)
    ensures
        match r {
            Ok((g, ns)) => {
                &&& all_ok(lines(input@))
                &&& char_views(ns@) == input_names(input@)
                &&& g.wf()
                &&& g.spec_n() == ns@.len()
                &&& forall|a: Vx, b: Vx| has_edge(g@, a, b) <==> names_edge(char_views(ns@), input_pairs(input@), a, b)
            },
            Err(e) => refused_for(input@, e),
        },
{
    match parse_edges(input) {
        Ok((edges, names)) => {
            let ghost ns = char_views(names@);
            let ghost ps = input_pairs(input@);
            let ghost es = edges@;
            proof {
                law_names_once(pair_names(ps));
            }
            let g = Graph::new(names.len(), edges);
            proof {
                assert forall|a: Vx, b: Vx| has_edge(g@, a, b) <==> names_edge(ns, ps, a, b) by {
                    if lists_edge(es, a, b) {
                        let i = choose|i: int| 0 <= i < es.len() && (es[i] == (a, b) || es[i] == (b, a));
                        assert(es[i] == es[i]);
                    }
                    if names_edge(ns, ps, a, b) {
                        let i = choose|i: int| 0 <= i < ps.len() && ((ps[i].0 == ns[a as int] && ps[i].1 == ns[b as int]) || (ps[i].0 == ns[b as int] && ps[i].1 == ns[a as int]));
                        assert(es[i] == es[i]);
                        if ps[i].0 == ns[a as int] && ps[i].1 == ns[b as int] {
                            assert(ns[es[i].0 as int] == ns[a as int]);
                            assert(es[i].0 == a);
                            assert(es[i].1 == b);
                        } else {
                            assert(es[i].0 == b);
                            assert(es[i].1 == a);
                        }
                    }
                }
            }
            Ok((g, names))
        },
        Err(e) => Err(e),
    }
}

} // verus!
