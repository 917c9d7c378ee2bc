//! Renumbering the tasks of the roadmap so that each section's numbered tasks are
//! `N.1`, `N.2`, ... in order.

use vstd::prelude::*;

use crate::delete::{rebuild, rebuild_exec};
use crate::graph::{edge_views, node_views, stable_id_of, EdgeKind, EdgeView, Graph, GraphView, Node, NodeKind, NodeView};
use crate::ops::add::{all_digits, digits_value, unsigned_part};
use crate::ops::update::first_with_id;
use crate::scan::markdown::{decimal, decimal_of, parse_markdown, parse_spec, parsed_graph};
use crate::text::{
    chars_of, contains, contains_s, extend, find, find_from, is_digit, lemma_find_from, lines, lines_s,
    seq_eq, slice, split, split_s, string_of, views,
};

verus! {

/// `usize::from_str`: an optional `+`, then one or more decimal digits, of value at most
/// `usize::MAX`.
pub open spec fn parse_usize_spec(s: Seq<char>) -> Option<nat> {
    let d = unsigned_part(s);
    if d.len() > 0 && all_digits(d) && digits_value(d) <= usize::MAX {
        Some(digits_value(d))
    } else {
        None
    }
}

/// The number of a section: the part of its label before the first `.`, as a number.
pub open spec fn section_num(label: Seq<char>) -> Option<nat> {
    parse_usize_spec(split_s(label, '.')[0])
}

/// The distinct ids of the section nodes, in order of first occurrence.
pub open spec fn section_ids(nodes: Seq<NodeView>) -> Seq<Seq<char>>
    decreases nodes.len(),
{
    if nodes.len() == 0 {
        Seq::empty()
    } else {
        let r = section_ids(nodes.drop_last());
        let n = nodes.last();
        if n.kind == NodeKind::Section && !r.contains(n.id) {
            r.push(n.id)
        } else {
            r
        }
    }
}

/// The stable ids (empty when none) of the tasks that contains edges put directly in
/// section `s`, in edge order.
pub open spec fn section_sids(nodes: Seq<NodeView>, edges: Seq<EdgeView>, s: Seq<char>) -> Seq<Seq<char>>
    decreases edges.len(),
{
    if edges.len() == 0 {
        Seq::empty()
    } else {
        let r = section_sids(nodes, edges.drop_last(), s);
        let e = edges.last();
        if e.kind == EdgeKind::Contains && e.source == s {
            match (first_with_id(nodes, e.source), first_with_id(nodes, e.target)) {
                (Some(a), Some(b)) => if a.kind == NodeKind::Section && b.kind == NodeKind::Task {
                    r.push(match stable_id_of(b) {
                        Some(x) => x,
                        None => Seq::empty(),
                    })
                } else {
                    r
                },
                _ => r,
            }
        } else {
            r
        }
    }
}

/// The first position of key `k`.
pub open spec fn key_index(m: Seq<(Seq<char>, Seq<char>)>, k: Seq<char>) -> Option<int>
    decreases m.len(),
{
    if m.len() == 0 {
        None
    } else {
        match key_index(m.drop_last(), k) {
            Some(i) => Some(i),
            None => if m.last().0 == k {
                Some(m.len() - 1)
            } else {
                None
            },
        }
    }
}

/// Sets `k` to `v`, in place when `k` is already there, else at the end.
pub open spec fn assoc_insert(m: Seq<(Seq<char>, Seq<char>)>, k: Seq<char>, v: Seq<char>) -> Seq<(Seq<char>, Seq<char>)> {
    match key_index(m, k) {
        Some(i) => m.update(i, (k, v)),
        None => m.push((k, v)),
    }
}

/// The renames of one section's numbered tasks: the `c`-th becomes `num.c`.
pub open spec fn renames_in(m: Seq<(Seq<char>, Seq<char>)>, num: nat, sids: Seq<Seq<char>>, k: int, counter: nat) -> Seq<(Seq<char>, Seq<char>)>
    decreases sids.len() - k,
{
    if k < 0 || k >= sids.len() {
        m
    } else if sids[k].len() == 0 {
        renames_in(m, num, sids, k + 1, counter)
    } else {
        let c = counter + 1;
        let new_id = decimal(num) + "."@ + decimal(c);
        let m2 = if sids[k] != new_id {
            assoc_insert(m, sids[k], new_id)
        } else {
            m
        };
        renames_in(m2, num, sids, k + 1, c)
    }
}

/// The renames of all sections, section after section.
pub open spec fn renames(g: GraphView, secs: Seq<Seq<char>>) -> Seq<(Seq<char>, Seq<char>)>
    decreases secs.len(),
{
    if secs.len() == 0 {
        Seq::empty()
    } else {
        let m = renames(g, secs.drop_last());
        let s = secs.last();
        match first_with_id(g.nodes, s) {
            Some(n) => match section_num(n.label) {
                Some(num) => renames_in(m, num, section_sids(g.nodes, g.edges, s), 0, 0),
                None => m,
            },
            None => m,
        }
    }
}

pub open spec fn renames_spec(g: GraphView) -> Seq<(Seq<char>, Seq<char>)> {
    renames(g, section_ids(g.nodes))
}

/// `str::replace`: every occurrence of a non-empty `pat`, left to right, replaced.
pub open spec fn replace_all(s: Seq<char>, pat: Seq<char>, rep: Seq<char>) -> Seq<char>
    decreases s.len(),
{
    if pat.len() == 0 {
        s
    } else {
        match find_from(s, pat, 0) {
            Some(i) => if 0 <= i && i + pat.len() <= s.len() {
                s.take(i) + rep + replace_all(s.skip(i + pat.len()), pat, rep)
            } else {
                s
            },
            None => s,
        }
    }
}

/// A line with every rename applied whose old id (followed by a space) the original line
/// contains, in rename order.
pub open spec fn rename_line(orig: Seq<char>, cur: Seq<char>, m: Seq<(Seq<char>, Seq<char>)>) -> Seq<char>
    decreases m.len(),
{
    if m.len() == 0 {
        cur
    } else {
        let c = rename_line(orig, cur, m.drop_last());
        let (old, new) = m.last();
        if contains_s(orig, old + " "@) {
            replace_all(c, old + " "@, new + " "@)
        } else {
            c
        }
    }
}

pub open spec fn renumber_text(content: Seq<char>, m: Seq<(Seq<char>, Seq<char>)>) -> Seq<char> {
    let ls = lines_s(content);
    rebuild(Seq::new(ls.len(), |i: int| rename_line(ls[i], ls[i], m)), content)
}

/// The outcome of renumbering: the renames (old id, new id) and the new text.
pub struct RenumberPlan {
    pub renames: Vec<(String, String)>,
    pub content: String,
}

fn lit(s: &str) -> (r: Vec<char>)
    ensures
        r@ == s@,
{
    chars_of(s)
}

fn parse_usize(s: &[char]) -> (r: Option<usize>)
    ensures
        match r {
            Some(v) => parse_usize_spec(s@) == Some(v as nat),
            None => parse_usize_spec(s@) is None,
        },
{
    let start: usize = if s.len() > 0 && s[0] == '+' {
        1
    } else {
        0
    };
    let ghost d = s@.skip(start as int);
    assert(s@.skip(0) =~= s@);
    assert(d == unsigned_part(s@));
    if start >= s.len() {
        return None;
    }
    let mut v: usize = 0;
    let mut i = start;
    while i < s.len()
        invariant
            start <= i <= s@.len(),
            d == s@.skip(start as int),
            d == unsigned_part(s@),
            forall|k: int| 0 <= k < i - start ==> is_digit(#[trigger] d[k]),
            v == digits_value(d.take(i - start)),
        decreases s@.len() - i,
    {
        let c = s[i];
        if !('0' <= c && c <= '9') {
            assert(d[i - start] == c);
            return None;
        }
        assert(d.take(i - start + 1).drop_last() =~= d.take(i - start));
        assert(d.take(i - start + 1).last() == c);
        let dv = (c as u32 - 48) as usize;
        if v > (usize::MAX - dv) / 10 {
            assert(v * 10 + dv > usize::MAX) by (nonlinear_arith)
                requires
                    v > (usize::MAX - dv) / 10,
                    dv <= 9,
            ;
            i += 1;
            proof {
                assert(digits_value(d.take(i - start)) == v * 10 + dv);
                lemma_digits_value_mono(d, i - start);
            }
            return None;
        }
        assert(v * 10 + dv <= usize::MAX) by (nonlinear_arith)
            requires
                v <= (usize::MAX - dv) / 10,
                dv <= 9,
        ;
        v = v * 10 + dv;
        i += 1;
    }
    assert(d.take(i - start) =~= d);
    Some(v)
}

proof fn lemma_digits_value_mono(d: Seq<char>, k: int)
    requires
        0 <= k <= d.len(),
    ensures
        digits_value(d.take(k)) <= digits_value(d),
    decreases d.len() - k,
{
    if k < d.len() {
        lemma_digits_value_mono(d, k + 1);
        assert(d.take(k + 1).drop_last() =~= d.take(k));
    } else {
        assert(d.take(k) =~= d);
    }
}

fn section_num_exec(label: &String) -> (r: Option<usize>)
    ensures
        match r {
            Some(v) => section_num(label@) == Some(v as nat),
            None => section_num(label@) is None,
        },
{
    let parts = split(&chars_of(label.as_str()), '.');
    proof {
        crate::text::lemma_split_nonempty(label@, '.');
    }
    assert(views(parts@)[0] == parts@[0]@);
    parse_usize(&parts[0])
}

fn first_node(nodes: &Vec<Node>, id: &String) -> (r: Option<usize>)
    ensures
        match r {
            Some(i) => i < nodes@.len() && first_with_id(node_views(nodes@), id@) == Some(nodes@[i as int]@),
            None => first_with_id(node_views(nodes@), id@) is None,
        },
{
    let ghost nv = node_views(nodes@);
    let mut i: usize = 0;
    while i < nodes.len()
        invariant
            i <= nodes@.len(),
            nv == node_views(nodes@),
            first_with_id(nv.take(i as int), id@) is None,
        decreases nodes@.len() - i,
    {
        assert(nv.take(i + 1).drop_last() =~= nv.take(i as int));
        assert(nv.take(i + 1).last() == nodes@[i as int]@);
        if nodes[i].id == *id {
            proof {
                lemma_first_prefix(nv, id@, i + 1);
            }
            return Some(i);
        }
        i += 1;
    }
    assert(nv.take(nv.len() as int) =~= nv);
    None
}

proof fn lemma_first_prefix(nodes: Seq<NodeView>, id: Seq<char>, k: int)
    requires
        0 <= k <= nodes.len(),
        first_with_id(nodes.take(k), id) is Some,
    ensures
        first_with_id(nodes, id) == first_with_id(nodes.take(k), id),
    decreases nodes.len() - k,
{
    if k < nodes.len() {
        assert(nodes.take(k + 1).drop_last() =~= nodes.take(k));
        lemma_first_prefix(nodes, id, k + 1);
    } else {
        assert(nodes.take(k) =~= nodes);
    }
}

pub open spec fn pair_views(v: Seq<(String, String)>) -> Seq<(Seq<char>, Seq<char>)> {
    v.map_values(|p: (String, String)| (p.0@, p.1@))
}

fn section_ids_exec(nodes: &Vec<Node>) -> (r: Vec<String>)
    ensures
        r@.map_values(|s: String| s@) == section_ids(node_views(nodes@)),
{
    let ghost nv = node_views(nodes@);
    let mut r: Vec<String> = Vec::new();
    let mut i: usize = 0;
    while i < nodes.len()
        invariant
            i <= nodes@.len(),
            nv == node_views(nodes@),
            r@.map_values(|s: String| s@) == section_ids(nv.take(i as int)),
        decreases nodes@.len() - i,
    {
        assert(nv.take(i + 1).drop_last() =~= nv.take(i as int));
        assert(nv.take(i + 1).last() == nodes@[i as int]@);
        if nodes[i].kind == NodeKind::Section {
            let ghost rv = r@.map_values(|s: String| s@);
            let mut seen = false;
            let mut k: usize = 0;
            while k < r.len()
                invariant
                    k <= r@.len(),
                    i < nodes@.len(),
                    rv == r@.map_values(|s: String| s@),
                    seen == exists|j: int| 0 <= j < k && rv[j] == nodes@[i as int].id@,
                decreases r@.len() - k,
            {
                assert(rv[k as int] == r@[k as int]@);
                if r[k] == nodes[i].id {
                    seen = true;
                }
                k += 1;
            }
            if !seen {
                r.push(nodes[i].id.clone());
                assert(r@.map_values(|s: String| s@) =~= rv.push(nodes@[i as int].id@));
            }
        }
        i += 1;
    }
    assert(nv.take(nv.len() as int) =~= nv);
    r
}

fn section_sids_exec(g: &Graph, s: &String) -> (r: Vec<String>)
    ensures
        r@.map_values(|x: String| x@) == section_sids(g@.nodes, g@.edges, s@),
{
    let ghost ev = g@.edges;
    let mut r: Vec<String> = Vec::new();
    let mut i: usize = 0;
    while i < g.edges.len()
        invariant
            i <= g.edges@.len(),
            ev == g@.edges,
            r@.map_values(|x: String| x@) == section_sids(g@.nodes, ev.take(i as int), s@),
        decreases g.edges@.len() - i,
    {
        assert(ev.take(i + 1).drop_last() =~= ev.take(i as int));
        assert(ev.take(i + 1).last() == g.edges@[i as int]@);
        let e = &g.edges[i];
        if e.kind == EdgeKind::Contains && e.source == *s {
            match (first_node(&g.nodes, &e.source), first_node(&g.nodes, &e.target)) {
                (Some(a), Some(b)) => {
                    if g.nodes[a].kind == NodeKind::Section && g.nodes[b].kind == NodeKind::Task {
                        let sid = match g.nodes[b].stable_id() {
                            Some(x) => x.clone(),
                            None => String::new(),
                        };
                        let ghost before = r@.map_values(|x: String| x@);
                        let ghost sv = sid@;
                        r.push(sid);
                        assert(r@.map_values(|x: String| x@) =~= before.push(sv));
                    }
                },
                _ => {},
            }
        }
        i += 1;
    }
    assert(ev.take(ev.len() as int) =~= ev);
    r
}

proof fn lemma_key_index_prefix(m: Seq<(Seq<char>, Seq<char>)>, k: Seq<char>, n: int)
    requires
        0 <= n <= m.len(),
        key_index(m.take(n), k) is Some,
    ensures
        key_index(m, k) == key_index(m.take(n), k),
    decreases m.len() - n,
{
    if n < m.len() {
        assert(m.take(n + 1).drop_last() =~= m.take(n));
        lemma_key_index_prefix(m, k, n + 1);
    } else {
        assert(m.take(n) =~= m);
    }
}

/// No two entries have the same key.
pub open spec fn distinct_keys(m: Seq<(Seq<char>, Seq<char>)>) -> bool {
    forall|i: int, j: int| 0 <= i < j < m.len() ==> (#[trigger] m[i]).0 != (#[trigger] m[j]).0
}

proof fn lemma_key_index_found(m: Seq<(Seq<char>, Seq<char>)>, k: Seq<char>)
    ensures
        key_index(m, k) matches Some(i) ==> 0 <= i < m.len() && m[i].0 == k,
        key_index(m, k) is None ==> forall|i: int| 0 <= i < m.len() ==> (#[trigger] m[i]).0 != k,
    decreases m.len(),
{
    if m.len() > 0 {
        lemma_key_index_found(m.drop_last(), k);
        if key_index(m.drop_last(), k) is None {
            assert forall|i: int| 0 <= i < m.len() - 1 implies (#[trigger] m[i]).0 != k by {
                assert(m[i] == m.drop_last()[i]);
            }
        } else {
            let i = key_index(m.drop_last(), k)->0;
            assert(m[i] == m.drop_last()[i]);
        }
    }
}

proof fn lemma_assoc_insert_distinct(m: Seq<(Seq<char>, Seq<char>)>, k: Seq<char>, v: Seq<char>)
    requires
        distinct_keys(m),
    ensures
        distinct_keys(assoc_insert(m, k, v)),
{
    lemma_key_index_found(m, k);
    let r = assoc_insert(m, k, v);
    match key_index(m, k) {
        Some(x) => {
            assert forall|i: int, j: int| 0 <= i < j < r.len() implies (#[trigger] r[i]).0 != (#[trigger] r[j]).0 by {
                assert(r[i].0 == m[i].0 && r[j].0 == m[j].0);
            }
        },
        None => {
            assert forall|i: int, j: int| 0 <= i < j < r.len() implies (#[trigger] r[i]).0 != (#[trigger] r[j]).0 by {
                if j < m.len() {
                    assert(r[i] == m[i] && r[j] == m[j]);
                } else {
                    assert(r[i] == m[i]);
                }
            }
        },
    }
}

proof fn lemma_renames_in_distinct(m: Seq<(Seq<char>, Seq<char>)>, num: nat, sids: Seq<Seq<char>>, k: int, counter: nat)
    requires
        distinct_keys(m),
    ensures
        distinct_keys(renames_in(m, num, sids, k, counter)),
    decreases sids.len() - k,
{
    if 0 <= k < sids.len() {
        if sids[k].len() == 0 {
            lemma_renames_in_distinct(m, num, sids, k + 1, counter);
        } else {
            let c = counter + 1;
            let new_id = decimal(num) + "."@ + decimal(c);
            let m2 = if sids[k] != new_id {
                assoc_insert(m, sids[k], new_id)
            } else {
                m
            };
            if sids[k] != new_id {
                lemma_assoc_insert_distinct(m, sids[k], new_id);
            }
            lemma_renames_in_distinct(m2, num, sids, k + 1, c);
        }
    }
}

proof fn lemma_renames_distinct(g: GraphView, secs: Seq<Seq<char>>)
    ensures
        distinct_keys(renames(g, secs)),
    decreases secs.len(),
{
    if secs.len() > 0 {
        lemma_renames_distinct(g, secs.drop_last());
        let m = renames(g, secs.drop_last());
        let s = secs.last();
        match first_with_id(g.nodes, s) {
            Some(n) => match section_num(n.label) {
                Some(num) => lemma_renames_in_distinct(m, num, section_sids(g.nodes, g.edges, s), 0, 0),
                None => {},
            },
            None => {},
        }
    }
}

/// Renumbering renames each old id at most once.
pub proof fn lemma_renames_are_distinct(g: GraphView)
    ensures
        distinct_keys(renames_spec(g)),
{
    lemma_renames_distinct(g, section_ids(g.nodes));
}

/// How many of the first `k` stable ids are present (non-empty).
pub open spec fn numbered_before(sids: Seq<Seq<char>>, k: int) -> nat
    decreases k,
{
    if k <= 0 || k > sids.len() {
        0
    } else {
        numbered_before(sids, k - 1) + if sids[k - 1].len() > 0 {
            1nat
        } else {
            0nat
        }
    }
}

proof fn lemma_renames_in_keeps(m: Seq<(Seq<char>, Seq<char>)>, num: nat, sids: Seq<Seq<char>>, k: int, counter: nat, key: Seq<char>, val: Seq<char>)
    requires
        0 <= k,
        m.contains((key, val)),
        forall|j: int| k <= j < sids.len() ==> sids[j] != key,
    ensures
        renames_in(m, num, sids, k, counter).contains((key, val)),
    decreases sids.len() - k,
{
    if k < sids.len() && sids[k].len() > 0 {
        let c = counter + 1;
        let new_id = decimal(num) + "."@ + decimal(c);
        if sids[k] != new_id {
            lemma_key_index_found(m, sids[k]);
            let i = choose|i: int| 0 <= i < m.len() && m[i] == (key, val);
            let m2 = assoc_insert(m, sids[k], new_id);
            match key_index(m, sids[k]) {
                Some(x) => assert(m2[i] == (key, val)),
                None => assert(m2[i] == (key, val)),
            }
            lemma_renames_in_keeps(m2, num, sids, k + 1, c, key, val);
        } else {
            lemma_renames_in_keeps(m, num, sids, k + 1, c, key, val);
        }
    } else if k < sids.len() {
        lemma_renames_in_keeps(m, num, sids, k + 1, counter, key, val);
    }
}

proof fn lemma_renames_in_numbers(m: Seq<(Seq<char>, Seq<char>)>, num: nat, sids: Seq<Seq<char>>, k0: int, counter: nat, k: int)
    requires
        0 <= k0 <= k < sids.len(),
        counter == numbered_before(sids, k0),
        sids[k].len() > 0,
        sids[k] != decimal(num) + "."@ + decimal(numbered_before(sids, k) + 1),
        forall|j: int| k < j < sids.len() ==> sids[j] != sids[k],
    ensures
        renames_in(m, num, sids, k0, counter).contains((sids[k], decimal(num) + "."@ + decimal(numbered_before(sids, k) + 1))),
    decreases k - k0,
{
    let c = counter + 1;
    let new_id = decimal(num) + "."@ + decimal(c);
    if k0 == k {
        let m2 = assoc_insert(m, sids[k], new_id);
        lemma_key_index_found(m, sids[k]);
        match key_index(m, sids[k]) {
            Some(x) => assert(m2[x] == (sids[k], new_id)),
            None => assert(m2[m.len() as int] == (sids[k], new_id)),
        }
        lemma_renames_in_keeps(m2, num, sids, k + 1, c, sids[k], new_id);
    } else if sids[k0].len() == 0 {
        lemma_renames_in_numbers(m, num, sids, k0 + 1, counter, k);
    } else {
        let m2 = if sids[k0] != new_id {
            assoc_insert(m, sids[k0], new_id)
        } else {
            m
        };
        lemma_renames_in_numbers(m2, num, sids, k0 + 1, c, k);
    }
}

/// Renumbering a section counts only its numbered tasks: in section `num`, the task whose
/// stable id comes after `c` other numbered ones (tasks without a numeric id take up no
/// number) is renamed to `num.(c+1)`, unless it already has that id; the rename stays
/// when no later task of the section has the same old id.
pub proof fn lemma_renumber_counts_numbered_tasks(m: Seq<(Seq<char>, Seq<char>)>, num: nat, sids: Seq<Seq<char>>, k: int)
    requires
        0 <= k < sids.len(),
        sids[k].len() > 0,
        sids[k] != decimal(num) + "."@ + decimal(numbered_before(sids, k) + 1),
        forall|j: int| k < j < sids.len() ==> sids[j] != sids[k],
    ensures
        renames_in(m, num, sids, 0, 0).contains((sids[k], decimal(num) + "."@ + decimal(numbered_before(sids, k) + 1))),
{
    lemma_renames_in_numbers(m, num, sids, 0, 0, k);
}

/// The rename that section `num` gives its task `k`: `num.c`, `c` counting the numbered
/// tasks up to and including it.
pub open spec fn section_rename(num: nat, sids: Seq<Seq<char>>, k: int) -> (Seq<char>, Seq<char>) {
    (sids[k], decimal(num) + "."@ + decimal(numbered_before(sids, k) + 1))
}

proof fn lemma_assoc_insert_entries(m: Seq<(Seq<char>, Seq<char>)>, k: Seq<char>, v: Seq<char>)
    ensures
        forall|i: int| 0 <= i < assoc_insert(m, k, v).len() ==> m.contains(#[trigger] assoc_insert(m, k, v)[i]) || assoc_insert(m, k, v)[i] == (k, v),
{
    let r = assoc_insert(m, k, v);
    lemma_key_index_found(m, k);
    assert forall|i: int| 0 <= i < r.len() implies m.contains(#[trigger] r[i]) || r[i] == (k, v) by {
        match key_index(m, k) {
            Some(x) => if i != x {
                assert(r[i] == m[i]);
            },
            None => if i < m.len() {
                assert(r[i] == m[i]);
            },
        }
    }
}

proof fn lemma_renames_in_only(m: Seq<(Seq<char>, Seq<char>)>, num: nat, sids: Seq<Seq<char>>, k0: int, counter: nat)
    requires
        0 <= k0 <= sids.len(),
        counter == numbered_before(sids, k0),
    ensures
        forall|i: int| 0 <= i < renames_in(m, num, sids, k0, counter).len() ==> m.contains(#[trigger] renames_in(m, num, sids, k0, counter)[i]) || exists|k: int|
            k0 <= k < sids.len() && sids[k].len() > 0 && sids[k] != section_rename(num, sids, k).1
                && renames_in(m, num, sids, k0, counter)[i] == #[trigger] section_rename(num, sids, k),
    decreases sids.len() - k0,
{
    let r = renames_in(m, num, sids, k0, counter);
    if k0 < sids.len() {
        if sids[k0].len() == 0 {
            lemma_renames_in_only(m, num, sids, k0 + 1, counter);
            let r1 = renames_in(m, num, sids, k0 + 1, counter);
            assert(r == r1);
            assert forall|i: int| 0 <= i < r.len() implies m.contains(#[trigger] r[i]) || exists|k: int|
                k0 <= k < sids.len() && sids[k].len() > 0 && sids[k] != section_rename(num, sids, k).1 && r[i] == #[trigger] section_rename(num, sids, k) by {
                assert(r[i] == r1[i]);
                if !m.contains(r[i]) {
                    let k = choose|k: int| k0 + 1 <= k < sids.len() && sids[k].len() > 0 && sids[k] != section_rename(num, sids, k).1 && r[i] == #[trigger] section_rename(num, sids, k);
                }
            }
        } else {
            let c = counter + 1;
            let new_id = decimal(num) + "."@ + decimal(c);
            assert(section_rename(num, sids, k0) == (sids[k0], new_id));
            let m2 = if sids[k0] != new_id {
                assoc_insert(m, sids[k0], new_id)
            } else {
                m
            };
            if sids[k0] != new_id {
                lemma_assoc_insert_entries(m, sids[k0], new_id);
            }
            lemma_renames_in_only(m2, num, sids, k0 + 1, c);
            let r1 = renames_in(m2, num, sids, k0 + 1, c);
            assert(r == r1);
            assert forall|i: int| 0 <= i < r.len() implies m.contains(#[trigger] r[i]) || exists|k: int|
                k0 <= k < sids.len() && sids[k].len() > 0 && sids[k] != section_rename(num, sids, k).1 && r[i] == #[trigger] section_rename(num, sids, k) by {
                assert(r[i] == r1[i]);
                if !m.contains(r[i]) {
                    if m2.contains(r[i]) {
                        let x = choose|x: int| 0 <= x < m2.len() && m2[x] == r[i];
                        if sids[k0] != new_id {
                            if !m.contains(m2[x]) {
                                assert(m2[x] == section_rename(num, sids, k0));
                            }
                        }
                    } else {
                        let k = choose|k: int| k0 + 1 <= k < sids.len() && sids[k].len() > 0 && sids[k] != section_rename(num, sids, k).1 && r[i] == #[trigger] section_rename(num, sids, k);
                    }
                }
            }
        }
    }
}

/// Renumbering a section adds no other renames: each rename it makes gives a numbered
/// task of the section (one with a stable id) its number `num.c`, `c` counting only the
/// numbered tasks up to it, and differs from the id it had; every other entry was there
/// before.
pub proof fn lemma_renumber_renames_only_numbered_tasks(m: Seq<(Seq<char>, Seq<char>)>, num: nat, sids: Seq<Seq<char>>)
    ensures
        forall|i: int| 0 <= i < renames_in(m, num, sids, 0, 0).len() ==> m.contains(#[trigger] renames_in(m, num, sids, 0, 0)[i]) || exists|k: int|
            0 <= k < sids.len() && sids[k].len() > 0 && sids[k] != section_rename(num, sids, k).1
                && renames_in(m, num, sids, 0, 0)[i] == #[trigger] section_rename(num, sids, k),
{
    lemma_renames_in_only(m, num, sids, 0, 0);
}

fn assoc_insert_exec(m: &mut Vec<(String, String)>, k: String, v: String)
    ensures
        pair_views(final(m)@) == assoc_insert(pair_views(old(m)@), k@, v@),
{
    let ghost mv = pair_views(m@);
    let mut i: usize = 0;
    while i < m.len()
        invariant
            i <= m@.len(),
            mv == pair_views(m@),
            mv == pair_views(old(m)@),
            key_index(mv.take(i as int), k@) is None,
        decreases m@.len() - i,
    {
        assert(mv.take(i + 1).drop_last() =~= mv.take(i as int));
        assert(mv.take(i + 1).last() == mv[i as int]);
        if m[i].0 == k {
            proof {
                assert(mv[i as int].0 == k@);
                assert(key_index(mv.take(i + 1), k@) == Some(i as int));
                lemma_key_index_prefix(mv, k@, i + 1);
            }
            let ghost kv = k@;
            let ghost vv = v@;
            m.set(i, (k, v));
            assert(pair_views(m@) =~= mv.update(i as int, (kv, vv)));
            return;
        }
        i += 1;
    }
    assert(mv.take(mv.len() as int) =~= mv);
    let ghost kv = k@;
    let ghost vv = v@;
    m.push((k, v));
    assert(pair_views(m@) =~= mv.push((kv, vv)));
}


fn renames_in_exec(m: &mut Vec<(String, String)>, num: usize, sids: &Vec<String>)
    ensures
        pair_views(final(m)@) == renames_in(pair_views(old(m)@), num as nat, sids@.map_values(|x: String| x@), 0, 0),
{
    let ghost sv = sids@.map_values(|x: String| x@);
    let ghost target = renames_in(pair_views(m@), num as nat, sv, 0, 0);
    let mut counter: usize = 0;
    let mut k: usize = 0;
    while k < sids.len()
        invariant
            k <= sids@.len(),
            counter <= k,
            sv == sids@.map_values(|x: String| x@),
            target == renames_in(pair_views(m@), num as nat, sv, k as int, counter as nat),
        decreases sids@.len() - k,
    {
        assert(sv[k as int] == sids@[k as int]@);
        if sids[k].as_str().is_empty() {
        } else {
            let c = counter + 1;
            let mut new_id = decimal_of(num as u128);
            new_id.push('.');
            extend(&mut new_id, &decimal_of(c as u128));
            assert(new_id@ =~= decimal(num as nat) + "."@ + decimal(c as nat)) by {
                reveal_strlit(".");
            }
            if !seq_eq(&chars_of(sids[k].as_str()), &new_id) {
                assoc_insert_exec(m, sids[k].clone(), string_of(&new_id));
            }
            counter = c;
        }
        k += 1;
    }
}

/// Every rename: for each section with a number, its numbered tasks in order.
pub fn compute_renames(g: &Graph) -> (r: Vec<(String, String)>)
    ensures
        pair_views(r@) == renames_spec(g@),
{
    let secs = section_ids_exec(&g.nodes);
    let ghost sv = secs@.map_values(|x: String| x@);
    let mut m: Vec<(String, String)> = Vec::new();
    let mut k: usize = 0;
    assert(pair_views(m@) =~= Seq::<(Seq<char>, Seq<char>)>::empty());
    while k < secs.len()
        invariant
            k <= secs@.len(),
            sv == secs@.map_values(|x: String| x@),
            pair_views(m@) == renames(g@, sv.take(k as int)),
        decreases secs@.len() - k,
    {
        assert(sv.take(k + 1).drop_last() =~= sv.take(k as int));
        assert(sv.take(k + 1).last() == secs@[k as int]@);
        match first_node(&g.nodes, &secs[k]) {
            Some(idx) => match section_num_exec(&g.nodes[idx].label) {
                Some(num) => {
                    let sids = section_sids_exec(g, &secs[k]);
                    renames_in_exec(&mut m, num, &sids);
                },
                None => {},
            },
            None => {},
        }
        k += 1;
    }
    assert(sv.take(sv.len() as int) =~= sv);
    m
}

fn replace_all_exec(s: &Vec<char>, pat: &Vec<char>, rep: &Vec<char>) -> (r: Vec<char>)
    requires
        pat@.len() > 0,
    ensures
        r@ == replace_all(s@, pat@, rep@),
{
    let mut out: Vec<char> = Vec::new();
    let mut pos: usize = 0;
    let slen = s.len();
    assert(s@.skip(0) =~= s@);
    assert(out@ + replace_all(s@, pat@, rep@) =~= replace_all(s@, pat@, rep@));
    while pos <= slen
        invariant
            pos <= s@.len(),
            slen == s@.len(),
            pat@.len() > 0,
            replace_all(s@, pat@, rep@) == out@ + replace_all(s@.skip(pos as int), pat@, rep@),
        decreases s@.len() + 1 - pos,
    {
        let tail = slice(s, pos, slen);
        assert(tail@ =~= s@.skip(pos as int));
        let f = find(&tail, pat, 0);
        proof {
            lemma_find_from(tail@, pat@, 0);
        }
        match f {
            Some(i) => {
                assert(find_from(tail@, pat@, 0) == Some(i as int));
                assert(crate::text::occurs_at(tail@, pat@, i as int));
                let ghost before = out@;
                extend(&mut out, &slice(&tail, 0, i));
                extend(&mut out, rep);
                assert(tail@.take(i as int) =~= tail@.subrange(0, i as int));
                assert(tail@.skip(i + pat@.len()) =~= s@.skip(pos + i + pat@.len()));
                assert(out@ =~= before + tail@.take(i as int) + rep@);
                pos = pos + i + pat.len();
            },
            None => {
                let ghost before = out@;
                extend(&mut out, &tail);
                assert(replace_all(tail@, pat@, rep@) == tail@);
                return out;
            },
        }
    }
    out
}

fn rename_line_exec(line: &Vec<char>, m: &Vec<(String, String)>) -> (r: Vec<char>)
    ensures
        r@ == rename_line(line@, line@, pair_views(m@)),
{
    let ghost mv = pair_views(m@);
    let mut cur = slice(line, 0, line.len());
    assert(line@.subrange(0, line@.len() as int) =~= line@);
    let mut k: usize = 0;
    while k < m.len()
        invariant
            k <= m@.len(),
            mv == pair_views(m@),
            cur@ == rename_line(line@, line@, mv.take(k as int)),
        decreases m@.len() - k,
    {
        assert(mv.take(k + 1).drop_last() =~= mv.take(k as int));
        assert(mv.take(k + 1).last() == (m@[k as int].0@, m@[k as int].1@));
        let mut pat = chars_of(m[k].0.as_str());
        pat.push(' ');
        let mut rep = chars_of(m[k].1.as_str());
        rep.push(' ');
        proof {
            reveal_strlit(" ");
        }
        assert(pat@ =~= m@[k as int].0@ + " "@);
        assert(rep@ =~= m@[k as int].1@ + " "@);
        if contains(line, &pat) {
            cur = replace_all_exec(&cur, &pat, &rep);
        }
        k += 1;
    }
    assert(mv.take(mv.len() as int) =~= mv);
    cur
}

/// Renumbers the tasks of a roadmap text given its scanned graph: the renames and the
/// new text.
pub fn renumber(g: &Graph, content: &str) -> (r: RenumberPlan)
    ensures
        pair_views(r.renames@) == renames_spec(g@),
        r.content@ == renumber_text(content@, renames_spec(g@)),
{
    let m = compute_renames(g);
    let cs = chars_of(content);
    let ls = lines(&cs);
    let ghost lv = views(ls@);
    let mut out: Vec<Vec<char>> = Vec::new();
    let mut i: usize = 0;
    while i < ls.len()
        invariant
            i <= ls@.len(),
            lv == views(ls@),
            pair_views(m@) == renames_spec(g@),
            views(out@) == Seq::new(i as nat, |j: int| rename_line(lv[j], lv[j], renames_spec(g@))),
        decreases ls@.len() - i,
    {
        assert(lv[i as int] == ls@[i as int]@);
        let ghost before = views(out@);
        let l = rename_line_exec(&ls[i], &m);
        let ghost l_v = l@;
        out.push(l);
        assert(views(out@) =~= before.push(l_v));
        assert(l_v == rename_line(lv[i as int], lv[i as int], renames_spec(g@)));
        assert(views(out@) =~= Seq::new((i + 1) as nat, |j: int| rename_line(lv[j], lv[j], renames_spec(g@))));
        i += 1;
    }
    RenumberPlan { renames: m, content: rebuild_exec(&out, &cs) }
}

/// Renumbers the tasks of the text of `ROADMAP.md`.
pub fn run(content: &str) -> (r: RenumberPlan)
    ensures
        pair_views(r.renames@) == renames_spec(parsed_graph("ROADMAP.md"@, content@)),
        r.content@ == renumber_text(content@, renames_spec(parsed_graph("ROADMAP.md"@, content@))),
{
    let mut g = Graph::new();
    let mut links = Vec::new();
    parse_markdown("ROADMAP.md", content, &mut g, &mut links);
    let ghost pv = parse_spec("ROADMAP.md"@, content@);
    assert(g@.nodes =~= pv.nodes);
    assert(g@.edges =~= pv.edges);
    assert(g@ == parsed_graph("ROADMAP.md"@, content@));
    renumber(&g, content)
}

} // verus!
