//! Graph queries: a traversal picks candidate nodes, filters keep those whose fields
//! match, and only the edges between surviving nodes are kept.

use vstd::prelude::*;

use crate::graph::{
    edge_views, node_views, stable_id_of, status_of, Edge, EdgeKind, EdgeView, Graph, GraphView,
    Node, NodeKind, NodeView,
};
use crate::text::{chars_of, contains, contains_s, seq_eq, split_once, split_once_s, string_of};

verus! {

pub enum Traversal {
    All,
    Roots,
    Children(String),
    Descendants(String),
    Ancestors(String),
    References(String),
    ReferencedBy(String),
    Next(String),
}

pub enum TraversalView {
    All,
    Roots,
    Children(Seq<char>),
    Descendants(Seq<char>),
    Ancestors(Seq<char>),
    References(Seq<char>),
    ReferencedBy(Seq<char>),
    Next(Seq<char>),
}

impl View for Traversal {
    type V = TraversalView;

    open spec fn view(&self) -> TraversalView {
        match self {
            Traversal::All => TraversalView::All,
            Traversal::Roots => TraversalView::Roots,
            Traversal::Children(s) => TraversalView::Children(s@),
            Traversal::Descendants(s) => TraversalView::Descendants(s@),
            Traversal::Ancestors(s) => TraversalView::Ancestors(s@),
            Traversal::References(s) => TraversalView::References(s@),
            Traversal::ReferencedBy(s) => TraversalView::ReferencedBy(s@),
            Traversal::Next(s) => TraversalView::Next(s@),
        }
    }
}

#[derive(Debug, Clone, Copy, PartialEq, Eq, Structural)]
pub enum FilterOp {
    Eq,
    Contains,
}

/// `field=value` (equality) or `field~value` (case-insensitive containment).
pub struct Filter {
    pub field: String,
    pub op: FilterOp,
    pub value: String,
}

pub struct FilterView {
    pub field: Seq<char>,
    pub op: FilterOp,
    pub value: Seq<char>,
}

impl View for Filter {
    type V = FilterView;

    open spec fn view(&self) -> FilterView {
        FilterView { field: self.field@, op: self.op, value: self.value@ }
    }
}

pub open spec fn filter_views(f: Seq<Filter>) -> Seq<FilterView> {
    f.map_values(|x: Filter| x@)
}

/// `field~value` if the text has a `~`, else `field=value` if it has a `=`, split at the
/// first such character.
pub open spec fn parse_filter_spec(s: Seq<char>) -> Option<FilterView> {
    match split_once_s(s, '~') {
        Some((f, v)) => Some(FilterView { field: f, op: FilterOp::Contains, value: v }),
        None => match split_once_s(s, '=') {
            Some((f, v)) => Some(FilterView { field: f, op: FilterOp::Eq, value: v }),
            None => None,
        },
    }
}

pub open spec fn kind_name(k: NodeKind) -> Seq<char> {
    match k {
        NodeKind::Directory => "directory"@,
        NodeKind::File => "file"@,
        NodeKind::Section => "section"@,
        NodeKind::Task => "task"@,
    }
}

/// The section number of a node: for a node with a numeric stable id, its first piece
/// (`3` for `3.2.1`); for a section whose label begins with a number and a `.`
/// (`3. Tools`), that number.
pub open spec fn section_of(n: NodeView) -> Option<Seq<char>> {
    match stable_id_of(n) {
        Some(sid) => match split_once_s(sid, '.') {
            Some((a, _)) => Some(a),
            None => Some(sid),
        },
        None => if n.kind == NodeKind::Section {
            match split_once_s(n.label, '.') {
                Some((a, _)) => if a.len() > 0 && crate::ops::add::all_digits(a) {
                    Some(a)
                } else {
                    None
                },
                None => None,
            }
        } else {
            None
        },
    }
}

/// The value a filter compares: the node's type, source, label or id, a text field of
/// its metadata (`status`, `stable_id`), or its section number (`section`).
pub open spec fn field_value(n: NodeView, field: Seq<char>) -> Option<Seq<char>> {
    if field == "type"@ {
        Some(kind_name(n.kind))
    } else if field == "source"@ {
        Some(n.source)
    } else if field == "label"@ {
        Some(n.label)
    } else if field == "id"@ {
        Some(n.id)
    } else if field == "status"@ {
        status_of(n)
    } else if field == "stable_id"@ {
        stable_id_of(n)
    } else if field == "section"@ {
        section_of(n)
    } else {
        None
    }
}

pub open spec fn ascii_lower_char(c: char) -> char {
    if 'A' <= c && c <= 'Z' {
        ((c as u32) + 32) as char
    } else {
        c
    }
}

pub open spec fn ascii_lower(s: Seq<char>) -> Seq<char> {
    s.map_values(|c: char| ascii_lower_char(c))
}

pub open spec fn filter_matches(f: FilterView, n: NodeView) -> bool {
    match field_value(n, f.field) {
        Some(v) => match f.op {
            FilterOp::Eq => v == f.value,
            FilterOp::Contains => contains_s(ascii_lower(v), ascii_lower(f.value)),
        },
        None => false,
    }
}

pub open spec fn all_match(fs: Seq<FilterView>, n: NodeView) -> bool {
    forall|k: int| 0 <= k < fs.len() ==> filter_matches(#[trigger] fs[k], n)
}

pub fn kind_str(kind: &NodeKind) -> (r: &'static str)
    ensures
        r@ == kind_name(*kind),
{
    match kind {
        NodeKind::Directory => "directory",
        NodeKind::File => "file",
        NodeKind::Section => "section",
        NodeKind::Task => "task",
    }
}

fn lit(s: &str) -> (r: Vec<char>)
    ensures
        r@ == s@,
{
    chars_of(s)
}

fn opt_string(o: Option<&String>) -> (r: Option<String>)
    ensures
        match r {
            Some(s) => o is Some && s@ == o->0@,
            None => o is None,
        },
{
    match o {
        Some(s) => Some(s.clone()),
        None => None,
    }
}

fn all_digits_exec(a: &Vec<char>) -> (r: bool)
    ensures
        r == crate::ops::add::all_digits(a@),
{
    let mut i: usize = 0;
    while i < a.len()
        invariant
            i <= a@.len(),
            forall|j: int| 0 <= j < i ==> crate::text::is_digit(#[trigger] a@[j]),
        decreases a@.len() - i,
    {
        if !('0' <= a[i] && a[i] <= '9') {
            assert(!crate::text::is_digit(a@[i as int]));
            return false;
        }
        i += 1;
    }
    true
}

fn section_exec(node: &Node) -> (r: Option<String>)
    ensures
        match r {
            Some(v) => section_of(node@) == Some(v@),
            None => section_of(node@) is None,
        },
{
    match node.stable_id() {
        Some(sid) => {
            let cs = chars_of(sid.as_str());
            match split_once(&cs, '.') {
                Some((a, _)) => Some(string_of(&a)),
                None => Some(sid.clone()),
            }
        },
        None => {
            if node.kind == NodeKind::Section {
                match split_once(&chars_of(node.label.as_str()), '.') {
                    Some((a, _)) => {
                        if a.len() > 0 && all_digits_exec(&a) {
                            Some(string_of(&a))
                        } else {
                            None
                        }
                    },
                    None => None,
                }
            } else {
                None
            }
        },
    }
}

pub fn node_field_value(node: &Node, field: &str) -> (r: Option<String>)
    ensures
        match r {
            Some(v) => field_value(node@, field@) == Some(v@),
            None => field_value(node@, field@) is None,
        },
{
    let f = chars_of(field);
    if seq_eq(&f, &lit("type")) {
        Some(string_of(&lit(kind_str(&node.kind))))
    } else if seq_eq(&f, &lit("source")) {
        Some(node.source.clone())
    } else if seq_eq(&f, &lit("label")) {
        Some(node.label.clone())
    } else if seq_eq(&f, &lit("id")) {
        Some(node.id.clone())
    } else if seq_eq(&f, &lit("status")) {
        opt_string(node.status())
    } else if seq_eq(&f, &lit("stable_id")) {
        opt_string(node.stable_id())
    } else if seq_eq(&f, &lit("section")) {
        section_exec(node)
    } else {
        None
    }
}

fn to_ascii_lower(s: &[char]) -> (r: Vec<char>)
    ensures
        r@ == ascii_lower(s@),
{
    let mut r: Vec<char> = Vec::new();
    let mut i: usize = 0;
    while i < s.len()
        invariant
            i <= s@.len(),
            r@ == ascii_lower(s@.take(i as int)),
        decreases s@.len() - i,
    {
        let c = s[i];
        let d = if 'A' <= c && c <= 'Z' {
            ((c as u8) + 32) as char
        } else {
            c
        };
        assert(d == ascii_lower_char(c));
        r.push(d);
        i += 1;
        assert(r@ =~= ascii_lower(s@.take(i as int)));
    }
    assert(s@.take(s@.len() as int) =~= s@);
    r
}

impl Filter {
    pub fn parse(s: &str) -> (r: Option<Filter>)
        ensures
            match r {
                Some(f) => parse_filter_spec(s@) == Some(f@),
                None => parse_filter_spec(s@) is None,
            },
    {
        let cs = chars_of(s);
        match split_once(&cs, '~') {
            Some((f, v)) => Some(
                Filter { field: string_of(&f), op: FilterOp::Contains, value: string_of(&v) },
            ),
            None => match split_once(&cs, '=') {
                Some((f, v)) => Some(
                    Filter { field: string_of(&f), op: FilterOp::Eq, value: string_of(&v) },
                ),
                None => None,
            },
        }
    }

    pub fn matches(&self, node: &Node) -> (r: bool)
        ensures
            r == filter_matches(self@, node@),
    {
        match node_field_value(node, self.field.as_str()) {
            Some(val) => {
                let v = chars_of(val.as_str());
                let w = chars_of(self.value.as_str());
                match self.op {
                    FilterOp::Eq => seq_eq(&v, &w),
                    FilterOp::Contains => contains(&to_ascii_lower(&v), &to_ascii_lower(&w)),
                }
            },
            None => false,
        }
    }
}

/// A contains edge from `s` to `t`.
pub open spec fn contains_edge(edges: Seq<EdgeView>, s: Seq<char>, t: Seq<char>) -> bool {
    exists|i: int|
        0 <= i < edges.len() && edges[i].kind == EdgeKind::Contains && edges[i].source == s
            && edges[i].target == t
}

/// A walk down contains edges.
pub open spec fn is_down_path(edges: Seq<EdgeView>, p: Seq<Seq<char>>) -> bool {
    forall|i: int| 0 <= i < p.len() - 1 ==> #[trigger] contains_edge(edges, p[i], p[i + 1])
}

/// A walk up contains edges, from child to parent.
pub open spec fn is_up_path(edges: Seq<EdgeView>, p: Seq<Seq<char>>) -> bool {
    forall|i: int| 0 <= i < p.len() - 1 ==> #[trigger] contains_edge(edges, p[i + 1], p[i])
}

/// `t` lies below `x`: one or more contains edges lead from `x` to `t`.
pub open spec fn descendant(edges: Seq<EdgeView>, x: Seq<char>, t: Seq<char>) -> bool {
    exists|p: Seq<Seq<char>>|
        p.len() >= 2 && p[0] == x && p.last() == t && #[trigger] is_down_path(edges, p)
}

/// `a` lies above `x`: one or more contains edges lead up from `x` to `a`.
pub open spec fn ancestor(edges: Seq<EdgeView>, x: Seq<char>, a: Seq<char>) -> bool {
    exists|p: Seq<Seq<char>>|
        p.len() >= 2 && p[0] == x && p.last() == a && #[trigger] is_up_path(edges, p)
}

pub open spec fn edge_from(edges: Seq<EdgeView>, k: EdgeKind, s: Seq<char>, t: Seq<char>) -> bool {
    exists|i: int|
        0 <= i < edges.len() && edges[i].kind == k && edges[i].source == s && edges[i].target == t
}

pub open spec fn is_target(edges: Seq<EdgeView>, t: Seq<char>) -> bool {
    exists|i: int| 0 <= i < edges.len() && edges[i].target == t
}

/// Whether a traversal reaches node `id`.
pub open spec fn candidate(g: GraphView, t: TraversalView, id: Seq<char>) -> bool {
    match t {
        TraversalView::All => true,
        TraversalView::Roots => !is_target(g.edges, id),
        TraversalView::Children(x) => edge_from(g.edges, EdgeKind::Contains, x, id),
        TraversalView::Descendants(x) => descendant(g.edges, x, id),
        TraversalView::Ancestors(x) => ancestor(g.edges, x, id),
        TraversalView::References(x) => edge_from(g.edges, EdgeKind::References, x, id),
        TraversalView::ReferencedBy(x) => edge_from(g.edges, EdgeKind::References, id, x),
        TraversalView::Next(x) => edge_from(g.edges, EdgeKind::Sequence, x, id),
    }
}

pub open spec fn selected(g: GraphView, t: TraversalView, fs: Seq<FilterView>, n: NodeView) -> bool {
    candidate(g, t, n.id) && all_match(fs, n)
}

/// The nodes a query keeps, in graph order.
pub open spec fn select_nodes(g: GraphView, t: TraversalView, fs: Seq<FilterView>, nodes: Seq<NodeView>) -> Seq<NodeView>
    decreases nodes.len(),
{
    if nodes.len() == 0 {
        Seq::empty()
    } else {
        let r = select_nodes(g, t, fs, nodes.drop_last());
        if selected(g, t, fs, nodes.last()) {
            r.push(nodes.last())
        } else {
            r
        }
    }
}

pub open spec fn node_id_in(nodes: Seq<NodeView>, id: Seq<char>) -> bool {
    exists|i: int| 0 <= i < nodes.len() && nodes[i].id == id
}

/// The edges whose two ends both survive, in graph order.
pub open spec fn prune_edges(edges: Seq<EdgeView>, keep: Seq<NodeView>) -> Seq<EdgeView>
    decreases edges.len(),
{
    if edges.len() == 0 {
        Seq::empty()
    } else {
        let r = prune_edges(edges.drop_last(), keep);
        let e = edges.last();
        if node_id_in(keep, e.source) && node_id_in(keep, e.target) {
            r.push(e)
        } else {
            r
        }
    }
}

pub open spec fn query_spec(g: GraphView, t: TraversalView, fs: Seq<FilterView>) -> GraphView {
    let nodes = select_nodes(g, t, fs, g.nodes);
    GraphView { nodes, edges: prune_edges(g.edges, nodes) }
}

// ---- reachability ----

proof fn lemma_path_extend_down(edges: Seq<EdgeView>, p: Seq<Seq<char>>, t: Seq<char>)
    requires
        is_down_path(edges, p),
        p.len() >= 1,
        contains_edge(edges, p.last(), t),
    ensures
        is_down_path(edges, p.push(t)),
{
    let q = p.push(t);
    assert forall|i: int| 0 <= i < q.len() - 1 implies #[trigger] contains_edge(edges, q[i], q[i + 1]) by {
        if i < p.len() - 1 {
            assert(q[i] == p[i] && q[i + 1] == p[i + 1]);
            assert(contains_edge(edges, p[i], p[i + 1]));
        } else {
            assert(q[i] == p.last() && q[i + 1] == t);
        }
    }
}

proof fn lemma_path_extend_up(edges: Seq<EdgeView>, p: Seq<Seq<char>>, a: Seq<char>)
    requires
        is_up_path(edges, p),
        p.len() >= 1,
        contains_edge(edges, a, p.last()),
    ensures
        is_up_path(edges, p.push(a)),
{
    let q = p.push(a);
    assert forall|i: int| 0 <= i < q.len() - 1 implies #[trigger] contains_edge(edges, q[i + 1], q[i]) by {
        if i < p.len() - 1 {
            assert(q[i] == p[i] && q[i + 1] == p[i + 1]);
            assert(contains_edge(edges, p[i + 1], p[i]));
        } else {
            assert(q[i] == p.last() && q[i + 1] == a);
        }
    }
}

/// Walking up from `t` reaches `x` exactly when walking down from `x` reaches `t`.
pub proof fn lemma_ancestor_iff_descendant(edges: Seq<EdgeView>, x: Seq<char>, t: Seq<char>)
    ensures
        ancestor(edges, t, x) <==> descendant(edges, x, t),
{
    if descendant(edges, x, t) {
        let p = choose|p: Seq<Seq<char>>|
            p.len() >= 2 && p[0] == x && p.last() == t && #[trigger] is_down_path(edges, p);
        let q = p.reverse();
        assert forall|i: int| 0 <= i < q.len() - 1 implies #[trigger] contains_edge(edges, q[i + 1], q[i]) by {
            let j = p.len() - 2 - i;
            assert(q[i + 1] == p[j] && q[i] == p[j + 1]);
            assert(contains_edge(edges, p[j], p[j + 1]));
        }
        assert(is_up_path(edges, q));
        assert(q[0] == t && q.last() == x);
    }
    if ancestor(edges, t, x) {
        let p = choose|p: Seq<Seq<char>>|
            p.len() >= 2 && p[0] == t && p.last() == x && #[trigger] is_up_path(edges, p);
        let q = p.reverse();
        assert forall|i: int| 0 <= i < q.len() - 1 implies #[trigger] contains_edge(edges, q[i], q[i + 1]) by {
            let j = p.len() - 2 - i;
            assert(q[i + 1] == p[j] && q[i] == p[j + 1]);
            assert(contains_edge(edges, p[j + 1], p[j]));
        }
        assert(is_down_path(edges, q));
        assert(q[0] == x && q.last() == t);
    }
}

pub open spec fn in_views(v: Seq<String>, s: Seq<char>) -> bool {
    exists|i: int| 0 <= i < v.len() && v[i]@ == s
}

fn member(v: &Vec<String>, s: &String) -> (r: bool)
    ensures
        r == in_views(v@, s@),
{
    let mut i: usize = 0;
    while i < v.len()
        invariant
            i <= v@.len(),
            forall|k: int| 0 <= k < i ==> v@[k]@ != s@,
        decreases v@.len() - i,
    {
        if v[i] == *s {
            return true;
        }
        i += 1;
    }
    false
}

/// The end of an edge a walk reaches: its target going down, its source going up.
spec fn step_end(e: EdgeView, up: bool) -> Seq<char> {
    if up {
        e.source
    } else {
        e.target
    }
}

/// The end of an edge a walk leaves from.
spec fn step_start(e: EdgeView, up: bool) -> Seq<char> {
    if up {
        e.target
    } else {
        e.source
    }
}

pub open spec fn reach(edges: Seq<EdgeView>, x: Seq<char>, t: Seq<char>, up: bool) -> bool {
    if up {
        ancestor(edges, x, t)
    } else {
        descendant(edges, x, t)
    }
}

/// Uncovered edges in the walking direction: those whose far end is not yet collected.
spec fn uncovered_dir(edges: Seq<EdgeView>, r: Seq<String>, up: bool) -> nat
    decreases edges.len(),
{
    if edges.len() == 0 {
        0
    } else {
        uncovered_dir(edges.drop_last(), r, up) + if in_views(r, step_end(edges.last(), up)) {
            0nat
        } else {
            1nat
        }
    }
}

proof fn lemma_uncovered_dir_mono(edges: Seq<EdgeView>, r: Seq<String>, r2: Seq<String>, up: bool)
    requires
        forall|s: Seq<char>| in_views(r, s) ==> in_views(r2, s),
    ensures
        uncovered_dir(edges, r2, up) <= uncovered_dir(edges, r, up),
    decreases edges.len(),
{
    if edges.len() > 0 {
        lemma_uncovered_dir_mono(edges.drop_last(), r, r2, up);
    }
}

proof fn lemma_uncovered_dir_drop(edges: Seq<EdgeView>, r: Seq<String>, r2: Seq<String>, up: bool, j: int)
    requires
        forall|s: Seq<char>| in_views(r, s) ==> in_views(r2, s),
        0 <= j < edges.len(),
        !in_views(r, step_end(edges[j], up)),
        in_views(r2, step_end(edges[j], up)),
    ensures
        uncovered_dir(edges, r2, up) < uncovered_dir(edges, r, up),
    decreases edges.len(),
{
    let d = edges.drop_last();
    if j == edges.len() - 1 {
        lemma_uncovered_dir_mono(d, r, r2, up);
    } else {
        assert(d[j] == edges[j]);
        lemma_uncovered_dir_drop(d, r, r2, up, j);
    }
}

/// Every node on a walk from the start stays within a set closed under the walk's edges.
proof fn lemma_closed_reach(edges: Seq<EdgeView>, x: Seq<char>, r: Seq<String>, up: bool, p: Seq<Seq<char>>, k: int)
    requires
        forall|i: int|
            0 <= i < edges.len() && edges[i].kind == EdgeKind::Contains && (step_start(edges[i], up) == x
                || in_views(r, step_start(edges[i], up))) ==> in_views(r, #[trigger] step_end(edges[i], up)),
        p.len() >= 2,
        p[0] == x,
        up ==> is_up_path(edges, p),
        !up ==> is_down_path(edges, p),
        1 <= k < p.len(),
    ensures
        in_views(r, p[k]),
    decreases k,
{
    if up {
        let j = k - 1;
        assert(contains_edge(edges, p[j + 1], p[j]));
        let i = choose|i: int|
            0 <= i < edges.len() && edges[i].kind == EdgeKind::Contains && edges[i].source == p[k]
                && edges[i].target == p[k - 1];
        if k > 1 {
            lemma_closed_reach(edges, x, r, up, p, k - 1);
        }
        assert(step_end(edges[i], up) == p[k]);
    } else {
        let j = k - 1;
        assert(contains_edge(edges, p[j], p[j + 1]));
        let i = choose|i: int|
            0 <= i < edges.len() && edges[i].kind == EdgeKind::Contains && edges[i].source == p[k - 1]
                && edges[i].target == p[k];
        if k > 1 {
            lemma_closed_reach(edges, x, r, up, p, k - 1);
        }
        assert(step_end(edges[i], up) == p[k]);
    }
}

/// Collects every node reachable from `x` along contains edges, downward or (with `up`)
/// upward.
fn collect_reachable(edges: &Vec<Edge>, x: &String, up: bool) -> (r: Vec<String>)
    ensures
        forall|t: Seq<char>| in_views(r@, t) <==> reach(edge_views(edges@), x@, t, up),
{
    let ghost ev = edge_views(edges@);
    let mut r: Vec<String> = Vec::new();
    loop
        invariant
            ev == edge_views(edges@),
            forall|t: Seq<char>| in_views(r@, t) ==> reach(ev, x@, t, up),
        decreases uncovered_dir(ev, r@, up),
    {
        let ghost r0 = r@;
        let mut changed = false;
        let mut i: usize = 0;
        while i < edges.len()
            invariant
                i <= edges@.len(),
                ev == edge_views(edges@),
                forall|t: Seq<char>| in_views(r@, t) ==> reach(ev, x@, t, up),
                forall|s: Seq<char>| in_views(r0, s) ==> in_views(r@, s),
                changed ==> uncovered_dir(ev, r@, up) < uncovered_dir(ev, r0, up),
                !changed ==> r@ == r0,
                forall|j: int|
                    0 <= j < i && ev[j].kind == EdgeKind::Contains && (step_start(ev[j], up) == x@
                        || in_views(r0, step_start(ev[j], up))) ==> in_views(r@, #[trigger] step_end(ev[j], up)),
            decreases edges@.len() - i,
        {
            let e = &edges[i];
            assert(ev[i as int] == e@);
            let (from, to) = if up {
                (&e.target, &e.source)
            } else {
                (&e.source, &e.target)
            };
            if e.kind == EdgeKind::Contains && (*from == *x || member(&r, from)) && !member(&r, to) {
                let ghost before = r@;
                proof {
                    // the new node is reachable through `from`
                    if up {
                        assert(contains_edge(ev, e@.source, e@.target));
                        if e@.target == x@ {
                            let p = seq![x@, e@.source];
                            assert(is_up_path(ev, p)) by {
                                assert forall|k: int| 0 <= k < p.len() - 1 implies #[trigger] contains_edge(ev, p[k + 1], p[k]) by {
                                    assert(k == 0);
                                }
                            }
                            assert(p.last() == e@.source);
                        } else {
                            let bi = choose|bi: int| 0 <= bi < before.len() && before[bi]@ == e@.target;
                            assert(reach(ev, x@, before[bi]@, up));
                            let p = choose|p: Seq<Seq<char>>|
                                p.len() >= 2 && p[0] == x@ && p.last() == e@.target && #[trigger] is_up_path(ev, p);
                            lemma_path_extend_up(ev, p, e@.source);
                            assert(p.push(e@.source)[0] == x@);
                        }
                    } else {
                        assert(contains_edge(ev, e@.source, e@.target));
                        if e@.source == x@ {
                            let p = seq![x@, e@.target];
                            assert(is_down_path(ev, p)) by {
                                assert forall|k: int| 0 <= k < p.len() - 1 implies #[trigger] contains_edge(ev, p[k], p[k + 1]) by {
                                    assert(k == 0);
                                }
                            }
                            assert(p.last() == e@.target);
                        } else {
                            let bi = choose|bi: int| 0 <= bi < before.len() && before[bi]@ == e@.source;
                            assert(reach(ev, x@, before[bi]@, up));
                            let p = choose|p: Seq<Seq<char>>|
                                p.len() >= 2 && p[0] == x@ && p.last() == e@.source && #[trigger] is_down_path(ev, p);
                            lemma_path_extend_down(ev, p, e@.target);
                            assert(p.push(e@.target)[0] == x@);
                        }
                    }
                }
                assert(reach(ev, x@, to@, up));
                r.push(to.clone());
                proof {
                    assert(r@[r@.len() - 1]@ == step_end(ev[i as int], up));
                    assert forall|s: Seq<char>| in_views(before, s) implies in_views(r@, s) by {
                        let k = choose|k: int| 0 <= k < before.len() && before[k]@ == s;
                        assert(r@[k] == before[k]);
                    }
                    assert forall|t: Seq<char>| in_views(r@, t) implies reach(ev, x@, t, up) by {
                        let k = choose|k: int| 0 <= k < r@.len() && r@[k]@ == t;
                        if k < before.len() {
                            assert(r@[k] == before[k]);
                            assert(in_views(before, t));
                        } else {
                            assert(r@[k]@ == to@);
                        }
                    }
                    assert(!in_views(r0, step_end(ev[i as int], up)));
                    lemma_uncovered_dir_drop(ev, r0, r@, up, i as int);
                    assert forall|j: int|
                        0 <= j < i + 1 && ev[j].kind == EdgeKind::Contains && (step_start(ev[j], up) == x@
                            || in_views(r0, step_start(ev[j], up))) implies in_views(r@, #[trigger] step_end(ev[j], up)) by {
                        if j < i {
                            let k = choose|k: int| 0 <= k < before.len() && before[k]@ == step_end(ev[j], up);
                            assert(r@[k] == before[k]);
                        }
                    }
                }
                changed = true;
            } else {
                proof {
                    if ev[i as int].kind == EdgeKind::Contains && (step_start(ev[i as int], up) == x@
                        || in_views(r0, step_start(ev[i as int], up))) {
                        assert(in_views(r@, step_start(ev[i as int], up)) || step_start(ev[i as int], up) == x@);
                        assert(in_views(r@, step_end(ev[i as int], up)));
                    }
                }
            }
            i += 1;
        }
        if !changed {
            proof {
                assert forall|t: Seq<char>| reach(ev, x@, t, up) implies in_views(r@, t) by {
                    assert(r0 == r@);
                    if up {
                        let p = choose|p: Seq<Seq<char>>|
                            p.len() >= 2 && p[0] == x@ && p.last() == t && #[trigger] is_up_path(ev, p);
                        lemma_closed_reach(ev, x@, r@, up, p, p.len() - 1);
                    } else {
                        let p = choose|p: Seq<Seq<char>>|
                            p.len() >= 2 && p[0] == x@ && p.last() == t && #[trigger] is_down_path(ev, p);
                        lemma_closed_reach(ev, x@, r@, up, p, p.len() - 1);
                    }
                }
            }
            return r;
        }
    }
}


fn edge_exists(edges: &Vec<Edge>, k: EdgeKind, s: &String, t: &String) -> (r: bool)
    ensures
        r == edge_from(edge_views(edges@), k, s@, t@),
{
    let ghost ev = edge_views(edges@);
    let mut i: usize = 0;
    while i < edges.len()
        invariant
            i <= edges@.len(),
            ev == edge_views(edges@),
            forall|j: int| 0 <= j < i ==> !(ev[j].kind == k && ev[j].source == s@ && ev[j].target == t@),
        decreases edges@.len() - i,
    {
        assert(ev[i as int] == edges@[i as int]@);
        if edges[i].kind == k && edges[i].source == *s && edges[i].target == *t {
            return true;
        }
        i += 1;
    }
    false
}

fn is_target_exec(edges: &Vec<Edge>, t: &String) -> (r: bool)
    ensures
        r == is_target(edge_views(edges@), t@),
{
    let ghost ev = edge_views(edges@);
    let mut i: usize = 0;
    while i < edges.len()
        invariant
            i <= edges@.len(),
            ev == edge_views(edges@),
            forall|j: int| 0 <= j < i ==> ev[j].target != t@,
        decreases edges@.len() - i,
    {
        assert(ev[i as int] == edges@[i as int]@);
        if edges[i].target == *t {
            return true;
        }
        i += 1;
    }
    false
}

fn is_candidate(g: &Graph, t: &Traversal, reached: &Vec<String>, id: &String) -> (r: bool)
    requires
        t@ is Descendants ==> forall|s: Seq<char>|
            in_views(reached@, s) <==> reach(g@.edges, t@->Descendants_0, s, false),
        t@ is Ancestors ==> forall|s: Seq<char>|
            in_views(reached@, s) <==> reach(g@.edges, t@->Ancestors_0, s, true),
    ensures
        r == candidate(g@, t@, id@),
{
    match t {
        Traversal::All => true,
        Traversal::Roots => !is_target_exec(&g.edges, id),
        Traversal::Children(x) => edge_exists(&g.edges, EdgeKind::Contains, x, id),
        Traversal::Descendants(_) => member(reached, id),
        Traversal::Ancestors(_) => member(reached, id),
        Traversal::References(x) => edge_exists(&g.edges, EdgeKind::References, x, id),
        Traversal::ReferencedBy(x) => edge_exists(&g.edges, EdgeKind::References, id, x),
        Traversal::Next(x) => edge_exists(&g.edges, EdgeKind::Sequence, x, id),
    }
}

fn all_filters_match(filters: &[Filter], n: &Node) -> (r: bool)
    ensures
        r == all_match(filter_views(filters@), n@),
{
    let mut k: usize = 0;
    while k < filters.len()
        invariant
            k <= filters@.len(),
            forall|j: int| 0 <= j < k ==> filter_matches(#[trigger] filter_views(filters@)[j], n@),
        decreases filters@.len() - k,
    {
        if !filters[k].matches(n) {
            assert(!filter_matches(filter_views(filters@)[k as int], n@));
            return false;
        }
        k += 1;
    }
    true
}

fn id_kept(kept: &Vec<Node>, id: &String) -> (r: bool)
    ensures
        r == node_id_in(node_views(kept@), id@),
{
    let mut i: usize = 0;
    while i < kept.len()
        invariant
            i <= kept@.len(),
            forall|j: int| 0 <= j < i ==> node_views(kept@)[j].id != id@,
        decreases kept@.len() - i,
    {
        assert(node_views(kept@)[i as int].id == kept@[i as int].id@);
        if kept[i].id == *id {
            return true;
        }
        i += 1;
    }
    false
}

/// Runs a query: the traversal's candidates, kept when every filter matches, and the
/// edges between kept nodes.
pub fn execute(graph: &Graph, traversal: &Traversal, filters: &[Filter]) -> (r: Graph)
    ensures
        r@ == query_spec(graph@, traversal@, filter_views(filters@)),
{
    let reached = match traversal {
        Traversal::Descendants(x) => collect_reachable(&graph.edges, x, false),
        Traversal::Ancestors(x) => collect_reachable(&graph.edges, x, true),
        _ => Vec::new(),
    };
    let ghost gv = graph@;
    let ghost fv = filter_views(filters@);
    let mut nodes: Vec<Node> = Vec::new();
    let mut i: usize = 0;
    while i < graph.nodes.len()
        invariant
            i <= graph.nodes@.len(),
            gv == graph@,
            fv == filter_views(filters@),
            traversal@ is Descendants ==> forall|s: Seq<char>|
                in_views(reached@, s) <==> reach(gv.edges, traversal@->Descendants_0, s, false),
            traversal@ is Ancestors ==> forall|s: Seq<char>|
                in_views(reached@, s) <==> reach(gv.edges, traversal@->Ancestors_0, s, true),
            node_views(nodes@) == select_nodes(gv, traversal@, fv, gv.nodes.take(i as int)),
        decreases graph.nodes@.len() - i,
    {
        assert(gv.nodes.take(i + 1).drop_last() =~= gv.nodes.take(i as int));
        assert(gv.nodes.take(i + 1).last() == graph.nodes@[i as int]@);
        let n = &graph.nodes[i];
        if is_candidate(graph, traversal, &reached, &n.id) && all_filters_match(filters, n) {
            let ghost before = nodes@;
            let d = n.duplicate();
            nodes.push(d);
            assert(node_views(nodes@) =~= node_views(before).push(n@));
        }
        i += 1;
    }
    assert(gv.nodes.take(gv.nodes.len() as int) =~= gv.nodes);
    let ghost kept = node_views(nodes@);
    let mut edges: Vec<Edge> = Vec::new();
    let mut j: usize = 0;
    while j < graph.edges.len()
        invariant
            j <= graph.edges@.len(),
            gv == graph@,
            kept == node_views(nodes@),
            edge_views(edges@) == prune_edges(gv.edges.take(j as int), kept),
        decreases graph.edges@.len() - j,
    {
        assert(gv.edges.take(j + 1).drop_last() =~= gv.edges.take(j as int));
        assert(gv.edges.take(j + 1).last() == graph.edges@[j as int]@);
        let e = &graph.edges[j];
        if id_kept(&nodes, &e.source) && id_kept(&nodes, &e.target) {
            let ghost before = edges@;
            edges.push(e.duplicate());
            assert(edge_views(edges@) =~= edge_views(before).push(e@));
        }
        j += 1;
    }
    assert(gv.edges.take(gv.edges.len() as int) =~= gv.edges);
    Graph { nodes, edges }
}


/// Pruned edges join kept nodes only.
pub proof fn lemma_prune_edges_closed(edges: Seq<EdgeView>, keep: Seq<NodeView>)
    ensures
        forall|i: int| 0 <= i < prune_edges(edges, keep).len() ==> node_id_in(keep, #[trigger] prune_edges(edges, keep)[i].source)
            && node_id_in(keep, prune_edges(edges, keep)[i].target),
    decreases edges.len(),
{
    if edges.len() > 0 {
        lemma_prune_edges_closed(edges.drop_last(), keep);
        let r = prune_edges(edges.drop_last(), keep);
        assert forall|i: int| 0 <= i < prune_edges(edges, keep).len() implies node_id_in(keep, #[trigger] prune_edges(edges, keep)[i].source)
            && node_id_in(keep, prune_edges(edges, keep)[i].target) by {
            if i < r.len() {
                assert(prune_edges(edges, keep)[i] == r[i]);
            }
        }
    }
}

proof fn lemma_select_nodes(g: GraphView, t: TraversalView, fs: Seq<FilterView>, nodes: Seq<NodeView>)
    ensures
        forall|i: int| 0 <= i < select_nodes(g, t, fs, nodes).len() ==> selected(g, t, fs, #[trigger] select_nodes(g, t, fs, nodes)[i])
            && nodes.contains(select_nodes(g, t, fs, nodes)[i]),
    decreases nodes.len(),
{
    if nodes.len() > 0 {
        let d = nodes.drop_last();
        lemma_select_nodes(g, t, fs, d);
        let r = select_nodes(g, t, fs, d);
        assert forall|i: int| 0 <= i < select_nodes(g, t, fs, nodes).len() implies selected(g, t, fs, #[trigger] select_nodes(g, t, fs, nodes)[i])
            && nodes.contains(select_nodes(g, t, fs, nodes)[i]) by {
            if i < r.len() {
                assert(select_nodes(g, t, fs, nodes)[i] == r[i]);
                let k = choose|k: int| 0 <= k < d.len() && d[k] == r[i];
                assert(nodes[k] == d[k]);
            } else {
                assert(nodes[nodes.len() - 1] == nodes.last());
            }
        }
    }
}

/// A query keeps only nodes of the graph that its traversal reaches and that every
/// filter matches, and only edges whose two ends it keeps.
pub proof fn lemma_query_result_shape(g: GraphView, t: TraversalView, fs: Seq<FilterView>)
    ensures
        forall|i: int| 0 <= i < query_spec(g, t, fs).nodes.len() ==> g.nodes.contains(#[trigger] query_spec(g, t, fs).nodes[i])
            && candidate(g, t, query_spec(g, t, fs).nodes[i].id) && all_match(fs, query_spec(g, t, fs).nodes[i]),
        forall|i: int| 0 <= i < query_spec(g, t, fs).edges.len() ==> node_id_in(query_spec(g, t, fs).nodes, #[trigger] query_spec(g, t, fs).edges[i].source)
            && node_id_in(query_spec(g, t, fs).nodes, query_spec(g, t, fs).edges[i].target),
{
    lemma_select_nodes(g, t, fs, g.nodes);
    let keep = select_nodes(g, t, fs, g.nodes);
    lemma_prune_edges_closed(g.edges, keep);
    let q = query_spec(g, t, fs);
    assert forall|i: int| 0 <= i < q.edges.len() implies node_id_in(q.nodes, #[trigger] q.edges[i].source)
        && node_id_in(q.nodes, q.edges[i].target) by {
        assert(q.edges[i] == prune_edges(g.edges, keep)[i]);
        assert(q.nodes == keep);
        assert(node_id_in(keep, prune_edges(g.edges, keep)[i].source));
    }
}

proof fn lemma_select_is_filter(g: GraphView, t: TraversalView, fs: Seq<FilterView>, nodes: Seq<NodeView>)
    ensures
        select_nodes(g, t, fs, nodes) == nodes.filter(|n: NodeView| selected(g, t, fs, n)),
    decreases nodes.len(),
{
    reveal(Seq::filter);
    if nodes.len() > 0 {
        lemma_select_is_filter(g, t, fs, nodes.drop_last());
    }
}

proof fn lemma_prune_is_filter(edges: Seq<EdgeView>, keep: Seq<NodeView>)
    ensures
        prune_edges(edges, keep) == edges.filter(|e: EdgeView| node_id_in(keep, e.source) && node_id_in(keep, e.target)),
    decreases edges.len(),
{
    reveal(Seq::filter);
    if edges.len() > 0 {
        lemma_prune_is_filter(edges.drop_last(), keep);
    }
}

/// A query keeps, in graph order, exactly the nodes that its traversal reaches (all,
/// roots, children, descendants, ancestors, references, referrers or next) and that
/// every filter matches, and, in graph order, exactly the edges whose two ends it keeps.
pub proof fn lemma_query_filters(g: GraphView, t: TraversalView, fs: Seq<FilterView>)
    ensures
        query_spec(g, t, fs).nodes == g.nodes.filter(|n: NodeView| candidate(g, t, n.id) && all_match(fs, n)),
        query_spec(g, t, fs).edges == g.edges.filter(
            |e: EdgeView| node_id_in(query_spec(g, t, fs).nodes, e.source) && node_id_in(query_spec(g, t, fs).nodes, e.target),
        ),
{
    lemma_select_is_filter(g, t, fs, g.nodes);
    assert((|n: NodeView| selected(g, t, fs, n)) == (|n: NodeView| candidate(g, t, n.id) && all_match(fs, n)));
    lemma_prune_is_filter(g.edges, query_spec(g, t, fs).nodes);
}

} // verus!
