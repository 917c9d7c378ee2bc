//! The context of a node: its ancestors, children, linked detail documents, and a rough
//! token count of those documents.

use vstd::prelude::*;

use crate::graph::{edge_views, node_views, status_of, EdgeKind, EdgeView, Graph, GraphView, Node, NodeKind, NodeView};
use crate::ops::update::first_with_id;
use crate::scan::markdown::{decimal, decimal_of, slugify, slugify_spec};
use crate::text::{
    chars_of, ends_with, ends_with_s, extend, join_s, rsplit_once, rsplit_once_s,
    seq_eq, split_once, split_once_s, string_of,
};

verus! {

/// The status recorded on a node.
pub fn node_status(node: &Node) -> (r: Option<String>)
    ensures
        crate::graph::opt_str_view(r) == status_of(node@),
{
    match node.status() {
        Some(s) => Some(s.clone()),
        None => None,
    }
}

/// CJK ideographs (unified and extension A), CJK symbols and punctuation, and full-width
/// forms.
pub open spec fn is_cjk_spec(c: char) -> bool {
    ('\u{4E00}' <= c && c <= '\u{9FFF}') || ('\u{3400}' <= c && c <= '\u{4DBF}') || ('\u{3000}' <= c
        && c <= '\u{303F}') || ('\u{FF00}' <= c && c <= '\u{FFEF}')
}

pub fn is_cjk(c: char) -> (r: bool)
    ensures
        r == is_cjk_spec(c),
{
    ('\u{4E00}' <= c && c <= '\u{9FFF}') || ('\u{3400}' <= c && c <= '\u{4DBF}') || ('\u{3000}' <= c
        && c <= '\u{303F}') || ('\u{FF00}' <= c && c <= '\u{FFEF}')
}

/// The bytes a character takes in UTF-8.
pub open spec fn utf8_len(c: char) -> nat {
    if c <= '\u{7F}' {
        1
    } else if c <= '\u{7FF}' {
        2
    } else if c <= '\u{FFFF}' {
        3
    } else {
        4
    }
}

/// The number of CJK characters of a text.
pub open spec fn cjk_count(s: Seq<char>) -> nat
    decreases s.len(),
{
    if s.len() == 0 {
        0
    } else {
        cjk_count(s.drop_last()) + if is_cjk_spec(s.last()) {
            1nat
        } else {
            0nat
        }
    }
}

/// The UTF-8 bytes of the characters of a text that are not CJK.
pub open spec fn other_bytes(s: Seq<char>) -> nat
    decreases s.len(),
{
    if s.len() == 0 {
        0
    } else {
        other_bytes(s.drop_last()) + if is_cjk_spec(s.last()) {
            0nat
        } else {
            utf8_len(s.last())
        }
    }
}

/// A rough token estimate: one token per CJK character, and one per 4 bytes (rounded up)
/// of the other text.
pub open spec fn estimate_tokens_spec(s: Seq<char>) -> nat {
    cjk_count(s) + (other_bytes(s) + 3) / 4
}

fn utf8_len_exec(c: char) -> (r: u8)
    ensures
        r as nat == utf8_len(c),
{
    if c <= '\u{7F}' {
        1
    } else if c <= '\u{7FF}' {
        2
    } else if c <= '\u{FFFF}' {
        3
    } else {
        4
    }
}

/// Rough token estimate: ~1 token per 4 bytes for ASCII, CJK chars count individually.
pub fn estimate_tokens(text: &str) -> (r: usize)
    ensures
        r == estimate_tokens_spec(text@),
{
    let cs = chars_of(text);
    let mut cjk: usize = 0;
    let mut bytes: u128 = 0;
    let mut i: usize = 0;
    while i < cs.len()
        invariant
            i <= cs@.len(),
            cs@ == text@,
            cjk == cjk_count(cs@.take(i as int)),
            bytes == other_bytes(cs@.take(i as int)),
            cjk <= i,
            bytes <= 4 * (i - cjk),
        decreases cs@.len() - i,
    {
        assert(cs@.take(i + 1).drop_last() =~= cs@.take(i as int));
        assert(cs@.take(i + 1).last() == cs@[i as int]);
        let c = cs[i];
        if is_cjk(c) {
            cjk = cjk + 1;
        } else {
            bytes = bytes + utf8_len_exec(c) as u128;
        }
        i += 1;
    }
    assert(cs@.take(cs@.len() as int) =~= cs@);
    let others = i - cjk;
    assert((bytes + 3) / 4 <= others) by (nonlinear_arith)
        requires
            bytes <= 4 * others,
    ;
    let rest = ((bytes + 3) / 4) as usize;
    cjk + rest
}

/// The source of the first contains edge into `id`.
pub open spec fn parent_of(edges: Seq<EdgeView>, id: Seq<char>) -> Option<Seq<char>>
    decreases edges.len(),
{
    if edges.len() == 0 {
        None
    } else {
        match parent_of(edges.drop_last(), id) {
            Some(p) => Some(p),
            None => if edges.last().kind == EdgeKind::Contains && edges.last().target == id {
                Some(edges.last().source)
            } else {
                None
            },
        }
    }
}

/// The chain of parents from `id` upward, nearest first, at most `fuel` of them.
pub open spec fn parent_chain(g: GraphView, id: Seq<char>, fuel: nat) -> Seq<NodeView>
    decreases fuel,
{
    if fuel == 0 {
        Seq::empty()
    } else {
        match parent_of(g.edges, id) {
            None => Seq::empty(),
            Some(src) => match first_with_id(g.nodes, src) {
                None => Seq::empty(),
                Some(n) => seq![n] + parent_chain(g, n.id, (fuel - 1) as nat),
            },
        }
    }
}

/// The ancestors of a node, root first. The walk stops after as many steps as the graph
/// has nodes, which only a cycle of contains edges reaches.
pub open spec fn ancestors_spec(g: GraphView, id: Seq<char>) -> Seq<NodeView> {
    parent_chain(g, id, g.nodes.len()).reverse()
}

fn parent_exec(edges: &Vec<crate::graph::Edge>, id: &String) -> (r: Option<String>)
    ensures
        crate::graph::opt_str_view(r) == parent_of(edge_views(edges@), id@),
{
    let ghost ev = edge_views(edges@);
    let mut i: usize = 0;
    while i < edges.len()
        invariant
            i <= edges@.len(),
            ev == edge_views(edges@),
            parent_of(ev.take(i as int), id@) is None,
        decreases edges@.len() - i,
    {
        assert(ev.take(i + 1).drop_last() =~= ev.take(i as int));
        assert(ev.take(i + 1).last() == edges@[i as int]@);
        if edges[i].kind == EdgeKind::Contains && edges[i].target == *id {
            proof {
                lemma_parent_prefix(ev, id@, i + 1);
            }
            return Some(edges[i].source.clone());
        }
        i += 1;
    }
    assert(ev.take(ev.len() as int) =~= ev);
    None
}

proof fn lemma_parent_prefix(edges: Seq<EdgeView>, id: Seq<char>, k: int)
    requires
        0 <= k <= edges.len(),
        parent_of(edges.take(k), id) is Some,
    ensures
        parent_of(edges, id) == parent_of(edges.take(k), id),
    decreases edges.len() - k,
{
    if k < edges.len() {
        assert(edges.take(k + 1).drop_last() =~= edges.take(k));
        lemma_parent_prefix(edges, id, k + 1);
    } else {
        assert(edges.take(k) =~= edges);
    }
}

fn first_node(nodes: &Vec<Node>, id: &String) -> (r: Option<usize>)
    ensures
        match r {
            Some(i) => i < nodes@.len() && first_with_id(node_views(nodes@), id@) == Some(nodes@[i as int]@),
            None => first_with_id(node_views(nodes@), id@) is None,
        },
{
    let ghost nv = node_views(nodes@);
    let mut i: usize = 0;
    while i < nodes.len()
        invariant
            i <= nodes@.len(),
            nv == node_views(nodes@),
            first_with_id(nv.take(i as int), id@) is None,
        decreases nodes@.len() - i,
    {
        assert(nv.take(i + 1).drop_last() =~= nv.take(i as int));
        assert(nv.take(i + 1).last() == nodes@[i as int]@);
        if nodes[i].id == *id {
            proof {
                lemma_first_prefix(nv, id@, i + 1);
            }
            return Some(i);
        }
        i += 1;
    }
    assert(nv.take(nv.len() as int) =~= nv);
    None
}

proof fn lemma_first_prefix(nodes: Seq<NodeView>, id: Seq<char>, k: int)
    requires
        0 <= k <= nodes.len(),
        first_with_id(nodes.take(k), id) is Some,
    ensures
        first_with_id(nodes, id) == first_with_id(nodes.take(k), id),
    decreases nodes.len() - k,
{
    if k < nodes.len() {
        assert(nodes.take(k + 1).drop_last() =~= nodes.take(k));
        lemma_first_prefix(nodes, id, k + 1);
    } else {
        assert(nodes.take(k) =~= nodes);
    }
}

proof fn lemma_first_with_id_id(nodes: Seq<NodeView>, id: Seq<char>)
    ensures
        first_with_id(nodes, id) matches Some(n) ==> n.id == id,
    decreases nodes.len(),
{
    if nodes.len() > 0 {
        lemma_first_with_id_id(nodes.drop_last(), id);
    }
}

/// There is a contains edge from `a` to `b`.
pub open spec fn contains_edge(edges: Seq<EdgeView>, a: Seq<char>, b: Seq<char>) -> bool {
    exists|i: int| 0 <= i < edges.len() && #[trigger] edges[i] == EdgeView { source: a, target: b, kind: EdgeKind::Contains }
}

proof fn lemma_parent_of_edge(edges: Seq<EdgeView>, id: Seq<char>)
    ensures
        parent_of(edges, id) matches Some(p) ==> contains_edge(edges, p, id),
    decreases edges.len(),
{
    if edges.len() > 0 {
        let r = edges.drop_last();
        lemma_parent_of_edge(r, id);
        match parent_of(r, id) {
            Some(p) => {
                let i = choose|i: int| 0 <= i < r.len() && #[trigger] r[i] == EdgeView { source: p, target: id, kind: EdgeKind::Contains };
                assert(edges[i] == r[i]);
            },
            None => {
                if edges.last().kind == EdgeKind::Contains && edges.last().target == id {
                    let e = edges.last();
                    assert(edges[edges.len() - 1] == EdgeView { source: e.source, target: id, kind: EdgeKind::Contains });
                }
            },
        }
    }
}

proof fn lemma_chain_linked(g: GraphView, id: Seq<char>, fuel: nat)
    ensures
        forall|k: int| 0 <= k < parent_chain(g, id, fuel).len() ==> contains_edge(
            g.edges,
            #[trigger] parent_chain(g, id, fuel)[k].id,
            if k == 0 {
                id
            } else {
                parent_chain(g, id, fuel)[k - 1].id
            },
        ),
    decreases fuel,
{
    if fuel > 0 {
        lemma_parent_of_edge(g.edges, id);
        match parent_of(g.edges, id) {
            None => {},
            Some(src) => {
                lemma_first_with_id_id(g.nodes, src);
                match first_with_id(g.nodes, src) {
                    None => {},
                    Some(n) => {
                        let rest = parent_chain(g, n.id, (fuel - 1) as nat);
                        lemma_chain_linked(g, n.id, (fuel - 1) as nat);
                        let c = parent_chain(g, id, fuel);
                        assert(c == seq![n] + rest);
                        assert forall|k: int| 0 <= k < c.len() implies contains_edge(
                            g.edges,
                            #[trigger] c[k].id,
                            if k == 0 {
                                id
                            } else {
                                c[k - 1].id
                            },
                        ) by {
                            if k > 0 {
                                assert(c[k] == rest[k - 1]);
                                if k > 1 {
                                    assert(c[k - 1] == rest[k - 2]);
                                }
                            }
                        }
                    },
                }
            },
        }
    }
}

/// The ancestors run root first down to the node: each contains the next, and the last
/// contains the node itself.
pub proof fn lemma_ancestors_linked(g: GraphView, id: Seq<char>)
    ensures
        forall|k: int| 0 <= k < ancestors_spec(g, id).len() - 1 ==> contains_edge(
            g.edges,
            #[trigger] ancestors_spec(g, id)[k].id,
            ancestors_spec(g, id)[k + 1].id,
        ),
        ancestors_spec(g, id).len() > 0 ==> contains_edge(g.edges, ancestors_spec(g, id).last().id, id),
{
    let c = parent_chain(g, id, g.nodes.len());
    let a = ancestors_spec(g, id);
    lemma_chain_linked(g, id, g.nodes.len());
    assert forall|k: int| 0 <= k < a.len() - 1 implies contains_edge(g.edges, #[trigger] a[k].id, a[k + 1].id) by {
        let j = c.len() - 1 - k;
        assert(a[k] == c[j]);
        assert(a[k + 1] == c[j - 1]);
        assert(contains_edge(g.edges, c[j].id, c[j - 1].id));
    }
    if a.len() > 0 {
        assert(a.last() == c[0]);
        assert(contains_edge(g.edges, c[0].id, id));
    }
}

/// Walks contains edges upward to build the ancestor chain, root first.
pub fn ancestors(id: &str, graph: &Graph) -> (r: Vec<Node>)
    ensures
        node_views(r@) == ancestors_spec(graph@, id@),
{
    let ghost g = graph@;
    let mut chain: Vec<Node> = Vec::new();
    let mut current = String::from_str(id);
    let mut fuel = graph.nodes.len();
    loop
        invariant
            g == graph@,
            fuel <= g.nodes.len(),
            node_views(chain@) + parent_chain(g, current@, fuel as nat) == parent_chain(g, id@, g.nodes.len()),
        ensures
            node_views(chain@) == parent_chain(g, id@, g.nodes.len()),
        decreases fuel,
    {
        if fuel == 0 {
            assert(node_views(chain@) + parent_chain(g, current@, fuel as nat) =~= node_views(chain@));
            break;
        }
        let p = parent_exec(&graph.edges, &current);
        match p {
            None => {
                assert(node_views(chain@) + parent_chain(g, current@, fuel as nat) =~= node_views(chain@));
                break;
            },
            Some(src) => match first_node(&graph.nodes, &src) {
                None => {
                    assert(node_views(chain@) + parent_chain(g, current@, fuel as nat) =~= node_views(chain@));
                    break;
                },
                Some(k) => {
                    let ghost before = node_views(chain@);
                    let n = graph.nodes[k].duplicate();
                    proof {
                        lemma_first_with_id_id(g.nodes, src@);
                    }
                    let ghost rest = parent_chain(g, n@.id, (fuel - 1) as nat);
                    current = n.id.clone();
                    chain.push(n);
                    assert(node_views(chain@) =~= before.push(graph.nodes@[k as int]@));
                    assert(before + (seq![graph.nodes@[k as int]@] + rest) =~= node_views(chain@) + rest);
                    fuel = fuel - 1;
                },
            },
        }
    }
    let ghost fwd = node_views(chain@);
    let mut out: Vec<Node> = Vec::new();
    let mut j = chain.len();
    while j > 0
        invariant
            j <= chain@.len(),
            fwd == node_views(chain@),
            node_views(out@) == fwd.subrange(j as int, fwd.len() as int).reverse(),
        decreases j,
    {
        let ghost before = node_views(out@);
        out.push(chain[j - 1].duplicate());
        assert(node_views(out@) =~= before.push(fwd[j - 1]));
        assert(fwd.subrange(j - 1, fwd.len() as int).reverse() =~= fwd.subrange(j as int, fwd.len() as int).reverse().push(fwd[j - 1]));
        j -= 1;
    }
    assert(fwd.subrange(0, fwd.len() as int) =~= fwd);
    out
}

/// The children of a node: the first node named by each contains edge leaving it.
pub open spec fn children_spec(nodes: Seq<NodeView>, edges: Seq<EdgeView>, id: Seq<char>) -> Seq<NodeView>
    decreases edges.len(),
{
    if edges.len() == 0 {
        Seq::empty()
    } else {
        let r = children_spec(nodes, edges.drop_last(), id);
        let e = edges.last();
        if e.kind == EdgeKind::Contains && e.source == id {
            match first_with_id(nodes, e.target) {
                Some(n) => r.push(n),
                None => r,
            }
        } else {
            r
        }
    }
}

/// The direct children of a node along contains edges.
pub fn children(id: &str, graph: &Graph) -> (r: Vec<Node>)
    ensures
        node_views(r@) == children_spec(graph@.nodes, graph@.edges, id@),
{
    let ghost ev = graph@.edges;
    let target = String::from_str(id);
    let mut out: Vec<Node> = Vec::new();
    let mut i: usize = 0;
    while i < graph.edges.len()
        invariant
            i <= graph.edges@.len(),
            ev == graph@.edges,
            target@ == id@,
            node_views(out@) == children_spec(graph@.nodes, ev.take(i as int), id@),
        decreases graph.edges@.len() - i,
    {
        assert(ev.take(i + 1).drop_last() =~= ev.take(i as int));
        assert(ev.take(i + 1).last() == graph.edges@[i as int]@);
        let e = &graph.edges[i];
        if e.kind == EdgeKind::Contains && e.source == target {
            match first_node(&graph.nodes, &e.target) {
                Some(k) => {
                    let ghost before = node_views(out@);
                    out.push(graph.nodes[k].duplicate());
                    assert(node_views(out@) =~= before.push(graph.nodes@[k as int]@));
                },
                None => {},
            }
        }
        i += 1;
    }
    assert(ev.take(ev.len() as int) =~= ev);
    out
}

/// The file part of an edge target: before its first `#`.
pub open spec fn target_file(t: Seq<char>) -> Seq<char> {
    match split_once_s(t, '#') {
        Some((f, _)) => f,
        None => t,
    }
}

/// The markdown files that reference edges from `id` point to, in edge order.
pub open spec fn ref_md_paths(edges: Seq<EdgeView>, id: Seq<char>) -> Seq<Seq<char>>
    decreases edges.len(),
{
    if edges.len() == 0 {
        Seq::empty()
    } else {
        let r = ref_md_paths(edges.drop_last(), id);
        let e = edges.last();
        if e.kind == EdgeKind::References && e.source == id && ends_with_s(target_file(e.target), ".md"@) {
            r.push(target_file(e.target))
        } else {
            r
        }
    }
}

/// The detail documents that convention gives a node: `roadmap/<slug>.md`, then the same
/// with the slug slugified when that differs.
pub open spec fn fallback_paths(id: Seq<char>) -> Seq<Seq<char>> {
    match rsplit_once_s(id, '#') {
        Some((_, slug)) => seq!["roadmap/"@ + slug + ".md"@] + if slugify_spec(slug) != slug {
            seq!["roadmap/"@ + slugify_spec(slug) + ".md"@]
        } else {
            Seq::empty()
        },
        None => Seq::empty(),
    }
}

/// Every path whose existence decides the linked documents of a node.
pub open spec fn link_candidates_spec(g: GraphView, id: Seq<char>) -> Seq<Seq<char>> {
    ref_md_paths(g.edges, id) + fallback_paths(id)
}

/// The paths that exist, each once, in order.
pub open spec fn existing_once(paths: Seq<Seq<char>>, exists: Seq<bool>) -> Seq<Seq<char>>
    decreases paths.len(),
{
    if paths.len() == 0 {
        Seq::empty()
    } else {
        let r = existing_once(paths.drop_last(), exists);
        let k = paths.len() - 1;
        if exists[k] && !r.contains(paths[k]) {
            r.push(paths[k])
        } else {
            r
        }
    }
}

/// The linked documents: those that reference edges point to and that exist; if none,
/// the first conventional path that exists.
pub open spec fn link_paths_spec(g: GraphView, id: Seq<char>, exists: Seq<bool>) -> Seq<Seq<char>> {
    let refs = ref_md_paths(g.edges, id);
    let found = existing_once(refs, exists);
    if found.len() > 0 {
        found
    } else {
        let fb = fallback_paths(id);
        let n = refs.len() as int;
        if fb.len() >= 1 && exists[n] {
            seq![fb[0]]
        } else if fb.len() >= 2 && exists[n + 1] {
            seq![fb[1]]
        } else {
            Seq::empty()
        }
    }
}

fn lit(s: &str) -> (r: Vec<char>)
    ensures
        r@ == s@,
{
    chars_of(s)
}

fn target_file_exec(t: &String) -> (r: Vec<char>)
    ensures
        r@ == target_file(t@),
{
    let cs = chars_of(t.as_str());
    match split_once(&cs, '#') {
        Some((f, _)) => f,
        None => cs,
    }
}

fn ref_md_exec(edges: &Vec<crate::graph::Edge>, id: &String) -> (r: Vec<Vec<char>>)
    ensures
        crate::text::views(r@) == ref_md_paths(edge_views(edges@), id@),
{
    let ghost ev = edge_views(edges@);
    let mut r: Vec<Vec<char>> = Vec::new();
    let md = lit(".md");
    let mut i: usize = 0;
    while i < edges.len()
        invariant
            i <= edges@.len(),
            ev == edge_views(edges@),
            md@ == ".md"@,
            crate::text::views(r@) == ref_md_paths(ev.take(i as int), id@),
        decreases edges@.len() - i,
    {
        assert(ev.take(i + 1).drop_last() =~= ev.take(i as int));
        assert(ev.take(i + 1).last() == edges@[i as int]@);
        let e = &edges[i];
        if e.kind == EdgeKind::References && e.source == *id {
            let f = target_file_exec(&e.target);
            if ends_with(&f, &md) {
                let ghost before = crate::text::views(r@);
                let ghost fv = f@;
                r.push(f);
                assert(crate::text::views(r@) =~= before.push(fv));
            }
        }
        i += 1;
    }
    assert(ev.take(ev.len() as int) =~= ev);
    r
}

fn fallback_exec(id: &str) -> (r: Vec<Vec<char>>)
    ensures
        crate::text::views(r@) == fallback_paths(id@),
{
    let mut r: Vec<Vec<char>> = Vec::new();
    match rsplit_once(&chars_of(id), '#') {
        Some((_, slug)) => {
            let mut a = lit("roadmap/");
            extend(&mut a, &slug);
            extend(&mut a, &lit(".md"));
            r.push(a);
            let s2 = chars_of(slugify(string_of(&slug).as_str()).as_str());
            if !seq_eq(&s2, &slug) {
                let mut b = lit("roadmap/");
                extend(&mut b, &s2);
                extend(&mut b, &lit(".md"));
                r.push(b);
            }
            assert(crate::text::views(r@) =~= fallback_paths(id@));
        },
        None => {
            assert(crate::text::views(r@) =~= fallback_paths(id@));
        },
    }
    r
}

/// Every path whose existence decides the linked documents of a node, in the order
/// `find_link_paths` expects their existence.
pub fn link_candidates(id: &str, graph: &Graph) -> (r: Vec<String>)
    ensures
        r@.map_values(|s: String| s@) == link_candidates_spec(graph@, id@),
{
    let mut refs = ref_md_exec(&graph.edges, &String::from_str(id));
    let mut fb = fallback_exec(id);
    let ghost a = crate::text::views(refs@);
    let ghost b = crate::text::views(fb@);
    refs.append(&mut fb);
    assert(crate::text::views(refs@) =~= a + b);
    let mut out: Vec<String> = Vec::new();
    let mut i: usize = 0;
    while i < refs.len()
        invariant
            i <= refs@.len(),
            out@.map_values(|s: String| s@) == crate::text::views(refs@).take(i as int),
        decreases refs@.len() - i,
    {
        let ghost before = out@.map_values(|s: String| s@);
        out.push(string_of(&refs[i]));
        assert(out@.map_values(|s: String| s@) =~= before.push(refs@[i as int]@));
        assert(crate::text::views(refs@).take(i + 1) =~= crate::text::views(refs@).take(i as int).push(refs@[i as int]@));
        i += 1;
    }
    assert(crate::text::views(refs@).take(refs@.len() as int) =~= crate::text::views(refs@));
    out
}

fn contains_path(v: &Vec<Vec<char>>, p: &Vec<char>) -> (r: bool)
    ensures
        r == crate::text::views(v@).contains(p@),
{
    let mut i: usize = 0;
    while i < v.len()
        invariant
            i <= v@.len(),
            forall|k: int| 0 <= k < i ==> crate::text::views(v@)[k] != p@,
        decreases v@.len() - i,
    {
        assert(crate::text::views(v@)[i as int] == v@[i as int]@);
        if seq_eq(&v[i], p) {
            return true;
        }
        i += 1;
    }
    false
}

/// The linked markdown documents of a node. `exists[i]` says whether the `i`-th path of
/// `link_candidates` exists.
pub fn find_link_paths(id: &str, graph: &Graph, exists: &Vec<bool>) -> (r: Vec<String>)
    requires
        exists@.len() == link_candidates_spec(graph@, id@).len(),
    ensures
        r@.map_values(|s: String| s@) == link_paths_spec(graph@, id@, exists@),
{
    let refs = ref_md_exec(&graph.edges, &String::from_str(id));
    let ghost rv = crate::text::views(refs@);
    let mut found: Vec<Vec<char>> = Vec::new();
    let mut i: usize = 0;
    while i < refs.len()
        invariant
            i <= refs@.len(),
            rv == crate::text::views(refs@),
            exists@.len() >= refs@.len(),
            crate::text::views(found@) == existing_once(rv.take(i as int), exists@),
        decreases refs@.len() - i,
    {
        assert(rv.take(i + 1).drop_last() =~= rv.take(i as int));
        assert(rv.take(i + 1)[i as int] == refs@[i as int]@);
        if exists[i] && !contains_path(&found, &refs[i]) {
            let ghost before = crate::text::views(found@);
            found.push(crate::text::slice(&refs[i], 0, refs[i].len()));
            assert(refs@[i as int]@.subrange(0, refs@[i as int]@.len() as int) =~= refs@[i as int]@);
            assert(crate::text::views(found@) =~= before.push(refs@[i as int]@));
        }
        i += 1;
    }
    assert(rv.take(rv.len() as int) =~= rv);
    let mut out: Vec<String> = Vec::new();
    if found.len() > 0 {
        let mut k: usize = 0;
        while k < found.len()
            invariant
                k <= found@.len(),
                out@.map_values(|s: String| s@) == crate::text::views(found@).take(k as int),
            decreases found@.len() - k,
        {
            let ghost before = out@.map_values(|s: String| s@);
            out.push(string_of(&found[k]));
            assert(out@.map_values(|s: String| s@) =~= before.push(found@[k as int]@));
            assert(crate::text::views(found@).take(k + 1) =~= crate::text::views(found@).take(k as int).push(found@[k as int]@));
            k += 1;
        }
        assert(crate::text::views(found@).take(found@.len() as int) =~= crate::text::views(found@));
        return out;
    }
    let fb = fallback_exec(id);
    let n = refs.len();
    assert(exists@.len() == refs@.len() + fb@.len());
    let el = exists.len();
    assert(n + fb@.len() == el);
    if fb.len() >= 1 && exists[n] {
        out.push(string_of(&fb[0]));
        assert(crate::text::views(fb@)[0] == fb@[0]@);
    } else if fb.len() >= 2 && exists[n + 1] {
        out.push(string_of(&fb[1]));
        assert(crate::text::views(fb@)[1] == fb@[1]@);
    }
    assert(out@.map_values(|s: String| s@) =~= link_paths_spec(graph@, id@, exists@));
    out
}


/// A linked document as the context shows it: its path, line count and token estimate.
pub struct LinkInfo {
    pub path: String,
    pub lines: usize,
    pub tokens: usize,
}

/// The number of lines of a text, as `str::lines` counts them.
pub fn line_count(content: &str) -> (r: usize)
    ensures
        r == crate::text::lines_s(content@).len(),
{
    crate::text::lines(&chars_of(content)).len()
}

pub open spec fn string_views(v: Seq<String>) -> Seq<Seq<char>> {
    v.map_values(|s: String| s@)
}

pub open spec fn child_line(n: NodeView) -> Seq<char> {
    if n.kind == NodeKind::Task {
        "- ["@ + (if status_of(n) == Some("done"@) {
            "x"@
        } else {
            " "@
        }) + "] "@ + n.label
    } else {
        "  "@ + n.label
    }
}

pub open spec fn link_line(l: (Seq<char>, nat, nat)) -> Seq<char> {
    "  "@ + l.0 + " ("@ + decimal(l.1) + " lines, ~"@ + decimal(l.2) + " tokens)"@
}

pub open spec fn has_task(kids: Seq<NodeView>) -> bool {
    exists|i: int| 0 <= i < kids.len() && kids[i].kind == NodeKind::Task
}

/// The text report of a node's context: title, type and status, ancestor breadcrumb,
/// children (as subtasks when any is a task), and linked documents.
pub open spec fn context_spec(n: NodeView, anc: Seq<NodeView>, kids: Seq<NodeView>, links: Seq<(Seq<char>, nat, nat)>) -> Seq<Seq<char>> {
    seq!["# "@ + n.label, crate::query::kind_name(n.kind) + " | "@ + match status_of(n) {
        Some(s) => s,
        None => "—"@,
    }] + (if anc.len() > 0 {
        seq![join_s(anc.map_values(|a: NodeView| a.label), " > "@)]
    } else {
        Seq::empty()
    }) + (if kids.len() > 0 {
        seq![Seq::<char>::empty(), if has_task(kids) {
            "## Subtasks"@
        } else {
            "## Children"@
        }] + kids.map_values(|c: NodeView| child_line(c))
    } else {
        Seq::empty()
    }) + (if links.len() > 0 {
        seq![Seq::<char>::empty(), "## Links"@] + links.map_values(|l: (Seq<char>, nat, nat)| link_line(l))
    } else {
        Seq::empty()
    })
}

pub open spec fn link_info_views(v: Seq<LinkInfo>) -> Seq<(Seq<char>, nat, nat)> {
    v.map_values(|l: LinkInfo| (l.path@, l.lines as nat, l.tokens as nat))
}

fn push_line(out: &mut Vec<String>, v: &Vec<char>)
    ensures
        string_views(final(out)@) == string_views(old(out)@).push(v@),
{
    let ghost before = string_views(out@);
    out.push(string_of(v));
    assert(string_views(out@) =~= before.push(v@));
}

fn breadcrumb(anc: &Vec<Node>) -> (r: Vec<char>)
    ensures
        r@ == join_s(node_views(anc@).map_values(|a: NodeView| a.label), " > "@),
{
    let ghost av = node_views(anc@);
    let mut labels: Vec<Vec<char>> = Vec::new();
    let mut i: usize = 0;
    while i < anc.len()
        invariant
            i <= anc@.len(),
            av == node_views(anc@),
            crate::text::views(labels@) == av.take(i as int).map_values(|a: NodeView| a.label),
        decreases anc@.len() - i,
    {
        let ghost before = crate::text::views(labels@);
        let l = chars_of(anc[i].label.as_str());
        let ghost lv = l@;
        labels.push(l);
        assert(av[i as int] == anc@[i as int]@);
        assert(crate::text::views(labels@) =~= before.push(lv));
        assert(av.take(i + 1).map_values(|a: NodeView| a.label) =~= av.take(i as int).map_values(|a: NodeView| a.label).push(av[i as int].label));
        i += 1;
    }
    assert(av.take(av.len() as int) =~= av);
    crate::text::join(&labels, &lit(" > "))
}

fn kid_section(kids: &Vec<Node>, out: &mut Vec<String>)
    requires
        kids@.len() > 0,
    ensures
        string_views(final(out)@) == string_views(old(out)@) + seq![Seq::<char>::empty(), if has_task(node_views(kids@)) {
            "## Subtasks"@
        } else {
            "## Children"@
        }] + node_views(kids@).map_values(|c: NodeView| child_line(c)),
{
    let ghost start = string_views(out@);
    let ghost kv = node_views(kids@);
    push_line(out, &Vec::new());
    let mut any_task = false;
    let mut i: usize = 0;
    while i < kids.len()
        invariant
            i <= kids@.len(),
            kv == node_views(kids@),
            any_task == exists|j: int| 0 <= j < i && kv[j].kind == NodeKind::Task,
        decreases kids@.len() - i,
    {
        assert(kv[i as int] == kids@[i as int]@);
        if kids[i].kind == NodeKind::Task {
            any_task = true;
        }
        i += 1;
    }
    if any_task {
        push_line(out, &lit("## Subtasks"));
    } else {
        push_line(out, &lit("## Children"));
    }
    let ghost p3 = string_views(out@);
    let mut j: usize = 0;
    while j < kids.len()
        invariant
            j <= kids@.len(),
            kv == node_views(kids@),
            string_views(out@) == p3 + kv.take(j as int).map_values(|c: NodeView| child_line(c)),
        decreases kids@.len() - j,
    {
        let c = &kids[j];
        assert(kv[j as int] == c@);
        let line = if c.kind == NodeKind::Task {
            let done = match c.status() {
                Some(s) => crate::text::seq_eq(&chars_of(s.as_str()), &lit("done")),
                None => false,
            };
            let mut v = lit("- [");
            if done {
                extend(&mut v, &lit("x"));
            } else {
                extend(&mut v, &lit(" "));
            }
            extend(&mut v, &lit("] "));
            extend(&mut v, &chars_of(c.label.as_str()));
            v
        } else {
            let mut v = lit("  ");
            extend(&mut v, &chars_of(c.label.as_str()));
            v
        };
        assert(line@ =~= child_line(c@));
        push_line(out, &line);
        assert(kv.take(j + 1).map_values(|c: NodeView| child_line(c)) =~= kv.take(j as int).map_values(|c: NodeView| child_line(c)).push(child_line(kv[j as int])));
        j += 1;
    }
    assert(kv.take(kv.len() as int) =~= kv);
}

fn link_section(links: &Vec<LinkInfo>, out: &mut Vec<String>)
    requires
        links@.len() > 0,
    ensures
        string_views(final(out)@) == string_views(old(out)@) + seq![Seq::<char>::empty(), "## Links"@] + link_info_views(links@).map_values(|l: (Seq<char>, nat, nat)| link_line(l)),
{
    let ghost lv = link_info_views(links@);
    push_line(out, &Vec::new());
    push_line(out, &lit("## Links"));
    let ghost p5 = string_views(out@);
    let mut j: usize = 0;
    while j < links.len()
        invariant
            j <= links@.len(),
            lv == link_info_views(links@),
            string_views(out@) == p5 + lv.take(j as int).map_values(|l: (Seq<char>, nat, nat)| link_line(l)),
        decreases links@.len() - j,
    {
        let l = &links[j];
        let mut v = lit("  ");
        extend(&mut v, &chars_of(l.path.as_str()));
        extend(&mut v, &lit(" ("));
        extend(&mut v, &decimal_of(l.lines as u128));
        extend(&mut v, &lit(" lines, ~"));
        extend(&mut v, &decimal_of(l.tokens as u128));
        extend(&mut v, &lit(" tokens)"));
        assert(lv[j as int] == (l.path@, l.lines as nat, l.tokens as nat));
        assert(v@ =~= link_line(lv[j as int]));
        push_line(out, &v);
        assert(lv.take(j + 1).map_values(|l: (Seq<char>, nat, nat)| link_line(l)) =~= lv.take(j as int).map_values(|l: (Seq<char>, nat, nat)| link_line(l)).push(link_line(lv[j as int])));
        j += 1;
    }
    assert(lv.take(lv.len() as int) =~= lv);
}

/// The lines of the text report of a node's context.
pub fn context_lines(node: &Node, anc: &Vec<Node>, kids: &Vec<Node>, links: &Vec<LinkInfo>) -> (r: Vec<String>)
    ensures
        string_views(r@) == context_spec(node@, node_views(anc@), node_views(kids@), link_info_views(links@)),
{
    let mut out: Vec<String> = Vec::new();
    let mut t = lit("# ");
    extend(&mut t, &chars_of(node.label.as_str()));
    push_line(&mut out, &t);
    let mut k = chars_of(crate::query::kind_str(&node.kind));
    extend(&mut k, &lit(" | "));
    match node.status() {
        Some(s) => extend(&mut k, &chars_of(s.as_str())),
        None => extend(&mut k, &lit("—")),
    }
    push_line(&mut out, &k);
    let ghost p1 = string_views(out@);
    if anc.len() > 0 {
        push_line(&mut out, &breadcrumb(anc));
    }
    let ghost p2 = string_views(out@);
    if kids.len() > 0 {
        kid_section(kids, &mut out);
    }
    let ghost p3 = string_views(out@);
    if links.len() > 0 {
        link_section(links, &mut out);
    }
    assert(string_views(out@) =~= context_spec(node@, node_views(anc@), node_views(kids@), link_info_views(links@)));
    out
}

} // verus!
