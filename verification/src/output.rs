//! Text renderings of a graph: an indented tree, `id<TAB>label` lines, or ids alone.

use vstd::prelude::*;

use crate::graph::{edge_views, node_views, stable_id_of, status_of, EdgeKind, EdgeView, Graph, GraphView, Node, NodeKind, NodeView};
use crate::status::{children_of, node_of};
use crate::text::{chars_of, extend, string_of};

verus! {

#[derive(Debug, Clone, Copy, PartialEq, Eq, Structural)]
pub enum OutputFormat {
    Json,
    Compact,
    Ids,
    Tree,
}

pub open spec fn has_parent(edges: Seq<EdgeView>, id: Seq<char>) -> bool {
    exists|i: int| 0 <= i < edges.len() && edges[i].kind == EdgeKind::Contains && edges[i].target == id
}

/// The ids of the nodes without an incoming contains edge, in node order.
pub open spec fn root_ids(g: GraphView, nodes: Seq<NodeView>) -> Seq<Seq<char>>
    decreases nodes.len(),
{
    if nodes.len() == 0 {
        Seq::empty()
    } else {
        let r = root_ids(g, nodes.drop_last());
        if has_parent(g.edges, nodes.last().id) {
            r
        } else {
            r.push(nodes.last().id)
        }
    }
}

pub open spec fn spaces(n: nat) -> Seq<char>
    decreases n,
{
    if n == 0 {
        Seq::empty()
    } else {
        spaces((n - 1) as nat) + "  "@
    }
}

/// A task's checkbox by its status (`todo` when it has none).
pub open spec fn marker_for(n: NodeView) -> Seq<char> {
    if n.kind == NodeKind::Task {
        let st = match status_of(n) {
            Some(s) => s,
            None => "todo"@,
        };
        if st == "done"@ {
            "[x] "@
        } else if st == "in-progress"@ {
            "[-] "@
        } else if st == "dropped"@ {
            "[~] "@
        } else {
            "[ ] "@
        }
    } else {
        Seq::empty()
    }
}

pub open spec fn sid_prefix(n: NodeView) -> Seq<char> {
    match stable_id_of(n) {
        Some(s) => s + " "@,
        None => Seq::empty(),
    }
}

pub open spec fn tree_line(n: NodeView, depth: nat) -> Seq<char> {
    spaces(depth) + marker_for(n) + sid_prefix(n) + n.label
}

/// The tree lines of the nodes `cs` and, at most `fuel` levels down, of their children.
pub open spec fn tree_lines(g: GraphView, cs: Seq<Seq<char>>, depth: nat, fuel: nat) -> Seq<Seq<char>>
    decreases fuel, cs.len(),
{
    if cs.len() == 0 {
        Seq::empty()
    } else {
        let rest = tree_lines(g, cs.drop_last(), depth, fuel);
        let c = cs.last();
        match node_of(g.nodes, c) {
            None => rest,
            Some(n) => rest + seq![tree_line(n, depth)] + if fuel > 0 {
                tree_lines(g, children_of(g.edges, c), depth + 1, (fuel - 1) as nat)
            } else {
                Seq::empty()
            },
        }
    }
}

/// The indented tree of a graph along contains edges, from its roots. Nesting deeper
/// than the graph has nodes, which only a cycle of contains edges gives, is cut off.
pub open spec fn tree_spec(g: GraphView) -> Seq<Seq<char>> {
    tree_lines(g, root_ids(g, g.nodes), 0, g.nodes.len())
}

pub open spec fn compact_lines(nodes: Seq<NodeView>) -> Seq<Seq<char>> {
    nodes.map_values(|n: NodeView| n.id + "\t"@ + n.label)
}

pub open spec fn id_lines(nodes: Seq<NodeView>) -> Seq<Seq<char>> {
    nodes.map_values(|n: NodeView| n.id)
}

pub open spec fn lines_spec(g: GraphView, f: OutputFormat) -> Option<Seq<Seq<char>>> {
    match f {
        OutputFormat::Json => None,
        OutputFormat::Compact => Some(compact_lines(g.nodes)),
        OutputFormat::Ids => Some(id_lines(g.nodes)),
        OutputFormat::Tree => Some(tree_spec(g)),
    }
}

pub open spec fn string_views(v: Seq<String>) -> Seq<Seq<char>> {
    v.map_values(|s: String| s@)
}

fn lit(s: &str) -> (r: Vec<char>)
    ensures
        r@ == s@,
{
    chars_of(s)
}

fn has_parent_exec(edges: &Vec<crate::graph::Edge>, id: &String) -> (r: bool)
    ensures
        r == has_parent(edge_views(edges@), id@),
{
    let mut i: usize = 0;
    while i < edges.len()
        invariant
            i <= edges@.len(),
            forall|k: int| 0 <= k < i ==> !(edge_views(edges@)[k].kind == EdgeKind::Contains && edge_views(edges@)[k].target == id@),
        decreases edges@.len() - i,
    {
        assert(edge_views(edges@)[i as int] == edges@[i as int]@);
        if edges[i].kind == EdgeKind::Contains && edges[i].target == *id {
            return true;
        }
        i += 1;
    }
    false
}

fn node_lookup(nodes: &Vec<Node>, id: &String) -> (r: Option<usize>)
    ensures
        match r {
            Some(i) => i < nodes@.len() && node_of(node_views(nodes@), id@) == Some(nodes@[i as int]@),
            None => node_of(node_views(nodes@), id@) is None,
        },
{
    let ghost nv = node_views(nodes@);
    let mut i: usize = nodes.len();
    assert(nv.take(nv.len() as int) =~= nv);
    while i > 0
        invariant
            i <= nodes@.len(),
            nv == node_views(nodes@),
            node_of(nv, id@) == node_of(nv.take(i as int), id@),
        decreases i,
    {
        assert(nv.take(i as int).last() == nodes@[i - 1]@);
        assert(nv.take(i as int).drop_last() =~= nv.take(i - 1));
        if nodes[i - 1].id == *id {
            return Some(i - 1);
        }
        i -= 1;
    }
    None
}

fn children_exec(edges: &Vec<crate::graph::Edge>, id: &String) -> (r: Vec<String>)
    ensures
        string_views(r@) == children_of(edge_views(edges@), id@),
{
    let ghost ev = edge_views(edges@);
    let mut r: Vec<String> = Vec::new();
    let mut i: usize = 0;
    while i < edges.len()
        invariant
            i <= edges@.len(),
            ev == edge_views(edges@),
            string_views(r@) == children_of(ev.take(i as int), id@),
        decreases edges@.len() - i,
    {
        assert(ev.take(i + 1).drop_last() =~= ev.take(i as int));
        assert(ev.take(i + 1).last() == edges@[i as int]@);
        let e = &edges[i];
        if e.kind == EdgeKind::Contains && e.source == *id {
            let ghost before = string_views(r@);
            r.push(e.target.clone());
            assert(string_views(r@) =~= before.push(e@.target));
        }
        i += 1;
    }
    assert(ev.take(ev.len() as int) =~= ev);
    r
}

fn marker_exec(n: &Node) -> (r: Vec<char>)
    ensures
        r@ == marker_for(n@),
{
    if n.kind == NodeKind::Task {
        let st = match n.status() {
            Some(s) => chars_of(s.as_str()),
            None => lit("todo"),
        };
        if crate::text::seq_eq(&st, &lit("done")) {
            lit("[x] ")
        } else if crate::text::seq_eq(&st, &lit("in-progress")) {
            lit("[-] ")
        } else if crate::text::seq_eq(&st, &lit("dropped")) {
            lit("[~] ")
        } else {
            lit("[ ] ")
        }
    } else {
        Vec::new()
    }
}

fn tree_line_exec(n: &Node, indent: &Vec<char>) -> (r: String)
    ensures
        r@ == indent@ + marker_for(n@) + sid_prefix(n@) + n@.label,
{
    let mut v = crate::text::slice(indent, 0, indent.len());
    extend(&mut v, &marker_exec(n));
    let ghost before = v@;
    match n.stable_id() {
        Some(s) => {
            extend(&mut v, &chars_of(s.as_str()));
            extend(&mut v, &lit(" "));
        },
        None => {},
    }
    assert(v@ =~= before + sid_prefix(n@));
    extend(&mut v, &chars_of(n.label.as_str()));
    assert(indent@.subrange(0, indent@.len() as int) =~= indent@);
    string_of(&v)
}

fn walk(g: &Graph, cs: &Vec<String>, indent: &Vec<char>, Ghost(depth): Ghost<nat>, fuel: usize, out: &mut Vec<String>)
    requires
        indent@ == spaces(depth),
    ensures
        string_views(final(out)@) == string_views(old(out)@) + tree_lines(g@, string_views(cs@), depth, fuel as nat),
    decreases fuel,
{
    let ghost cv = string_views(cs@);
    let ghost start = string_views(out@);
    let mut k: usize = 0;
    while k < cs.len()
        invariant
            k <= cs@.len(),
            cv == string_views(cs@),
            indent@ == spaces(depth),
            string_views(out@) == start + tree_lines(g@, cv.take(k as int), depth, fuel as nat),
        decreases cs@.len() - k,
    {
        assert(cv.take(k + 1).drop_last() =~= cv.take(k as int));
        assert(cv.take(k + 1).last() == cs@[k as int]@);
        let ghost before = string_views(out@);
        match node_lookup(&g.nodes, &cs[k]) {
            None => {},
            Some(idx) => {
                let line = tree_line_exec(&g.nodes[idx], indent);
                out.push(line);
                assert(string_views(out@) =~= before.push(tree_line(g@.nodes[idx as int], depth)));
                if fuel > 0 {
                    let kids = children_exec(&g.edges, &cs[k]);
                    let mut deeper = crate::text::slice(indent, 0, indent.len());
                    extend(&mut deeper, &lit("  "));
                    assert(deeper@ =~= spaces(depth + 1));
                    let ghost mid = string_views(out@);
                    walk(g, &kids, &deeper, Ghost(depth + 1), fuel - 1, out);
                    assert(string_views(out@) =~= before + seq![tree_line(g@.nodes[idx as int], depth)] + tree_lines(g@, children_of(g@.edges, cs@[k as int]@), depth + 1, (fuel - 1) as nat));
                } else {
                    assert(string_views(out@) =~= before + seq![tree_line(g@.nodes[idx as int], depth)] + Seq::<Seq<char>>::empty());
                }
            },
        }
        k += 1;
    }
    assert(cv.take(cv.len() as int) =~= cv);
}

/// The lines that print a graph in a text format; `None` for JSON, which is not text
/// lines.
pub fn graph_lines(graph: &Graph, format: OutputFormat) -> (r: Option<Vec<String>>)
    ensures
        match r {
            Some(v) => lines_spec(graph@, format) == Some(string_views(v@)),
            None => lines_spec(graph@, format) is None,
        },
{
    let ghost nv = graph@.nodes;
    match format {
        OutputFormat::Json => None,
        OutputFormat::Compact => {
            let mut out: Vec<String> = Vec::new();
            let mut i: usize = 0;
            while i < graph.nodes.len()
                invariant
                    i <= graph.nodes@.len(),
                    nv == graph@.nodes,
                    string_views(out@) == compact_lines(nv.take(i as int)),
                decreases graph.nodes@.len() - i,
            {
                let n = &graph.nodes[i];
                let mut v = chars_of(n.id.as_str());
                extend(&mut v, &lit("\t"));
                extend(&mut v, &chars_of(n.label.as_str()));
                let ghost before = string_views(out@);
                let line = string_of(&v);
                let ghost lv = line@;
                out.push(line);
                assert(nv[i as int] == n@);
                assert(string_views(out@) =~= before.push(lv));
                assert(nv.take(i + 1) =~= nv.take(i as int).push(nv[i as int]));
                assert(compact_lines(nv.take(i + 1)) =~= compact_lines(nv.take(i as int)).push(nv[i as int].id + "\t"@ + nv[i as int].label));
                assert(string_views(out@) =~= compact_lines(nv.take(i + 1)));
                i += 1;
            }
            assert(nv.take(nv.len() as int) =~= nv);
            Some(out)
        },
        OutputFormat::Ids => {
            let mut out: Vec<String> = Vec::new();
            let mut i: usize = 0;
            while i < graph.nodes.len()
                invariant
                    i <= graph.nodes@.len(),
                    nv == graph@.nodes,
                    string_views(out@) == id_lines(nv.take(i as int)),
                decreases graph.nodes@.len() - i,
            {
                let ghost before = string_views(out@);
                out.push(graph.nodes[i].id.clone());
                assert(nv[i as int] == graph.nodes@[i as int]@);
                assert(string_views(out@) =~= before.push(nv[i as int].id));
                assert(nv.take(i + 1) =~= nv.take(i as int).push(nv[i as int]));
                assert(id_lines(nv.take(i + 1)) =~= id_lines(nv.take(i as int)).push(nv[i as int].id));
                assert(string_views(out@) =~= id_lines(nv.take(i + 1)));
                i += 1;
            }
            assert(nv.take(nv.len() as int) =~= nv);
            Some(out)
        },
        OutputFormat::Tree => {
            let mut roots: Vec<String> = Vec::new();
            let mut i: usize = 0;
            while i < graph.nodes.len()
                invariant
                    i <= graph.nodes@.len(),
                    nv == graph@.nodes,
                    string_views(roots@) == root_ids(graph@, nv.take(i as int)),
                decreases graph.nodes@.len() - i,
            {
                assert(nv.take(i + 1).drop_last() =~= nv.take(i as int));
                assert(nv.take(i + 1).last() == graph.nodes@[i as int]@);
                if !has_parent_exec(&graph.edges, &graph.nodes[i].id) {
                    let ghost before = string_views(roots@);
                    roots.push(graph.nodes[i].id.clone());
                    assert(string_views(roots@) =~= before.push(graph.nodes@[i as int].id@));
                }
                i += 1;
            }
            assert(nv.take(nv.len() as int) =~= nv);
            let mut out: Vec<String> = Vec::new();
            let indent: Vec<char> = Vec::new();
            assert(indent@ =~= spaces(0));
            walk(graph, &roots, &indent, Ghost(0), graph.nodes.len(), &mut out);
            assert(string_views(out@) =~= tree_spec(graph@));
            Some(out)
        },
    }
}

} // verus!
