//! The file tree as a graph: a node per directory and file, contains edges from parent to
//! child.

use vstd::prelude::*;

use crate::graph::{edge_views, node_views, Edge, EdgeKind, EdgeView, Graph, GraphView, Node, NodeKind, NodeView};
use crate::text::{chars_of, rsplit_once, rsplit_once_s, string_of};

verus! {

/// Scans a directory tree into a graph.
pub struct DirectoryScanner;

/// A path with `\` turned into `/`.
pub open spec fn slashes(s: Seq<char>) -> Seq<char> {
    s.map_values(|c: char| if c == '\\' {
        '/'
    } else {
        c
    })
}

/// The id of an entry: its relative path with `/` separators, or `.` for the root.
pub open spec fn entry_id(rel: Seq<char>) -> Seq<char> {
    if rel.len() == 0 {
        "."@
    } else {
        slashes(rel)
    }
}

/// The last component of a relative path.
pub open spec fn base_name(rel: Seq<char>) -> Seq<char> {
    match rsplit_once_s(rel, '/') {
        Some((_, b)) => b,
        None => rel,
    }
}

/// The id of the directory holding an entry.
pub open spec fn parent_id(rel: Seq<char>) -> Seq<char> {
    match rsplit_once_s(rel, '/') {
        Some((p, _)) => if p.len() == 0 {
            "."@
        } else {
            slashes(p)
        },
        None => "."@,
    }
}

pub open spec fn entry_node(rel: Seq<char>, is_dir: bool, root_label: Seq<char>) -> NodeView {
    NodeView {
        id: entry_id(rel),
        kind: if is_dir {
            NodeKind::Directory
        } else {
            NodeKind::File
        },
        source: "filesystem"@,
        label: if entry_id(rel) == "."@ {
            root_label
        } else {
            base_name(rel)
        },
        metadata: None,
    }
}

/// The graph of the entries (relative path, whether a directory), in walk order.
pub open spec fn tree_spec(entries: Seq<(Seq<char>, bool)>, root_label: Seq<char>) -> GraphView
    decreases entries.len(),
{
    if entries.len() == 0 {
        GraphView { nodes: Seq::empty(), edges: Seq::empty() }
    } else {
        let g = tree_spec(entries.drop_last(), root_label);
        let (rel, is_dir) = entries.last();
        let n = entry_node(rel, is_dir, root_label);
        GraphView {
            nodes: g.nodes.push(n),
            edges: if n.id == "."@ {
                g.edges
            } else {
                g.edges.push(EdgeView { source: parent_id(rel), target: n.id, kind: EdgeKind::Contains })
            },
        }
    }
}

fn slashes_exec(s: &Vec<char>) -> (r: Vec<char>)
    ensures
        r@ == slashes(s@),
{
    let mut r: Vec<char> = Vec::new();
    let mut i: usize = 0;
    while i < s.len()
        invariant
            i <= s@.len(),
            r@ == slashes(s@.take(i as int)),
        decreases s@.len() - i,
    {
        let c = s[i];
        r.push(if c == '\\' {
            '/'
        } else {
            c
        });
        i += 1;
        assert(r@ =~= slashes(s@.take(i as int)));
    }
    assert(s@.take(s@.len() as int) =~= s@);
    r
}

impl DirectoryScanner {
    /// Builds the graph of a walked tree: each entry is its path relative to the root and
    /// whether it is a directory; `root_label` names the root.
    pub fn scan(&self, entries: &Vec<(String, bool)>, root_label: &str) -> (r: Graph)
        ensures
            r@ == tree_spec(entries@.map_values(|e: (String, bool)| (e.0@, e.1)), root_label@),
    {
        let ghost ev = entries@.map_values(|e: (String, bool)| (e.0@, e.1));
        let mut g = Graph::new();
        assert(g@.nodes =~= Seq::<NodeView>::empty());
        assert(g@.edges =~= Seq::<EdgeView>::empty());
        let dot = chars_of(".");
        let mut k: usize = 0;
        while k < entries.len()
            invariant
                k <= entries@.len(),
                ev == entries@.map_values(|e: (String, bool)| (e.0@, e.1)),
                dot@ == "."@,
                g@ == tree_spec(ev.take(k as int), root_label@),
            decreases entries@.len() - k,
        {
            assert(ev.take(k + 1).drop_last() =~= ev.take(k as int));
            assert(ev.take(k + 1).last() == (entries@[k as int].0@, entries@[k as int].1));
            let rel = chars_of(entries[k].0.as_str());
            let is_dir = entries[k].1;
            let id = if rel.len() == 0 {
                chars_of(".")
            } else {
                slashes_exec(&rel)
            };
            let is_root = crate::text::seq_eq(&id, &dot);
            let label = if is_root {
                String::from_str(root_label)
            } else {
                match rsplit_once(&rel, '/') {
                    Some((_, b)) => string_of(&b),
                    None => string_of(&rel),
                }
            };
            let node = Node {
                id: string_of(&id),
                kind: if is_dir {
                    NodeKind::Directory
                } else {
                    NodeKind::File
                },
                source: String::from_str("filesystem"),
                label,
                metadata: None,
            };
            let ghost gn = node_views(g.nodes@);
            let ghost ge = edge_views(g.edges@);
            assert(node@ == entry_node(rel@, is_dir, root_label@));
            g.nodes.push(node);
            assert(node_views(g.nodes@) =~= gn.push(entry_node(rel@, is_dir, root_label@)));
            if !is_root {
                let parent = match rsplit_once(&rel, '/') {
                    Some((p, _)) => if p.len() == 0 {
                        chars_of(".")
                    } else {
                        slashes_exec(&p)
                    },
                    None => chars_of("."),
                };
                let e = Edge { source: string_of(&parent), target: string_of(&id), kind: EdgeKind::Contains };
                assert(e@ == EdgeView { source: parent_id(rel@), target: entry_id(rel@), kind: EdgeKind::Contains });
                g.edges.push(e);
                assert(edge_views(g.edges@) =~= ge.push(e@));
            }
            k += 1;
        }
        assert(ev.take(ev.len() as int) =~= ev);
        g
    }
}

/// The id of a scanned file: its path relative to the scanned root, with `/`
/// separators, or the root's own name when the root is the file itself.
pub open spec fn file_id_spec(rel: Seq<char>, root_name: Seq<char>) -> Seq<char> {
    if rel.len() == 0 {
        root_name
    } else {
        slashes(rel)
    }
}

/// The id of a scanned file, from its relative path and the root's name.
pub fn file_id(rel: &str, root_name: &str) -> (r: String)
    ensures
        r@ == file_id_spec(rel@, root_name@),
{
    let cs = chars_of(rel);
    if cs.len() == 0 {
        root_name.to_owned()
    } else {
        string_of(&slashes_exec(&cs))
    }
}

} // verus!
