//! Scanning: markdown files to graph, and the resolution of links between them.

pub mod directory;
pub mod events;
pub mod markdown;

use vstd::prelude::*;

use crate::graph::{edge_views, node_views, stable_id_of, Edge, EdgeKind, EdgeView, Graph, GraphView, Node, NodeView};
use crate::scan::markdown::{link_views, parse_markdown, parse_spec, LinkView, MarkdownScanner, RawLink};
use crate::text::{
    chars_of, extend, join, join_s, rsplit_once, rsplit_once_s, seq_eq, split, split_once,
    split_once_s, split_s, starts_with, starts_with_s, string_of, views,
};

verus! {

/// One step of path normalization: `.` and empty pieces vanish, `..` drops the last kept
/// piece, any other piece is kept.
pub open spec fn norm_step(parts: Seq<Seq<char>>, piece: Seq<char>) -> Seq<Seq<char>> {
    if piece == "."@ || piece.len() == 0 {
        parts
    } else if piece == ".."@ {
        if parts.len() > 0 {
            parts.drop_last()
        } else {
            parts
        }
    } else {
        parts.push(piece)
    }
}

pub open spec fn norm_parts(pieces: Seq<Seq<char>>) -> Seq<Seq<char>>
    decreases pieces.len(),
{
    if pieces.len() == 0 {
        Seq::empty()
    } else {
        norm_step(norm_parts(pieces.drop_last()), pieces.last())
    }
}

pub open spec fn normalize_spec(path: Seq<char>) -> Seq<char> {
    join_s(norm_parts(split_s(path, '/')), "/"@)
}

fn lit(s: &str) -> (r: Vec<char>)
    ensures
        r@ == s@,
{
    chars_of(s)
}

/// Resolves `.`, `..` and empty pieces of a `/`-separated path.
pub fn normalize_path(path: &str) -> (r: String)
    ensures
        r@ == normalize_spec(path@),
{
    let pieces = split(&chars_of(path), '/');
    let ghost pv = views(pieces@);
    let mut parts: Vec<Vec<char>> = Vec::new();
    let mut k: usize = 0;
    while k < pieces.len()
        invariant
            k <= pieces@.len(),
            pv == views(pieces@),
            views(parts@) == norm_parts(pv.take(k as int)),
        decreases pieces@.len() - k,
    {
        assert(pv.take(k + 1).drop_last() =~= pv.take(k as int));
        assert(pv.take(k + 1).last() == pieces@[k as int]@);
        let p = &pieces[k];
        let ghost before = views(parts@);
        if seq_eq(p, &lit(".")) || p.len() == 0 {
        } else if seq_eq(p, &lit("..")) {
            if parts.len() > 0 {
                parts.pop();
                assert(views(parts@) =~= before.drop_last());
            }
        } else {
            parts.push(crate::text::slice(p, 0, p.len()));
            assert(p@.subrange(0, p@.len() as int) =~= p@);
            assert(views(parts@) =~= before.push(p@));
        }
        k += 1;
    }
    assert(pv.take(pv.len() as int) =~= pv);
    string_of(&join(&parts, &lit("/")))
}

/// A piece that normalization keeps as it is.
pub open spec fn plain_piece(p: Seq<char>) -> bool {
    p.len() > 0 && p != "."@ && p != ".."@ && !p.contains('/')
}

proof fn lemma_norm_parts_plain(pieces: Seq<Seq<char>>)
    requires
        forall|i: int| 0 <= i < pieces.len() ==> !(#[trigger] pieces[i]).contains('/'),
    ensures
        forall|i: int| 0 <= i < norm_parts(pieces).len() ==> plain_piece(#[trigger] norm_parts(pieces)[i]),
    decreases pieces.len(),
{
    if pieces.len() > 0 {
        let d = pieces.drop_last();
        assert forall|i: int| 0 <= i < d.len() implies !(#[trigger] d[i]).contains('/') by {
            assert(d[i] == pieces[i]);
        }
        lemma_norm_parts_plain(d);
        let r = norm_parts(d);
        let last = pieces.last();
        assert(!pieces[pieces.len() - 1].contains('/'));
        assert forall|i: int| 0 <= i < norm_parts(pieces).len() implies plain_piece(#[trigger] norm_parts(pieces)[i]) by {
            if i < r.len() {
                assert(norm_parts(pieces)[i] == r[i]);
            }
        }
    }
}

proof fn lemma_split_pieces_plain(s: Seq<char>, c: char)
    ensures
        forall|i: int| 0 <= i < split_s(s, c).len() ==> !(#[trigger] split_s(s, c)[i]).contains(c),
    decreases s.len(),
{
    if s.len() > 0 {
        lemma_split_pieces_plain(s.drop_last(), c);
        let init = split_s(s.drop_last(), c);
        crate::text::lemma_split_nonempty(s.drop_last(), c);
        assert forall|i: int| 0 <= i < split_s(s, c).len() implies !(#[trigger] split_s(s, c)[i]).contains(c) by {
            if s.last() == c {
                if i < init.len() {
                    assert(split_s(s, c)[i] == init[i]);
                } else {
                    assert(split_s(s, c)[i] =~= Seq::<char>::empty());
                }
            } else {
                if i < init.len() - 1 {
                    assert(split_s(s, c)[i] == init[i]);
                } else {
                    let w = init.last().push(s.last());
                    assert(split_s(s, c)[i] == w);
                    assert(!init[init.len() - 1].contains(c));
                    if w.contains(c) {
                        let j = choose|j: int| 0 <= j < w.len() && w[j] == c;
                        if j < init.last().len() {
                            assert(init.last()[j] == c);
                        }
                    }
                }
            }
        }
    }
}

/// Appending text without the separator extends the last piece.
proof fn lemma_split_append(a: Seq<char>, w: Seq<char>, c: char)
    requires
        !w.contains(c),
    ensures
        split_s(a + w, c) == split_s(a, c).update(split_s(a, c).len() - 1, split_s(a, c).last() + w),
    decreases w.len(),
{
    crate::text::lemma_split_nonempty(a, c);
    if w.len() == 0 {
        assert(a + w =~= a);
        assert(split_s(a, c).last() + w =~= split_s(a, c).last());
        assert(split_s(a, c).update(split_s(a, c).len() - 1, split_s(a, c).last()) =~= split_s(a, c));
    } else {
        let w0 = w.drop_last();
        assert(!w0.contains(c)) by {
            if w0.contains(c) {
                let j = choose|j: int| 0 <= j < w0.len() && w0[j] == c;
                assert(w[j] == c);
            }
        }
        lemma_split_append(a, w0, c);
        assert((a + w).drop_last() =~= a + w0);
        assert((a + w).last() == w.last());
        assert(w.last() != c) by {
            assert(w[w.len() - 1] == w.last());
        }
        let s0 = split_s(a, c);
        assert(s0.last() + w =~= (s0.last() + w0).push(w.last()));
        crate::text::lemma_split_nonempty(a + w0, c);
        assert(split_s(a + w, c) =~= s0.update(s0.len() - 1, s0.last() + w));
    }
}

/// Splitting joined plain pieces gives the pieces back.
proof fn lemma_split_join(q: Seq<Seq<char>>)
    requires
        q.len() > 0,
        forall|i: int| 0 <= i < q.len() ==> !(#[trigger] q[i]).contains('/'),
    ensures
        split_s(join_s(q, "/"@), '/') == q,
    decreases q.len(),
{
    reveal_strlit("/");
    if q.len() == 1 {
        lemma_split_append(Seq::empty(), q[0], '/');
        assert(Seq::<char>::empty() + q[0] =~= q[0]);
        assert(join_s(q, "/"@) == q[0]);
        assert(split_s(Seq::<char>::empty(), '/') =~= seq![Seq::<char>::empty()]);
        assert(Seq::<char>::empty() + q[0] =~= q[0]);
        assert(seq![Seq::<char>::empty()].update(0, Seq::<char>::empty() + q[0]) =~= q);
    } else {
        let d = q.drop_last();
        assert forall|i: int| 0 <= i < d.len() implies !(#[trigger] d[i]).contains('/') by {
            assert(d[i] == q[i]);
        }
        lemma_split_join(d);
        let a = join_s(d, "/"@) + "/"@;
        assert(!q[q.len() - 1].contains('/'));
        lemma_split_append(a, q.last(), '/');
        assert(a.drop_last() =~= join_s(d, "/"@));
        assert(a.last() == '/');
        crate::text::lemma_split_nonempty(join_s(d, "/"@), '/');
        assert(split_s(a, '/') == d.push(Seq::<char>::empty()));
        assert(Seq::<char>::empty() + q.last() =~= q.last());
        assert(d.push(Seq::<char>::empty()).update(d.len() as int, Seq::<char>::empty() + q.last()) =~= q);
    }
}

proof fn lemma_norm_parts_fixed(q: Seq<Seq<char>>)
    requires
        forall|i: int| 0 <= i < q.len() ==> plain_piece(#[trigger] q[i]),
    ensures
        norm_parts(q) == q,
    decreases q.len(),
{
    if q.len() > 0 {
        let d = q.drop_last();
        assert forall|i: int| 0 <= i < d.len() implies plain_piece(#[trigger] d[i]) by {
            assert(d[i] == q[i]);
        }
        lemma_norm_parts_fixed(d);
        assert(plain_piece(q[q.len() - 1]));
        reveal_strlit(".");
        reveal_strlit("..");
        assert(q.last() != "."@);
        assert(q.last() != ".."@);
        assert(d.push(q.last()) =~= q);
    }
}

/// A normalized path is empty or made of plain segments: none empty, `.` or `..`.
pub proof fn lemma_normalize_segments(path: Seq<char>)
    ensures
        normalize_spec(path).len() == 0 || forall|i: int| 0 <= i < split_s(normalize_spec(path), '/').len()
            ==> plain_piece(#[trigger] split_s(normalize_spec(path), '/')[i]),
{
    let p = norm_parts(split_s(path, '/'));
    lemma_split_pieces_plain(path, '/');
    lemma_norm_parts_plain(split_s(path, '/'));
    if p.len() == 0 {
        assert(join_s(p, "/"@) =~= Seq::<char>::empty());
    } else {
        lemma_split_join(p);
    }
}

/// Normalizing a normalized path changes nothing.
pub proof fn lemma_normalize_idempotent(path: Seq<char>)
    ensures
        normalize_spec(normalize_spec(path)) == normalize_spec(path),
{
    let p = norm_parts(split_s(path, '/'));
    lemma_split_pieces_plain(path, '/');
    lemma_norm_parts_plain(split_s(path, '/'));
    if p.len() == 0 {
        assert(join_s(p, "/"@) =~= Seq::<char>::empty());
        assert(split_s(Seq::<char>::empty(), '/') =~= seq![Seq::<char>::empty()]);
        let e = seq![Seq::<char>::empty()];
        assert(e.drop_last() =~= Seq::<Seq<char>>::empty());
        assert(norm_parts(e) == norm_step(norm_parts(e.drop_last()), e.last()));
        assert(norm_parts(e) =~= Seq::<Seq<char>>::empty());
        assert(normalize_spec(path) == join_s(p, "/"@));
        assert(normalize_spec(normalize_spec(path)) == join_s(norm_parts(e), "/"@));
    } else {
        assert forall|i: int| 0 <= i < p.len() implies !(#[trigger] p[i]).contains('/') by {
            assert(plain_piece(p[i]));
        }
        lemma_split_join(p);
        lemma_norm_parts_fixed(p);
        assert(normalize_spec(path) == join_s(p, "/"@));
        assert(normalize_spec(normalize_spec(path)) == join_s(norm_parts(split_s(join_s(p, "/"@), '/')), "/"@));
    }
}


pub open spec fn is_external(url: Seq<char>) -> bool {
    starts_with_s(url, "http://"@) || starts_with_s(url, "https://"@) || starts_with_s(url, "mailto:"@)
}

/// The directory part of a file id: before its last `/`, or empty.
pub open spec fn dir_of(file: Seq<char>) -> Seq<char> {
    match rsplit_once_s(file, '/') {
        Some((d, _)) => d,
        None => Seq::empty(),
    }
}

/// The path a link points to, normalized against the linking file's directory; none for
/// web links and for links to an anchor of the same file.
pub open spec fn link_path_spec(l: LinkView) -> Option<Seq<char>> {
    if is_external(l.target_url) {
        None
    } else {
        let path = match split_once_s(l.target_url, '#') {
            Some((p, _)) => p,
            None => l.target_url,
        };
        if path.len() == 0 {
            None
        } else {
            let d = dir_of(l.source_file);
            Some(normalize_spec(if d.len() == 0 {
                path
            } else {
                d + "/"@ + path
            }))
        }
    }
}

/// The id a link names: `file#anchor` for an anchor of the same file, else its path
/// (through `fs_path`, the path the file system gives it, when there is one) and anchor.
pub open spec fn resolved_spec(l: LinkView, fs_path: Option<Seq<char>>) -> Option<Seq<char>> {
    if is_external(l.target_url) {
        None
    } else {
        let (path, anchor) = match split_once_s(l.target_url, '#') {
            Some((p, a)) => (p, Some(a)),
            None => (l.target_url, None),
        };
        if path.len() == 0 {
            match anchor {
                Some(a) => Some(l.source_file + "#"@ + a),
                None => None,
            }
        } else {
            let n = match fs_path {
                Some(r) => r,
                None => link_path_spec(l)->0,
            };
            match anchor {
                Some(a) => Some(n + "#"@ + a),
                None => Some(n),
            }
        }
    }
}

pub open spec fn has_node(nodes: Seq<NodeView>, id: Seq<char>) -> bool {
    exists|i: int| 0 <= i < nodes.len() && nodes[i].id == id
}

/// The first shortest id among the nodes whose id starts with `prefix`.
pub open spec fn shortest_with_prefix(nodes: Seq<NodeView>, prefix: Seq<char>) -> Option<Seq<char>>
    decreases nodes.len(),
{
    if nodes.len() == 0 {
        None
    } else {
        let r = shortest_with_prefix(nodes.drop_last(), prefix);
        let id = nodes.last().id;
        if starts_with_s(id, prefix) && (r is None || id.len() < r->0.len()) {
            Some(id)
        } else {
            r
        }
    }
}

/// The node a resolved link points to: the node with that id, or else (a link to a
/// file) its node with the shortest id.
pub open spec fn target_spec(nodes: Seq<NodeView>, resolved: Seq<char>) -> Option<Seq<char>> {
    if has_node(nodes, resolved) {
        Some(resolved)
    } else {
        shortest_with_prefix(nodes, resolved + "#"@)
    }
}

/// The reference edges the links give, in link order.
pub open spec fn ref_edges(nodes: Seq<NodeView>, links: Seq<LinkView>, fs_paths: Seq<Option<Seq<char>>>) -> Seq<EdgeView>
    decreases links.len(),
{
    if links.len() == 0 {
        Seq::empty()
    } else {
        let k = links.len() - 1;
        let r = ref_edges(nodes, links.drop_last(), fs_paths);
        match resolved_spec(links[k], fs_paths[k]) {
            Some(res) => match target_spec(nodes, res) {
                Some(t) => r.push(EdgeView { source: links[k].source_node, target: t, kind: EdgeKind::References }),
                None => r,
            },
            None => r,
        }
    }
}

proof fn lemma_shortest_is_node(nodes: Seq<NodeView>, prefix: Seq<char>)
    ensures
        shortest_with_prefix(nodes, prefix) matches Some(id) ==> has_node(nodes, id) && starts_with_s(id, prefix),
    decreases nodes.len(),
{
    if nodes.len() > 0 {
        let d = nodes.drop_last();
        lemma_shortest_is_node(d, prefix);
        match shortest_with_prefix(nodes, prefix) {
            Some(id) => {
                if id == nodes.last().id && starts_with_s(id, prefix) {
                    assert(nodes[nodes.len() - 1].id == id);
                } else {
                    let i = choose|i: int| 0 <= i < d.len() && d[i].id == id;
                    assert(nodes[i] == d[i]);
                }
            },
            None => {},
        }
    }
}

/// Resolving links only adds reference edges, at most one per link, each from the node
/// the link was written under to a node of the graph; a link to an outside address
/// (`http://`, `https://`, `mailto:`) adds none.
pub proof fn lemma_reference_edges(nodes: Seq<NodeView>, links: Seq<LinkView>, fs_paths: Seq<Option<Seq<char>>>)
    ensures
        ref_edges(nodes, links, fs_paths).len() <= links.len(),
        forall|i: int| 0 <= i < ref_edges(nodes, links, fs_paths).len() ==> {
            let e = #[trigger] ref_edges(nodes, links, fs_paths)[i];
            &&& e.kind == EdgeKind::References
            &&& has_node(nodes, e.target)
            &&& exists|k: int| 0 <= k < links.len() && links[k].source_node == e.source && !is_external(links[k].target_url)
        },
    decreases links.len(),
{
    if links.len() > 0 {
        let k = links.len() - 1;
        let d = links.drop_last();
        lemma_reference_edges(nodes, d, fs_paths);
        let r = ref_edges(nodes, d, fs_paths);
        assert forall|i: int| 0 <= i < r.len() implies exists|k2: int| 0 <= k2 < links.len() && links[k2].source_node == (#[trigger] r[i]).source && !is_external(links[k2].target_url) by {
            let k2 = choose|k2: int| 0 <= k2 < d.len() && d[k2].source_node == r[i].source && !is_external(d[k2].target_url);
            assert(links[k2] == d[k2]);
        }
        match resolved_spec(links[k], fs_paths[k]) {
            Some(res) => {
                if !has_node(nodes, res) {
                    lemma_shortest_is_node(nodes, res + "#"@);
                }
                match target_spec(nodes, res) {
                    Some(t) => {
                        let q = ref_edges(nodes, links, fs_paths);
                        assert(q == r.push(EdgeView { source: links[k].source_node, target: t, kind: EdgeKind::References }));
                        assert forall|i: int| 0 <= i < q.len() implies {
                            let e = #[trigger] q[i];
                            &&& e.kind == EdgeKind::References
                            &&& has_node(nodes, e.target)
                            &&& exists|k2: int| 0 <= k2 < links.len() && links[k2].source_node == e.source && !is_external(links[k2].target_url)
                        } by {
                            if i < r.len() {
                                assert(q[i] == r[i]);
                            } else {
                                assert(links[k].source_node == q[i].source);
                            }
                        }
                    },
                    None => {},
                }
            },
            None => {},
        }
    }
}

pub open spec fn opt_views(v: Seq<Option<String>>) -> Seq<Option<Seq<char>>> {
    v.map_values(|o: Option<String>| match o {
        Some(s) => Some(s@),
        None => None,
    })
}

fn is_external_exec(url: &Vec<char>) -> (r: bool)
    ensures
        r == is_external(url@),
{
    starts_with(url, &lit("http://")) || starts_with(url, &lit("https://")) || starts_with(url, &lit("mailto:"))
}

/// The path of a link that the file system may resolve further (through symbolic
/// links), if the link has one.
pub fn link_path(link: &RawLink) -> (r: Option<String>)
    ensures
        match r {
            Some(p) => link_path_spec(link@) == Some(p@),
            None => link_path_spec(link@) is None,
        },
{
    let url = chars_of(link.target_url.as_str());
    if is_external_exec(&url) {
        return None;
    }
    let path = match split_once(&url, '#') {
        Some((p, _)) => p,
        None => url,
    };
    if path.len() == 0 {
        return None;
    }
    let d = match rsplit_once(&chars_of(link.source_file.as_str()), '/') {
        Some((d, _)) => d,
        None => Vec::new(),
    };
    let full = if d.len() == 0 {
        path
    } else {
        let mut f = d;
        extend(&mut f, &lit("/"));
        extend(&mut f, &path);
        f
    };
    Some(normalize_path(string_of(&full).as_str()))
}

fn resolved_exec(link: &RawLink, fs_path: &Option<String>) -> (r: Option<Vec<char>>)
    ensures
        match r {
            Some(v) => resolved_spec(link@, match fs_path {
                Some(s) => Some(s@),
                None => None,
            }) == Some(v@),
            None => resolved_spec(link@, match fs_path {
                Some(s) => Some(s@),
                None => None,
            }) is None,
        },
{
    let url = chars_of(link.target_url.as_str());
    if is_external_exec(&url) {
        return None;
    }
    let (path, anchor) = match split_once(&url, '#') {
        Some((p, a)) => (p, Some(a)),
        None => (url, None),
    };
    if path.len() == 0 {
        return match anchor {
            Some(a) => {
                let mut v = chars_of(link.source_file.as_str());
                extend(&mut v, &lit("#"));
                extend(&mut v, &a);
                Some(v)
            },
            None => None,
        };
    }
    let mut n = match fs_path {
        Some(r) => chars_of(r.as_str()),
        None => {
            let p = link_path(link);
            chars_of(p.unwrap().as_str())
        },
    };
    match anchor {
        Some(a) => {
            extend(&mut n, &lit("#"));
            extend(&mut n, &a);
            Some(n)
        },
        None => Some(n),
    }
}

fn has_node_exec(nodes: &Vec<Node>, id: &Vec<char>) -> (r: bool)
    ensures
        r == has_node(node_views(nodes@), id@),
{
    let mut i: usize = 0;
    while i < nodes.len()
        invariant
            i <= nodes@.len(),
            forall|k: int| 0 <= k < i ==> node_views(nodes@)[k].id != id@,
        decreases nodes@.len() - i,
    {
        assert(node_views(nodes@)[i as int].id == nodes@[i as int].id@);
        if seq_eq(&chars_of(nodes[i].id.as_str()), id) {
            return true;
        }
        i += 1;
    }
    false
}

fn target_exec(nodes: &Vec<Node>, resolved: &Vec<char>) -> (r: Option<String>)
    ensures
        match r {
            Some(t) => target_spec(node_views(nodes@), resolved@) == Some(t@),
            None => target_spec(node_views(nodes@), resolved@) is None,
        },
{
    if has_node_exec(nodes, resolved) {
        return Some(string_of(resolved));
    }
    let ghost nv = node_views(nodes@);
    let mut prefix = crate::text::slice(resolved, 0, resolved.len());
    prefix.push('#');
    assert(prefix@ =~= resolved@ + "#"@) by {
        reveal_strlit("#");
    }
    let mut best: Option<String> = None;
    let mut best_len: usize = 0;
    let mut i: usize = 0;
    while i < nodes.len()
        invariant
            i <= nodes@.len(),
            nv == node_views(nodes@),
            prefix@ == resolved@ + "#"@,
            match best {
                Some(b) => shortest_with_prefix(nv.take(i as int), prefix@) == Some(b@) && best_len == b@.len(),
                None => shortest_with_prefix(nv.take(i as int), prefix@) is None,
            },
        decreases nodes@.len() - i,
    {
        assert(nv.take(i + 1).drop_last() =~= nv.take(i as int));
        assert(nv.take(i + 1).last() == nodes@[i as int]@);
        let id = chars_of(nodes[i].id.as_str());
        if starts_with(&id, &prefix) && (best.is_none() || id.len() < best_len) {
            best_len = id.len();
            best = Some(nodes[i].id.clone());
        }
        i += 1;
    }
    assert(nv.take(nv.len() as int) =~= nv);
    best
}

/// Adds the reference edges the links give. `fs_paths[i]` is what the file system made of
/// link `i`'s path (see `link_path`), if anything.
pub fn resolve_references(graph: &mut Graph, links: &Vec<RawLink>, fs_paths: &Vec<Option<String>>)
    requires
        fs_paths@.len() == links@.len(),
    ensures
        final(graph)@.nodes == old(graph)@.nodes,
        final(graph)@.edges == old(graph)@.edges + ref_edges(old(graph)@.nodes, link_views(links@), opt_views(fs_paths@)),
{
    let ghost nv = graph@.nodes;
    let ghost e0 = graph@.edges;
    let ghost lv = link_views(links@);
    let ghost rv = opt_views(fs_paths@);
    let mut k: usize = 0;
    while k < links.len()
        invariant
            k <= links@.len(),
            fs_paths@.len() == links@.len(),
            lv == link_views(links@),
            rv == opt_views(fs_paths@),
            graph@.nodes == nv,
            graph@.edges == e0 + ref_edges(nv, lv.take(k as int), rv),
        decreases links@.len() - k,
    {
        let ghost lt = lv.take(k + 1);
        assert(lt.drop_last() =~= lv.take(k as int));
        assert(lt[k as int] == links@[k as int]@);
        assert(rv[k as int] == match fs_paths@[k as int] {
            Some(s) => Some(s@),
            None => None::<Seq<char>>,
        });
        match resolved_exec(&links[k], &fs_paths[k]) {
            Some(res) => match target_exec(&graph.nodes, &res) {
                Some(t) => {
                    let ghost before = edge_views(graph.edges@);
                    let e = Edge { source: links[k].source_node.clone(), target: t, kind: EdgeKind::References };
                    graph.edges.push(e);
                    assert(edge_views(graph.edges@) =~= before.push(e@));
                },
                None => {},
            },
            None => {},
        }
        k += 1;
    }
    assert(lv.take(lv.len() as int) =~= lv);
}

/// The file part of a node id: before its first `#`.
pub open spec fn file_part(id: Seq<char>) -> Seq<char> {
    split_s(id, '#')[0]
}

/// The stable ids of the nodes of a file, in order.
pub open spec fn sids_of_file(nodes: Seq<NodeView>, file: Seq<char>) -> Seq<Seq<char>>
    decreases nodes.len(),
{
    if nodes.len() == 0 {
        Seq::empty()
    } else {
        let r = sids_of_file(nodes.drop_last(), file);
        let n = nodes.last();
        if stable_id_of(n) is Some && file_part(n.id) == file {
            r.push(stable_id_of(n)->0)
        } else {
            r
        }
    }
}

/// The stable ids of `a` also in `b`, once each, in order of first occurrence in `a`.
pub open spec fn common_ids(a: Seq<Seq<char>>, b: Seq<Seq<char>>) -> Seq<Seq<char>>
    decreases a.len(),
{
    if a.len() == 0 {
        Seq::empty()
    } else {
        let r = common_ids(a.drop_last(), b);
        if b.contains(a.last()) && !a.drop_last().contains(a.last()) {
            r.push(a.last())
        } else {
            r
        }
    }
}

/// The stable ids that both `ROADMAP.md` and `ARCHIVE.md` use.
pub open spec fn conflicts_spec(nodes: Seq<NodeView>) -> Seq<Seq<char>> {
    common_ids(sids_of_file(nodes, "ROADMAP.md"@), sids_of_file(nodes, "ARCHIVE.md"@))
}

fn sids_of_file_exec(nodes: &Vec<Node>, file: &Vec<char>) -> (r: Vec<Vec<char>>)
    ensures
        views(r@) == sids_of_file(node_views(nodes@), file@),
{
    let ghost nv = node_views(nodes@);
    let mut r: Vec<Vec<char>> = Vec::new();
    let mut i: usize = 0;
    while i < nodes.len()
        invariant
            i <= nodes@.len(),
            nv == node_views(nodes@),
            views(r@) == sids_of_file(nv.take(i as int), file@),
        decreases nodes@.len() - i,
    {
        assert(nv.take(i + 1).drop_last() =~= nv.take(i as int));
        assert(nv.take(i + 1).last() == nodes@[i as int]@);
        match nodes[i].stable_id() {
            Some(sid) => {
                let parts = split(&chars_of(nodes[i].id.as_str()), '#');
                proof {
                    crate::text::lemma_split_nonempty(nodes@[i as int].id@, '#');
                }
                assert(views(parts@)[0] == parts@[0]@);
                if seq_eq(&parts[0], file) {
                    let ghost before = views(r@);
                    r.push(chars_of(sid.as_str()));
                    assert(views(r@) =~= before.push(sid@));
                }
            },
            None => {},
        }
        i += 1;
    }
    assert(nv.take(nv.len() as int) =~= nv);
    r
}

fn contains_line(v: &Vec<Vec<char>>, upto: usize, s: &Vec<char>) -> (r: bool)
    requires
        upto <= v@.len(),
    ensures
        r == views(v@).take(upto as int).contains(s@),
{
    let ghost vv = views(v@).take(upto as int);
    let mut i: usize = 0;
    while i < upto
        invariant
            i <= upto <= v@.len(),
            vv == views(v@).take(upto as int),
            forall|k: int| 0 <= k < i ==> vv[k] != s@,
        decreases upto - i,
    {
        assert(vv[i as int] == v@[i as int]@);
        if seq_eq(&v[i], s) {
            return true;
        }
        i += 1;
    }
    false
}

/// The stable ids that both `ROADMAP.md` and `ARCHIVE.md` use, each once, in roadmap
/// order.
pub fn check_id_conflicts(graph: &Graph) -> (r: Vec<String>)
    ensures
        r@.map_values(|s: String| s@) == conflicts_spec(graph@.nodes),
{
    let a = sids_of_file_exec(&graph.nodes, &lit("ROADMAP.md"));
    let b = sids_of_file_exec(&graph.nodes, &lit("ARCHIVE.md"));
    let ghost av = views(a@);
    let ghost bv = views(b@);
    assert(bv.take(bv.len() as int) =~= bv);
    let mut r: Vec<String> = Vec::new();
    let mut i: usize = 0;
    while i < a.len()
        invariant
            i <= a@.len(),
            av == views(a@),
            bv == views(b@),
            bv.take(bv.len() as int) == bv,
            r@.map_values(|s: String| s@) == common_ids(av.take(i as int), bv),
        decreases a@.len() - i,
    {
        assert(av.take(i + 1).drop_last() =~= av.take(i as int));
        assert(av.take(i + 1).last() == a@[i as int]@);
        assert(av.take(i as int) =~= views(a@).take(i as int));
        if contains_line(&b, b.len(), &a[i]) && !contains_line(&a, i, &a[i]) {
            let ghost before = r@.map_values(|s: String| s@);
            r.push(string_of(&a[i]));
            assert(r@.map_values(|s: String| s@) =~= before.push(a@[i as int]@));
        }
        i += 1;
    }
    assert(av.take(av.len() as int) =~= av);
    r
}

/// `ROADMAP.md` and the detail documents under `roadmap/` are scanned even when git
/// ignores them.
pub open spec fn is_roadmap_file(file_id: Seq<char>) -> bool {
    file_id == "ROADMAP.md"@ || starts_with_s(file_id, "roadmap/"@)
}

/// Whether the scanner reads a file: a markdown file that git does not ignore, or a
/// roadmap file.
pub fn should_scan(file_id: &str, is_markdown: bool, gitignored: bool) -> (r: bool)
    ensures
        r == (is_markdown && (!gitignored || is_roadmap_file(file_id@))),
{
    let f = chars_of(file_id);
    is_markdown && (!gitignored || seq_eq(&f, &lit("ROADMAP.md")) || starts_with(&f, &lit("roadmap/")))
}

/// What scanning several markdown files yields, file after file.
pub open spec fn scan_files_spec(files: Seq<(Seq<char>, Seq<char>)>) -> (GraphView, Seq<LinkView>)
    decreases files.len(),
{
    if files.len() == 0 {
        (GraphView { nodes: Seq::empty(), edges: Seq::empty() }, Seq::empty())
    } else {
        let (g, l) = scan_files_spec(files.drop_last());
        let p = parse_spec(files.last().0, files.last().1);
        (GraphView { nodes: g.nodes + p.nodes, edges: g.edges + p.edges }, l + p.links)
    }
}

impl MarkdownScanner {
    /// Scans markdown files (id and text, in walk order) into one graph, appending the
    /// links found to `links`.
    pub fn scan_with_links(&self, files: &Vec<(String, String)>, links: &mut Vec<RawLink>) -> (r: Graph)
        ensures
            r@ == scan_files_spec(files@.map_values(|f: (String, String)| (f.0@, f.1@))).0,
            link_views(final(links)@) == link_views(old(links)@) + scan_files_spec(
                files@.map_values(|f: (String, String)| (f.0@, f.1@)),
            ).1,
    {
        let ghost fv = files@.map_values(|f: (String, String)| (f.0@, f.1@));
        let ghost l0 = link_views(links@);
        let mut g = Graph::new();
        let mut k: usize = 0;
        assert(g@.nodes =~= Seq::<NodeView>::empty());
        assert(g@.edges =~= Seq::<EdgeView>::empty());
        assert(l0 + Seq::<LinkView>::empty() =~= l0);
        while k < files.len()
            invariant
                k <= files@.len(),
                fv == files@.map_values(|f: (String, String)| (f.0@, f.1@)),
                g@ == scan_files_spec(fv.take(k as int)).0,
                link_views(links@) == l0 + scan_files_spec(fv.take(k as int)).1,
            decreases files@.len() - k,
        {
            assert(fv.take(k + 1).drop_last() =~= fv.take(k as int));
            assert(fv.take(k + 1).last() == (files@[k as int].0@, files@[k as int].1@));
            let ghost lb = link_views(links@);
            parse_markdown(files[k].0.as_str(), files[k].1.as_str(), &mut g, links);
            assert(link_views(links@) =~= l0 + scan_files_spec(fv.take(k + 1)).1);
            k += 1;
        }
        assert(fv.take(fv.len() as int) =~= fv);
        g
    }
}

/// The last component of a `/`-separated path.
pub open spec fn file_name_of(path: Seq<char>) -> Seq<char> {
    match rsplit_once_s(path, '/') {
        Some((_, name)) => name,
        None => path,
    }
}

/// A markdown file: its name has the extension `md` (the part after the last `.`, where
/// that `.` does not begin the name).
pub open spec fn is_markdown_spec(path: Seq<char>) -> bool {
    match rsplit_once_s(file_name_of(path), '.') {
        Some((stem, ext)) => stem.len() > 0 && ext == "md"@,
        None => false,
    }
}

/// Whether a `/`-separated path names a markdown file.
pub fn is_markdown_path(path: &str) -> (r: bool)
    ensures
        r == is_markdown_spec(path@),
{
    let cs = chars_of(path);
    let name = match rsplit_once(&cs, '/') {
        Some((_, n)) => n,
        None => cs,
    };
    match rsplit_once(&name, '.') {
        Some((stem, ext)) => stem.len() > 0 && seq_eq(&ext, &lit("md")),
        None => false,
    }
}

} // verus!
