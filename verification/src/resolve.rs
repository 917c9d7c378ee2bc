//! Resolving what a user typed to one node id: exact id, numeric stable id, id prefix,
//! slug, slug prefix, in that order.

use vstd::prelude::*;

use crate::graph::{node_views, stable_id_of, Graph, Node, NodeView};
use crate::scan::markdown::{decimal, decimal_of};
use crate::text::{
    chars_of, extend, join_s, rsplit_once, rsplit_once_s, seq_eq, starts_with, starts_with_s,
    string_of,
};

verus! {

/// Which of the fallback rules produced a set of candidates.
#[derive(Debug, Clone, Copy, PartialEq, Eq, Structural)]
pub enum Criterion {
    NumericId,
    Prefix,
    Slug,
    SlugPrefix,
}

/// The part of an id after its last `#`.
pub open spec fn slug_part(id: Seq<char>) -> Option<Seq<char>> {
    match rsplit_once_s(id, '#') {
        Some((_, s)) => Some(s),
        None => None,
    }
}

pub open spec fn meets(c: Criterion, n: NodeView, input: Seq<char>) -> bool {
    match c {
        Criterion::NumericId => stable_id_of(n) == Some(input),
        Criterion::Prefix => starts_with_s(n.id, input),
        Criterion::Slug => slug_part(n.id) == Some(input),
        Criterion::SlugPrefix => match slug_part(n.id) {
            Some(s) => starts_with_s(s, input),
            None => false,
        },
    }
}

/// The ids of the nodes that meet a criterion, in graph order.
pub open spec fn matching_ids(nodes: Seq<NodeView>, c: Criterion, input: Seq<char>) -> Seq<Seq<char>>
    decreases nodes.len(),
{
    if nodes.len() == 0 {
        Seq::empty()
    } else {
        let r = matching_ids(nodes.drop_last(), c, input);
        if meets(c, nodes.last(), input) {
            r.push(nodes.last().id)
        } else {
            r
        }
    }
}

pub open spec fn has_id(nodes: Seq<NodeView>, id: Seq<char>) -> bool {
    exists|i: int| 0 <= i < nodes.len() && nodes[i].id == id
}

/// Why an input did not resolve.
pub enum ResolveError {
    /// More than one node met the first criterion that any node met.
    Ambiguous { criterion: Criterion, input: String, matches: Vec<String> },
    /// No node met any criterion.
    NoMatch { input: String },
}

pub enum ResolveErrorView {
    Ambiguous { criterion: Criterion, input: Seq<char>, matches: Seq<Seq<char>> },
    NoMatch { input: Seq<char> },
}

impl View for ResolveError {
    type V = ResolveErrorView;

    open spec fn view(&self) -> ResolveErrorView {
        match self {
            ResolveError::Ambiguous { criterion, input, matches } => ResolveErrorView::Ambiguous {
                criterion: *criterion,
                input: input@,
                matches: matches@.map_values(|s: String| s@),
            },
            ResolveError::NoMatch { input } => ResolveErrorView::NoMatch { input: input@ },
        }
    }
}

/// Tries one criterion: its single match, an ambiguity, or (with no match) what the later
/// criteria give.
pub open spec fn try_criterion(
    m: Seq<Seq<char>>,
    c: Criterion,
    input: Seq<char>,
    later: Result<Seq<char>, ResolveErrorView>,
) -> Result<Seq<char>, ResolveErrorView> {
    if m.len() == 1 {
        Ok(m[0])
    } else if m.len() > 1 {
        Err(ResolveErrorView::Ambiguous { criterion: c, input, matches: m })
    } else {
        later
    }
}

/// Exact id, then numeric stable id, then id prefix, then slug, then slug prefix.
pub open spec fn resolve_spec(nodes: Seq<NodeView>, input: Seq<char>) -> Result<Seq<char>, ResolveErrorView> {
    if has_id(nodes, input) {
        Ok(input)
    } else {
        try_criterion(
            matching_ids(nodes, Criterion::NumericId, input),
            Criterion::NumericId,
            input,
            try_criterion(
                matching_ids(nodes, Criterion::Prefix, input),
                Criterion::Prefix,
                input,
                try_criterion(
                    matching_ids(nodes, Criterion::Slug, input),
                    Criterion::Slug,
                    input,
                    try_criterion(
                        matching_ids(nodes, Criterion::SlugPrefix, input),
                        Criterion::SlugPrefix,
                        input,
                        Err(ResolveErrorView::NoMatch { input }),
                    ),
                ),
            ),
        )
    }
}

pub open spec fn criterion_words(c: Criterion) -> Seq<char> {
    match c {
        Criterion::NumericId => "numeric ID"@,
        Criterion::Prefix => "prefix"@,
        Criterion::Slug => "slug"@,
        Criterion::SlugPrefix => "slug prefix"@,
    }
}

/// The text of an error, as the command line shows it.
pub open spec fn error_message(e: ResolveErrorView) -> Seq<char> {
    match e {
        ResolveErrorView::Ambiguous { criterion, input, matches } => "ambiguous "@ + criterion_words(
            criterion,
        ) + " '"@ + input + "', matches "@ + decimal(matches.len()) + " nodes:\n  "@ + join_s(
            matches,
            "\n  "@,
        ),
        ResolveErrorView::NoMatch { input } => "no node matching '"@ + input + "'"@,
    }
}

fn str_chars(s: &str) -> (r: Vec<char>)
    ensures
        r@ == s@,
{
    chars_of(s)
}

impl ResolveError {
    /// The text of the error.
    pub fn message(&self) -> (r: String)
        ensures
            r@ == error_message(self@),
    {
        match self {
            ResolveError::Ambiguous { criterion, input, matches } => {
                let mut v = str_chars("ambiguous ");
                let w = match criterion {
                    Criterion::NumericId => str_chars("numeric ID"),
                    Criterion::Prefix => str_chars("prefix"),
                    Criterion::Slug => str_chars("slug"),
                    Criterion::SlugPrefix => str_chars("slug prefix"),
                };
                assert(w@ == criterion_words(*criterion));
                extend(&mut v, &w);
                extend(&mut v, &str_chars(" '"));
                extend(&mut v, &chars_of(input.as_str()));
                extend(&mut v, &str_chars("', matches "));
                extend(&mut v, &decimal_of(matches.len() as u128));
                let sep = str_chars("\n  ");
                extend(&mut v, &str_chars(" nodes:\n  "));
                let ghost mv = matches@.map_values(|s: String| s@);
                assert(mv.len() == matches@.len());
                assert(v@ =~= "ambiguous "@ + criterion_words(*criterion) + " '"@ + input@ + "', matches "@ + decimal(mv.len()) + " nodes:\n  "@);
                let mut pieces: Vec<Vec<char>> = Vec::new();
                let mut i: usize = 0;
                while i < matches.len()
                    invariant
                        i <= matches@.len(),
                        pieces@.len() == i,
                        forall|k: int| 0 <= k < i ==> pieces@[k]@ == matches@[k]@,
                    decreases matches@.len() - i,
                {
                    pieces.push(chars_of(matches[i].as_str()));
                    i += 1;
                }
                assert(crate::text::views(pieces@) =~= matches@.map_values(|s: String| s@));
                let j = crate::text::join(&pieces, &sep);
                assert(j@ == join_s(mv, "\n  "@));
                let ghost before = v@;
                extend(&mut v, &j);
                assert(v@ == before + join_s(mv, "\n  "@));
                assert(self@ == ResolveErrorView::Ambiguous { criterion: *criterion, input: input@, matches: mv });
                let r = string_of(&v);
                assert(r@ =~= error_message(self@));
                r
            },
            ResolveError::NoMatch { input } => {
                let mut v = str_chars("no node matching '");
                extend(&mut v, &chars_of(input.as_str()));
                extend(&mut v, &str_chars("'"));
                let r = string_of(&v);
                assert(r@ =~= error_message(self@));
                r
            },
        }
    }
}

fn meets_exec(c: Criterion, n: &Node, input: &[char]) -> (r: bool)
    ensures
        r == meets(c, n@, input@),
{
    let id = chars_of(n.id.as_str());
    match c {
        Criterion::NumericId => match n.stable_id() {
            Some(s) => seq_eq(&chars_of(s.as_str()), input),
            None => false,
        },
        Criterion::Prefix => starts_with(&id, input),
        Criterion::Slug => match rsplit_once(&id, '#') {
            Some((_, s)) => seq_eq(&s, input),
            None => false,
        },
        Criterion::SlugPrefix => match rsplit_once(&id, '#') {
            Some((_, s)) => starts_with(&s, input),
            None => false,
        },
    }
}

fn matching(nodes: &Vec<Node>, c: Criterion, input: &[char]) -> (r: Vec<String>)
    ensures
        r@.map_values(|s: String| s@) == matching_ids(node_views(nodes@), c, input@),
{
    let ghost nv = node_views(nodes@);
    let mut r: Vec<String> = Vec::new();
    let mut i: usize = 0;
    while i < nodes.len()
        invariant
            i <= nodes@.len(),
            nv == node_views(nodes@),
            r@.map_values(|s: String| s@) == matching_ids(nv.take(i as int), c, input@),
        decreases nodes@.len() - i,
    {
        assert(nv.take(i + 1).drop_last() =~= nv.take(i as int));
        assert(nv.take(i + 1).last() == nodes@[i as int]@);
        let ghost before = r@;
        if meets_exec(c, &nodes[i], input) {
            r.push(nodes[i].id.clone());
            assert(r@.map_values(|s: String| s@) =~= before.map_values(|s: String| s@).push(
                nodes@[i as int].id@,
            ));
        }
        i += 1;
    }
    assert(nv.take(nodes@.len() as int) =~= nv);
    r
}

fn has_id_exec(nodes: &Vec<Node>, input: &str) -> (r: bool)
    ensures
        r == has_id(node_views(nodes@), input@),
{
    let mut i: usize = 0;
    while i < nodes.len()
        invariant
            i <= nodes@.len(),
            forall|k: int| 0 <= k < i ==> nodes@[k].id@ != input@,
        decreases nodes@.len() - i,
    {
        if seq_eq(&chars_of(nodes[i].id.as_str()), &chars_of(input)) {
            assert(node_views(nodes@)[i as int].id == input@);
            return true;
        }
        i += 1;
    }
    proof {
        assert forall|k: int| 0 <= k < nodes@.len() implies node_views(nodes@)[k].id != input@ by {
            assert(node_views(nodes@)[k].id == nodes@[k].id@);
        }
    }
    false
}

/// Resolves a user-provided input to a canonical node id.
///
/// Priority: exact → numeric stable_id → ID prefix → slug exact → slug prefix.
pub fn resolve(graph: &Graph, input: &str) -> (r: Result<String, ResolveError>)
    ensures
        match r {
            Ok(id) => resolve_spec(graph@.nodes, input@) == Ok::<Seq<char>, ResolveErrorView>(id@),
            Err(e) => resolve_spec(graph@.nodes, input@) == Err::<Seq<char>, ResolveErrorView>(e@),
        },
{
    if has_id_exec(&graph.nodes, input) {
        return Ok(input.to_owned());
    }
    let cs = chars_of(input);
    let order = [Criterion::NumericId, Criterion::Prefix, Criterion::Slug, Criterion::SlugPrefix];
    let ghost nodes = graph@.nodes;
    let ghost m0 = matching_ids(nodes, Criterion::NumericId, input@);
    let ghost m1 = matching_ids(nodes, Criterion::Prefix, input@);
    let ghost m2 = matching_ids(nodes, Criterion::Slug, input@);
    let ghost m3 = matching_ids(nodes, Criterion::SlugPrefix, input@);
    let mut k: usize = 0;
    while k < 4
        invariant
            k <= 4,
            order@ == seq![Criterion::NumericId, Criterion::Prefix, Criterion::Slug, Criterion::SlugPrefix],
            cs@ == input@,
            nodes == graph@.nodes,
            !has_id(nodes, input@),
            m0 == matching_ids(nodes, Criterion::NumericId, input@),
            m1 == matching_ids(nodes, Criterion::Prefix, input@),
            m2 == matching_ids(nodes, Criterion::Slug, input@),
            m3 == matching_ids(nodes, Criterion::SlugPrefix, input@),
            k > 0 ==> m0.len() == 0,
            k > 1 ==> m1.len() == 0,
            k > 2 ==> m2.len() == 0,
            k > 3 ==> m3.len() == 0,
        decreases 4 - k,
    {
        let c = order[k];
        let m = matching(&graph.nodes, c, &cs);
        if m.len() == 1 {
            return Ok(m[0].clone());
        } else if m.len() > 1 {
            return Err(ResolveError::Ambiguous { criterion: c, input: input.to_owned(), matches: m });
        }
        k += 1;
    }
    Err(ResolveError::NoMatch { input: input.to_owned() })
}

/// A resolved id is the id of a node of the graph.
pub proof fn lemma_resolved_id_in_graph(nodes: Seq<NodeView>, input: Seq<char>)
    ensures
        resolve_spec(nodes, input) is Ok ==> has_id(nodes, resolve_spec(nodes, input)->Ok_0),
{
    lemma_matching_ids_in_nodes(nodes, Criterion::NumericId, input);
    lemma_matching_ids_in_nodes(nodes, Criterion::Prefix, input);
    lemma_matching_ids_in_nodes(nodes, Criterion::Slug, input);
    lemma_matching_ids_in_nodes(nodes, Criterion::SlugPrefix, input);
}

/// An input that is the id of a node resolves to itself, whatever else it matches.
pub proof fn lemma_exact_id_wins(nodes: Seq<NodeView>, input: Seq<char>)
    requires
        has_id(nodes, input),
    ensures
        resolve_spec(nodes, input) == Ok::<Seq<char>, ResolveErrorView>(input),
{
}

proof fn lemma_matching_ids_in_nodes(nodes: Seq<NodeView>, c: Criterion, input: Seq<char>)
    ensures
        forall|j: int|
            0 <= j < matching_ids(nodes, c, input).len() ==> has_id(nodes, #[trigger] matching_ids(nodes, c, input)[j]),
    decreases nodes.len(),
{
    if nodes.len() > 0 {
        let d = nodes.drop_last();
        lemma_matching_ids_in_nodes(d, c, input);
        assert forall|j: int|
            0 <= j < matching_ids(nodes, c, input).len() implies has_id(nodes, #[trigger] matching_ids(nodes, c, input)[j]) by {
            let r = matching_ids(d, c, input);
            if j < r.len() {
                assert(matching_ids(nodes, c, input)[j] == r[j]);
                assert(has_id(d, r[j]));
                let i = choose|i: int| 0 <= i < d.len() && d[i].id == r[j];
                assert(nodes[i] == d[i]);
            } else {
                assert(nodes[nodes.len() - 1].id == matching_ids(nodes, c, input)[j]);
            }
        }
    }
}

/// The first criterion, in the order numeric stable id, id prefix, slug, slug prefix,
/// that some node meets.
pub open spec fn first_met(nodes: Seq<NodeView>, input: Seq<char>) -> Option<Criterion> {
    if matching_ids(nodes, Criterion::NumericId, input).len() > 0 {
        Some(Criterion::NumericId)
    } else if matching_ids(nodes, Criterion::Prefix, input).len() > 0 {
        Some(Criterion::Prefix)
    } else if matching_ids(nodes, Criterion::Slug, input).len() > 0 {
        Some(Criterion::Slug)
    } else if matching_ids(nodes, Criterion::SlugPrefix, input).len() > 0 {
        Some(Criterion::SlugPrefix)
    } else {
        None
    }
}

proof fn lemma_matching_ids_exact(nodes: Seq<NodeView>, c: Criterion, input: Seq<char>)
    ensures
        forall|id: Seq<char>| #[trigger] matching_ids(nodes, c, input).contains(id)
            <==> exists|i: int| 0 <= i < nodes.len() && nodes[i].id == id && meets(c, #[trigger] nodes[i], input),
    decreases nodes.len(),
{
    if nodes.len() > 0 {
        let d = nodes.drop_last();
        lemma_matching_ids_exact(d, c, input);
        let r = matching_ids(d, c, input);
        let q = matching_ids(nodes, c, input);
        assert forall|id: Seq<char>| #[trigger] q.contains(id)
            <==> exists|i: int| 0 <= i < nodes.len() && nodes[i].id == id && meets(c, #[trigger] nodes[i], input) by {
            if q.contains(id) {
                let j = choose|j: int| 0 <= j < q.len() && q[j] == id;
                if j < r.len() {
                    assert(r.contains(id));
                    let i = choose|i: int| 0 <= i < d.len() && d[i].id == id && meets(c, #[trigger] d[i], input);
                    assert(nodes[i] == d[i]);
                } else {
                    assert(nodes[nodes.len() - 1] == nodes.last());
                }
            }
            if exists|i: int| 0 <= i < nodes.len() && nodes[i].id == id && meets(c, #[trigger] nodes[i], input) {
                let i = choose|i: int| 0 <= i < nodes.len() && nodes[i].id == id && meets(c, #[trigger] nodes[i], input);
                if i < d.len() {
                    assert(d[i] == nodes[i]);
                    assert(meets(c, d[i], input));
                    assert(r.contains(id));
                    let j = choose|j: int| 0 <= j < r.len() && r[j] == id;
                    if meets(c, nodes.last(), input) {
                        assert(q[j] == r[j]);
                    }
                } else {
                    assert(q[q.len() - 1] == id);
                }
            }
        }
    }
}

/// Resolution goes criterion by criterion: an input that is a node's id resolves to
/// itself; otherwise the first criterion that some node meets decides, resolving to the
/// one node that meets it or failing as ambiguous with all of them (in graph order), and
/// an input that no node meets in any way fails as matching nothing. A criterion's
/// matches are exactly the ids of the nodes that meet it.
pub proof fn lemma_resolve_order(nodes: Seq<NodeView>, input: Seq<char>)
    ensures
        has_id(nodes, input) ==> resolve_spec(nodes, input) == Ok::<Seq<char>, ResolveErrorView>(input),
        !has_id(nodes, input) ==> match first_met(nodes, input) {
            None => resolve_spec(nodes, input) == Err::<Seq<char>, ResolveErrorView>(ResolveErrorView::NoMatch { input }),
            Some(c) => {
                let m = matching_ids(nodes, c, input);
                &&& m.len() == 1 ==> resolve_spec(nodes, input) == Ok::<Seq<char>, ResolveErrorView>(m[0])
                &&& m.len() > 1 ==> resolve_spec(nodes, input) == Err::<Seq<char>, ResolveErrorView>(ResolveErrorView::Ambiguous { criterion: c, input, matches: m })
            },
        },
        forall|c: Criterion, id: Seq<char>| #[trigger] matching_ids(nodes, c, input).contains(id)
            <==> exists|i: int| 0 <= i < nodes.len() && nodes[i].id == id && meets(c, #[trigger] nodes[i], input),
{
    assert forall|c: Criterion, id: Seq<char>| #[trigger] matching_ids(nodes, c, input).contains(id)
        <==> exists|i: int| 0 <= i < nodes.len() && nodes[i].id == id && meets(c, #[trigger] nodes[i], input) by {
        lemma_matching_ids_exact(nodes, c, input);
    }
}

} // verus!
