//! Progress summary of a roadmap: for each level-2 section, its tasks (also those in
//! subsections) with their status and subtask counts.

use vstd::prelude::*;

use crate::scan::markdown::{decimal, decimal_of};
use crate::text::{chars_of, extend, join_s, string_of};
use crate::graph::{
    edge_views, level_of, node_views, opt_str_view, stable_id_of, status_of, Edge, EdgeKind,
    EdgeView, Graph, GraphView, Node, NodeKind, NodeView,
};

verus! {

pub struct SubtaskCount {
    pub total: usize,
    pub done: usize,
}

pub struct TaskSummary {
    pub id: String,
    pub stable_id: Option<String>,
    pub label: String,
    pub status: String,
    pub subtasks: Option<SubtaskCount>,
}

pub struct Stage {
    pub name: String,
    pub total: usize,
    pub done: usize,
    pub tasks: Vec<TaskSummary>,
}

pub struct StatusOutput {
    pub total: usize,
    pub done: usize,
    pub todo: usize,
    pub stages: Vec<Stage>,
}

pub struct SummaryView {
    pub id: Seq<char>,
    pub stable_id: Option<Seq<char>>,
    pub label: Seq<char>,
    pub status: Seq<char>,
    pub subtasks: Option<(nat, nat)>,
}

pub struct StageView {
    pub name: Seq<char>,
    pub total: nat,
    pub done: nat,
    pub tasks: Seq<SummaryView>,
}

pub struct StatusView {
    pub total: nat,
    pub done: nat,
    pub todo: nat,
    pub stages: Seq<StageView>,
}

impl View for TaskSummary {
    type V = SummaryView;

    open spec fn view(&self) -> SummaryView {
        SummaryView {
            id: self.id@,
            stable_id: opt_str_view(self.stable_id),
            label: self.label@,
            status: self.status@,
            subtasks: match self.subtasks {
                Some(c) => Some((c.total as nat, c.done as nat)),
                None => None,
            },
        }
    }
}

pub open spec fn summary_views(v: Seq<TaskSummary>) -> Seq<SummaryView> {
    v.map_values(|t: TaskSummary| t@)
}

impl View for Stage {
    type V = StageView;

    open spec fn view(&self) -> StageView {
        StageView {
            name: self.name@,
            total: self.total as nat,
            done: self.done as nat,
            tasks: summary_views(self.tasks@),
        }
    }
}

pub open spec fn stage_views(v: Seq<Stage>) -> Seq<StageView> {
    v.map_values(|s: Stage| s@)
}

impl View for StatusOutput {
    type V = StatusView;

    open spec fn view(&self) -> StatusView {
        StatusView {
            total: self.total as nat,
            done: self.done as nat,
            todo: self.todo as nat,
            stages: stage_views(self.stages@),
        }
    }
}

/// The targets of the contains edges leaving `id`, in edge order.
pub open spec fn children_of(edges: Seq<EdgeView>, id: Seq<char>) -> Seq<Seq<char>>
    decreases edges.len(),
{
    if edges.len() == 0 {
        Seq::empty()
    } else {
        let r = children_of(edges.drop_last(), id);
        let e = edges.last();
        if e.kind == EdgeKind::Contains && e.source == id {
            r.push(e.target)
        } else {
            r
        }
    }
}

/// The last node with a given id (a later node shadows an earlier one).
pub open spec fn node_of(nodes: Seq<NodeView>, id: Seq<char>) -> Option<NodeView>
    decreases nodes.len(),
{
    if nodes.len() == 0 {
        None
    } else if nodes.last().id == id {
        Some(nodes.last())
    } else {
        node_of(nodes.drop_last(), id)
    }
}

/// The tasks found among the nodes `cs`, descending into sections at most `fuel` levels.
pub open spec fn tasks_in(g: GraphView, cs: Seq<Seq<char>>, fuel: nat) -> Seq<NodeView>
    decreases fuel, cs.len(),
{
    if cs.len() == 0 {
        Seq::empty()
    } else {
        let rest = tasks_in(g, cs.drop_last(), fuel);
        let c = cs.last();
        match node_of(g.nodes, c) {
            Some(n) => if n.kind == NodeKind::Task {
                rest.push(n)
            } else if n.kind == NodeKind::Section && fuel > 0 {
                rest + tasks_in(g, children_of(g.edges, c), (fuel - 1) as nat)
            } else {
                rest
            },
            None => rest,
        }
    }
}

/// The direct subtasks of a task: its children that are task nodes.
pub open spec fn subtasks_of(g: GraphView, cs: Seq<Seq<char>>) -> Seq<NodeView>
    decreases cs.len(),
{
    if cs.len() == 0 {
        Seq::empty()
    } else {
        let rest = subtasks_of(g, cs.drop_last());
        match node_of(g.nodes, cs.last()) {
            Some(n) => if n.kind == NodeKind::Task {
                rest.push(n)
            } else {
                rest
            },
            None => rest,
        }
    }
}

pub open spec fn count_done(ns: Seq<NodeView>) -> nat
    decreases ns.len(),
{
    if ns.len() == 0 {
        0
    } else {
        count_done(ns.drop_last()) + if status_of(ns.last()) == Some("done"@) {
            1nat
        } else {
            0nat
        }
    }
}

/// A task's summary: its own status, or, when it has subtasks, done exactly when all of
/// them are done.
pub open spec fn summarize(g: GraphView, t: NodeView) -> SummaryView {
    let subs = subtasks_of(g, children_of(g.edges, t.id));
    let (status, subtasks) = if subs.len() == 0 {
        (
            match status_of(t) {
                Some(s) => s,
                None => "todo"@,
            },
            None,
        )
    } else {
        let d = count_done(subs);
        (if d == subs.len() {
            "done"@
        } else {
            "todo"@
        }, Some((subs.len(), d)))
    };
    SummaryView { id: t.id, stable_id: stable_id_of(t), label: t.label, status, subtasks }
}

pub open spec fn summaries(g: GraphView, ts: Seq<NodeView>) -> Seq<SummaryView> {
    ts.map_values(|t: NodeView| summarize(g, t))
}

pub open spec fn count_done_summaries(s: Seq<SummaryView>) -> nat
    decreases s.len(),
{
    if s.len() == 0 {
        0
    } else {
        count_done_summaries(s.drop_last()) + if s.last().status == "done"@ {
            1nat
        } else {
            0nat
        }
    }
}

/// How deep sections are descended into: as many levels as the graph has nodes, which
/// only a cycle of contains edges can exceed.
pub open spec fn depth_limit(g: GraphView) -> nat {
    g.nodes.len()
}

pub open spec fn stage_of(g: GraphView, n: NodeView) -> StageView {
    let s = summaries(g, tasks_in(g, children_of(g.edges, n.id), depth_limit(g)));
    StageView { name: n.label, total: s.len(), done: count_done_summaries(s), tasks: s }
}

pub open spec fn is_stage(n: NodeView) -> bool {
    n.kind == NodeKind::Section && level_of(n) == Some(2u64)
}

/// The stages of the level-2 sections, in graph order.
pub open spec fn stages_of(g: GraphView, nodes: Seq<NodeView>) -> Seq<StageView>
    decreases nodes.len(),
{
    if nodes.len() == 0 {
        Seq::empty()
    } else {
        let r = stages_of(g, nodes.drop_last());
        if is_stage(nodes.last()) {
            r.push(stage_of(g, nodes.last()))
        } else {
            r
        }
    }
}

pub open spec fn sum_total(s: Seq<StageView>) -> nat
    decreases s.len(),
{
    if s.len() == 0 {
        0
    } else {
        sum_total(s.drop_last()) + s.last().total
    }
}

pub open spec fn sum_done(s: Seq<StageView>) -> nat
    decreases s.len(),
{
    if s.len() == 0 {
        0
    } else {
        sum_done(s.drop_last()) + s.last().done
    }
}

pub open spec fn status_spec(g: GraphView) -> StatusView {
    let st = stages_of(g, g.nodes);
    StatusView {
        total: sum_total(st),
        done: sum_done(st),
        todo: (sum_total(st) - sum_done(st)) as nat,
        stages: st,
    }
}

/// `node_of` finds one of the nodes, with the id asked for.
proof fn lemma_node_of_id(nodes: Seq<NodeView>, id: Seq<char>)
    ensures
        node_of(nodes, id) matches Some(n) ==> n.id == id && nodes.contains(n),
    decreases nodes.len(),
{
    if nodes.len() > 0 {
        if nodes.last().id != id {
            lemma_node_of_id(nodes.drop_last(), id);
            if node_of(nodes, id) is Some {
                let n = node_of(nodes, id)->0;
                let k = choose|k: int| 0 <= k < nodes.drop_last().len() && nodes.drop_last()[k] == n;
                assert(nodes[k] == n);
            }
        } else {
            assert(nodes[nodes.len() - 1] == nodes.last());
        }
    }
}

/// A chain of ids that repeats none, each naming a node, is no longer than the graph
/// has nodes.
proof fn lemma_chain_len(g: GraphView, path: Seq<Seq<char>>)
    requires
        path.no_duplicates(),
        forall|i: int| 0 <= i < path.len() ==> (#[trigger] node_of(g.nodes, path[i])) is Some,
    ensures
        path.len() <= g.nodes.len(),
{
    broadcast use vstd::seq_lib::seq_to_set_is_finite;

    let ids = g.nodes.map_values(|n: NodeView| n.id);
    assert forall|x: Seq<char>| path.to_set().contains(x) implies ids.to_set().contains(x) by {
        let i = choose|i: int| 0 <= i < path.len() && path[i] == x;
        lemma_node_of_id(g.nodes, x);
        assert(node_of(g.nodes, path[i]) is Some);
        let n = node_of(g.nodes, x)->0;
        let k = choose|k: int| 0 <= k < g.nodes.len() && g.nodes[k] == n;
        assert(ids[k] == x);
    }
    vstd::set_lib::lemma_len_subset(path.to_set(), ids.to_set());
    ids.lemma_cardinality_of_set();
    path.unique_seq_to_set();
}

/// The lookup found a node of the given kind.
pub open spec fn found_kind(o: Option<NodeView>, k: NodeKind) -> bool {
    o matches Some(x) && x.kind == k
}

/// A chain of contains edges from `path[0]` to its last id, through section nodes: each
/// id but the last names a section, the next id is one of its children, and the last
/// names a task.
pub open spec fn section_chain(g: GraphView, path: Seq<Seq<char>>) -> bool {
    &&& path.len() >= 1
    &&& forall|i: int| 0 <= i < path.len() - 1 ==> found_kind(#[trigger] node_of(g.nodes, path[i]), NodeKind::Section)
    &&& forall|i: int| 0 <= i < path.len() - 1 ==> (#[trigger] children_of(g.edges, path[i])).contains(path[i + 1])
    &&& found_kind(node_of(g.nodes, path.last()), NodeKind::Task)
}

proof fn lemma_tasks_in_reaches(g: GraphView, cs: Seq<Seq<char>>, fuel: nat, path: Seq<Seq<char>>)
    requires
        section_chain(g, path),
        cs.contains(path[0]),
        path.len() <= fuel + 1,
    ensures
        tasks_in(g, cs, fuel).contains(node_of(g.nodes, path.last())->0),
    decreases fuel, cs.len(),
{
    let t = node_of(g.nodes, path.last())->0;
    let rest = tasks_in(g, cs.drop_last(), fuel);
    let c = cs.last();
    let r = tasks_in(g, cs, fuel);
    if cs.drop_last().contains(path[0]) {
        lemma_tasks_in_reaches(g, cs.drop_last(), fuel, path);
        let j = choose|j: int| 0 <= j < rest.len() && rest[j] == t;
        match node_of(g.nodes, c) {
            Some(n) => if n.kind == NodeKind::Task {
                assert(r[j] == t);
            } else if n.kind == NodeKind::Section && fuel > 0 {
                assert(r[j] == t);
            } else {
            },
            None => {},
        }
    } else {
        let k = choose|k: int| 0 <= k < cs.len() && cs[k] == path[0];
        if k < cs.len() - 1 {
            assert(cs.drop_last()[k] == path[0]);
        }
        assert(c == path[0]);
        if path.len() == 1 {
            assert(r == rest.push(t));
            assert(r[rest.len() as int] == t);
        } else {
            assert(found_kind(node_of(g.nodes, path[0]), NodeKind::Section));
            assert(children_of(g.edges, path[0]).contains(path[1]));
            let tail = path.skip(1);
            assert forall|i: int| 0 <= i < tail.len() - 1 implies found_kind(#[trigger] node_of(g.nodes, tail[i]), NodeKind::Section) by {
                assert(tail[i] == path[i + 1]);
                assert(found_kind(node_of(g.nodes, path[i + 1]), NodeKind::Section));
            }
            assert forall|i: int| 0 <= i < tail.len() - 1 implies (#[trigger] children_of(g.edges, tail[i])).contains(tail[i + 1]) by {
                assert(tail[i] == path[i + 1]);
                assert(tail[i + 1] == path[i + 2]);
                assert(children_of(g.edges, path[i + 1]).contains(path[i + 2]));
            }
            assert(tail.last() == path.last());
            assert(tail[0] == path[1]);
            lemma_tasks_in_reaches(g, children_of(g.edges, c), (fuel - 1) as nat, tail);
            let sub = tasks_in(g, children_of(g.edges, c), (fuel - 1) as nat);
            let j = choose|j: int| 0 <= j < sub.len() && sub[j] == t;
            assert(r == rest + sub);
            assert(r[rest.len() + j] == t);
        }
    }
}

/// A stage counts every task of its section, also those under its subsections: a task
/// reached from a level-2 section through contains edges that pass only through section
/// nodes (a task under a `###` heading of the section, say) is one of the stage's tasks,
/// so it counts toward the stage's total.
pub proof fn lemma_stage_counts_nested_tasks(g: GraphView, n: NodeView, path: Seq<Seq<char>>)
    requires
        section_chain(g, path),
        path.no_duplicates(),
        children_of(g.edges, n.id).contains(path[0]),
    ensures
        exists|j: int|
            0 <= j < stage_of(g, n).tasks.len() && (#[trigger] stage_of(g, n).tasks[j]).id == path.last(),
        stage_of(g, n).total >= 1,
{
    assert forall|i: int| 0 <= i < path.len() implies (#[trigger] node_of(g.nodes, path[i])) is Some by {
        if i < path.len() - 1 {
            assert(found_kind(node_of(g.nodes, path[i]), NodeKind::Section));
        }
    }
    lemma_chain_len(g, path);
    lemma_tasks_in_reaches(g, children_of(g.edges, n.id), depth_limit(g), path);
    lemma_node_of_id(g.nodes, path.last());
    let ts = tasks_in(g, children_of(g.edges, n.id), depth_limit(g));
    let t = node_of(g.nodes, path.last())->0;
    let j = choose|j: int| 0 <= j < ts.len() && ts[j] == t;
    let s = summaries(g, ts);
    assert(s[j] == summarize(g, ts[j]));
    assert(stage_of(g, n).tasks[j].id == path.last());
}

/// Task `t` is reached from one of the ids `cs` through a chain of section nodes.
pub open spec fn reached_from(g: GraphView, cs: Seq<Seq<char>>, t: NodeView) -> bool {
    exists|path: Seq<Seq<char>>| #[trigger] section_chain(g, path) && cs.contains(path[0]) && node_of(g.nodes, path.last()) == Some(t)
}

proof fn lemma_tasks_in_reached(g: GraphView, cs: Seq<Seq<char>>, fuel: nat)
    ensures
        forall|j: int| 0 <= j < tasks_in(g, cs, fuel).len() ==> reached_from(g, cs, #[trigger] tasks_in(g, cs, fuel)[j]),
    decreases fuel, cs.len(),
{
    let r = tasks_in(g, cs, fuel);
    if cs.len() == 0 {
        assert(r.len() == 0);
    } else {
        let rest = tasks_in(g, cs.drop_last(), fuel);
        let c = cs.last();
        lemma_tasks_in_reached(g, cs.drop_last(), fuel);
        assert(cs[cs.len() - 1] == c);
        assert forall|j: int| 0 <= j < tasks_in(g, cs, fuel).len() implies reached_from(g, cs, #[trigger] tasks_in(g, cs, fuel)[j]) by {
            if j < rest.len() {
                assert(r[j] == rest[j]) by {
                    match node_of(g.nodes, c) {
                        Some(n) => if n.kind == NodeKind::Task {
                        } else if n.kind == NodeKind::Section && fuel > 0 {
                            assert(r == rest + tasks_in(g, children_of(g.edges, c), (fuel - 1) as nat));
                        } else {
                        },
                        None => {},
                    }
                }
                assert(reached_from(g, cs.drop_last(), rest[j]));
                let path = choose|path: Seq<Seq<char>>| #[trigger] section_chain(g, path) && cs.drop_last().contains(path[0]) && node_of(g.nodes, path.last()) == Some(rest[j]);
                let x = choose|x: int| 0 <= x < cs.drop_last().len() && cs.drop_last()[x] == path[0];
                assert(cs[x] == path[0]);
                assert(reached_from(g, cs, r[j]));
            } else {
                let n = node_of(g.nodes, c)->0;
                if n.kind == NodeKind::Task {
                    let path = seq![c];
                    assert(r[j] == n);
                    assert(section_chain(g, path));
                    assert(path[0] == c);
                    assert(reached_from(g, cs, r[j]));
                } else {
                    let sub = tasks_in(g, children_of(g.edges, c), (fuel - 1) as nat);
                    assert(r == rest + sub);
                    lemma_tasks_in_reached(g, children_of(g.edges, c), (fuel - 1) as nat);
                    let x = j - rest.len();
                    assert(r[j] == sub[x]);
                    assert(reached_from(g, children_of(g.edges, c), sub[x]));
                    let p1 = choose|path: Seq<Seq<char>>| #[trigger] section_chain(g, path) && children_of(g.edges, c).contains(path[0]) && node_of(g.nodes, path.last()) == Some(sub[x]);
                    let path = seq![c] + p1;
                    assert(path.last() == p1.last());
                    assert forall|i: int| 0 <= i < path.len() - 1 implies found_kind(#[trigger] node_of(g.nodes, path[i]), NodeKind::Section) by {
                        if i > 0 {
                            assert(path[i] == p1[i - 1]);
                        }
                    }
                    assert forall|i: int| 0 <= i < path.len() - 1 implies (#[trigger] children_of(g.edges, path[i])).contains(path[i + 1]) by {
                        if i > 0 {
                            assert(path[i] == p1[i - 1]);
                            assert(path[i + 1] == p1[i]);
                            assert(children_of(g.edges, p1[i - 1]).contains(p1[i]));
                        } else {
                            assert(path[1] == p1[0]);
                        }
                    }
                    assert(section_chain(g, path));
                    assert(path[0] == c);
                    assert(reached_from(g, cs, r[j]));
                }
            }
        }
    }
}

/// A stage counts only tasks of its section: each of its tasks is a task node reached
/// from the section through contains edges that pass only through section nodes.
pub proof fn lemma_stage_counts_only_section_tasks(g: GraphView, n: NodeView)
    ensures
        forall|j: int| 0 <= j < stage_of(g, n).tasks.len() ==> exists|path: Seq<Seq<char>>|
            #[trigger] section_chain(g, path) && children_of(g.edges, n.id).contains(path[0])
                && path.last() == (#[trigger] stage_of(g, n).tasks[j]).id,
{
    let cs = children_of(g.edges, n.id);
    let ts = tasks_in(g, cs, depth_limit(g));
    lemma_tasks_in_reached(g, cs, depth_limit(g));
    assert forall|j: int| 0 <= j < stage_of(g, n).tasks.len() implies exists|path: Seq<Seq<char>>|
        #[trigger] section_chain(g, path) && cs.contains(path[0]) && path.last() == (#[trigger] stage_of(g, n).tasks[j]).id by {
        assert(stage_of(g, n).tasks[j] == summarize(g, ts[j]));
        assert(reached_from(g, cs, ts[j]));
        let path = choose|path: Seq<Seq<char>>| #[trigger] section_chain(g, path) && cs.contains(path[0]) && node_of(g.nodes, path.last()) == Some(ts[j]);
        lemma_node_of_id(g.nodes, path.last());
        assert(section_chain(g, path) && cs.contains(path[0]) && path.last() == stage_of(g, n).tasks[j].id);
    }
}

proof fn lemma_done_le_total(s: Seq<SummaryView>)
    ensures
        count_done_summaries(s) <= s.len(),
    decreases s.len(),
{
    if s.len() > 0 {
        lemma_done_le_total(s.drop_last());
    }
}

proof fn lemma_sum_done_le_total(s: Seq<StageView>)
    requires
        forall|i: int| 0 <= i < s.len() ==> #[trigger] s[i].done <= s[i].total,
    ensures
        sum_done(s) <= sum_total(s),
    decreases s.len(),
{
    if s.len() > 0 {
        lemma_sum_done_le_total(s.drop_last());
    }
}

proof fn lemma_count_done_le(ns: Seq<NodeView>)
    ensures
        count_done(ns) <= ns.len(),
    decreases ns.len(),
{
    if ns.len() > 0 {
        lemma_count_done_le(ns.drop_last());
    }
}

fn lit(s: &str) -> (r: String)
    ensures
        r@ == s@,
{
    String::from_str(s)
}

fn children_exec(edges: &Vec<Edge>, id: &String) -> (r: Vec<String>)
    ensures
        r@.map_values(|s: String| s@) == children_of(edge_views(edges@), id@),
{
    let ghost ev = edge_views(edges@);
    let mut r: Vec<String> = Vec::new();
    let mut i: usize = 0;
    while i < edges.len()
        invariant
            i <= edges@.len(),
            ev == edge_views(edges@),
            r@.map_values(|s: String| s@) == children_of(ev.take(i as int), id@),
        decreases edges@.len() - i,
    {
        assert(ev.take(i + 1).drop_last() =~= ev.take(i as int));
        assert(ev.take(i + 1).last() == edges@[i as int]@);
        let e = &edges[i];
        if e.kind == EdgeKind::Contains && e.source == *id {
            let ghost before = r@;
            r.push(e.target.clone());
            assert(r@.map_values(|s: String| s@) =~= before.map_values(|s: String| s@).push(e@.target));
        }
        i += 1;
    }
    assert(ev.take(ev.len() as int) =~= ev);
    r
}

fn node_lookup(nodes: &Vec<Node>, id: &String) -> (r: Option<usize>)
    ensures
        match r {
            Some(i) => i < nodes@.len() && node_of(node_views(nodes@), id@) == Some(nodes@[i as int]@),
            None => node_of(node_views(nodes@), id@) is None,
        },
{
    let ghost nv = node_views(nodes@);
    let mut i: usize = nodes.len();
    assert(nv.take(nv.len() as int) =~= nv);
    while i > 0
        invariant
            i <= nodes@.len(),
            nv == node_views(nodes@),
            node_of(nv, id@) == node_of(nv.take(i as int), id@),
        decreases i,
    {
        assert(nv.take(i as int).last() == nodes@[i - 1]@);
        assert(nv.take(i as int).drop_last() =~= nv.take(i - 1));
        if nodes[i - 1].id == *id {
            return Some(i - 1);
        }
        i -= 1;
    }
    None
}

fn count_done_exec(ns: &Vec<Node>) -> (r: usize)
    ensures
        r == count_done(node_views(ns@)),
{
    let ghost nv = node_views(ns@);
    let mut c: usize = 0;
    let mut i: usize = 0;
    while i < ns.len()
        invariant
            i <= ns@.len(),
            nv == node_views(ns@),
            c == count_done(nv.take(i as int)),
            c <= i,
        decreases ns@.len() - i,
    {
        assert(nv.take(i + 1).drop_last() =~= nv.take(i as int));
        assert(nv.take(i + 1).last() == ns@[i as int]@);
        let is_done = match ns[i].status() {
            Some(s) => *s == lit("done"),
            None => false,
        };
        if is_done {
            c += 1;
        }
        i += 1;
    }
    assert(nv.take(nv.len() as int) =~= nv);
    c
}

/// The tasks among the nodes `cs`, descending into sections at most `fuel` levels.
fn collect_tasks(g: &Graph, cs: &Vec<String>, fuel: usize) -> (r: Vec<Node>)
    ensures
        node_views(r@) == tasks_in(g@, cs@.map_values(|s: String| s@), fuel as nat),
    decreases fuel,
{
    let ghost cv = cs@.map_values(|s: String| s@);
    let mut out: Vec<Node> = Vec::new();
    let mut k: usize = 0;
    while k < cs.len()
        invariant
            k <= cs@.len(),
            cv == cs@.map_values(|s: String| s@),
            node_views(out@) == tasks_in(g@, cv.take(k as int), fuel as nat),
        decreases cs@.len() - k,
    {
        assert(cv.take(k + 1).drop_last() =~= cv.take(k as int));
        assert(cv.take(k + 1).last() == cs@[k as int]@);
        let ghost before = node_views(out@);
        match node_lookup(&g.nodes, &cs[k]) {
            Some(idx) => {
                let n = &g.nodes[idx];
                if n.kind == NodeKind::Task {
                    out.push(n.duplicate());
                    assert(node_views(out@) =~= before.push(n@));
                } else if n.kind == NodeKind::Section && fuel > 0 {
                    let sub_ids = children_exec(&g.edges, &cs[k]);
                    let mut sub = collect_tasks(g, &sub_ids, fuel - 1);
                    let ghost sv = node_views(sub@);
                    out.append(&mut sub);
                    assert(node_views(out@) =~= before + sv);
                }
            },
            None => {},
        }
        k += 1;
    }
    assert(cv.take(cv.len() as int) =~= cv);
    out
}

fn subtasks_exec(g: &Graph, cs: &Vec<String>) -> (r: Vec<Node>)
    ensures
        node_views(r@) == subtasks_of(g@, cs@.map_values(|s: String| s@)),
{
    let ghost cv = cs@.map_values(|s: String| s@);
    let mut out: Vec<Node> = Vec::new();
    let mut k: usize = 0;
    while k < cs.len()
        invariant
            k <= cs@.len(),
            cv == cs@.map_values(|s: String| s@),
            node_views(out@) == subtasks_of(g@, cv.take(k as int)),
        decreases cs@.len() - k,
    {
        assert(cv.take(k + 1).drop_last() =~= cv.take(k as int));
        assert(cv.take(k + 1).last() == cs@[k as int]@);
        let ghost before = node_views(out@);
        match node_lookup(&g.nodes, &cs[k]) {
            Some(idx) => {
                let n = &g.nodes[idx];
                if n.kind == NodeKind::Task {
                    out.push(n.duplicate());
                    assert(node_views(out@) =~= before.push(n@));
                }
            },
            None => {},
        }
        k += 1;
    }
    assert(cv.take(cv.len() as int) =~= cv);
    out
}

fn summarize_exec(g: &Graph, t: &Node) -> (r: TaskSummary)
    ensures
        r@ == summarize(g@, t@),
{
    let cs = children_exec(&g.edges, &t.id);
    let subs = subtasks_exec(g, &cs);
    let (status, subtasks) = if subs.len() == 0 {
        let s = match t.status() {
            Some(s) => s.clone(),
            None => lit("todo"),
        };
        (s, None)
    } else {
        let d = count_done_exec(&subs);
        proof {
            lemma_count_done_le(node_views(subs@));
        }
        let s = if d == subs.len() {
            lit("done")
        } else {
            lit("todo")
        };
        (s, Some(SubtaskCount { total: subs.len(), done: d }))
    };
    let stable_id = match t.stable_id() {
        Some(s) => Some(s.clone()),
        None => None,
    };
    TaskSummary { id: t.id.clone(), stable_id, label: t.label.clone(), status, subtasks }
}

/// Summarizes the tasks of each level-2 section. The counts must fit in a `usize`.
pub fn build(graph: &Graph) -> (r: StatusOutput)
    requires
        sum_total(stages_of(graph@, graph@.nodes)) <= usize::MAX,
    ensures
        r@ == status_spec(graph@),
{
    match build_checked(graph) {
        Some(o) => o,
        None => {
            assert(false);
            StatusOutput { total: 0, done: 0, todo: 0, stages: Vec::new() }
        },
    }
}

/// Summarizes the tasks of each level-2 section, or `None` when the total count of tasks
/// does not fit in a `usize`.
pub fn build_checked(graph: &Graph) -> (r: Option<StatusOutput>)
    ensures
        r is Some <==> sum_total(stages_of(graph@, graph@.nodes)) <= usize::MAX,
        r matches Some(o) ==> o@ == status_spec(graph@),
{
    let ghost gv = graph@;
    let fuel = graph.nodes.len();
    let mut stages: Vec<Stage> = Vec::new();
    let mut total_all: usize = 0;
    let mut done_all: usize = 0;
    let mut i: usize = 0;
    proof {
        lemma_sum_total_prefix(gv, gv.nodes, 0);
    }
    while i < graph.nodes.len()
        invariant
            i <= graph.nodes@.len(),
            gv == graph@,
            fuel == gv.nodes.len(),
            stage_views(stages@) == stages_of(gv, gv.nodes.take(i as int)),
            total_all == sum_total(stage_views(stages@)),
            done_all == sum_done(stage_views(stages@)),
            done_all <= total_all,
        decreases graph.nodes@.len() - i,
    {
        assert(gv.nodes.take(i + 1).drop_last() =~= gv.nodes.take(i as int));
        assert(gv.nodes.take(i + 1).last() == graph.nodes@[i as int]@);
        let n = &graph.nodes[i];
        if n.kind == NodeKind::Section && n.level() == Some(2) {
            let cs = children_exec(&graph.edges, &n.id);
            let tasks = collect_tasks(graph, &cs, fuel);
            let ghost tv = node_views(tasks@);
            let mut summaries_v: Vec<TaskSummary> = Vec::new();
            let mut done: usize = 0;
            let mut k: usize = 0;
            while k < tasks.len()
                invariant
                    k <= tasks@.len(),
                    gv == graph@,
                    tv == node_views(tasks@),
                    summary_views(summaries_v@) == summaries(gv, tv.take(k as int)),
                    done == count_done_summaries(summary_views(summaries_v@)),
                    done <= k,
                decreases tasks@.len() - k,
            {
                let s = summarize_exec(graph, &tasks[k]);
                let ghost before = summary_views(summaries_v@);
                let is_done = s.status == lit("done");
                summaries_v.push(s);
                assert(summary_views(summaries_v@) =~= before.push(s@));
                assert(summaries(gv, tv.take(k + 1)) =~= summaries(gv, tv.take(k as int)).push(
                    summarize(gv, tv[k as int]),
                ));
                assert(summary_views(summaries_v@).drop_last() =~= before);
                if is_done {
                    done += 1;
                }
                k += 1;
            }
            assert(tv.take(tv.len() as int) =~= tv);
            let stage_total = summaries_v.len();
            let ghost before = stage_views(stages@);
            proof {
                lemma_sum_total_prefix(gv, gv.nodes, i + 1);
            }
            let st = Stage { name: n.label.clone(), total: stage_total, done, tasks: summaries_v };
            assert(st@ == stage_of(gv, n@));
            stages.push(st);
            assert(stage_views(stages@) =~= before.push(st@));
            assert(stage_views(stages@).drop_last() =~= before);
            match total_all.checked_add(stage_total) {
                Some(t) => total_all = t,
                None => {
                    return None;
                },
            }
            done_all = done_all + done;
        }
        i += 1;
    }
    assert(gv.nodes.take(gv.nodes.len() as int) =~= gv.nodes);
    Some(StatusOutput { total: total_all, done: done_all, todo: total_all - done_all, stages })
}

/// The stages of a prefix of the nodes count no more tasks than those of all nodes.
proof fn lemma_sum_total_prefix(g: GraphView, nodes: Seq<NodeView>, i: int)
    requires
        0 <= i <= nodes.len(),
    ensures
        sum_total(stages_of(g, nodes.take(i))) <= sum_total(stages_of(g, nodes)),
    decreases nodes.len() - i,
{
    if i < nodes.len() {
        lemma_sum_total_prefix(g, nodes, i + 1);
        assert(nodes.take(i + 1).drop_last() =~= nodes.take(i));
        let a = stages_of(g, nodes.take(i));
        let b = stages_of(g, nodes.take(i + 1));
        if is_stage(nodes[i]) {
            assert(b == a.push(stage_of(g, nodes[i])));
            assert(b.drop_last() =~= a);
        } else {
            assert(b == a);
        }
    } else {
        assert(nodes.take(i) =~= nodes);
    }
}


/// Totals add up: every stage has no more done tasks than tasks, the overall counts are
/// the sums of the stages', and done plus remaining is the total.
pub proof fn lemma_status_totals(g: GraphView)
    ensures
        forall|i: int|
            0 <= i < status_spec(g).stages.len() ==> #[trigger] status_spec(g).stages[i].done
                <= status_spec(g).stages[i].total,
        status_spec(g).done <= status_spec(g).total,
        status_spec(g).done + status_spec(g).todo == status_spec(g).total,
{
    let st = stages_of(g, g.nodes);
    lemma_stage_done_le(g, g.nodes);
    lemma_sum_done_le_total(st);
}

proof fn lemma_stage_done_le(g: GraphView, nodes: Seq<NodeView>)
    ensures
        forall|i: int|
            0 <= i < stages_of(g, nodes).len() ==> #[trigger] stages_of(g, nodes)[i].done
                <= stages_of(g, nodes)[i].total,
    decreases nodes.len(),
{
    if nodes.len() > 0 {
        lemma_stage_done_le(g, nodes.drop_last());
        if is_stage(nodes.last()) {
            let st = stage_of(g, nodes.last());
            lemma_done_le_total(st.tasks);
            let r = stages_of(g, nodes.drop_last());
            assert forall|i: int|
                0 <= i < stages_of(g, nodes).len() implies #[trigger] stages_of(g, nodes)[i].done
                <= stages_of(g, nodes)[i].total by {
                if i < r.len() {
                    assert(stages_of(g, nodes)[i] == r[i]);
                }
            }
        }
    }
}

/// A task with subtasks counts as done exactly when every subtask is done.
pub proof fn lemma_parent_done_iff_all_subtasks_done(g: GraphView, t: NodeView)
    requires
        subtasks_of(g, children_of(g.edges, t.id)).len() > 0,
    ensures
        summarize(g, t).status == "done"@ <==> forall|j: int|
            0 <= j < subtasks_of(g, children_of(g.edges, t.id)).len() ==> status_of(
                #[trigger] subtasks_of(g, children_of(g.edges, t.id))[j],
            ) == Some("done"@),
{
    let subs = subtasks_of(g, children_of(g.edges, t.id));
    lemma_count_done_all(subs);
    reveal_strlit("done");
    reveal_strlit("todo");
    assert("done"@[0] != "todo"@[0]);
}

proof fn lemma_count_done_all(ns: Seq<NodeView>)
    ensures
        count_done(ns) == ns.len() <==> forall|j: int| 0 <= j < ns.len() ==> status_of(#[trigger] ns[j]) == Some("done"@),
    decreases ns.len(),
{
    lemma_count_done_le(ns);
    if ns.len() > 0 {
        let d = ns.drop_last();
        lemma_count_done_all(d);
        lemma_count_done_le(d);
        if forall|j: int| 0 <= j < ns.len() ==> status_of(#[trigger] ns[j]) == Some("done"@) {
            assert forall|j: int| 0 <= j < d.len() implies status_of(#[trigger] d[j]) == Some("done"@) by {
                assert(d[j] == ns[j]);
                assert(status_of(ns[j]) == Some("done"@));
            }
            assert(status_of(ns[ns.len() - 1]) == Some("done"@));
        }
        if count_done(ns) == ns.len() {
            assert forall|j: int| 0 <= j < ns.len() implies status_of(#[trigger] ns[j]) == Some("done"@) by {
                if j < d.len() {
                    assert(d[j] == ns[j]);
                    assert(status_of(d[j]) == Some("done"@));
                }
            }
        }
    }
}


pub open spec fn status_marker(st: Seq<char>) -> Seq<char> {
    if st == "done"@ {
        "[x]"@
    } else if st == "in-progress"@ {
        "[-]"@
    } else if st == "dropped"@ {
        "[~]"@
    } else {
        "[ ]"@
    }
}

pub open spec fn task_report_line(t: SummaryView) -> Seq<char> {
    let prefix = match t.stable_id {
        Some(sid) => sid + " "@,
        None => Seq::empty(),
    };
    "  "@ + status_marker(t.status) + " "@ + prefix + match t.subtasks {
        Some((total, done)) => decimal(done) + "/"@ + decimal(total) + " subtasks"@,
        None => t.label,
    }
}

/// A stage's heading line, its task lines, and a blank line.
pub open spec fn stage_report(st: StageView) -> Seq<Seq<char>> {
    seq![st.name + " — "@ + decimal(st.done) + "/"@ + decimal(st.total) + " ("@ + decimal(st.done * 100 / st.total) + "%)"@]
        + st.tasks.map_values(|t: SummaryView| task_report_line(t)) + seq![Seq::<char>::empty()]
}

pub open spec fn stages_report(stages: Seq<StageView>) -> Seq<Seq<char>>
    decreases stages.len(),
{
    if stages.len() == 0 {
        Seq::empty()
    } else {
        stages_report(stages.drop_last()) + if stages.last().total > 0 {
            stage_report(stages.last())
        } else {
            Seq::empty()
        }
    }
}

/// The progress report: overall counts, then each stage that has tasks.
pub open spec fn report_spec(o: StatusView) -> Seq<Seq<char>> {
    seq!["Progress: "@ + decimal(o.done) + "/"@ + decimal(o.total) + " tasks done"@] + (if o.todo > 0 {
        seq!["Remaining: "@ + decimal(o.todo)]
    } else {
        Seq::empty()
    }) + seq![Seq::<char>::empty()] + stages_report(o.stages)
}

/// A stage with tasks, all of them done or dropped.
pub open spec fn archivable(st: StageView) -> bool {
    st.total > 0 && forall|i: int| 0 <= i < st.tasks.len() ==> (#[trigger] st.tasks[i]).status == "done"@ || st.tasks[i].status == "dropped"@
}

pub open spec fn archivable_names(stages: Seq<StageView>) -> Seq<Seq<char>>
    decreases stages.len(),
{
    if stages.len() == 0 {
        Seq::empty()
    } else {
        archivable_names(stages.drop_last()) + if archivable(stages.last()) {
            seq![stages.last().name]
        } else {
            Seq::empty()
        }
    }
}

/// The hint to archive sections whose tasks are all done or dropped, if there are any.
pub open spec fn hint_spec(o: StatusView) -> Option<Seq<char>> {
    let names = archivable_names(o.stages);
    if names.len() > 0 {
        Some("Hint: "@ + join_s(names, ", "@) + " — all tasks done/dropped. If no more tasks are planned for these sections, run `topo archive` to clean up."@)
    } else {
        None
    }
}

pub open spec fn string_views(v: Seq<String>) -> Seq<Seq<char>> {
    v.map_values(|s: String| s@)
}

fn lit_chars(s: &str) -> (r: Vec<char>)
    ensures
        r@ == s@,
{
    chars_of(s)
}

fn marker_exec(st: &String) -> (r: Vec<char>)
    ensures
        r@ == status_marker(st@),
{
    let c = chars_of(st.as_str());
    if crate::text::seq_eq(&c, &lit_chars("done")) {
        lit_chars("[x]")
    } else if crate::text::seq_eq(&c, &lit_chars("in-progress")) {
        lit_chars("[-]")
    } else if crate::text::seq_eq(&c, &lit_chars("dropped")) {
        lit_chars("[~]")
    } else {
        lit_chars("[ ]")
    }
}

fn task_line_exec(t: &TaskSummary) -> (r: String)
    ensures
        r@ == task_report_line(t@),
{
    let mut v = lit_chars("  ");
    extend(&mut v, &marker_exec(&t.status));
    extend(&mut v, &lit_chars(" "));
    let ghost head = v@;
    match &t.stable_id {
        Some(sid) => {
            extend(&mut v, &chars_of(sid.as_str()));
            extend(&mut v, &lit_chars(" "));
        },
        None => {},
    }
    let ghost pre = v@;
    match &t.subtasks {
        Some(c) => {
            extend(&mut v, &decimal_of(c.done as u128));
            extend(&mut v, &lit_chars("/"));
            extend(&mut v, &decimal_of(c.total as u128));
            extend(&mut v, &lit_chars(" subtasks"));
        },
        None => {
            extend(&mut v, &chars_of(t.label.as_str()));
        },
    }
    assert(v@ =~= task_report_line(t@));
    string_of(&v)
}

fn stage_lines_exec(st: &Stage, out: &mut Vec<String>)
    requires
        st.total > 0,
    ensures
        string_views(final(out)@) == string_views(old(out)@) + stage_report(st@),
{
    let ghost start = string_views(out@);
    let mut h = chars_of(st.name.as_str());
    extend(&mut h, &lit_chars(" — "));
    extend(&mut h, &decimal_of(st.done as u128));
    extend(&mut h, &lit_chars("/"));
    extend(&mut h, &decimal_of(st.total as u128));
    extend(&mut h, &lit_chars(" ("));
    let pct: u128 = (st.done as u128 * 100) / (st.total as u128);
    assert(pct as nat == (st.done as nat) * 100 / (st.total as nat));
    extend(&mut h, &decimal_of(pct));
    extend(&mut h, &lit_chars("%)"));
    let hs = string_of(&h);
    let ghost hv = hs@;
    out.push(hs);
    let ghost tv = st@.tasks;
    let mut k: usize = 0;
    while k < st.tasks.len()
        invariant
            k <= st.tasks@.len(),
            tv == summary_views(st.tasks@),
            string_views(out@) == start + seq![hv] + tv.take(k as int).map_values(|t: SummaryView| task_report_line(t)),
        decreases st.tasks@.len() - k,
    {
        let ghost before = string_views(out@);
        let l = task_line_exec(&st.tasks[k]);
        out.push(l);
        assert(tv[k as int] == st.tasks@[k as int]@);
        assert(tv.take(k + 1).map_values(|t: SummaryView| task_report_line(t)) =~= tv.take(k as int).map_values(|t: SummaryView| task_report_line(t)).push(task_report_line(tv[k as int])));
        assert(string_views(out@) =~= before.push(task_report_line(tv[k as int])));
        k += 1;
    }
    assert(tv.take(tv.len() as int) =~= tv);
    let ghost before = string_views(out@);
    out.push(String::new());
    assert(string_views(out@) =~= before.push(Seq::<char>::empty()));
    assert(string_views(out@) =~= start + stage_report(st@));
}

/// The lines of the progress report.
pub fn report_lines(o: &StatusOutput) -> (r: Vec<String>)
    ensures
        string_views(r@) == report_spec(o@),
{
    let mut out: Vec<String> = Vec::new();
    let mut h = lit_chars("Progress: ");
    extend(&mut h, &decimal_of(o.done as u128));
    extend(&mut h, &lit_chars("/"));
    extend(&mut h, &decimal_of(o.total as u128));
    extend(&mut h, &lit_chars(" tasks done"));
    out.push(string_of(&h));
    if o.todo > 0 {
        let mut t = lit_chars("Remaining: ");
        extend(&mut t, &decimal_of(o.todo as u128));
        out.push(string_of(&t));
    }
    out.push(String::new());
    let ghost head = string_views(out@);
    assert(head =~= seq!["Progress: "@ + decimal(o@.done) + "/"@ + decimal(o@.total) + " tasks done"@] + (if o@.todo > 0 {
        seq!["Remaining: "@ + decimal(o@.todo)]
    } else {
        Seq::<Seq<char>>::empty()
    }) + seq![Seq::<char>::empty()]);
    let ghost sv = o@.stages;
    let mut k: usize = 0;
    while k < o.stages.len()
        invariant
            k <= o.stages@.len(),
            sv == stage_views(o.stages@),
            string_views(out@) == head + stages_report(sv.take(k as int)),
        decreases o.stages@.len() - k,
    {
        assert(sv.take(k + 1).drop_last() =~= sv.take(k as int));
        assert(sv.take(k + 1).last() == o.stages@[k as int]@);
        let ghost before = string_views(out@);
        if o.stages[k].total > 0 {
            stage_lines_exec(&o.stages[k], &mut out);
        } else {
            assert(before + Seq::<Seq<char>>::empty() =~= before);
        }
        k += 1;
    }
    assert(sv.take(sv.len() as int) =~= sv);
    out
}

fn archivable_exec(st: &Stage) -> (r: bool)
    ensures
        r == archivable(st@),
{
    if st.total == 0 {
        return false;
    }
    let ghost tv = st@.tasks;
    let mut k: usize = 0;
    while k < st.tasks.len()
        invariant
            k <= st.tasks@.len(),
            tv == summary_views(st.tasks@),
            forall|i: int| 0 <= i < k ==> (#[trigger] tv[i]).status == "done"@ || tv[i].status == "dropped"@,
        decreases st.tasks@.len() - k,
    {
        assert(tv[k as int] == st.tasks@[k as int]@);
        let c = chars_of(st.tasks[k].status.as_str());
        if !(crate::text::seq_eq(&c, &lit_chars("done")) || crate::text::seq_eq(&c, &lit_chars("dropped"))) {
            assert(!(tv[k as int].status == "done"@ || tv[k as int].status == "dropped"@));
            assert(st@.tasks[k as int] == tv[k as int]);
            return false;
        }
        k += 1;
    }
    true
}

/// The hint to archive finished sections, if any section is finished.
pub fn archive_hint(o: &StatusOutput) -> (r: Option<String>)
    ensures
        crate::graph::opt_str_view(r) == hint_spec(o@),
{
    let ghost sv = o@.stages;
    let mut names: Vec<Vec<char>> = Vec::new();
    let mut k: usize = 0;
    while k < o.stages.len()
        invariant
            k <= o.stages@.len(),
            sv == stage_views(o.stages@),
            crate::text::views(names@) == archivable_names(sv.take(k as int)),
        decreases o.stages@.len() - k,
    {
        assert(sv.take(k + 1).drop_last() =~= sv.take(k as int));
        assert(sv.take(k + 1).last() == o.stages@[k as int]@);
        let ghost before = crate::text::views(names@);
        if archivable_exec(&o.stages[k]) {
            names.push(chars_of(o.stages[k].name.as_str()));
            assert(crate::text::views(names@) =~= before + seq![o.stages@[k as int]@.name]);
        } else {
            assert(before + Seq::<Seq<char>>::empty() =~= before);
        }
        k += 1;
    }
    assert(sv.take(sv.len() as int) =~= sv);
    if names.len() == 0 {
        return None;
    }
    let mut v = lit_chars("Hint: ");
    extend(&mut v, &crate::text::join(&names, &lit_chars(", ")));
    extend(&mut v, &lit_chars(" — all tasks done/dropped. If no more tasks are planned for these sections, run `topo archive` to clean up."));
    Some(string_of(&v))
}

proof fn lemma_stages_filter(g: GraphView, nodes: Seq<NodeView>)
    ensures
        stages_of(g, nodes) == nodes.filter(|n: NodeView| is_stage(n)).map_values(|n: NodeView| stage_of(g, n)),
    decreases nodes.len(),
{
    reveal(Seq::filter);
    if nodes.len() > 0 {
        lemma_stages_filter(g, nodes.drop_last());
        let f = nodes.drop_last().filter(|n: NodeView| is_stage(n));
        if is_stage(nodes.last()) {
            assert(f.push(nodes.last()).map_values(|n: NodeView| stage_of(g, n)) =~= f.map_values(|n: NodeView| stage_of(g, n)).push(stage_of(g, nodes.last())));
        }
    }
}

/// The report has one stage per level-2 section, in the order of the sections: each is
/// named by the section's label and counts the tasks under the section (through its
/// subsections), a task with subtasks being done when all of them are.
pub proof fn lemma_one_stage_per_section(g: GraphView)
    ensures
        status_spec(g).stages == g.nodes.filter(|n: NodeView| is_stage(n)).map_values(|n: NodeView| stage_of(g, n)),
        forall|i: int| 0 <= i < status_spec(g).stages.len() ==> (#[trigger] status_spec(g).stages[i]).total == status_spec(g).stages[i].tasks.len(),
{
    lemma_stages_filter(g, g.nodes);
}

} // verus!
