//! Setting the status of a task: its checkbox in the roadmap file changes.

use vstd::prelude::*;

use crate::delete::{first_hit, line_ids, rebuild, rebuild_exec};
use crate::graph::{node_views, Graph, Node, NodeKind, NodeView};
use crate::ops::{OpError, OpErrorView, UpdateTaskInput};
use crate::graph::opt_str_view;
use crate::scan::markdown::{parse_markdown, parse_spec};
use crate::text::{chars_of, extend, find, find_from, lemma_find_from, lines, lines_s, seq_eq, slice, split_once, split_once_s, string_of, views};

verus! {

pub open spec fn valid_status(s: Seq<char>) -> bool {
    s == "done"@ || s == "todo"@ || s == "in-progress"@ || s == "dropped"@
}

pub open spec fn marker_of(s: Seq<char>) -> Seq<char> {
    if s == "done"@ {
        "[x]"@
    } else if s == "todo"@ {
        "[ ]"@
    } else if s == "in-progress"@ {
        "[-]"@
    } else {
        "[~]"@
    }
}

/// `str::replacen(pat, rep, 1)`: the first occurrence of `pat` replaced.
pub open spec fn replace_first(s: Seq<char>, pat: Seq<char>, rep: Seq<char>) -> Seq<char> {
    match find_from(s, pat, 0) {
        Some(i) => s.take(i) + rep + s.skip(i + pat.len()),
        None => s,
    }
}

/// The line with its checkbox set to marker `m`: each checkbox form in turn has its first
/// occurrence replaced by `- m `.
pub open spec fn set_marker(line: Seq<char>, m: Seq<char>) -> Seq<char> {
    let rep = "- "@ + m + " "@;
    replace_first(
        replace_first(
            replace_first(
                replace_first(replace_first(line, "- [ ] "@, rep), "- [x] "@, rep),
                "- [X] "@,
                rep,
            ),
            "- [-] "@,
            rep,
        ),
        "- [~] "@,
        rep,
    )
}

/// The file a status update goes to: the part of the id before `#`, once the status is
/// known to be valid.
pub open spec fn file_of_spec(id: Seq<char>, status: Option<Seq<char>>) -> Result<Seq<char>, OpErrorView> {
    match status {
        None => Err(OpErrorView::NoStatus),
        Some(st) => if !valid_status(st) {
            Err(OpErrorView::UnsupportedValue(st))
        } else {
            match split_once_s(id, '#') {
                None => Err(OpErrorView::InvalidId),
                Some((f, _)) => Ok(f),
            }
        },
    }
}

pub open spec fn first_with_id(nodes: Seq<NodeView>, id: Seq<char>) -> Option<NodeView>
    decreases nodes.len(),
{
    if nodes.len() == 0 {
        None
    } else {
        match first_with_id(nodes.drop_last(), id) {
            Some(n) => Some(n),
            None => if nodes.last().id == id {
                Some(nodes.last())
            } else {
                None
            },
        }
    }
}

/// What a status update does to the text of the task's file, given the nodes scanned
/// from it.
pub open spec fn update_spec(id: Seq<char>, status: Option<Seq<char>>, content: Seq<char>, nodes: Seq<NodeView>) -> Result<Seq<char>, OpErrorView> {
    match file_of_spec(id, status) {
        Err(e) => Err(e),
        Ok(f) => match first_with_id(nodes, id) {
            None => Err(OpErrorView::NodeNotFound(id)),
            Some(n) => if n.kind != NodeKind::Task {
                Err(OpErrorView::NotATask(id))
            } else {
                let ls = lines_s(content);
                match first_hit(line_ids(f, ls).1, id, false) {
                    None => Err(OpErrorView::CheckboxNotFound(id)),
                    Some(i) => Ok(rebuild(ls.update(i, set_marker(ls[i], marker_of(status->0))), content)),
                }
            },
        },
    }
}

fn lit(s: &str) -> (r: Vec<char>)
    ensures
        r@ == s@,
{
    chars_of(s)
}

fn replace_first_exec(s: &Vec<char>, pat: &Vec<char>, rep: &Vec<char>) -> (r: Vec<char>)
    ensures
        r@ == replace_first(s@, pat@, rep@),
{
    let f = find(s, pat, 0);
    proof {
        lemma_find_from(s@, pat@, 0);
    }
    match f {
        Some(i) => {
            assert(find_from(s@, pat@, 0) == Some(i as int));
            assert(crate::text::occurs_at(s@, pat@, i as int));
            assert(i + pat@.len() <= s@.len());
            let slen = s.len();
            assert(i + pat@.len() <= slen);
            let mut out = slice(s, 0, i);
            extend(&mut out, rep);
            let tail = slice(s, i + pat.len(), s.len());
            extend(&mut out, &tail);
            assert(s@.take(i as int) =~= s@.subrange(0, i as int));
            assert(s@.skip(i + pat@.len()) =~= s@.subrange(i + pat@.len(), s@.len() as int));
            out
        },
        None => slice(s, 0, s.len()),
    }
}

fn set_marker_exec(line: &Vec<char>, m: &Vec<char>) -> (r: Vec<char>)
    ensures
        r@ == set_marker(line@, m@),
{
    let mut rep = lit("- ");
    extend(&mut rep, m);
    extend(&mut rep, &lit(" "));
    let a = replace_first_exec(line, &lit("- [ ] "), &rep);
    let b = replace_first_exec(&a, &lit("- [x] "), &rep);
    let c = replace_first_exec(&b, &lit("- [X] "), &rep);
    let d = replace_first_exec(&c, &lit("- [-] "), &rep);
    replace_first_exec(&d, &lit("- [~] "), &rep)
}

fn status_marker(st: &Vec<char>) -> (r: Option<Vec<char>>)
    ensures
        match r {
            Some(m) => valid_status(st@) && m@ == marker_of(st@),
            None => !valid_status(st@),
        },
{
    if seq_eq(st, &lit("done")) {
        Some(lit("[x]"))
    } else if seq_eq(st, &lit("todo")) {
        Some(lit("[ ]"))
    } else if seq_eq(st, &lit("in-progress")) {
        Some(lit("[-]"))
    } else if seq_eq(st, &lit("dropped")) {
        Some(lit("[~]"))
    } else {
        None
    }
}

/// Checks a status update and names the file it goes to.
pub fn file_of(id: &str, input: &UpdateTaskInput) -> (r: Result<String, OpError>)
    ensures
        match r {
            Ok(f) => file_of_spec(id@, opt_str_view(input.status)) == Ok::<Seq<char>, OpErrorView>(f@),
            Err(e) => file_of_spec(id@, opt_str_view(input.status)) == Err::<Seq<char>, OpErrorView>(e@),
        },
{
    let status = match &input.status {
        None => return Err(OpError::NoStatus),
        Some(s) => s,
    };
    if status_marker(&chars_of(status.as_str())).is_none() {
        return Err(OpError::UnsupportedValue(status.clone()));
    }
    match split_once(&chars_of(id), '#') {
        None => Err(OpError::InvalidId),
        Some((f, _)) => Ok(string_of(&f)),
    }
}

fn first_with_id_exec(nodes: &Vec<Node>, id: &str) -> (r: Option<usize>)
    ensures
        match r {
            Some(i) => i < nodes@.len() && first_with_id(node_views(nodes@), id@) == Some(nodes@[i as int]@),
            None => first_with_id(node_views(nodes@), id@) is None,
        },
{
    let ghost nv = node_views(nodes@);
    let target = String::from_str(id);
    let mut i: usize = 0;
    while i < nodes.len()
        invariant
            i <= nodes@.len(),
            nv == node_views(nodes@),
            target@ == id@,
            first_with_id(nv.take(i as int), id@) is None,
        decreases nodes@.len() - i,
    {
        assert(nv.take(i + 1).drop_last() =~= nv.take(i as int));
        assert(nv.take(i + 1).last() == nodes@[i as int]@);
        if nodes[i].id == target {
            proof {
                lemma_first_with_id_prefix(nv, id@, i + 1);
            }
            return Some(i);
        }
        i += 1;
    }
    assert(nv.take(nv.len() as int) =~= nv);
    None
}

proof fn lemma_first_with_id_prefix(nodes: Seq<NodeView>, id: Seq<char>, k: int)
    requires
        0 <= k <= nodes.len(),
        first_with_id(nodes.take(k), id) is Some,
    ensures
        first_with_id(nodes, id) == first_with_id(nodes.take(k), id),
    decreases nodes.len() - k,
{
    if k < nodes.len() {
        assert(nodes.take(k + 1).drop_last() =~= nodes.take(k));
        lemma_first_with_id_prefix(nodes, id, k + 1);
    } else {
        assert(nodes.take(k) =~= nodes);
    }
}

/// Sets the status of a task in the text of its file, given the nodes scanned from that
/// text.
pub fn update_in(id: &str, input: &UpdateTaskInput, content: &str, nodes: &Vec<Node>) -> (r: Result<String, OpError>)
    ensures
        match r {
            Ok(s) => update_spec(id@, opt_str_view(input.status), content@, node_views(nodes@)) == Ok::<Seq<char>, OpErrorView>(s@),
            Err(e) => update_spec(id@, opt_str_view(input.status), content@, node_views(nodes@)) == Err::<Seq<char>, OpErrorView>(e@),
        },
{
    let f = match file_of(id, input) {
        Err(e) => return Err(e),
        Ok(f) => f,
    };
    let st = match &input.status {
        Some(s) => s,
        None => return Err(OpError::NoStatus),
    };
    let marker = match status_marker(&chars_of(st.as_str())) {
        Some(m) => m,
        None => return Err(OpError::UnsupportedValue(st.clone())),
    };
    let k = match first_with_id_exec(nodes, id) {
        None => return Err(OpError::NodeNotFound(id.to_owned())),
        Some(k) => k,
    };
    if nodes[k].kind != NodeKind::Task {
        return Err(OpError::NotATask(id.to_owned()));
    }
    let cs = chars_of(content);
    let mut ls = lines(&cs);
    let ghost lv = views(ls@);
    let i = match crate::delete::find_line_pub(f.as_str(), &ls, id) {
        None => return Err(OpError::CheckboxNotFound(id.to_owned())),
        Some(i) => i,
    };
    proof {
        crate::delete::lemma_hit_in_range(f@, lv, id@);
    }
    let new_line = set_marker_exec(&ls[i], &marker);
    let ghost nl = new_line@;
    ls.set(i, new_line);
    assert(views(ls@) =~= lv.update(i as int, nl));
    Ok(rebuild_exec(&ls, &cs))
}

/// Sets the status of a task in the text of its file.
pub fn update_content(id: &str, input: &UpdateTaskInput, content: &str) -> (r: Result<String, OpError>)
    ensures
        match file_of_spec(id@, opt_str_view(input.status)) {
            Err(e) => r matches Err(e2) && e2@ == e,
            Ok(f) => match r {
                Ok(s) => update_spec(id@, opt_str_view(input.status), content@, parse_spec(f, content@).nodes) == Ok::<Seq<char>, OpErrorView>(s@),
                Err(e) => update_spec(id@, opt_str_view(input.status), content@, parse_spec(f, content@).nodes) == Err::<Seq<char>, OpErrorView>(e@),
            },
        },
{
    let f = match file_of(id, input) {
        Err(e) => return Err(e),
        Ok(f) => f,
    };
    let mut g = Graph::new();
    let mut links = Vec::new();
    parse_markdown(f.as_str(), content, &mut g, &mut links);
    assert(g@.nodes =~= parse_spec(f@, content@).nodes);
    update_in(id, input, content, &g.nodes)
}

} // verus!
