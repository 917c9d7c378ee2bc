//! Adding a task to the roadmap: the next free numeric id in its section (or under its
//! parent task), the task's lines, and where they go in the file.

use vstd::prelude::*;
use vstd::relations::injective_on;
use vstd::set_lib::{lemma_int_range, lemma_len_subset, lemma_map_size, set_int_range};

use crate::delete::{rebuild, rebuild_exec};
use crate::graph::{edge_views, level_of, node_views, opt_str_view, stable_id_of, EdgeView, Graph, Node, NodeKind, NodeView};
use crate::ops::update::first_with_id;
use crate::ops::{AddTaskInput, OpError, OpErrorView};
use crate::scan::markdown::{decimal, decimal_of, digit_char, parse_markdown, parse_spec, slugify, slugify_spec};
use crate::status::children_of;
use crate::text::{
    chars_of, contains, contains_s, extend, is_digit, is_ws, leading_ws, lines, lines_s, seq_eq, slice, split, split_s,
    starts_with, starts_with_s, string_of, lemma_trailing_ws_short, trim, trim_s, trim_start_s, views,
};

verus! {

/// The value of a run of decimal digits.
pub open spec fn digits_value(s: Seq<char>) -> nat
    decreases s.len(),
{
    if s.len() == 0 {
        0
    } else {
        digits_value(s.drop_last()) * 10 + ((s.last() as u32) - 48) as nat
    }
}

pub open spec fn all_digits(d: Seq<char>) -> bool {
    forall|i: int| 0 <= i < d.len() ==> is_digit(#[trigger] d[i])
}

/// The text after an optional leading `+`.
pub open spec fn unsigned_part(s: Seq<char>) -> Seq<char> {
    if s.len() > 0 && s[0] == '+' {
        s.skip(1)
    } else {
        s
    }
}

/// `u32::from_str`: an optional `+`, then one or more decimal digits, of value at most
/// `u32::MAX`.
pub open spec fn parse_u32_spec(s: Seq<char>) -> Option<nat> {
    let d = unsigned_part(s);
    if d.len() > 0 && all_digits(d) && digits_value(d) <= u32::MAX {
        Some(digits_value(d))
    } else {
        None
    }
}

pub fn parse_u32(s: &[char]) -> (r: Option<u32>)
    ensures
        match r {
            Some(v) => parse_u32_spec(s@) == Some(v as nat),
            None => parse_u32_spec(s@) is None,
        },
{
    let start: usize = if s.len() > 0 && s[0] == '+' {
        1
    } else {
        0
    };
    let ghost d = s@.skip(start as int);
    assert(s@.skip(0) =~= s@);
    assert(d == unsigned_part(s@));
    if start >= s.len() {
        return None;
    }
    let mut v: u64 = 0;
    let mut i = start;
    while i < s.len()
        invariant
            start <= i <= s@.len(),
            d == s@.skip(start as int),
            d == unsigned_part(s@),
            forall|k: int| 0 <= k < i - start ==> is_digit(#[trigger] d[k]),
            v == digits_value(d.take(i - start)),
            v <= u32::MAX,
        decreases s@.len() - i,
    {
        let c = s[i];
        if !('0' <= c && c <= '9') {
            assert(d[i - start] == c);
            return None;
        }
        assert(d.take(i - start + 1).drop_last() =~= d.take(i - start));
        assert(d.take(i - start + 1).last() == c);
        let dv = (c as u32 - 48) as u64;
        let nv = v * 10 + dv;
        assert(nv == digits_value(d.take(i - start + 1)));
        i += 1;
        if nv > 4294967295 {
            proof {
                lemma_digits_value_mono(d, i - start);
            }
            return None;
        }
        v = nv;
    }
    assert(d.take(i - start) =~= d);
    Some(v as u32)
}

/// Extending a run of digits never lowers its value.
proof fn lemma_digits_value_mono(d: Seq<char>, k: int)
    requires
        0 <= k <= d.len(),
    ensures
        digits_value(d.take(k)) <= digits_value(d),
    decreases d.len() - k,
{
    if k < d.len() {
        lemma_digits_value_mono(d, k + 1);
        assert(d.take(k + 1).drop_last() =~= d.take(k));
    } else {
        assert(d.take(k) =~= d);
    }
}

proof fn lemma_decimal_nonempty(n: nat)
    ensures
        decimal(n).len() >= 1,
        n >= 10 ==> decimal(n).len() >= 2,
    decreases n,
{
    if n >= 10 {
        lemma_decimal_nonempty(n / 10);
    }
}

/// Different numbers have different decimal digits.
pub proof fn lemma_decimal_injective(a: nat, b: nat)
    requires
        decimal(a) == decimal(b),
    ensures
        a == b,
    decreases a,
{
    lemma_decimal_nonempty(a);
    lemma_decimal_nonempty(b);
    if a < 10 && b < 10 {
        assert(decimal(a)[0] == digit_char(a));
        assert(decimal(b)[0] == digit_char(b));
    } else if a >= 10 && b >= 10 {
        assert(decimal(a).last() == digit_char(a % 10));
        assert(decimal(b).last() == digit_char(b % 10));
        assert(decimal(a).drop_last() =~= decimal(a / 10));
        assert(decimal(b).drop_last() =~= decimal(b / 10));
        lemma_decimal_injective(a / 10, b / 10);
    } else {
        assert(decimal(a).len() != decimal(b).len());
    }
}

/// The id of candidate number `c` under `prefix`.
pub open spec fn cand(prefix: Seq<char>, c: nat) -> Seq<char> {
    prefix + "."@ + decimal(c)
}

proof fn lemma_cand_injective(prefix: Seq<char>, a: nat, b: nat)
    requires
        cand(prefix, a) == cand(prefix, b),
    ensures
        a == b,
{
    let pa = prefix + "."@;
    assert(cand(prefix, a).skip(pa.len() as int) =~= decimal(a));
    assert(cand(prefix, b).skip(pa.len() as int) =~= decimal(b));
    lemma_decimal_injective(a, b);
}

/// Among `ids.len() + 1` consecutive candidates, one is not taken.
proof fn lemma_free_candidate(ids: Seq<Seq<char>>, prefix: Seq<char>, c: nat)
    ensures
        exists|k: nat| k <= ids.len() && !ids.contains(#[trigger] cand(prefix, c + k)),
{
    let n = ids.len() as int;
    if forall|k: nat| k <= ids.len() ==> ids.contains(#[trigger] cand(prefix, c + k)) {
        let idx = |k: int| choose|i: int| 0 <= i < n && ids[i] == cand(prefix, (c + k) as nat);
        let x = set_int_range(0, n + 1);
        let y = x.map(idx);
        lemma_int_range(0, n + 1);
        lemma_int_range(0, n);
        assert forall|k: int| x.contains(k) implies 0 <= #[trigger] idx(k) < n && ids[idx(k)] == cand(prefix, (c + k) as nat) by {
            assert(ids.contains(cand(prefix, (c + k) as nat)));
        }
        assert(injective_on(idx, x)) by {
            assert forall|a: int, b: int| x.contains(a) && x.contains(b) && #[trigger] idx(a) == #[trigger] idx(b) implies a == b by {
                lemma_cand_injective(prefix, (c + a) as nat, (c + b) as nat);
            }
        }
        lemma_map_size(x, y, idx);
        assert(y.subset_of(set_int_range(0, n))) by {
            assert forall|i: int| y.contains(i) implies set_int_range(0, n).contains(i) by {
                let k = choose|k: int| x.contains(k) && idx(k) == i;
            }
        }
        lemma_len_subset(y, set_int_range(0, n));
        assert(false);
    }
}

/// The least candidate number from `c` on whose id is not taken.
pub open spec fn first_free(ids: Seq<Seq<char>>, prefix: Seq<char>, c: nat) -> nat {
    choose|r: nat|
        r >= c && !ids.contains(cand(prefix, r)) && forall|c2: nat| c <= c2 < r ==> ids.contains(#[trigger] cand(prefix, c2))
}

proof fn lemma_first_free(ids: Seq<Seq<char>>, prefix: Seq<char>, c: nat, r: nat)
    requires
        r >= c,
        !ids.contains(cand(prefix, r)),
        forall|c2: nat| c <= c2 < r ==> ids.contains(#[trigger] cand(prefix, c2)),
    ensures
        first_free(ids, prefix, c) == r,
{
    let f = first_free(ids, prefix, c);
    assert(f >= c && !ids.contains(cand(prefix, f)) && forall|c2: nat| c <= c2 < f ==> ids.contains(#[trigger] cand(prefix, c2)));
    if f < r {
        assert(ids.contains(cand(prefix, f)));
    }
    if r < f {
        assert(ids.contains(cand(prefix, r)));
    }
}

fn in_ids(ids: &Vec<String>, s: &Vec<char>) -> (r: bool)
    ensures
        r == ids@.map_values(|x: String| x@).contains(s@),
{
    let ghost iv = ids@.map_values(|x: String| x@);
    let mut i: usize = 0;
    while i < ids.len()
        invariant
            i <= ids@.len(),
            iv == ids@.map_values(|x: String| x@),
            forall|k: int| 0 <= k < i ==> iv[k] != s@,
        decreases ids@.len() - i,
    {
        if seq_eq(&chars_of(ids[i].as_str()), s) {
            assert(iv[i as int] == s@);
            return true;
        }
        i += 1;
    }
    false
}

fn cand_exec(prefix: &Vec<char>, c: u128) -> (r: Vec<char>)
    ensures
        r@ == cand(prefix@, c as nat),
{
    let mut v: Vec<char> = Vec::new();
    extend(&mut v, prefix);
    v.push('.');
    extend(&mut v, &decimal_of(c));
    assert(v@ =~= cand(prefix@, c as nat)) by {
        reveal_strlit(".");
    }
    v
}

/// The id of the least free candidate number from `start` on.
pub fn next_free_id(ids: &Vec<String>, prefix: &Vec<char>, start: u64) -> (r: String)
    ensures
        r@ == cand(prefix@, first_free(ids@.map_values(|x: String| x@), prefix@, start as nat)),
{
    let ghost iv = ids@.map_values(|x: String| x@);
    proof {
        lemma_free_candidate(iv, prefix@, start as nat);
    }
    let mut c: u128 = start as u128;
    let bound: u128 = start as u128 + ids.len() as u128;
    loop
        invariant
            start <= c <= bound,
            bound == start + iv.len(),
            iv == ids@.map_values(|x: String| x@),
            iv.len() == ids@.len(),
            exists|k: nat| k <= iv.len() && !iv.contains(#[trigger] cand(prefix@, start as nat + k)),
            forall|c2: nat| start <= c2 < c ==> iv.contains(#[trigger] cand(prefix@, c2)),
        decreases bound - c,
    {
        let v = cand_exec(prefix, c);
        if !in_ids(ids, &v) {
            proof {
                lemma_first_free(iv, prefix@, start as nat, c as nat);
            }
            return string_of(&v);
        }
        if c == bound {
            proof {
                let k = choose|k: nat| k <= iv.len() && !iv.contains(#[trigger] cand(prefix@, start as nat + k));
                assert(iv.contains(cand(prefix@, start as nat + k)));
            }
            assert(false);
        }
        c = c + 1;
    }
}


pub open spec fn is_section_for(n: NodeView, sec: nat) -> bool {
    n.kind == NodeKind::Section && level_of(n) == Some(2u64) && starts_with_s(n.label, decimal(sec) + "."@)
}

/// The first level-2 section whose label starts with `sec.`.
pub open spec fn find_section(nodes: Seq<NodeView>, sec: nat) -> Option<NodeView>
    decreases nodes.len(),
{
    if nodes.len() == 0 {
        None
    } else {
        match find_section(nodes.drop_last(), sec) {
            Some(n) => Some(n),
            None => if is_section_for(nodes.last(), sec) {
                Some(nodes.last())
            } else {
                None
            },
        }
    }
}

/// The first node whose stable id is `sid`.
pub open spec fn find_stable(nodes: Seq<NodeView>, sid: Seq<char>) -> Option<NodeView>
    decreases nodes.len(),
{
    if nodes.len() == 0 {
        None
    } else {
        match find_stable(nodes.drop_last(), sid) {
            Some(n) => Some(n),
            None => if stable_id_of(nodes.last()) == Some(sid) {
                Some(nodes.last())
            } else {
                None
            },
        }
    }
}

/// The last number of a stable id with exactly `parts` dot-separated parts.
pub open spec fn num_part(sid: Seq<char>, parts: nat) -> Option<nat> {
    let p = split_s(sid, '.');
    if p.len() == parts && parts > 0 {
        parse_u32_spec(p[parts - 1])
    } else {
        None
    }
}

/// The number a child contributes to the running maximum (0 when none).
pub open spec fn child_num(nodes: Seq<NodeView>, c: Seq<char>, parts: nat, need_task: bool) -> nat {
    match first_with_id(nodes, c) {
        Some(n) => if need_task && n.kind != NodeKind::Task {
            0
        } else {
            match stable_id_of(n) {
                Some(sid) => match num_part(sid, parts) {
                    Some(v) => v,
                    None => 0,
                },
                None => 0,
            }
        },
        None => 0,
    }
}

/// The greatest last number among the stable ids of the children `cs`.
pub open spec fn max_num(nodes: Seq<NodeView>, cs: Seq<Seq<char>>, parts: nat, need_task: bool) -> nat
    decreases cs.len(),
{
    if cs.len() == 0 {
        0
    } else {
        let m = max_num(nodes, cs.drop_last(), parts, need_task);
        let v = child_num(nodes, cs.last(), parts, need_task);
        if v > m {
            v
        } else {
            m
        }
    }
}

/// The id of a new task: the next free number in its section, or under its parent task,
/// skipping numbers that any known id (roadmap or archive) already has.
pub open spec fn new_id_spec(sec: nat, parent: Option<Seq<char>>, nodes: Seq<NodeView>, edges: Seq<EdgeView>, ids: Seq<Seq<char>>) -> Result<Seq<char>, OpErrorView> {
    match find_section(nodes, sec) {
        None => Err(OpErrorView::SectionNotFound(sec)),
        Some(s) => match parent {
            Some(p) => match find_stable(nodes, p) {
                None => Err(OpErrorView::ParentNotFound(p)),
                Some(pn) => Ok(cand(p, first_free(ids, p, max_num(nodes, children_of(edges, pn.id), 3, false) + 1))),
            },
            None => Ok(cand(decimal(sec), first_free(ids, decimal(sec), max_num(nodes, children_of(edges, s.id), 2, true) + 1))),
        },
    }
}

/// The lines of a new task: its checkbox line (with a link to its detail document, if
/// any), and its description after a blank line.
pub open spec fn task_text(desc: Seq<char>, has_parent: bool, task_desc: Option<Seq<char>>, id: Seq<char>, doc: Option<Seq<char>>) -> Seq<char> {
    let indent = if has_parent {
        "  "@
    } else {
        Seq::empty()
    };
    let base = match doc {
        Some(d) => indent + "- [ ] ["@ + id + "]("@ + d + ") "@ + desc,
        None => indent + "- [ ] "@ + id + " "@ + desc,
    };
    match task_desc {
        Some(t) => base + "\n\n"@ + (if has_parent {
            "    "@
        } else {
            "  "@
        }) + t,
        None => base,
    }
}

pub open spec fn detail_path(desc: Seq<char>) -> Seq<char> {
    "roadmap/"@ + slugify_spec(desc) + ".md"@
}

pub open spec fn template_rest() -> Seq<char> {
    "\n\n## Context\nWhy this "@ + "task exists. Current project state, user requirements.\n\n## Analysis\n- Related code/design in the current project\n- Similar past decisions (check ARCHIVE.md)\n- Risks and considerations\n\n## Decision\nChosen approach and why.\n\n## Rejected\nAlternatives considered but discarded.\n\n## Plan\nConcrete implementation steps.\n"@
}

/// The detail document of a task discussed before it is done.
pub open spec fn detail_template(desc: Seq<char>) -> Seq<char> {
    "# Task: "@ + desc + template_rest()
}

pub open spec fn is_heading_line(l: Seq<char>) -> bool {
    starts_with_s(l, "## "@) || starts_with_s(l, "# "@)
}

pub open spec fn is_item_line(l: Seq<char>) -> bool {
    starts_with_s(trim_s(l), "- ["@)
}

/// The end of a parent task's block: the next top-level item or heading.
pub open spec fn sub_end(lines: Seq<Seq<char>>, j: int) -> int
    decreases lines.len() - j,
{
    if j < 0 || j >= lines.len() {
        j
    } else {
        let n = lines[j];
        if (is_item_line(n) && !starts_with_s(n, "  "@)) || is_heading_line(n) {
            j
        } else {
            sub_end(lines, j + 1)
        }
    }
}

/// The end of the last item's block: the next item, heading, or unindented text.
pub open spec fn after_last(lines: Seq<Seq<char>>, e: int) -> int
    decreases lines.len() - e,
{
    if e < 0 || e >= lines.len() {
        e
    } else {
        let n = lines[e];
        if is_item_line(n) || is_heading_line(n) || (n.len() > 0 && !starts_with_s(n, "  "@)) {
            e
        } else {
            after_last(lines, e + 1)
        }
    }
}

/// Walks the lines looking for where the section (or the parent's block) ends: the place
/// found, if any, and the last item line of the section.
pub open spec fn scan_section(lines: Seq<Seq<char>>, heading: Seq<char>, parent: Option<Seq<char>>, i: int, in_sec: bool, last: Option<int>) -> (Option<int>, Option<int>)
    decreases lines.len() - i,
{
    if i < 0 || i >= lines.len() {
        (None, last)
    } else {
        let l = lines[i];
        if starts_with_s(l, heading) {
            scan_section(lines, heading, parent, i + 1, true, last)
        } else if in_sec {
            if is_heading_line(l) {
                (Some(i), last)
            } else {
                let last2 = if is_item_line(l) {
                    Some(i)
                } else {
                    last
                };
                match parent {
                    Some(p) => if contains_s(l, p + " "@) && is_item_line(l) {
                        (Some(sub_end(lines, i + 1)), last2)
                    } else {
                        scan_section(lines, heading, parent, i + 1, true, last2)
                    },
                    None => scan_section(lines, heading, parent, i + 1, true, last2),
                }
            }
        } else {
            scan_section(lines, heading, parent, i + 1, false, last)
        }
    }
}

pub open spec fn first_heading(lines: Seq<Seq<char>>, heading: Seq<char>, i: int) -> Option<int>
    decreases lines.len() - i,
{
    if i < 0 || i >= lines.len() {
        None
    } else if starts_with_s(lines[i], heading) {
        Some(i)
    } else {
        first_heading(lines, heading, i + 1)
    }
}

/// Where the new task's lines go.
pub open spec fn insert_index(lines: Seq<Seq<char>>, heading: Seq<char>, parent: Option<Seq<char>>) -> int {
    match scan_section(lines, heading, parent, 0, false, None) {
        (Some(x), _) => x,
        (None, Some(l)) => after_last(lines, l + 1),
        (None, None) => match first_heading(lines, heading, 0) {
            Some(i) => i + 1,
            None => 0,
        },
    }
}

pub struct DetailDoc {
    pub path: String,
    pub text: String,
}

/// What adding a task produces: its id, the new roadmap text, and the detail document to
/// write, if one was asked for.
pub struct AddOutcome {
    pub id: String,
    pub roadmap: String,
    pub detail_doc: Option<DetailDoc>,
}

pub struct AddView {
    pub id: Seq<char>,
    pub roadmap: Seq<char>,
    pub detail_doc: Option<(Seq<char>, Seq<char>)>,
}

impl View for AddOutcome {
    type V = AddView;

    open spec fn view(&self) -> AddView {
        AddView {
            id: self.id@,
            roadmap: self.roadmap@,
            detail_doc: match self.detail_doc {
                Some(d) => Some((d.path@, d.text@)),
                None => None,
            },
        }
    }
}

/// What adding a task does, given the roadmap text, the nodes and edges scanned from it,
/// and the stable ids already in use.
pub open spec fn add_spec(input: (Seq<char>, nat, Option<Seq<char>>, Option<Seq<char>>), discuss: bool, content: Seq<char>, nodes: Seq<NodeView>, edges: Seq<EdgeView>, ids: Seq<Seq<char>>) -> Result<AddView, OpErrorView> {
    let (desc, sec, parent, task_desc) = input;
    match new_id_spec(sec, parent, nodes, edges, ids) {
        Err(e) => Err(e),
        Ok(id) => {
            let s = find_section(nodes, sec).unwrap();
            let doc = if discuss {
                Some(detail_path(desc))
            } else {
                None
            };
            let text = task_text(desc, parent is Some, task_desc, id, doc);
            let ls = lines_s(content);
            let idx = insert_index(ls, "## "@ + s.label, parent);
            Ok(AddView {
                id,
                roadmap: rebuild(ls.take(idx) + lines_s(text) + ls.skip(idx), content),
                detail_doc: if discuss {
                    Some((detail_path(desc), detail_template(desc)))
                } else {
                    None
                },
            })
        },
    }
}

/// `f` is the least candidate number from `c` on whose id is not taken.
pub open spec fn is_first_free(ids: Seq<Seq<char>>, prefix: Seq<char>, c: nat, f: nat) -> bool {
    f >= c && !ids.contains(cand(prefix, f)) && forall|c2: nat| c <= c2 < f ==> ids.contains(#[trigger] cand(prefix, c2))
}

proof fn lemma_least_free(ids: Seq<Seq<char>>, prefix: Seq<char>, c: nat, r: nat)
    requires
        r >= c,
        !ids.contains(cand(prefix, r)),
    ensures
        exists|f: nat| #[trigger] is_first_free(ids, prefix, c, f),
    decreases r - c,
{
    if forall|c2: nat| c <= c2 < r ==> ids.contains(#[trigger] cand(prefix, c2)) {
        assert(is_first_free(ids, prefix, c, r));
    } else {
        let c2 = choose|c2: nat| c <= c2 < r && !ids.contains(#[trigger] cand(prefix, c2));
        lemma_least_free(ids, prefix, c, c2);
    }
}

proof fn lemma_first_free_is_free(ids: Seq<Seq<char>>, prefix: Seq<char>, c: nat)
    ensures
        !ids.contains(cand(prefix, first_free(ids, prefix, c))),
{
    lemma_free_candidate(ids, prefix, c);
    let k = choose|k: nat| k <= ids.len() && !ids.contains(#[trigger] cand(prefix, c + k));
    lemma_least_free(ids, prefix, c, c + k);
    let f = choose|f: nat| #[trigger] is_first_free(ids, prefix, c, f);
    assert(is_first_free(ids, prefix, c, f));
}

/// A task that is added gets an id that none of the given ids (those of the roadmap and
/// the archive) already is.
pub proof fn lemma_added_id_is_new(input: (Seq<char>, nat, Option<Seq<char>>, Option<Seq<char>>), discuss: bool, content: Seq<char>, nodes: Seq<NodeView>, edges: Seq<EdgeView>, ids: Seq<Seq<char>>)
    requires
        add_spec(input, discuss, content, nodes, edges, ids) is Ok,
    ensures
        !ids.contains(add_spec(input, discuss, content, nodes, edges, ids)->Ok_0.id),
{
    let (desc, sec, parent, task_desc) = input;
    match find_section(nodes, sec) {
        None => {},
        Some(s) => match parent {
            Some(p) => match find_stable(nodes, p) {
                None => {},
                Some(pn) => lemma_first_free_is_free(ids, p, max_num(nodes, children_of(edges, pn.id), 3, false) + 1),
            },
            None => lemma_first_free_is_free(ids, decimal(sec), max_num(nodes, children_of(edges, s.id), 2, true) + 1),
        },
    }
}

proof fn lemma_after_last_bound(lines: Seq<Seq<char>>, e: int)
    requires
        0 <= e <= lines.len(),
    ensures
        e <= after_last(lines, e) <= lines.len(),
    decreases lines.len() - e,
{
    if e < lines.len() {
        lemma_after_last_bound(lines, e + 1);
    }
}

proof fn lemma_insert_index_bound(lines: Seq<Seq<char>>, heading: Seq<char>, parent: Option<Seq<char>>)
    ensures
        0 <= insert_index(lines, heading, parent) <= lines.len(),
{
    lemma_scan_bound(lines, heading, parent, 0, false, None);
    lemma_first_heading_bound(lines, heading, 0);
    match scan_section(lines, heading, parent, 0, false, None) {
        (Some(x), _) => {},
        (None, Some(l)) => lemma_after_last_bound(lines, l + 1),
        (None, None) => {},
    }
}

proof fn lemma_split_no_sep(t: Seq<char>, c: char)
    requires
        !t.contains(c),
    ensures
        split_s(t, c) == seq![t],
    decreases t.len(),
{
    if t.len() > 0 {
        assert(!t.drop_last().contains(c)) by {
            if t.drop_last().contains(c) {
                let j = choose|j: int| 0 <= j < t.drop_last().len() && t.drop_last()[j] == c;
                assert(t[j] == c);
            }
        }
        lemma_split_no_sep(t.drop_last(), c);
        assert(t.last() != c) by {
            assert(t[t.len() - 1] == t.last());
        }
        assert(t.drop_last().push(t.last()) =~= t);
        assert(split_s(t, c) =~= seq![t]);
    } else {
        assert(t =~= Seq::<char>::empty());
        assert(split_s(t, c) =~= seq![t]);
    }
}

proof fn lemma_concat_free(a: Seq<char>, b: Seq<char>, c: char)
    requires
        !a.contains(c),
        !b.contains(c),
    ensures
        !(a + b).contains(c),
{
    if (a + b).contains(c) {
        let j = choose|j: int| 0 <= j < (a + b).len() && (a + b)[j] == c;
        if j < a.len() {
            assert(a[j] == c);
        } else {
            assert(b[j - a.len()] == c);
        }
    }
}

proof fn lemma_decimal_no_line_feed(n: nat)
    ensures
        !decimal(n).contains('\n'),
    decreases n,
{
    if n >= 10 {
        lemma_decimal_no_line_feed(n / 10);
        let d = decimal(n / 10);
        if decimal(n).contains('\n') {
            let j = choose|j: int| 0 <= j < decimal(n).len() && decimal(n)[j] == '\n';
            if j < d.len() {
                assert(decimal(n)[j] == d[j]);
            }
        }
    } else {
        if decimal(n).contains('\n') {
            let j = choose|j: int| 0 <= j < decimal(n).len() && decimal(n)[j] == '\n';
        }
    }
}

proof fn lemma_new_id_has_no_line_feed(sec: nat, parent: Option<Seq<char>>, nodes: Seq<NodeView>, edges: Seq<EdgeView>, ids: Seq<Seq<char>>)
    requires
        parent matches Some(p) ==> !p.contains('\n'),
    ensures
        new_id_spec(sec, parent, nodes, edges, ids) matches Ok(id) ==> !id.contains('\n'),
{
    reveal_strlit(".");
    assert(!"."@.contains('\n')) by {
        if "."@.contains('\n') {
            let j = choose|j: int| 0 <= j < "."@.len() && "."@[j] == '\n';
        }
    }
    let prefix = match parent {
        Some(p) => p,
        None => decimal(sec),
    };
    lemma_decimal_no_line_feed(sec);
    match new_id_spec(sec, parent, nodes, edges, ids) {
        Ok(id) => {
            let k = choose|k: nat| id == cand(prefix, k);
            lemma_decimal_no_line_feed(k);
            lemma_concat_free(prefix, "."@, '\n');
            lemma_concat_free(prefix + "."@, decimal(k), '\n');
        },
        Err(_) => {},
    }
}

/// A non-empty text without a line feed is one line.
proof fn lemma_one_line(t: Seq<char>)
    requires
        t.len() > 0,
        !t.contains('\n'),
    ensures
        lines_s(t) == seq![t],
{
    lemma_split_no_sep(t, '\n');
    assert(lines_s(t) =~= seq![t]);
}

/// The new roadmap is the old one with one more line somewhere, every other line kept
/// in order.
pub open spec fn one_line_inserted(old_lines: Seq<Seq<char>>, content: Seq<char>, new_text: Seq<char>, line: Seq<char>) -> bool {
    exists|i: int| 0 <= i <= old_lines.len() && new_text == rebuild(#[trigger] old_lines.take(i) + seq![line] + old_lines.skip(i), content)
}

/// Adding a task without a description or a detail document inserts exactly one line,
/// `- [ ] id description` (indented for a subtask), and keeps every other line of the
/// roadmap, in order.
pub proof fn lemma_add_inserts_one_line(desc: Seq<char>, sec: nat, parent: Option<Seq<char>>, content: Seq<char>, nodes: Seq<NodeView>, edges: Seq<EdgeView>, ids: Seq<Seq<char>>)
    requires
        !desc.contains('\n'),
        parent matches Some(p) ==> !p.contains('\n'),
        add_spec((desc, sec, parent, None), false, content, nodes, edges, ids) is Ok,
    ensures
        one_line_inserted(
            lines_s(content),
            content,
            add_spec((desc, sec, parent, None), false, content, nodes, edges, ids)->Ok_0.roadmap,
            (if parent is Some {
                "  "@
            } else {
                Seq::empty()
            }) + "- [ ] "@ + add_spec((desc, sec, parent, None), false, content, nodes, edges, ids)->Ok_0.id + " "@ + desc,
        ),
{
    let v = add_spec((desc, sec, parent, None), false, content, nodes, edges, ids)->Ok_0;
    let id = v.id;
    let s = find_section(nodes, sec).unwrap();
    let indent = if parent is Some {
        "  "@
    } else {
        Seq::<char>::empty()
    };
    let line = indent + "- [ ] "@ + id + " "@ + desc;
    let text = task_text(desc, parent is Some, None, id, None);
    assert(text == line);
    assert(!line.contains('\n')) by {
        reveal_strlit("  ");
        reveal_strlit("- [ ] ");
        reveal_strlit(" ");
        lemma_new_id_has_no_line_feed(sec, parent, nodes, edges, ids);
        assert(!indent.contains('\n')) by {
            if indent.contains('\n') {
                let j = choose|j: int| 0 <= j < indent.len() && indent[j] == '\n';
            }
        }
        assert(!"- [ ] "@.contains('\n')) by {
            if "- [ ] "@.contains('\n') {
                let j = choose|j: int| 0 <= j < "- [ ] "@.len() && "- [ ] "@[j] == '\n';
            }
        }
        assert(!" "@.contains('\n')) by {
            if " "@.contains('\n') {
                let j = choose|j: int| 0 <= j < " "@.len() && " "@[j] == '\n';
            }
        }
        lemma_concat_free(indent, "- [ ] "@, '\n');
        lemma_concat_free(indent + "- [ ] "@, id, '\n');
        lemma_concat_free(indent + "- [ ] "@ + id, " "@, '\n');
        lemma_concat_free(indent + "- [ ] "@ + id + " "@, desc, '\n');
    }
    reveal_strlit("- [ ] ");
    lemma_one_line(line);
    let ls = lines_s(content);
    let idx = insert_index(ls, "## "@ + s.label, parent);
    lemma_insert_index_bound(ls, "## "@ + s.label, parent);
    assert(v.roadmap == rebuild(ls.take(idx) + seq![line] + ls.skip(idx), content));
}

pub open spec fn input_view(input: AddTaskInput) -> (Seq<char>, nat, Option<Seq<char>>, Option<Seq<char>>) {
    (input.description@, input.section as nat, opt_str_view(input.parent), opt_str_view(input.task_description))
}

/// The stable ids of the task nodes, in order.
pub open spec fn task_sids(nodes: Seq<NodeView>) -> Seq<Seq<char>>
    decreases nodes.len(),
{
    if nodes.len() == 0 {
        Seq::empty()
    } else {
        let r = task_sids(nodes.drop_last());
        let n = nodes.last();
        if n.kind == NodeKind::Task && stable_id_of(n) is Some {
            r.push(stable_id_of(n)->0)
        } else {
            r
        }
    }
}

/// The stable ids of the tasks of several files, file after file.
pub open spec fn all_sids(files: Seq<(Seq<char>, Seq<char>)>) -> Seq<Seq<char>>
    decreases files.len(),
{
    if files.len() == 0 {
        Seq::empty()
    } else {
        all_sids(files.drop_last()) + task_sids(parse_spec(files.last().0, files.last().1).nodes)
    }
}

fn lit(s: &str) -> (r: Vec<char>)
    ensures
        r@ == s@,
{
    chars_of(s)
}

fn find_section_exec(nodes: &Vec<Node>, sec: usize) -> (r: Option<usize>)
    ensures
        match r {
            Some(i) => i < nodes@.len() && find_section(node_views(nodes@), sec as nat) == Some(nodes@[i as int]@),
            None => find_section(node_views(nodes@), sec as nat) is None,
        },
{
    let ghost nv = node_views(nodes@);
    let mut prefix = decimal_of(sec as u128);
    prefix.push('.');
    assert(prefix@ =~= decimal(sec as nat) + "."@) by {
        reveal_strlit(".");
    }
    let mut i: usize = 0;
    while i < nodes.len()
        invariant
            i <= nodes@.len(),
            nv == node_views(nodes@),
            prefix@ == decimal(sec as nat) + "."@,
            find_section(nv.take(i as int), sec as nat) is None,
        decreases nodes@.len() - i,
    {
        assert(nv.take(i + 1).drop_last() =~= nv.take(i as int));
        assert(nv.take(i + 1).last() == nodes@[i as int]@);
        let n = &nodes[i];
        if n.kind == NodeKind::Section && n.level() == Some(2) && starts_with(&chars_of(n.label.as_str()), &prefix) {
            proof {
                lemma_find_section_prefix(nv, sec as nat, i + 1);
            }
            return Some(i);
        }
        i += 1;
    }
    assert(nv.take(nv.len() as int) =~= nv);
    None
}

proof fn lemma_find_section_prefix(nodes: Seq<NodeView>, sec: nat, k: int)
    requires
        0 <= k <= nodes.len(),
        find_section(nodes.take(k), sec) is Some,
    ensures
        find_section(nodes, sec) == find_section(nodes.take(k), sec),
    decreases nodes.len() - k,
{
    if k < nodes.len() {
        assert(nodes.take(k + 1).drop_last() =~= nodes.take(k));
        lemma_find_section_prefix(nodes, sec, k + 1);
    } else {
        assert(nodes.take(k) =~= nodes);
    }
}

fn find_stable_exec(nodes: &Vec<Node>, sid: &String) -> (r: Option<usize>)
    ensures
        match r {
            Some(i) => i < nodes@.len() && find_stable(node_views(nodes@), sid@) == Some(nodes@[i as int]@),
            None => find_stable(node_views(nodes@), sid@) is None,
        },
{
    let ghost nv = node_views(nodes@);
    let mut i: usize = 0;
    while i < nodes.len()
        invariant
            i <= nodes@.len(),
            nv == node_views(nodes@),
            find_stable(nv.take(i as int), sid@) is None,
        decreases nodes@.len() - i,
    {
        assert(nv.take(i + 1).drop_last() =~= nv.take(i as int));
        assert(nv.take(i + 1).last() == nodes@[i as int]@);
        let hit = match nodes[i].stable_id() {
            Some(s) => *s == *sid,
            None => false,
        };
        if hit {
            proof {
                lemma_find_stable_prefix(nv, sid@, i + 1);
            }
            return Some(i);
        }
        i += 1;
    }
    assert(nv.take(nv.len() as int) =~= nv);
    None
}

proof fn lemma_find_stable_prefix(nodes: Seq<NodeView>, sid: Seq<char>, k: int)
    requires
        0 <= k <= nodes.len(),
        find_stable(nodes.take(k), sid) is Some,
    ensures
        find_stable(nodes, sid) == find_stable(nodes.take(k), sid),
    decreases nodes.len() - k,
{
    if k < nodes.len() {
        assert(nodes.take(k + 1).drop_last() =~= nodes.take(k));
        lemma_find_stable_prefix(nodes, sid, k + 1);
    } else {
        assert(nodes.take(k) =~= nodes);
    }
}

fn first_node_exec(nodes: &Vec<Node>, id: &String) -> (r: Option<usize>)
    ensures
        match r {
            Some(i) => i < nodes@.len() && first_with_id(node_views(nodes@), id@) == Some(nodes@[i as int]@),
            None => first_with_id(node_views(nodes@), id@) is None,
        },
{
    let ghost nv = node_views(nodes@);
    let mut i: usize = 0;
    while i < nodes.len()
        invariant
            i <= nodes@.len(),
            nv == node_views(nodes@),
            first_with_id(nv.take(i as int), id@) is None,
        decreases nodes@.len() - i,
    {
        assert(nv.take(i + 1).drop_last() =~= nv.take(i as int));
        assert(nv.take(i + 1).last() == nodes@[i as int]@);
        if nodes[i].id == *id {
            proof {
                lemma_first_with_id_prefix(nv, id@, i + 1);
            }
            return Some(i);
        }
        i += 1;
    }
    assert(nv.take(nv.len() as int) =~= nv);
    None
}

proof fn lemma_first_with_id_prefix(nodes: Seq<NodeView>, id: Seq<char>, k: int)
    requires
        0 <= k <= nodes.len(),
        first_with_id(nodes.take(k), id) is Some,
    ensures
        first_with_id(nodes, id) == first_with_id(nodes.take(k), id),
    decreases nodes.len() - k,
{
    if k < nodes.len() {
        assert(nodes.take(k + 1).drop_last() =~= nodes.take(k));
        lemma_first_with_id_prefix(nodes, id, k + 1);
    } else {
        assert(nodes.take(k) =~= nodes);
    }
}

fn num_part_exec(sid: &String, parts: usize) -> (r: Option<u32>)
    ensures
        match r {
            Some(v) => num_part(sid@, parts as nat) == Some(v as nat),
            None => num_part(sid@, parts as nat) is None,
        },
{
    let p = split(&chars_of(sid.as_str()), '.');
    if p.len() == parts && parts > 0 {
        assert(views(p@)[parts - 1] == p@[parts - 1]@);
        parse_u32(&p[parts - 1])
    } else {
        None
    }
}

fn max_num_exec(nodes: &Vec<Node>, cs: &Vec<String>, parts: usize, need_task: bool) -> (r: u32)
    ensures
        r == max_num(node_views(nodes@), cs@.map_values(|s: String| s@), parts as nat, need_task),
{
    let ghost nv = node_views(nodes@);
    let ghost cv = cs@.map_values(|s: String| s@);
    let mut m: u32 = 0;
    let mut k: usize = 0;
    while k < cs.len()
        invariant
            k <= cs@.len(),
            nv == node_views(nodes@),
            cv == cs@.map_values(|s: String| s@),
            m == max_num(nv, cv.take(k as int), parts as nat, need_task),
        decreases cs@.len() - k,
    {
        assert(cv.take(k + 1).drop_last() =~= cv.take(k as int));
        assert(cv.take(k + 1).last() == cs@[k as int]@);
        let v: u32 = match first_node_exec(nodes, &cs[k]) {
            Some(idx) => {
                let n = &nodes[idx];
                if need_task && n.kind != NodeKind::Task {
                    0
                } else {
                    match n.stable_id() {
                        Some(sid) => match num_part_exec(sid, parts) {
                            Some(v) => v,
                            None => 0,
                        },
                        None => 0,
                    }
                }
            },
            None => 0,
        };
        assert(v == child_num(nv, cv[k as int], parts as nat, need_task));
        if v > m {
            m = v;
        }
        k += 1;
    }
    assert(cv.take(cv.len() as int) =~= cv);
    m
}

fn children_ids(g: &Graph, id: &String) -> (r: Vec<String>)
    ensures
        r@.map_values(|s: String| s@) == children_of(g@.edges, id@),
{
    let ghost ev = edge_views(g.edges@);
    let mut r: Vec<String> = Vec::new();
    let mut i: usize = 0;
    while i < g.edges.len()
        invariant
            i <= g.edges@.len(),
            ev == edge_views(g.edges@),
            r@.map_values(|s: String| s@) == children_of(ev.take(i as int), id@),
        decreases g.edges@.len() - i,
    {
        assert(ev.take(i + 1).drop_last() =~= ev.take(i as int));
        assert(ev.take(i + 1).last() == g.edges@[i as int]@);
        let e = &g.edges[i];
        if e.kind == crate::graph::EdgeKind::Contains && e.source == *id {
            let ghost before = r@;
            r.push(e.target.clone());
            assert(r@.map_values(|s: String| s@) =~= before.map_values(|s: String| s@).push(e@.target));
        }
        i += 1;
    }
    assert(ev.take(ev.len() as int) =~= ev);
    r
}

/// The id a new task gets.
pub fn new_task_id(input: &AddTaskInput, graph: &Graph, all_ids: &Vec<String>) -> (r: Result<String, OpError>)
    ensures
        match r {
            Ok(id) => new_id_spec(input.section as nat, opt_str_view(input.parent), graph@.nodes, graph@.edges, all_ids@.map_values(|s: String| s@)) == Ok::<Seq<char>, OpErrorView>(id@),
            Err(e) => new_id_spec(input.section as nat, opt_str_view(input.parent), graph@.nodes, graph@.edges, all_ids@.map_values(|s: String| s@)) == Err::<Seq<char>, OpErrorView>(e@),
        },
{
    let si = match find_section_exec(&graph.nodes, input.section) {
        None => return Err(OpError::SectionNotFound(input.section)),
        Some(si) => si,
    };
    match &input.parent {
        Some(p) => {
            let pi = match find_stable_exec(&graph.nodes, p) {
                None => return Err(OpError::ParentNotFound(p.clone())),
                Some(pi) => pi,
            };
            let cs = children_ids(graph, &graph.nodes[pi].id);
            let ms = max_num_exec(&graph.nodes, &cs, 3, false);
            Ok(next_free_id(all_ids, &chars_of(p.as_str()), ms as u64 + 1))
        },
        None => {
            let cs = children_ids(graph, &graph.nodes[si].id);
            let mt = max_num_exec(&graph.nodes, &cs, 2, true);
            Ok(next_free_id(all_ids, &decimal_of(input.section as u128), mt as u64 + 1))
        },
    }
}


fn task_text_exec(desc: &String, has_parent: bool, task_desc: &Option<String>, id: &String, doc: &Option<String>) -> (r: Vec<char>)
    ensures
        r@ == task_text(desc@, has_parent, opt_str_view(*task_desc), id@, opt_str_view(*doc)),
{
    let mut v: Vec<char> = if has_parent {
        lit("  ")
    } else {
        Vec::new()
    };
    let ghost indent = v@;
    match doc {
        Some(d) => {
            extend(&mut v, &lit("- [ ] ["));
            extend(&mut v, &chars_of(id.as_str()));
            extend(&mut v, &lit("]("));
            extend(&mut v, &chars_of(d.as_str()));
            extend(&mut v, &lit(") "));
            extend(&mut v, &chars_of(desc.as_str()));
            assert(v@ =~= indent + "- [ ] ["@ + id@ + "]("@ + d@ + ") "@ + desc@);
        },
        None => {
            extend(&mut v, &lit("- [ ] "));
            extend(&mut v, &chars_of(id.as_str()));
            extend(&mut v, &lit(" "));
            extend(&mut v, &chars_of(desc.as_str()));
            assert(v@ =~= indent + "- [ ] "@ + id@ + " "@ + desc@);
        },
    }
    let ghost base = v@;
    match task_desc {
        Some(t) => {
            extend(&mut v, &lit("\n\n"));
            if has_parent {
                extend(&mut v, &lit("    "));
            } else {
                extend(&mut v, &lit("  "));
            }
            extend(&mut v, &chars_of(t.as_str()));
            assert(v@ =~= base + "\n\n"@ + (if has_parent {
                "    "@
            } else {
                "  "@
            }) + t@);
        },
        None => {},
    }
    proof {
        if !has_parent {
            assert(indent =~= Seq::<char>::empty());
        }
    }
    v
}

fn detail_path_exec(desc: &String) -> (r: String)
    ensures
        r@ == detail_path(desc@),
{
    let mut v = lit("roadmap/");
    let slug = slugify(desc.as_str());
    extend(&mut v, &chars_of(slug.as_str()));
    extend(&mut v, &lit(".md"));
    string_of(&v)
}

fn detail_template_exec(desc: &String) -> (r: String)
    ensures
        r@ == detail_template(desc@),
{
    let mut v = lit("# Task: ");
    extend(&mut v, &chars_of(desc.as_str()));
    extend(&mut v, &lit("\n\n## Context\nWhy this "));
    extend(&mut v, &lit("task exists. Current project state, user requirements.\n\n## Analysis\n- Related code/design in the current project\n- Similar past decisions (check ARCHIVE.md)\n- Risks and considerations\n\n## Decision\nChosen approach and why.\n\n## Rejected\nAlternatives considered but discarded.\n\n## Plan\nConcrete implementation steps.\n"));
    string_of(&v)
}

fn is_heading_exec(l: &Vec<char>) -> (r: bool)
    ensures
        r == is_heading_line(l@),
{
    starts_with(l, &lit("## ")) || starts_with(l, &lit("# "))
}

fn is_item_exec(l: &Vec<char>) -> (r: bool)
    ensures
        r == is_item_line(l@),
{
    starts_with(&trim(l), &lit("- ["))
}

fn sub_end_exec(ls: &Vec<Vec<char>>, start: usize) -> (r: usize)
    requires
        start <= ls@.len(),
    ensures
        r == sub_end(views(ls@), start as int),
        start <= r <= ls@.len(),
{
    let ghost lv = views(ls@);
    let mut j = start;
    while j < ls.len()
        invariant
            start <= j <= ls@.len(),
            lv == views(ls@),
            sub_end(lv, start as int) == sub_end(lv, j as int),
        decreases ls@.len() - j,
    {
        assert(lv[j as int] == ls@[j as int]@);
        let n = &ls[j];
        if (is_item_exec(n) && !starts_with(n, &lit("  "))) || is_heading_exec(n) {
            return j;
        }
        j += 1;
    }
    j
}

fn after_last_exec(ls: &Vec<Vec<char>>, start: usize) -> (r: usize)
    requires
        start <= ls@.len(),
    ensures
        r == after_last(views(ls@), start as int),
        start <= r <= ls@.len(),
{
    let ghost lv = views(ls@);
    let mut e = start;
    while e < ls.len()
        invariant
            start <= e <= ls@.len(),
            lv == views(ls@),
            after_last(lv, start as int) == after_last(lv, e as int),
        decreases ls@.len() - e,
    {
        assert(lv[e as int] == ls@[e as int]@);
        let n = &ls[e];
        if is_item_exec(n) || is_heading_exec(n) || (n.len() > 0 && !starts_with(n, &lit("  "))) {
            return e;
        }
        e += 1;
    }
    e
}

proof fn lemma_scan_bound(lines: Seq<Seq<char>>, heading: Seq<char>, parent: Option<Seq<char>>, i: int, in_sec: bool, last: Option<int>)
    requires
        0 <= i,
        last matches Some(l) ==> 0 <= l < lines.len(),
    ensures
        scan_section(lines, heading, parent, i, in_sec, last).0 matches Some(x) ==> 0 <= x <= lines.len(),
        scan_section(lines, heading, parent, i, in_sec, last).1 matches Some(l) ==> 0 <= l < lines.len(),
    decreases lines.len() - i,
{
    if i < lines.len() {
        let l = lines[i];
        let last2 = if is_item_line(l) {
            Some(i)
        } else {
            last
        };
        lemma_scan_bound(lines, heading, parent, i + 1, true, last);
        lemma_scan_bound(lines, heading, parent, i + 1, false, last);
        lemma_scan_bound(lines, heading, parent, i + 1, true, last2);
        lemma_sub_end_bound(lines, i + 1);
    }
}

proof fn lemma_sub_end_bound(lines: Seq<Seq<char>>, j: int)
    requires
        0 <= j <= lines.len(),
    ensures
        j <= sub_end(lines, j) <= lines.len(),
    decreases lines.len() - j,
{
    if j < lines.len() {
        lemma_sub_end_bound(lines, j + 1);
    }
}

proof fn lemma_first_heading_bound(lines: Seq<Seq<char>>, heading: Seq<char>, i: int)
    requires
        0 <= i,
    ensures
        first_heading(lines, heading, i) matches Some(k) ==> i <= k < lines.len(),
    decreases lines.len() - i,
{
    if i < lines.len() {
        lemma_first_heading_bound(lines, heading, i + 1);
    }
}

/// A line that starts with `#` is not a task item.
proof fn lemma_hash_line_not_item(l: Seq<char>)
    requires
        l.len() > 0,
        l[0] == '#',
    ensures
        !is_item_line(l),
{
    reveal_strlit("- [");
    assert(!is_ws('#'));
    assert(leading_ws(l) == 0);
    assert(trim_start_s(l) =~= l);
    lemma_trailing_ws_short(l);
    let t = trim_s(l);
    assert(t.len() > 0 && t[0] == '#');
    if starts_with_s(t, "- ["@) {
        assert(t.take(3)[0] == '-');
    }
}

proof fn lemma_scan_before_section(lines: Seq<Seq<char>>, heading: Seq<char>, i: int, s: int)
    requires
        0 <= i <= s < lines.len(),
        starts_with_s(lines[s], heading),
        forall|j: int| i <= j < s ==> !starts_with_s(#[trigger] lines[j], heading),
    ensures
        scan_section(lines, heading, None, i, false, None) == scan_section(lines, heading, None, s + 1, true, None),
    decreases s - i,
{
    if i < s {
        lemma_scan_before_section(lines, heading, i + 1, s);
    }
}

proof fn lemma_scan_in_section(lines: Seq<Seq<char>>, heading: Seq<char>, i: int, last: Option<int>, s: int, l: int)
    requires
        s < i <= lines.len(),
        0 <= s < l < lines.len(),
        forall|j: int| s < j < lines.len() && is_heading_line(#[trigger] lines[j]) ==> starts_with_s(lines[j], heading),
        is_item_line(lines[l]),
        !starts_with_s(lines[l], heading),
        forall|j: int| l < j < lines.len() ==> !is_item_line(#[trigger] lines[j]),
        i > l ==> last == Some(l),
    ensures
        scan_section(lines, heading, None, i, true, last) == (None::<int>, Some(l)),
    decreases lines.len() - i,
{
    if i < lines.len() {
        let x = lines[i];
        if starts_with_s(x, heading) {
            lemma_scan_in_section(lines, heading, i + 1, last, s, l);
        } else {
            assert(!is_heading_line(x));
            let last2 = if is_item_line(x) {
                Some(i)
            } else {
                last
            };
            lemma_scan_in_section(lines, heading, i + 1, last2, s, l);
        }
    }
}

proof fn lemma_after_last_stops(lines: Seq<Seq<char>>, e: int)
    requires
        0 <= e <= lines.len(),
    ensures
        e <= after_last(lines, e) <= lines.len(),
        forall|k: int| e <= k < after_last(lines, e) ==> !is_item_line(#[trigger] lines[k]) && !is_heading_line(lines[k])
            && (lines[k].len() == 0 || starts_with_s(lines[k], "  "@)),
        after_last(lines, e) < lines.len() ==> is_item_line(lines[after_last(lines, e)]) || is_heading_line(lines[after_last(lines, e)])
            || (lines[after_last(lines, e)].len() > 0 && !starts_with_s(lines[after_last(lines, e)], "  "@)),
    decreases lines.len() - e,
{
    if e < lines.len() {
        lemma_after_last_stops(lines, e + 1);
    }
}

/// A task added to a section with task items, where no other heading follows the
/// section, goes after the last item's whole block: after every blank or indented line
/// that follows that item (its description, its subtasks), and before the next item,
/// heading or unindented text, so the lines below the last task stay with it.
pub proof fn lemma_add_goes_after_last_block(lines: Seq<Seq<char>>, label: Seq<char>, s: int, last: int)
    requires
        0 <= s < last < lines.len(),
        starts_with_s(lines[s], "## "@ + label),
        forall|j: int| 0 <= j < s ==> !starts_with_s(#[trigger] lines[j], "## "@ + label),
        forall|j: int| s < j < lines.len() && is_heading_line(#[trigger] lines[j]) ==> starts_with_s(lines[j], "## "@ + label),
        is_item_line(lines[last]),
        forall|j: int| last < j < lines.len() ==> !is_item_line(#[trigger] lines[j]),
    ensures
        last < insert_index(lines, "## "@ + label, None) <= lines.len(),
        forall|k: int| last < k < insert_index(lines, "## "@ + label, None) ==> !is_item_line(#[trigger] lines[k])
            && !is_heading_line(lines[k]) && (lines[k].len() == 0 || starts_with_s(lines[k], "  "@)),
        insert_index(lines, "## "@ + label, None) < lines.len() ==> is_item_line(lines[insert_index(lines, "## "@ + label, None)])
            || is_heading_line(lines[insert_index(lines, "## "@ + label, None)])
            || (lines[insert_index(lines, "## "@ + label, None)].len() > 0 && !starts_with_s(lines[insert_index(lines, "## "@ + label, None)], "  "@)),
{
    let h = "## "@ + label;
    reveal_strlit("## ");
    assert(!starts_with_s(lines[last], h)) by {
        if starts_with_s(lines[last], h) {
            assert(lines[last].take(h.len() as int)[0] == h[0]);
            lemma_hash_line_not_item(lines[last]);
        }
    }
    lemma_scan_before_section(lines, h, 0, s);
    lemma_scan_in_section(lines, h, s + 1, None, s, last);
    lemma_after_last_stops(lines, last + 1);
}

fn insert_index_exec(ls: &Vec<Vec<char>>, heading: &Vec<char>, parent: &Option<String>) -> (r: usize)
    ensures
        r == insert_index(views(ls@), heading@, opt_str_view(*parent)),
        r <= ls@.len(),
{
    let ghost lv = views(ls@);
    let ghost pv = opt_str_view(*parent);
    let pat: Option<Vec<char>> = match parent {
        Some(p) => {
            let mut v = chars_of(p.as_str());
            v.push(' ');
            assert(v@ =~= p@ + " "@) by {
                reveal_strlit(" ");
            }
            Some(v)
        },
        None => None,
    };
    let mut in_sec = false;
    let mut last: Option<usize> = None;
    let mut found: Option<usize> = None;
    let mut i: usize = 0;
    while i < ls.len()
        invariant_except_break
            found is None,
            scan_section(lv, heading@, pv, 0, false, None) == scan_section(lv, heading@, pv, i as int, in_sec, match last {
                Some(l) => Some(l as int),
                None => None,
            }),
        invariant
            i <= ls@.len(),
            lv == views(ls@),
            pv == opt_str_view(*parent),
            match pat {
                Some(v) => pv matches Some(p) && v@ == p + " "@,
                None => pv is None,
            },
            last matches Some(l) ==> l < ls@.len(),
        ensures
            found is None ==> scan_section(lv, heading@, pv, 0, false, None) == (None::<int>, match last {
                Some(l) => Some(l as int),
                None => None,
            }),
            found matches Some(x) ==> scan_section(lv, heading@, pv, 0, false, None).0 == Some(x as int),
        decreases ls@.len() - i,
    {
        let l = &ls[i];
        assert(lv[i as int] == l@);
        if starts_with(l, heading) {
            in_sec = true;
        } else if in_sec {
            if is_heading_exec(l) {
                found = Some(i);
                break;
            }
            if is_item_exec(l) {
                last = Some(i);
            }
            match &pat {
                Some(pt) => {
                    if contains(l, pt) && is_item_exec(l) {
                        assert(i + 1 <= ls.len());
                        let e = sub_end_exec(ls, i + 1);
                        found = Some(e);
                        break;
                    }
                },
                None => {},
            }
        }
        i += 1;
    }
    let ghost scan = scan_section(lv, heading@, pv, 0, false, None);
    proof {
        lemma_scan_bound(lv, heading@, pv, 0, false, None);
    }
    match found {
        Some(x) => {
            assert(scan.0 == Some(x as int));
            x
        },
        None => {
            assert(scan.0 is None);
            match last {
                Some(l) => {
                    assert(scan.1 == Some(l as int));
                    assert(l < ls.len());
                    after_last_exec(ls, l + 1)
                },
                None => {
                    assert(scan.1 is None);
                    let mut k: usize = 0;
                    proof {
                        lemma_first_heading_bound(lv, heading@, 0);
                    }
                    while k < ls.len()
                        invariant
                            k <= ls@.len(),
                            lv == views(ls@),
                            first_heading(lv, heading@, 0) == first_heading(lv, heading@, k as int),
                            scan_section(lv, heading@, pv, 0, false, None) == (None::<int>, None::<int>),
                            pv == opt_str_view(*parent),
                        decreases ls@.len() - k,
                    {
                        assert(lv[k as int] == ls@[k as int]@);
                        if starts_with(&ls[k], heading) {
                            return k + 1;
                        }
                        k += 1;
                    }
                    0
                },
            }
        },
    }
}

fn task_sids_exec(nodes: &Vec<Node>, out: &mut Vec<String>)
    ensures
        final(out)@.map_values(|s: String| s@) == old(out)@.map_values(|s: String| s@) + task_sids(node_views(nodes@)),
{
    let ghost nv = node_views(nodes@);
    let ghost start = out@.map_values(|s: String| s@);
    let mut i: usize = 0;
    while i < nodes.len()
        invariant
            i <= nodes@.len(),
            nv == node_views(nodes@),
            out@.map_values(|s: String| s@) == start + task_sids(nv.take(i as int)),
        decreases nodes@.len() - i,
    {
        assert(nv.take(i + 1).drop_last() =~= nv.take(i as int));
        assert(nv.take(i + 1).last() == nodes@[i as int]@);
        let n = &nodes[i];
        if n.kind == NodeKind::Task {
            match n.stable_id() {
                Some(sid) => {
                    let ghost before = out@.map_values(|s: String| s@);
                    out.push(sid.clone());
                    assert(out@.map_values(|s: String| s@) =~= before.push(sid@));
                },
                None => {},
            }
        }
        i += 1;
    }
    assert(nv.take(nv.len() as int) =~= nv);
}

/// The stable ids of the tasks of the given files (name and text), file after file.
pub fn collect_all_ids(files: &Vec<(String, String)>) -> (r: Vec<String>)
    ensures
        r@.map_values(|s: String| s@) == all_sids(files@.map_values(|f: (String, String)| (f.0@, f.1@))),
{
    let ghost fv = files@.map_values(|f: (String, String)| (f.0@, f.1@));
    let mut out: Vec<String> = Vec::new();
    let mut k: usize = 0;
    while k < files.len()
        invariant
            k <= files@.len(),
            fv == files@.map_values(|f: (String, String)| (f.0@, f.1@)),
            out@.map_values(|s: String| s@) == all_sids(fv.take(k as int)),
        decreases files@.len() - k,
    {
        assert(fv.take(k + 1).drop_last() =~= fv.take(k as int));
        assert(fv.take(k + 1).last() == (files@[k as int].0@, files@[k as int].1@));
        let mut g = Graph::new();
        let mut links = Vec::new();
        parse_markdown(files[k].0.as_str(), files[k].1.as_str(), &mut g, &mut links);
        assert(g@.nodes =~= parse_spec(files@[k as int].0@, files@[k as int].1@).nodes);
        task_sids_exec(&g.nodes, &mut out);
        k += 1;
    }
    assert(fv.take(fv.len() as int) =~= fv);
    out
}

/// Adds a task given the roadmap text, its scanned graph, and the stable ids in use.
pub fn plan(input: &AddTaskInput, discuss: bool, content: &str, graph: &Graph, all_ids: &Vec<String>) -> (r: Result<AddOutcome, OpError>)
    ensures
        match r {
            Ok(o) => add_spec(input_view(*input), discuss, content@, graph@.nodes, graph@.edges, all_ids@.map_values(|s: String| s@)) == Ok::<AddView, OpErrorView>(o@),
            Err(e) => add_spec(input_view(*input), discuss, content@, graph@.nodes, graph@.edges, all_ids@.map_values(|s: String| s@)) == Err::<AddView, OpErrorView>(e@),
        },
{
    let id = match new_task_id(input, graph, all_ids) {
        Err(e) => return Err(e),
        Ok(id) => id,
    };
    let si = find_section_exec(&graph.nodes, input.section).unwrap();
    let doc: Option<String> = if discuss {
        Some(detail_path_exec(&input.description))
    } else {
        None
    };
    let text = task_text_exec(&input.description, input.parent.is_some(), &input.task_description, &id, &doc);
    let cs = chars_of(content);
    let ls = lines(&cs);
    let ghost lv = views(ls@);
    let mut heading = lit("## ");
    extend(&mut heading, &chars_of(graph.nodes[si].label.as_str()));
    let idx = insert_index_exec(&ls, &heading, &input.parent);
    let new_ls = lines(&text);
    let mut out: Vec<Vec<char>> = Vec::new();
    let mut a: usize = 0;
    while a < idx
        invariant
            a <= idx <= ls@.len(),
            lv == views(ls@),
            views(out@) == lv.take(a as int),
        decreases idx - a,
    {
        let ghost before = views(out@);
        out.push(slice(&ls[a], 0, ls[a].len()));
        assert(ls@[a as int]@.subrange(0, ls@[a as int]@.len() as int) =~= ls@[a as int]@);
        assert(views(out@) =~= before.push(lv[a as int]));
        a += 1;
        assert(lv.take(a as int) =~= lv.take(a - 1).push(lv[a - 1]));
    }
    let ghost head = views(out@);
    let mut b: usize = 0;
    while b < new_ls.len()
        invariant
            b <= new_ls@.len(),
            views(out@) == head + views(new_ls@).take(b as int),
        decreases new_ls@.len() - b,
    {
        let ghost before = views(out@);
        out.push(slice(&new_ls[b], 0, new_ls[b].len()));
        assert(new_ls@[b as int]@.subrange(0, new_ls@[b as int]@.len() as int) =~= new_ls@[b as int]@);
        assert(views(out@) =~= before.push(views(new_ls@)[b as int]));
        b += 1;
        assert(views(new_ls@).take(b as int) =~= views(new_ls@).take(b - 1).push(views(new_ls@)[b - 1]));
    }
    assert(views(new_ls@).take(new_ls@.len() as int) =~= views(new_ls@));
    let ghost mid = views(out@);
    let mut c = idx;
    while c < ls.len()
        invariant
            idx <= c <= ls@.len(),
            lv == views(ls@),
            views(out@) == mid + lv.subrange(idx as int, c as int),
        decreases ls@.len() - c,
    {
        let ghost before = views(out@);
        out.push(slice(&ls[c], 0, ls[c].len()));
        assert(ls@[c as int]@.subrange(0, ls@[c as int]@.len() as int) =~= ls@[c as int]@);
        assert(views(out@) =~= before.push(lv[c as int]));
        c += 1;
        assert(lv.subrange(idx as int, c as int) =~= lv.subrange(idx as int, c - 1).push(lv[c - 1]));
    }
    assert(lv.subrange(idx as int, lv.len() as int) =~= lv.skip(idx as int));
    let roadmap = rebuild_exec(&out, &cs);
    let detail_doc = if discuss {
        Some(DetailDoc { path: detail_path_exec(&input.description), text: detail_template_exec(&input.description) })
    } else {
        None
    };
    Ok(AddOutcome { id, roadmap, detail_doc })
}

/// Adds a task to the roadmap: reads the roadmap text and (when there is one) the
/// archive's, and returns the new task's id, the new roadmap text and the detail document
/// to write, if asked for.
pub fn run(input: &AddTaskInput, discuss: bool, roadmap: &str, archive: Option<&str>) -> (r: Result<AddOutcome, OpError>)
    ensures
        ({
            let files = match archive {
                Some(a) => seq![("ROADMAP.md"@, roadmap@), ("ARCHIVE.md"@, a@)],
                None => seq![("ROADMAP.md"@, roadmap@)],
            };
            let g = parse_spec("ROADMAP.md"@, roadmap@);
            match r {
                Ok(o) => add_spec(input_view(*input), discuss, roadmap@, g.nodes, g.edges, all_sids(files)) == Ok::<AddView, OpErrorView>(o@),
                Err(e) => add_spec(input_view(*input), discuss, roadmap@, g.nodes, g.edges, all_sids(files)) == Err::<AddView, OpErrorView>(e@),
            }
        }),
{
    let mut g = Graph::new();
    let mut links = Vec::new();
    parse_markdown("ROADMAP.md", roadmap, &mut g, &mut links);
    let mut files: Vec<(String, String)> = Vec::new();
    files.push((String::from_str("ROADMAP.md"), roadmap.to_owned()));
    match archive {
        Some(a) => files.push((String::from_str("ARCHIVE.md"), a.to_owned())),
        None => {},
    }
    let ghost files_v = match archive {
        Some(a) => seq![("ROADMAP.md"@, roadmap@), ("ARCHIVE.md"@, a@)],
        None => seq![("ROADMAP.md"@, roadmap@)],
    };
    assert(files@.map_values(|f: (String, String)| (f.0@, f.1@)) =~= files_v);
    let ids = collect_all_ids(&files);
    assert(g@.nodes =~= parse_spec("ROADMAP.md"@, roadmap@).nodes);
    assert(g@.edges =~= parse_spec("ROADMAP.md"@, roadmap@).edges);
    plan(input, discuss, roadmap, &g, &ids)
}

} // verus!
