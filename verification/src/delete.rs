//! Task lines of a roadmap file: recognizing them, finding the line of a task id, and
//! deleting a task with the lines nested under it.

use vstd::prelude::*;

use crate::graph::{node_views, stable_id_of, Graph, Node, NodeKind, NodeView};
use crate::ops::{OpError, OpErrorView};
use crate::scan::markdown::{
    count_of, extract_numeric_id, id_for, make_id, parse_markdown, parse_spec, slugify,
    slugify_spec, split_label, SlugCounts,
};
use crate::text::{
    chars_of, contains, contains_s, count_leading_ws, extend, find, find_from,
    join, join_s, lemma_find_from, lemma_leading_ws_bound, leading_ws, lines, lines_s, seq_eq,
    slice, split, split_s, string_of, trim, trim_s, trim_start, trim_start_s, views,
};

verus! {

pub open spec fn is_marker_char(c: char) -> bool {
    c == 'x' || c == 'X' || c == ' ' || c == '-' || c == '~'
}

/// A line that starts, after white space, with `- [x] `, `- [X] `, `- [ ] `, `- [-] ` or
/// `- [~] `.
pub open spec fn is_task_line_spec(line: Seq<char>) -> bool {
    let t = trim_start_s(line);
    t.len() >= 6 && t[0] == '-' && t[1] == ' ' && t[2] == '[' && is_marker_char(t[3]) && t[4] == ']'
        && t[5] == ' '
}

pub open spec fn utf8_len(c: char) -> nat {
    if (c as u32) < 0x80 {
        1
    } else if (c as u32) < 0x800 {
        2
    } else if (c as u32) < 0x10000 {
        3
    } else {
        4
    }
}

/// The number of bytes of a text in UTF-8.
pub open spec fn utf8_size(s: Seq<char>) -> nat
    decreases s.len(),
{
    if s.len() == 0 {
        0
    } else {
        utf8_size(s.drop_last()) + utf8_len(s.last())
    }
}

/// The indentation of a line in bytes (as `str::len` counts them), capped at `usize::MAX`.
pub open spec fn indent_of(line: Seq<char>) -> nat {
    let n = utf8_size(line.take(leading_ws(line) as int));
    if n <= usize::MAX {
        n
    } else {
        usize::MAX as nat
    }
}

pub fn is_task_line_chars(line: &[char]) -> (r: bool)
    ensures
        r == is_task_line_spec(line@),
{
    let t = trim_start(line);
    t.len() >= 6 && t[0] == '-' && t[1] == ' ' && t[2] == '[' && (t[3] == 'x' || t[3] == 'X' || t[3]
        == ' ' || t[3] == '-' || t[3] == '~') && t[4] == ']' && t[5] == ' '
}

/// Whether a line is a task list item with one of the recognized checkboxes.
pub fn is_task_line(line: &str) -> (r: bool)
    ensures
        r == is_task_line_spec(line@),
{
    is_task_line_chars(&chars_of(line))
}

fn utf8_len_exec(c: char) -> (r: usize)
    ensures
        r == utf8_len(c),
{
    let u = c as u32;
    if u < 0x80 {
        1
    } else if u < 0x800 {
        2
    } else if u < 0x10000 {
        3
    } else {
        4
    }
}

pub fn indent_of_chars(line: &[char]) -> (r: usize)
    ensures
        r == indent_of(line@),
{
    proof {
        lemma_leading_ws_bound(line@);
    }
    let n = count_leading_ws(line);
    let mut total: usize = 0;
    let mut capped = false;
    let mut k: usize = 0;
    while k < n
        invariant
            k <= n <= line@.len(),
            n == leading_ws(line@),
            !capped ==> total == utf8_size(line@.take(k as int)),
            capped ==> total == usize::MAX && utf8_size(line@.take(k as int)) > usize::MAX,
        decreases n - k,
    {
        assert(line@.take(k + 1).drop_last() =~= line@.take(k as int));
        let c = utf8_len_exec(line[k]);
        if !capped {
            if total > usize::MAX - c {
                total = usize::MAX;
                capped = true;
            } else {
                total = total + c;
            }
        }
        k += 1;
    }
    total
}

/// The indentation of a line, in bytes.
pub fn indent_level(line: &str) -> (r: usize)
    ensures
        r == indent_of(line@),
{
    indent_of_chars(&chars_of(line))
}

/// A label whose numeric id is written as a link, `[1.1](url) rest`, read as the scanner
/// reads it: the link's text, then the rest.
pub open spec fn link_text(raw: Seq<char>) -> Seq<char> {
    if raw.len() > 0 && raw[0] == '[' {
        match find_from(raw, "]("@, 1) {
            Some(p) => match find_from(raw, ")"@, p + 2) {
                Some(q) => raw.subrange(1, p) + raw.skip(q + 1),
                None => raw,
            },
            None => raw,
        }
    } else {
        raw
    }
}

/// The label of a task line without its numeric id: everything after the checkbox.
pub open spec fn line_label(line: Seq<char>) -> Seq<char> {
    split_label(link_text(trim_s(trim_start_s(line).skip(6)))).1
}

/// The length of the run of `#` that starts a line.
pub open spec fn hashes(l: Seq<char>, i: int) -> int
    decreases l.len() - i,
{
    if 0 <= i < l.len() && l[i] == '#' {
        hashes(l, i + 1)
    } else {
        i
    }
}

/// The text of a heading line (`#` to `######`, then a space or the end), if it is one.
pub open spec fn heading_text(l: Seq<char>) -> Option<Seq<char>> {
    let k = hashes(l, 0);
    if 1 <= k <= 6 && (k == l.len() || l[k] == ' ') {
        Some(trim_s(l.skip(k)))
    } else {
        None
    }
}

/// Walks the lines as the scanner names headings and tasks: for each task line, its slug
/// and the id made from it; the counts of each slug so far (headings count too).
pub open spec fn line_ids(f: Seq<char>, lines: Seq<Seq<char>>) -> (Map<Seq<char>, nat>, Seq<Option<(Seq<char>, Seq<char>)>>)
    decreases lines.len(),
{
    if lines.len() == 0 {
        (Map::empty(), Seq::empty())
    } else {
        let (m, ids) = line_ids(f, lines.drop_last());
        let l = lines.last();
        if is_task_line_spec(l) {
            let slug = slugify_spec(line_label(l));
            let n = count_of(m, slug) + 1;
            (m.insert(slug, n), ids.push(Some((slug, id_for(f, slug, n)))))
        } else {
            match heading_text(l) {
                Some(t) => {
                    let slug = slugify_spec(t);
                    (m.insert(slug, count_of(m, slug) + 1), ids.push(None))
                },
                None => (m, ids.push(None)),
            }
        }
    }
}

/// Whether a task line answers to `target`: its id is `target`, or, when `loose`, its
/// slug occurs in `target`.
pub open spec fn line_hits(e: Option<(Seq<char>, Seq<char>)>, target: Seq<char>, loose: bool) -> bool {
    match e {
        Some((slug, id)) => if loose {
            contains_s(target, slug)
        } else {
            id == target
        },
        None => false,
    }
}

/// The first line that answers to `target`.
pub open spec fn first_hit(ids: Seq<Option<(Seq<char>, Seq<char>)>>, target: Seq<char>, loose: bool) -> Option<int>
    decreases ids.len(),
{
    if ids.len() == 0 {
        None
    } else {
        match first_hit(ids.drop_last(), target, loose) {
            Some(i) => Some(i),
            None => if line_hits(ids.last(), target, loose) {
                Some(ids.len() - 1)
            } else {
                None
            },
        }
    }
}

/// The line of a task to delete: the first whose id is `target`, or else the first whose
/// slug occurs in `target` (the label a line gives can be shorter than the scanned one,
/// which also takes in the text of the item's later paragraphs).
pub open spec fn find_hit(ids: Seq<Option<(Seq<char>, Seq<char>)>>, target: Seq<char>) -> Option<int> {
    match first_hit(ids, target, false) {
        Some(i) => Some(i),
        None => first_hit(ids, target, true),
    }
}

proof fn lemma_line_ids_len(f: Seq<char>, lines: Seq<Seq<char>>)
    ensures
        line_ids(f, lines).1.len() == lines.len(),
    decreases lines.len(),
{
    if lines.len() > 0 {
        lemma_line_ids_len(f, lines.drop_last());
    }
}

proof fn lemma_first_hit_bound(ids: Seq<Option<(Seq<char>, Seq<char>)>>, target: Seq<char>, loose: bool)
    ensures
        first_hit(ids, target, loose) matches Some(i) ==> 0 <= i < ids.len(),
    decreases ids.len(),
{
    if ids.len() > 0 {
        lemma_first_hit_bound(ids.drop_last(), target, loose);
    }
}

proof fn lemma_line_ids_prefix(f: Seq<char>, lines: Seq<Seq<char>>, k: int)
    requires
        0 <= k <= lines.len(),
    ensures
        line_ids(f, lines.take(k)).1 == line_ids(f, lines).1.take(k),
    decreases lines.len() - k,
{
    lemma_line_ids_len(f, lines);
    if k < lines.len() {
        lemma_line_ids_prefix(f, lines, k + 1);
        assert(lines.take(k + 1).drop_last() =~= lines.take(k));
        lemma_line_ids_len(f, lines.take(k));
        assert(line_ids(f, lines).1.take(k + 1).drop_last() =~= line_ids(f, lines).1.take(k));
    } else {
        assert(lines.take(k) =~= lines);
        assert(line_ids(f, lines).1.take(k) =~= line_ids(f, lines).1);
    }
}

proof fn lemma_first_hit_take(ids: Seq<Option<(Seq<char>, Seq<char>)>>, target: Seq<char>, loose: bool, k: int)
    requires
        0 <= k <= ids.len(),
        first_hit(ids.take(k), target, loose) is Some,
    ensures
        first_hit(ids, target, loose) == first_hit(ids.take(k), target, loose),
    decreases ids.len() - k,
{
    if k < ids.len() {
        assert(ids.take(k + 1).drop_last() =~= ids.take(k));
        lemma_first_hit_take(ids, target, loose, k + 1);
    } else {
        assert(ids.take(k) =~= ids);
    }
}

proof fn lemma_first_hit_prefix(f: Seq<char>, lines: Seq<Seq<char>>, target: Seq<char>, loose: bool, k: int)
    requires
        0 <= k <= lines.len(),
        first_hit(line_ids(f, lines.take(k)).1, target, loose) is Some,
    ensures
        first_hit(line_ids(f, lines).1, target, loose) == first_hit(line_ids(f, lines.take(k)).1, target, loose),
{
    lemma_line_ids_prefix(f, lines, k);
    lemma_line_ids_len(f, lines);
    lemma_first_hit_take(line_ids(f, lines).1, target, loose, k);
}

fn link_text_exec(raw: &Vec<char>) -> (r: Vec<char>)
    ensures
        r@ == link_text(raw@),
{
    if raw.len() > 0 && raw[0] == '[' {
        let open = chars_of("](");
        let close = chars_of(")");
        let n = raw.len();
        proof {
            reveal_strlit("](");
            reveal_strlit(")");
            lemma_find_from(raw@, open@, 1);
        }
        match find(raw, &open, 1) {
            Some(p) => {
                assert(crate::text::occurs_at(raw@, open@, p as int));
                assert(p + 2 <= n);
                proof {
                    lemma_find_from(raw@, close@, p + 2);
                }
                match find(raw, &close, p + 2) {
                    Some(q) => {
                        assert(crate::text::occurs_at(raw@, close@, q as int));
                        assert(q + 1 <= n);
                        let mut v = slice(raw, 1, p);
                        let tail = slice(raw, q + 1, raw.len());
                        extend(&mut v, &tail);
                        assert(raw@.skip(q + 1) =~= raw@.subrange(q + 1, raw@.len() as int));
                        v
                    },
                    None => slice(raw, 0, raw.len()),
                }
            },
            None => slice(raw, 0, raw.len()),
        }
    } else {
        slice(raw, 0, raw.len())
    }
}

fn line_label_exec(line: &[char]) -> (r: String)
    requires
        is_task_line_spec(line@),
    ensures
        r@ == line_label(line@),
{
    let t = trim_start(line);
    let raw_chars = link_text_exec(&trim(&slice(&t, 6, t.len())));
    let raw = string_of(&raw_chars);
    match extract_numeric_id(raw.as_str()) {
        Some((_, rest)) => rest.to_owned(),
        None => raw,
    }
}

fn heading_text_exec(l: &Vec<char>) -> (r: Option<Vec<char>>)
    ensures
        match r {
            Some(t) => heading_text(l@) == Some(t@),
            None => heading_text(l@) is None,
        },
{
    let mut k: usize = 0;
    while k < l.len() && l[k] == '#'
        invariant
            k <= l@.len(),
            hashes(l@, 0) == hashes(l@, k as int),
        decreases l@.len() - k,
    {
        k += 1;
    }
    if 1 <= k && k <= 6 && (k == l.len() || l[k] == ' ') {
        Some(trim(&slice(l, k, l.len())))
    } else {
        None
    }
}

/// Finds the first task line that answers to `target` (by its reconstructed id, or, when
/// `loose`, by its slug).
fn find_line(f: &str, ls: &Vec<Vec<char>>, target: &str, loose: bool) -> (r: Option<usize>)
    ensures
        match r {
            Some(i) => first_hit(line_ids(f@, views(ls@)).1, target@, loose) == Some(i as int),
            None => first_hit(line_ids(f@, views(ls@)).1, target@, loose) is None,
        },
{
    let ghost lv = views(ls@);
    let mut counts = SlugCounts::new();
    let tc = chars_of(target);
    let mut i: usize = 0;
    while i < ls.len()
        invariant
            i <= ls@.len(),
            lv == views(ls@),
            tc@ == target@,
            counts@ == line_ids(f@, lv.take(i as int)).0,
            counts.calls() <= i,
            first_hit(line_ids(f@, lv.take(i as int)).1, target@, loose) is None,
        decreases ls@.len() - i,
    {
        assert(lv.take(i + 1).drop_last() =~= lv.take(i as int));
        assert(lv.take(i + 1).last() == ls@[i as int]@);
        proof {
            lemma_line_ids_len(f@, lv.take(i as int));
        }
        let l = &ls[i];
        let ghost prev = line_ids(f@, lv.take(i as int));
        let ghost cur = line_ids(f@, lv.take(i + 1));
        if is_task_line_chars(l) {
            let label = line_label_exec(l);
            let slug = slugify(label.as_str());
            let id = make_id(f, slug.as_str(), &mut counts);
            assert(cur.1 == prev.1.push(Some((slug@, id@))));
            assert(cur.1.drop_last() =~= prev.1);
            let hit = if loose {
                contains(&tc, &chars_of(slug.as_str()))
            } else {
                seq_eq(&chars_of(id.as_str()), &tc)
            };
            if hit {
                proof {
                    lemma_first_hit_prefix(f@, lv, target@, loose, i + 1);
                }
                return Some(i);
            }
        } else {
            match heading_text_exec(l) {
                Some(t) => {
                    let slug = slugify(string_of(&t).as_str());
                    let _ = counts.bump(slug.as_str());
                },
                None => {},
            }
            assert(cur.1 == prev.1.push(None));
            assert(cur.1.drop_last() =~= prev.1);
        }
        i += 1;
    }
    assert(lv.take(lv.len() as int) =~= lv);
    None
}

/// Finds the first task line whose reconstructed id (made as file `f` names tasks) is
/// `target`.
pub fn find_line_pub(f: &str, ls: &Vec<Vec<char>>, target: &str) -> (r: Option<usize>)
    ensures
        match r {
            Some(i) => first_hit(line_ids(f@, views(ls@)).1, target@, false) == Some(i as int),
            None => first_hit(line_ids(f@, views(ls@)).1, target@, false) is None,
        },
{
    find_line(f, ls, target, false)
}

/// Finds the line of a task to delete: by its whole id first, else by its slug.
fn find_hit_exec(f: &str, ls: &Vec<Vec<char>>, target: &str) -> (r: Option<usize>)
    ensures
        match r {
            Some(i) => find_hit(line_ids(f@, views(ls@)).1, target@) == Some(i as int),
            None => find_hit(line_ids(f@, views(ls@)).1, target@) is None,
        },
{
    match find_line(f, ls, target, false) {
        Some(i) => Some(i),
        None => find_line(f, ls, target, true),
    }
}

/// A line found for a target is one of the lines.
pub proof fn lemma_hit_in_range(f: Seq<char>, lines: Seq<Seq<char>>, target: Seq<char>)
    ensures
        first_hit(line_ids(f, lines).1, target, false) matches Some(i) ==> 0 <= i < lines.len(),
        find_hit(line_ids(f, lines).1, target) matches Some(i) ==> 0 <= i < lines.len(),
{
    lemma_line_ids_len(f, lines);
    lemma_first_hit_bound(line_ids(f, lines).1, target, false);
    lemma_first_hit_bound(line_ids(f, lines).1, target, true);
}

/// Finds the line number of a task by its id (as the roadmap file `ROADMAP.md` names it):
/// the first task line whose id is the target, or else the first whose slug occurs in it.
pub fn find_task_line(content: &str, target_id: &str) -> (r: Option<usize>)
    ensures
        match r {
            Some(i) => find_hit(line_ids("ROADMAP.md"@, lines_s(content@)).1, target_id@) == Some(i as int),
            None => find_hit(line_ids("ROADMAP.md"@, lines_s(content@)).1, target_id@) is None,
        },
{
    let ls = lines(&chars_of(content));
    find_hit_exec("ROADMAP.md", &ls, target_id)
}

/// The end of the block of lines nested under a task line: deeper-indented lines (its
/// subtasks and its description), and blank lines that come right before a
/// deeper-indented line.
pub open spec fn block_end(lines: Seq<Seq<char>>, base: nat, i: int) -> int
    decreases lines.len() - i,
{
    if i < 0 || i >= lines.len() {
        i
    } else {
        let l = lines[i];
        if is_task_line_spec(l) && indent_of(l) > base {
            block_end(lines, base, i + 1)
        } else if trim_s(l).len() == 0 && i + 1 < lines.len() && indent_of(lines[i + 1]) > base {
            block_end(lines, base, i + 1)
        } else if indent_of(l) > base {
            block_end(lines, base, i + 1)
        } else {
            i
        }
    }
}

/// A block that starts within the lines ends within them, at or after its start.
pub proof fn lemma_block_end_bound(lines: Seq<Seq<char>>, base: nat, i: int)
    requires
        0 <= i <= lines.len(),
    ensures
        i <= block_end(lines, base, i) <= lines.len(),
    decreases lines.len() - i,
{
    if i < lines.len() {
        lemma_block_end_bound(lines, base, i + 1);
    }
}

pub fn block_end_exec(ls: &Vec<Vec<char>>, base: usize, start: usize) -> (r: usize)
    requires
        start <= ls@.len(),
    ensures
        r == block_end(views(ls@), base as nat, start as int),
        start <= r <= ls@.len(),
{
    let ghost lv = views(ls@);
    let mut i = start;
    proof {
        lemma_block_end_bound(lv, base as nat, start as int);
    }
    while i < ls.len()
        invariant
            start <= i <= ls@.len(),
            lv == views(ls@),
            block_end(lv, base as nat, start as int) == block_end(lv, base as nat, i as int),
        decreases ls@.len() - i,
    {
        let l = &ls[i];
        assert(lv[i as int] == l@);
        let ind = indent_of_chars(l);
        if is_task_line_chars(l) && ind > base {
            i += 1;
        } else if trim(l).len() == 0 && i + 1 < ls.len() && indent_of_chars(&ls[i + 1]) > base {
            assert(lv[i + 1] == ls@[i + 1]@);
            i += 1;
        } else if ind > base {
            i += 1;
        } else {
            return i;
        }
    }
    i
}

/// The lines joined with line feeds, with a final line feed when the original text had one.
pub open spec fn rebuild(lines: Seq<Seq<char>>, content: Seq<char>) -> Seq<char> {
    join_s(lines, "\n"@) + if content.len() > 0 && content.last() == '\n' {
        "\n"@
    } else {
        Seq::empty()
    }
}

pub fn rebuild_exec(ls: &Vec<Vec<char>>, content: &[char]) -> (r: String)
    ensures
        r@ == rebuild(views(ls@), content@),
{
    let nl = chars_of("\n");
    let mut out = join(ls, &nl);
    if content.len() > 0 && content[content.len() - 1] == '\n' {
        crate::text::extend(&mut out, &nl);
    } else {
        assert(out@ + Seq::<char>::empty() =~= out@);
    }
    string_of(&out)
}

/// The second `#`-separated piece of an id, or the whole id when it has none.
pub open spec fn second_piece(id: Seq<char>) -> Seq<char> {
    if split_s(id, '#').len() >= 2 {
        split_s(id, '#')[1]
    } else {
        id
    }
}

/// The first node with the given id, or whose stable id is the id's second piece.
pub open spec fn find_node(nodes: Seq<NodeView>, id: Seq<char>, key: Seq<char>) -> Option<NodeView>
    decreases nodes.len(),
{
    if nodes.len() == 0 {
        None
    } else {
        match find_node(nodes.drop_last(), id, key) {
            Some(n) => Some(n),
            None => if nodes.last().id == id || stable_id_of(nodes.last()) == Some(key) {
                Some(nodes.last())
            } else {
                None
            },
        }
    }
}

/// What deleting a task does to the roadmap text, given the nodes scanned from it.
pub open spec fn delete_spec(id: Seq<char>, content: Seq<char>, nodes: Seq<NodeView>) -> Result<Seq<char>, OpErrorView> {
    match find_node(nodes, id, second_piece(id)) {
        None => Err(OpErrorView::NodeNotFound(id)),
        Some(n) => if n.kind != NodeKind::Task {
            Err(OpErrorView::NotATask(id))
        } else {
            let ls = lines_s(content);
            match find_hit(line_ids("ROADMAP.md"@, ls).1, n.id) {
                None => Err(OpErrorView::TaskLineNotFound(id)),
                Some(i) => {
                    let j = block_end(ls, indent_of(ls[i]), i + 1);
                    Ok(rebuild(ls.take(i) + ls.skip(j), content))
                },
            }
        },
    }
}

fn find_node_exec(nodes: &Vec<Node>, id: &String, key: &String) -> (r: Option<usize>)
    ensures
        match r {
            Some(i) => i < nodes@.len() && find_node(node_views(nodes@), id@, key@) == Some(nodes@[i as int]@),
            None => find_node(node_views(nodes@), id@, key@) is None,
        },
{
    let ghost nv = node_views(nodes@);
    let mut i: usize = 0;
    while i < nodes.len()
        invariant
            i <= nodes@.len(),
            nv == node_views(nodes@),
            find_node(nv.take(i as int), id@, key@) is None,
        decreases nodes@.len() - i,
    {
        assert(nv.take(i + 1).drop_last() =~= nv.take(i as int));
        assert(nv.take(i + 1).last() == nodes@[i as int]@);
        let n = &nodes[i];
        let sid_hit = match n.stable_id() {
            Some(s) => *s == *key,
            None => false,
        };
        if n.id == *id || sid_hit {
            proof {
                lemma_find_node_prefix(nv, id@, key@, i + 1);
            }
            return Some(i);
        }
        i += 1;
    }
    assert(nv.take(nv.len() as int) =~= nv);
    None
}

/// Once found in a prefix, the first matching node stays the answer.
proof fn lemma_find_node_prefix(nodes: Seq<NodeView>, id: Seq<char>, key: Seq<char>, k: int)
    requires
        0 <= k <= nodes.len(),
        find_node(nodes.take(k), id, key) is Some,
    ensures
        find_node(nodes, id, key) == find_node(nodes.take(k), id, key),
    decreases nodes.len() - k,
{
    if k < nodes.len() {
        assert(nodes.take(k + 1).drop_last() =~= nodes.take(k));
        lemma_find_node_prefix(nodes, id, key, k + 1);
    } else {
        assert(nodes.take(k) =~= nodes);
    }
}

fn second_piece_exec(id: &String) -> (r: String)
    ensures
        r@ == second_piece(id@),
{
    let parts = split(&chars_of(id.as_str()), '#');
    if parts.len() >= 2 {
        assert(views(parts@)[1] == parts@[1]@);
        string_of(&parts[1])
    } else {
        id.clone()
    }
}

/// Deletes a task, and the lines nested under it, from the roadmap text, given the nodes
/// scanned from that text.
pub fn delete_in(id: &str, content: &str, nodes: &Vec<Node>) -> (r: Result<String, OpError>)
    ensures
        match r {
            Ok(s) => delete_spec(id@, content@, node_views(nodes@)) == Ok::<Seq<char>, OpErrorView>(s@),
            Err(e) => delete_spec(id@, content@, node_views(nodes@)) == Err::<Seq<char>, OpErrorView>(e@),
        },
{
    let ids = id.to_owned();
    let key = second_piece_exec(&ids);
    let k = match find_node_exec(nodes, &ids, &key) {
        None => return Err(OpError::NodeNotFound(ids)),
        Some(k) => k,
    };
    let n = &nodes[k];
    if n.kind != NodeKind::Task {
        return Err(OpError::NotATask(ids));
    }
    let cs = chars_of(content);
    let ls = lines(&cs);
    let ghost lv = views(ls@);
    let i = match find_hit_exec("ROADMAP.md", &ls, n.id.as_str()) {
        None => return Err(OpError::TaskLineNotFound(ids)),
        Some(i) => i,
    };
    proof {
        lemma_hit_in_range("ROADMAP.md"@, lv, n@.id);
    }
    assert(i < ls.len());
    assert(lv[i as int] == ls@[i as int]@);
    let base = indent_of_chars(&ls[i]);
    let j = block_end_exec(&ls, base, i + 1);
    let mut kept: Vec<Vec<char>> = Vec::new();
    let mut a: usize = 0;
    while a < ls.len()
        invariant
            a <= ls@.len(),
            i < j <= ls@.len(),
            lv == views(ls@),
            views(kept@) == (if a <= i {
                lv.take(a as int)
            } else if a <= j {
                lv.take(i as int)
            } else {
                lv.take(i as int) + lv.subrange(j as int, a as int)
            }),
        decreases ls@.len() - a,
    {
        let ghost before = views(kept@);
        if a < i || a >= j {
            kept.push(slice(&ls[a], 0, ls[a].len()));
            assert(ls@[a as int]@.subrange(0, ls@[a as int]@.len() as int) =~= ls@[a as int]@);
            assert(views(kept@) =~= before.push(lv[a as int]));
        }
        a += 1;
        if a <= i {
            assert(lv.take(a as int) =~= lv.take(a - 1).push(lv[a - 1]));
        } else if a > j {
            assert(lv.subrange(j as int, a as int) =~= lv.subrange(j as int, a - 1).push(lv[a - 1]));
        }
        proof {
            if a == j + 1 {
                assert(lv.subrange(j as int, a as int) =~= seq![lv[j as int]]);
                assert(lv.take(i as int) + lv.subrange(j as int, a as int) =~= lv.take(i as int).push(lv[j as int]));
            }
        }
    }
    assert(lv.take(i as int) + lv.subrange(j as int, lv.len() as int) =~= lv.take(i as int) + lv.skip(j as int));
    proof {
        if j == lv.len() {
            assert(lv.skip(j as int) =~= Seq::<Seq<char>>::empty());
            assert(lv.take(i as int) + lv.skip(j as int) =~= lv.take(i as int));
        }
    }
    Ok(rebuild_exec(&kept, &cs))
}

/// Deletes a task, and the lines nested under it, from the text of `ROADMAP.md`.
pub fn delete_task(id: &str, content: &str) -> (r: Result<String, OpError>)
    ensures
        match r {
            Ok(s) => delete_spec(id@, content@, parse_spec("ROADMAP.md"@, content@).nodes) == Ok::<Seq<char>, OpErrorView>(s@),
            Err(e) => delete_spec(id@, content@, parse_spec("ROADMAP.md"@, content@).nodes) == Err::<Seq<char>, OpErrorView>(e@),
        },
{
    let mut g = Graph::new();
    let mut links = Vec::new();
    parse_markdown("ROADMAP.md", content, &mut g, &mut links);
    assert(g@.nodes =~= parse_spec("ROADMAP.md"@, content@).nodes);
    delete_in(id, content, &g.nodes)
}

} // verus!
