//! Archiving: top-level task blocks of the roadmap whose tasks are all done or dropped
//! move to the archive, under the heading of the section they came from.

use vstd::prelude::*;

use crate::delete::{block_end, block_end_exec, indent_of, lemma_block_end_bound, indent_of_chars, is_task_line_chars, is_task_line_spec, rebuild, rebuild_exec};
use crate::text::{chars_of, extend, is_ws, join, join_s, lines, slice, starts_with, starts_with_s, string_of, trim_start, trim_start_s, views};

verus! {

/// A task line whose checkbox is `[x]`, `[X]` or `[~]`.
pub open spec fn is_closed_line(l: Seq<char>) -> bool {
    is_task_line_spec(l) && (trim_start_s(l)[3] == 'x' || trim_start_s(l)[3] == 'X' || trim_start_s(l)[3] == '~')
}

/// Every task line of the block is done or dropped.
pub open spec fn all_closed(block: Seq<Seq<char>>) -> bool {
    forall|k: int| 0 <= k < block.len() && is_task_line_spec(#[trigger] block[k]) ==> is_closed_line(block[k])
}

pub open spec fn is_top_task(l: Seq<char>) -> bool {
    is_task_line_spec(l) && indent_of(l) == 0
}

/// Which top-level task blocks a walk takes out.
pub enum BlockSelect {
    /// Blocks whose task lines are all done or dropped.
    Closed,
    /// Every block.
    All,
    /// The block whose task's label starts with this numeric id.
    Id(Vec<char>),
}

pub enum SelectView {
    Closed,
    All,
    Id(Seq<char>),
}

impl View for BlockSelect {
    type V = SelectView;

    open spec fn view(&self) -> SelectView {
        match self {
            BlockSelect::Closed => SelectView::Closed,
            BlockSelect::All => SelectView::All,
            BlockSelect::Id(v) => SelectView::Id(v@),
        }
    }
}

/// The label of a task line after its checkbox, without surrounding white space.
pub open spec fn top_label(l: Seq<char>) -> Seq<char> {
    crate::text::trim_s(trim_start_s(l).skip(6))
}

/// A label that names task `id`: `id` alone, `id` followed by a space, or `[id]` (a
/// link on the id).
pub open spec fn label_has_id(t: Seq<char>, id: Seq<char>) -> bool {
    t == id || starts_with_s(t, id + " "@) || starts_with_s(t, "["@ + id + "]"@)
}

pub open spec fn selected(sel: SelectView, block: Seq<Seq<char>>) -> bool {
    match sel {
        SelectView::Closed => all_closed(block),
        SelectView::All => true,
        SelectView::Id(id) => block.len() > 0 && label_has_id(top_label(block[0]), id),
    }
}

/// The lines that stay, and the selected blocks that leave with the section they were in.
pub open spec fn block_walk(lines: Seq<Seq<char>>, i: int, section: Option<Seq<char>>, sel: SelectView) -> (Seq<Seq<char>>, Seq<(Option<Seq<char>>, Seq<Seq<char>>)>)
    decreases lines.len() - i,
{
    if i < 0 || i >= lines.len() {
        (Seq::empty(), Seq::empty())
    } else {
        let l = lines[i];
        if starts_with_s(l, "## "@) {
            let (k, m) = block_walk(lines, i + 1, Some(l.skip(3)), sel);
            (seq![l] + k, m)
        } else if is_top_task(l) {
            let j = block_end(lines, 0, i + 1);
            if j <= i || j > lines.len() {
                (Seq::empty(), Seq::empty())
            } else {
                let block = lines.subrange(i, j);
                let (k, m) = block_walk(lines, j, section, sel);
                if selected(sel, block) {
                    (k, seq![(section, block)] + m)
                } else {
                    (block + k, m)
                }
            }
        } else {
            let (k, m) = block_walk(lines, i + 1, section, sel);
            (seq![l] + k, m)
        }
    }
}

pub open spec fn section_header(s: Option<Seq<char>>) -> Seq<char> {
    match s {
        Some(name) => "\n## "@ + name + "\n"@,
        None => "\n"@,
    }
}

/// A moved block as it is appended: a section heading when the section differs from the
/// previous block's, then its lines.
pub open spec fn moved_piece(moved: Seq<(Option<Seq<char>>, Seq<Seq<char>>)>, i: int) -> Seq<char> {
    (if i == 0 || moved[i - 1].0 != moved[i].0 {
        section_header(moved[i].0)
    } else {
        Seq::empty()
    }) + join_s(moved[i].1, "\n"@) + "\n"@
}

pub open spec fn moved_text(moved: Seq<(Option<Seq<char>>, Seq<Seq<char>>)>, k: int) -> Seq<char>
    decreases k,
{
    if k <= 0 {
        Seq::empty()
    } else {
        moved_text(moved, k - 1) + moved_piece(moved, k - 1)
    }
}

/// The archive after appending: the existing archive (or a new one with its title), with
/// a final line feed, then the moved blocks.
pub open spec fn archive_text(existing: Option<Seq<char>>, moved: Seq<(Option<Seq<char>>, Seq<Seq<char>>)>) -> Seq<char> {
    let base = match existing {
        Some(a) => if a.len() == 0 || a.last() == '\n' {
            a
        } else {
            a + "\n"@
        },
        None => "# Archive\n"@,
    };
    base + moved_text(moved, moved.len() as int)
}

/// The outcome of archiving: how many blocks move, the new roadmap and archive texts.
pub struct ArchivePlan {
    pub count: usize,
    pub roadmap: String,
    pub archive: String,
}

pub open spec fn archive_spec(roadmap: Seq<char>, existing: Option<Seq<char>>) -> (nat, Seq<char>, Seq<char>) {
    let (kept, moved) = block_walk(crate::text::lines_s(roadmap), 0, None, SelectView::Closed);
    (moved.len(), rebuild(kept, roadmap), archive_text(existing, moved))
}

fn lit(s: &str) -> (r: Vec<char>)
    ensures
        r@ == s@,
{
    chars_of(s)
}

/// The lines of the blocks, one block after another.
pub open spec fn flat_blocks(moved: Seq<(Option<Seq<char>>, Seq<Seq<char>>)>) -> Seq<Seq<char>>
    decreases moved.len(),
{
    if moved.len() == 0 {
        Seq::empty()
    } else {
        moved[0].1 + flat_blocks(moved.drop_first())
    }
}

proof fn lemma_walk_parts(lines: Seq<Seq<char>>, i: int, section: Option<Seq<char>>, sel: SelectView)
    requires
        0 <= i <= lines.len(),
    ensures
        forall|k: int| 0 <= k < block_walk(lines, i, section, sel).1.len() ==> selected(sel, (#[trigger] block_walk(lines, i, section, sel).1[k]).1)
            && block_walk(lines, i, section, sel).1[k].1.len() > 0,
        (block_walk(lines, i, section, sel).0 + flat_blocks(block_walk(lines, i, section, sel).1)).to_multiset()
            == lines.subrange(i, lines.len() as int).to_multiset(),
    decreases lines.len() - i,
{
    broadcast use vstd::seq_lib::lemma_multiset_commutative;

    let w = block_walk(lines, i, section, sel);
    if i == lines.len() {
        assert(lines.subrange(i, lines.len() as int) =~= Seq::<Seq<char>>::empty());
        assert(w.0 + flat_blocks(w.1) =~= Seq::<Seq<char>>::empty());
    } else {
        let l = lines[i];
        let rest = lines.subrange(i + 1, lines.len() as int);
        assert(lines.subrange(i, lines.len() as int) =~= seq![l] + rest);
        if starts_with_s(l, "## "@) {
            lemma_walk_parts(lines, i + 1, Some(l.skip(3)), sel);
            let (k, m) = block_walk(lines, i + 1, Some(l.skip(3)), sel);
            assert(w.0 + flat_blocks(w.1) =~= seq![l] + (k + flat_blocks(m)));
        } else if is_top_task(l) {
            lemma_block_end_bound(lines, 0, i + 1);
            let j = block_end(lines, 0, i + 1);
            let block = lines.subrange(i, j);
            lemma_walk_parts(lines, j, section, sel);
            let (k, m) = block_walk(lines, j, section, sel);
            assert(lines.subrange(i, lines.len() as int) =~= block + lines.subrange(j, lines.len() as int));
            if selected(sel, block) {
                let m2 = seq![(section, block)] + m;
                assert(m2.drop_first() =~= m);
                assert(flat_blocks(m2) == block + flat_blocks(m));
                assert forall|x: int| 0 <= x < m2.len() implies selected(sel, (#[trigger] m2[x]).1) && m2[x].1.len() > 0 by {
                    if x > 0 {
                        assert(m2[x] == m[x - 1]);
                    }
                }
                assert((k + (block + flat_blocks(m))).to_multiset() == (block + (k + flat_blocks(m))).to_multiset());
                assert(k + flat_blocks(m2) =~= k + (block + flat_blocks(m)));
            } else {
                assert(w.0 + flat_blocks(w.1) =~= block + (k + flat_blocks(m)));
            }
        } else {
            lemma_walk_parts(lines, i + 1, section, sel);
            let (k, m) = block_walk(lines, i + 1, section, sel);
            assert(w.0 + flat_blocks(w.1) =~= seq![l] + (k + flat_blocks(m)));
        }
    }
}

/// Walking the roadmap's top-level task blocks takes out only the blocks asked for (for
/// archiving, those whose tasks are all done or dropped) and loses no line: the lines
/// that stay and those of the blocks taken out are, together, the lines walked.
pub proof fn lemma_walk_keeps_every_line(lines: Seq<Seq<char>>, sel: SelectView)
    ensures
        forall|k: int| 0 <= k < block_walk(lines, 0, None, sel).1.len() ==> selected(sel, (#[trigger] block_walk(lines, 0, None, sel).1[k]).1)
            && block_walk(lines, 0, None, sel).1[k].1.len() > 0,
        (block_walk(lines, 0, None, sel).0 + flat_blocks(block_walk(lines, 0, None, sel).1)).to_multiset() == lines.to_multiset(),
{
    lemma_walk_parts(lines, 0, None, sel);
    assert(lines.subrange(0, lines.len() as int) =~= lines);
}

/// The elements of `s` whose mark in `m` is `w`, in order.
pub open spec fn pick<T>(s: Seq<T>, m: Seq<bool>, w: bool) -> Seq<T>
    decreases s.len(),
{
    if s.len() == 0 || m.len() == 0 {
        Seq::empty()
    } else {
        let r = pick(s.drop_first(), m.drop_first(), w);
        if m[0] == w {
            seq![s[0]] + r
        } else {
            r
        }
    }
}

/// Which lines a walk takes out, line by line from `i` on.
pub open spec fn walk_mask(lines: Seq<Seq<char>>, i: int, section: Option<Seq<char>>, sel: SelectView) -> Seq<bool>
    decreases lines.len() - i,
{
    if i < 0 || i >= lines.len() {
        Seq::empty()
    } else {
        let l = lines[i];
        if starts_with_s(l, "## "@) {
            seq![false] + walk_mask(lines, i + 1, Some(l.skip(3)), sel)
        } else if is_top_task(l) {
            let j = block_end(lines, 0, i + 1);
            if j <= i || j > lines.len() {
                Seq::empty()
            } else {
                Seq::new((j - i) as nat, |k: int| selected(sel, lines.subrange(i, j))) + walk_mask(lines, j, section, sel)
            }
        } else {
            seq![false] + walk_mask(lines, i + 1, section, sel)
        }
    }
}

proof fn lemma_pick_concat<T>(a: Seq<T>, ma: Seq<bool>, b: Seq<T>, mb: Seq<bool>, w: bool)
    requires
        a.len() == ma.len(),
    ensures
        pick(a + b, ma + mb, w) == pick(a, ma, w) + pick(b, mb, w),
    decreases a.len(),
{
    if a.len() == 0 {
        assert(a + b =~= b);
        assert(ma + mb =~= mb);
        assert(pick(a, ma, w) + pick(b, mb, w) =~= pick(b, mb, w));
    } else {
        lemma_pick_concat(a.drop_first(), ma.drop_first(), b, mb, w);
        assert((a + b).drop_first() =~= a.drop_first() + b);
        assert((ma + mb).drop_first() =~= ma.drop_first() + mb);
        assert((ma + mb)[0] == ma[0]);
        assert((a + b)[0] == a[0]);
        if ma[0] == w {
            assert(seq![a[0]] + (pick(a.drop_first(), ma.drop_first(), w) + pick(b, mb, w)) =~= (seq![a[0]] + pick(a.drop_first(), ma.drop_first(), w)) + pick(b, mb, w));
        }
    }
}

proof fn lemma_pick_const<T>(a: Seq<T>, v: bool, w: bool)
    ensures
        pick(a, Seq::new(a.len(), |k: int| v), w) == (if v == w {
            a
        } else {
            Seq::<T>::empty()
        }),
    decreases a.len(),
{
    let m = Seq::new(a.len(), |k: int| v);
    if a.len() > 0 {
        lemma_pick_const(a.drop_first(), v, w);
        assert(m.drop_first() =~= Seq::new(a.drop_first().len(), |k: int| v));
        if v == w {
            assert(seq![a[0]] + a.drop_first() =~= a);
        }
    } else {
        if v == w {
            assert(a =~= Seq::<T>::empty());
        }
    }
}

proof fn lemma_walk_mask(lines: Seq<Seq<char>>, i: int, section: Option<Seq<char>>, sel: SelectView)
    requires
        0 <= i <= lines.len(),
    ensures
        walk_mask(lines, i, section, sel).len() == lines.len() - i,
        block_walk(lines, i, section, sel).0 == pick(lines.subrange(i, lines.len() as int), walk_mask(lines, i, section, sel), false),
        flat_blocks(block_walk(lines, i, section, sel).1) == pick(lines.subrange(i, lines.len() as int), walk_mask(lines, i, section, sel), true),
    decreases lines.len() - i,
{
    let rest = lines.subrange(i, lines.len() as int);
    if i == lines.len() {
        assert(rest =~= Seq::<Seq<char>>::empty());
    } else {
        let l = lines[i];
        if starts_with_s(l, "## "@) || !is_top_task(l) {
            let sec2 = if starts_with_s(l, "## "@) {
                Some(l.skip(3))
            } else {
                section
            };
            lemma_walk_mask(lines, i + 1, sec2, sel);
            assert(rest =~= seq![l] + lines.subrange(i + 1, lines.len() as int));
            lemma_pick_concat(seq![l], seq![false], lines.subrange(i + 1, lines.len() as int), walk_mask(lines, i + 1, sec2, sel), false);
            lemma_pick_concat(seq![l], seq![false], lines.subrange(i + 1, lines.len() as int), walk_mask(lines, i + 1, sec2, sel), true);
            assert(pick(seq![l], seq![false], false) =~= seq![l]) by {
                reveal_with_fuel(pick, 2);
                assert(seq![l].drop_first() =~= Seq::<Seq<char>>::empty());
                assert(seq![false].drop_first() =~= Seq::<bool>::empty());
            }
            assert(pick(seq![l], seq![false], true) =~= Seq::<Seq<char>>::empty()) by {
                reveal_with_fuel(pick, 2);
                assert(seq![l].drop_first() =~= Seq::<Seq<char>>::empty());
                assert(seq![false].drop_first() =~= Seq::<bool>::empty());
            }
            let (k, m) = block_walk(lines, i + 1, sec2, sel);
            assert(block_walk(lines, i, section, sel).0 == seq![l] + k);
            assert(seq![l] + k =~= seq![l] + pick(lines.subrange(i + 1, lines.len() as int), walk_mask(lines, i + 1, sec2, sel), false));
            assert(Seq::<Seq<char>>::empty() + flat_blocks(m) =~= flat_blocks(m));
        } else {
            lemma_block_end_bound(lines, 0, i + 1);
            let j = block_end(lines, 0, i + 1);
            let block = lines.subrange(i, j);
            let v = selected(sel, block);
            lemma_walk_mask(lines, j, section, sel);
            let mk = Seq::new((j - i) as nat, |k: int| v);
            assert(walk_mask(lines, i, section, sel) == mk + walk_mask(lines, j, section, sel));
            assert(rest =~= block + lines.subrange(j, lines.len() as int));
            lemma_pick_concat(block, mk, lines.subrange(j, lines.len() as int), walk_mask(lines, j, section, sel), false);
            lemma_pick_concat(block, mk, lines.subrange(j, lines.len() as int), walk_mask(lines, j, section, sel), true);
            lemma_pick_const(block, v, false);
            lemma_pick_const(block, v, true);
            assert(mk =~= Seq::new(block.len(), |k: int| v));
            let (k, m) = block_walk(lines, j, section, sel);
            if v {
                let m2 = seq![(section, block)] + m;
                assert(m2.drop_first() =~= m);
                assert(flat_blocks(m2) == block + flat_blocks(m));
                assert(Seq::<Seq<char>>::empty() + k =~= k);
            } else {
                assert(Seq::<Seq<char>>::empty() + flat_blocks(m) =~= flat_blocks(m));
            }
        }
    }
}

/// Walking the roadmap's top-level task blocks splits its lines in two, each part in its
/// original order: the lines that stay, and the lines of the blocks taken out (those
/// asked for: for archiving, the blocks whose tasks are all done or dropped).
pub proof fn lemma_walk_keeps_order(lines: Seq<Seq<char>>, sel: SelectView)
    ensures
        exists|mask: Seq<bool>|
            mask.len() == lines.len() && block_walk(lines, 0, None, sel).0 == #[trigger] pick(lines, mask, false)
                && flat_blocks(block_walk(lines, 0, None, sel).1) == pick(lines, mask, true),
{
    lemma_walk_mask(lines, 0, None, sel);
    assert(lines.subrange(0, lines.len() as int) =~= lines);
    let mask = walk_mask(lines, 0, None, sel);
    assert(block_walk(lines, 0, None, sel).0 == pick(lines, mask, false));
}

/// A task line checked `[x]` or `[X]`, or dropped `[~]`.
pub open spec fn finished_line(l: Seq<char>) -> bool {
    let t = trim_start_s(l);
    starts_with_s(t, "- [x] "@) || starts_with_s(t, "- [X] "@) || starts_with_s(t, "- [~] "@)
}

proof fn lemma_closed_is_finished(l: Seq<char>)
    requires
        is_closed_line(l),
    ensures
        finished_line(l),
{
    reveal_strlit("- [x] ");
    reveal_strlit("- [X] ");
    reveal_strlit("- [~] ");
    let t = trim_start_s(l);
    if t[3] == 'x' {
        assert(t.take(6) =~= "- [x] "@);
    } else if t[3] == 'X' {
        assert(t.take(6) =~= "- [X] "@);
    } else {
        assert(t.take(6) =~= "- [~] "@);
    }
}

/// Archiving moves only finished work: every task line of every block it takes out of
/// the roadmap is checked (`[x]`, `[X]`) or dropped (`[~]`), so a block that holds an
/// open (`[ ]`) or in-progress (`[-]`) task stays where it is.
pub proof fn lemma_archive_moves_only_finished(lines: Seq<Seq<char>>)
    ensures
        forall|k: int, j: int|
            0 <= k < block_walk(lines, 0, None, SelectView::Closed).1.len() && 0 <= j
                < block_walk(lines, 0, None, SelectView::Closed).1[k].1.len()
                && is_task_line_spec(#[trigger] block_walk(lines, 0, None, SelectView::Closed).1[k].1[j])
                ==> finished_line(block_walk(lines, 0, None, SelectView::Closed).1[k].1[j]),
{
    lemma_walk_keeps_every_line(lines, SelectView::Closed);
    let moved = block_walk(lines, 0, None, SelectView::Closed).1;
    assert forall|k: int, j: int|
        0 <= k < moved.len() && 0 <= j < moved[k].1.len() && is_task_line_spec(#[trigger] moved[k].1[j])
            implies finished_line(moved[k].1[j]) by {
        assert(selected(SelectView::Closed, moved[k].1));
        assert(is_closed_line(moved[k].1[j]));
        lemma_closed_is_finished(moved[k].1[j]);
    }
}

/// A label that begins with task id `id` as a whole: `id` alone or followed by a space,
/// or `id` in square brackets (a link on the id).
pub open spec fn begins_with_task_id(t: Seq<char>, id: Seq<char>) -> bool {
    ||| t.len() >= id.len() && t.take(id.len() as int) == id && (t.len() == id.len() || t[id.len() as int] == ' ')
    ||| t.len() >= id.len() + 2 && t[0] == '[' && t.subrange(1, id.len() + 1int) == id && t[id.len() + 1int] == ']'
}

/// Restoring task `id` takes out only blocks whose task label begins with that whole id:
/// a label whose id merely starts with the same characters (`1.12` for `1.1`) is left.
pub proof fn lemma_restore_takes_only_that_id(lines: Seq<Seq<char>>, id: Seq<char>)
    ensures
        forall|k: int|
            0 <= k < block_walk(lines, 0, None, SelectView::Id(id)).1.len() ==> begins_with_task_id(
                top_label((#[trigger] block_walk(lines, 0, None, SelectView::Id(id)).1[k]).1[0]),
                id,
            ),
{
    lemma_walk_keeps_every_line(lines, SelectView::Id(id));
    let moved = block_walk(lines, 0, None, SelectView::Id(id)).1;
    assert forall|k: int| 0 <= k < moved.len() implies begins_with_task_id(top_label((#[trigger] moved[k]).1[0]), id) by {
        assert(selected(SelectView::Id(id), moved[k].1));
        let t = top_label(moved[k].1[0]);
        assert(label_has_id(t, id));
        reveal_strlit(" ");
        reveal_strlit("[");
        reveal_strlit("]");
        if t == id {
            assert(t.take(id.len() as int) =~= id);
        } else if starts_with_s(t, id + " "@) {
            assert(t.take(id.len() as int) =~= (id + " "@).take(id.len() as int));
            assert((id + " "@).take(id.len() as int) =~= id);
            assert(t[id.len() as int] == (id + " "@)[id.len() as int]);
        } else {
            let p = "["@ + id + "]"@;
            assert(starts_with_s(t, p));
            assert(t.take(p.len() as int) == p);
            assert(t[0] == p[0]);
            assert(t.subrange(1, id.len() + 1int) =~= p.subrange(1, id.len() + 1int));
            assert(p.subrange(1, id.len() + 1int) =~= id);
            assert(t[id.len() + 1int] == p[id.len() + 1int]);
        }
    }
}

/// A top-level task line is not white space only, and is no section heading.
proof fn lemma_top_task_shape(l: Seq<char>)
    requires
        is_task_line_spec(l),
    ensures
        crate::text::trim_s(l).len() > 0,
        !starts_with_s(l, "## "@),
{
    reveal_strlit("## ");
    let t = trim_start_s(l);
    assert(!is_ws('-'));
    crate::text::lemma_trailing_ws_short(t);
    if starts_with_s(l, "## "@) {
        assert(l[0] == l.take(3)[0]);
        assert(!is_ws('#'));
        assert(crate::text::leading_ws(l) == 0);
        assert(t =~= l);
    }
}

/// A block that starts before a top-level task line ends at or before it.
proof fn lemma_block_end_before(lines: Seq<Seq<char>>, q: int, i: int)
    requires
        0 <= q <= i < lines.len(),
        is_top_task(lines[i]),
    ensures
        block_end(lines, 0, q) <= i,
    decreases i - q,
{
    if q < i {
        lemma_block_end_before(lines, q + 1, i);
    } else {
        lemma_top_task_shape(lines[i]);
    }
}

/// The block of lines that a top-level task line at `i` heads.
pub open spec fn block_at(lines: Seq<Seq<char>>, i: int) -> Seq<Seq<char>> {
    lines.subrange(i, block_end(lines, 0, i + 1))
}

proof fn lemma_walk_takes_selected(lines: Seq<Seq<char>>, p: int, section: Option<Seq<char>>, sel: SelectView, i: int)
    requires
        0 <= p <= i < lines.len(),
        is_top_task(lines[i]),
        selected(sel, block_at(lines, i)),
    ensures
        exists|k: int| 0 <= k < block_walk(lines, p, section, sel).1.len() && (#[trigger] block_walk(lines, p, section, sel).1[k]).1 == block_at(lines, i),
    decreases i - p,
{
    let l = lines[p];
    let w = block_walk(lines, p, section, sel);
    if p == i {
        lemma_top_task_shape(l);
        lemma_block_end_bound(lines, 0, i + 1);
        let j = block_end(lines, 0, i + 1);
        let (k2, m2) = block_walk(lines, j, section, sel);
        assert(w.1 == seq![(section, block_at(lines, i))] + m2);
        assert(w.1[0].1 == block_at(lines, i));
    } else if starts_with_s(l, "## "@) {
        lemma_walk_takes_selected(lines, p + 1, Some(l.skip(3)), sel, i);
        let m = block_walk(lines, p + 1, Some(l.skip(3)), sel).1;
        let k = choose|k: int| 0 <= k < m.len() && (#[trigger] m[k]).1 == block_at(lines, i);
        assert(w.1[k] == m[k]);
    } else if is_top_task(l) {
        lemma_block_end_bound(lines, 0, p + 1);
        lemma_block_end_before(lines, p + 1, i);
        let j = block_end(lines, 0, p + 1);
        lemma_walk_takes_selected(lines, j, section, sel, i);
        let m = block_walk(lines, j, section, sel).1;
        let k = choose|k: int| 0 <= k < m.len() && (#[trigger] m[k]).1 == block_at(lines, i);
        if selected(sel, lines.subrange(p, j)) {
            assert(w.1[k + 1] == m[k]);
        } else {
            assert(w.1[k] == m[k]);
        }
    } else {
        lemma_walk_takes_selected(lines, p + 1, section, sel, i);
        let m = block_walk(lines, p + 1, section, sel).1;
        let k = choose|k: int| 0 <= k < m.len() && (#[trigger] m[k]).1 == block_at(lines, i);
        assert(w.1[k] == m[k]);
    }
}

proof fn lemma_finished_is_closed(l: Seq<char>)
    requires
        is_task_line_spec(l),
        finished_line(l),
    ensures
        is_closed_line(l),
{
    reveal_strlit("- [x] ");
    reveal_strlit("- [X] ");
    reveal_strlit("- [~] ");
    let t = trim_start_s(l);
    if starts_with_s(t, "- [x] "@) {
        assert(t[3] == t.take(6)[3]);
    } else if starts_with_s(t, "- [X] "@) {
        assert(t[3] == t.take(6)[3]);
    } else {
        assert(t[3] == t.take(6)[3]);
    }
}

/// Archiving moves every finished block: a top-level task block whose task lines are all
/// checked or dropped is one of the blocks taken out of the roadmap.
pub proof fn lemma_archive_moves_every_finished_block(lines: Seq<Seq<char>>, i: int)
    requires
        0 <= i < lines.len(),
        is_top_task(lines[i]),
        forall|k: int| 0 <= k < block_at(lines, i).len() && is_task_line_spec(#[trigger] block_at(lines, i)[k]) ==> finished_line(block_at(lines, i)[k]),
    ensures
        exists|k: int|
            0 <= k < block_walk(lines, 0, None, SelectView::Closed).1.len()
                && (#[trigger] block_walk(lines, 0, None, SelectView::Closed).1[k]).1 == block_at(lines, i),
{
    let b = block_at(lines, i);
    assert forall|k: int| 0 <= k < b.len() && is_task_line_spec(#[trigger] b[k]) implies is_closed_line(b[k]) by {
        lemma_finished_is_closed(b[k]);
    }
    lemma_walk_takes_selected(lines, 0, None, SelectView::Closed, i);
}

/// Restoring task `id` takes out every top-level block whose task label begins with
/// that whole id.
pub proof fn lemma_restore_takes_every_block_of_id(lines: Seq<Seq<char>>, id: Seq<char>, i: int)
    requires
        0 <= i < lines.len(),
        is_top_task(lines[i]),
        begins_with_task_id(top_label(lines[i]), id),
    ensures
        exists|k: int|
            0 <= k < block_walk(lines, 0, None, SelectView::Id(id)).1.len()
                && (#[trigger] block_walk(lines, 0, None, SelectView::Id(id)).1[k]).1 == block_at(lines, i),
{
    reveal_strlit(" ");
    reveal_strlit("[");
    reveal_strlit("]");
    let t = top_label(lines[i]);
    let n = id.len() as int;
    if t.len() >= n && t.take(n) == id && (t.len() == n || t[n] == ' ') {
        if t.len() == n {
            assert(t =~= id);
        } else {
            assert(t.take(n + 1) =~= id + " "@);
        }
    } else {
        assert(t.take(n + 2) =~= "["@ + id + "]"@);
    }
    assert(label_has_id(t, id));
    lemma_block_end_bound(lines, 0, i + 1);
    assert(block_at(lines, i)[0] == lines[i]);
    lemma_walk_takes_selected(lines, 0, None, SelectView::Id(id), i);
}

fn copy_lines(ls: &Vec<Vec<char>>, from: usize, to: usize) -> (r: Vec<Vec<char>>)
    requires
        from <= to <= ls@.len(),
    ensures
        views(r@) == views(ls@).subrange(from as int, to as int),
{
    let ghost lv = views(ls@);
    let mut r: Vec<Vec<char>> = Vec::new();
    let mut k = from;
    while k < to
        invariant
            from <= k <= to <= ls@.len(),
            lv == views(ls@),
            views(r@) == lv.subrange(from as int, k as int),
        decreases to - k,
    {
        let ghost before = views(r@);
        r.push(slice(&ls[k], 0, ls[k].len()));
        assert(ls@[k as int]@.subrange(0, ls@[k as int]@.len() as int) =~= ls@[k as int]@);
        assert(views(r@) =~= before.push(lv[k as int]));
        k += 1;
        assert(lv.subrange(from as int, k as int) =~= lv.subrange(from as int, k - 1).push(lv[k - 1]));
    }
    r
}

fn is_closed_exec(l: &Vec<char>) -> (r: bool)
    ensures
        r == is_closed_line(l@),
{
    if !is_task_line_chars(l) {
        return false;
    }
    let t = trim_start(l);
    t[3] == 'x' || t[3] == 'X' || t[3] == '~'
}

fn all_closed_exec(block: &Vec<Vec<char>>) -> (r: bool)
    ensures
        r == all_closed(views(block@)),
{
    let ghost bv = views(block@);
    let mut k: usize = 0;
    while k < block.len()
        invariant
            k <= block@.len(),
            bv == views(block@),
            forall|j: int| 0 <= j < k && is_task_line_spec(#[trigger] bv[j]) ==> is_closed_line(bv[j]),
        decreases block@.len() - k,
    {
        assert(bv[k as int] == block@[k as int]@);
        if is_task_line_chars(&block[k]) && !is_closed_exec(&block[k]) {
            return false;
        }
        k += 1;
    }
    true
}

fn top_label_exec(l: &Vec<char>) -> (r: Vec<char>)
    requires
        trim_start_s(l@).len() >= 6,
    ensures
        r@ == top_label(l@),
{
    let t = trim_start(l);
    crate::text::trim(&slice(&t, 6, t.len()))
}

fn selected_exec(sel: &BlockSelect, block: &Vec<Vec<char>>) -> (r: bool)
    requires
        block@.len() > 0 ==> is_task_line_spec(block@[0]@),
    ensures
        r == selected(sel@, views(block@)),
{
    match sel {
        BlockSelect::Closed => all_closed_exec(block),
        BlockSelect::All => true,
        BlockSelect::Id(id) => {
            if block.len() == 0 {
                return false;
            }
            assert(views(block@)[0] == block@[0]@);
            let t = top_label_exec(&block[0]);
            let mut a: Vec<char> = slice(id, 0, id.len());
            a.push(' ');
            let mut b: Vec<char> = lit("[");
            extend(&mut b, id);
            b.push(']');
            proof {
                reveal_strlit(" ");
                reveal_strlit("[");
                reveal_strlit("]");
                assert(a@ =~= id@ + " "@);
                assert(b@ =~= "["@ + id@ + "]"@);
            }
            crate::text::seq_eq(&t, id) || starts_with(&t, &a) || starts_with(&t, &b)
        },
    }
}

pub open spec fn opt_chars(o: Option<Vec<char>>) -> Option<Seq<char>> {
    match o {
        Some(s) => Some(s@),
        None => None,
    }
}

pub open spec fn moved_views(v: Seq<(Option<Vec<char>>, Vec<Vec<char>>)>) -> Seq<(Option<Seq<char>>, Seq<Seq<char>>)> {
    v.map_values(|p: (Option<Vec<char>>, Vec<Vec<char>>)| (opt_chars(p.0), views(p.1@)))
}

fn copy_opt(s: &Option<Vec<char>>) -> (r: Option<Vec<char>>)
    ensures
        opt_chars(r) == opt_chars(*s),
{
    match s {
        Some(v) => Some(slice(v, 0, v.len())),
        None => None,
    }
}

fn append_lines(out: &mut Vec<Vec<char>>, more: Vec<Vec<char>>)
    ensures
        views(final(out)@) == views(old(out)@) + views(more@),
{
    let ghost a = views(out@);
    let ghost b = views(more@);
    let mut more = more;
    out.append(&mut more);
    assert(views(out@) =~= a + b);
}

/// Splits the lines into those that stay and the selected blocks that leave.
pub fn walk(ls: &Vec<Vec<char>>, sel: &BlockSelect) -> (r: (Vec<Vec<char>>, Vec<(Option<Vec<char>>, Vec<Vec<char>>)>))
    ensures
        (views(r.0@), moved_views(r.1@)) == block_walk(views(ls@), 0, None, sel@),
{
    let ghost lv = views(ls@);
    let mut kept: Vec<Vec<char>> = Vec::new();
    let mut moved: Vec<(Option<Vec<char>>, Vec<Vec<char>>)> = Vec::new();
    let mut section: Option<Vec<char>> = None;
    let mut i: usize = 0;
    while i < ls.len()
        invariant
            i <= ls@.len(),
            lv == views(ls@),
            block_walk(lv, 0, None, sel@) == ({
                let rest = block_walk(lv, i as int, opt_chars(section), sel@);
                (views(kept@) + rest.0, moved_views(moved@) + rest.1)
            }),
        decreases ls@.len() - i,
    {
        let l = &ls[i];
        assert(lv[i as int] == l@);
        let ghost sv = opt_chars(section);
        let ghost kb = views(kept@);
        let ghost mb = moved_views(moved@);
        if starts_with(l, &lit("## ")) {
            proof {
                reveal_strlit("## ");
            }
            let name = slice(l, 3, l.len());
            assert(name@ =~= l@.skip(3));
            let ghost rest = block_walk(lv, i + 1, Some(name@), sel@);
            kept.push(slice(l, 0, l.len()));
            assert(l@.subrange(0, l@.len() as int) =~= l@);
            assert(views(kept@) =~= kb.push(l@));
            assert(kb + (seq![l@] + rest.0) =~= views(kept@) + rest.0);
            section = Some(name);
            i += 1;
        } else if is_task_line_chars(l) && indent_of_chars(l) == 0 {
            let j = block_end_exec(ls, 0, i + 1);
            let block = copy_lines(ls, i, j);
            let ghost rest = block_walk(lv, j as int, sv, sel@);
            if selected_exec(sel, &block) {
                let ghost bv = views(block@);
                moved.push((copy_opt(&section), block));
                assert(moved_views(moved@) =~= mb.push((sv, bv)));
                assert(mb + (seq![(sv, bv)] + rest.1) =~= moved_views(moved@) + rest.1);
            } else {
                let ghost bv = views(block@);
                append_lines(&mut kept, block);
                assert(kb + (bv + rest.0) =~= views(kept@) + rest.0);
            }
            i = j;
        } else {
            let ghost rest = block_walk(lv, i + 1, sv, sel@);
            kept.push(slice(l, 0, l.len()));
            assert(l@.subrange(0, l@.len() as int) =~= l@);
            assert(views(kept@) =~= kb.push(l@));
            assert(kb + (seq![l@] + rest.0) =~= views(kept@) + rest.0);
            i += 1;
        }
    }
    assert(views(kept@) + Seq::<Seq<char>>::empty() =~= views(kept@));
    assert(moved_views(moved@) + Seq::<(Option<Seq<char>>, Seq<Seq<char>>)>::empty() =~= moved_views(moved@));
    (kept, moved)
}

fn same_section(a: &Option<Vec<char>>, b: &Option<Vec<char>>) -> (r: bool)
    ensures
        r == (opt_chars(*a) == opt_chars(*b)),
{
    match (a, b) {
        (Some(x), Some(y)) => crate::text::seq_eq(x, y),
        (None, None) => true,
        _ => false,
    }
}

fn render_moved(moved: &Vec<(Option<Vec<char>>, Vec<Vec<char>>)>, out: &mut Vec<char>)
    ensures
        final(out)@ == old(out)@ + moved_text(moved_views(moved@), moved@.len() as int),
{
    let ghost mv = moved_views(moved@);
    let ghost start = out@;
    let nl = lit("\n");
    let mut k: usize = 0;
    while k < moved.len()
        invariant
            k <= moved@.len(),
            mv == moved_views(moved@),
            nl@ == "\n"@,
            out@ == start + moved_text(mv, k as int),
        decreases moved@.len() - k,
    {
        let ghost before = out@;
        let ghost piece_start = out@.len();
        if k == 0 || !same_section(&moved[k - 1].0, &moved[k].0) {
            match &moved[k].0 {
                Some(name) => {
                    extend(out, &lit("\n## "));
                    extend(out, name);
                    extend(out, &nl);
                },
                None => {
                    extend(out, &nl);
                },
            }
        }
        let ghost after_header = out@;
        let body = join(&moved[k].1, &nl);
        extend(out, &body);
        extend(out, &nl);
        assert(out@ =~= before + moved_piece(mv, k as int)) by {
            if k == 0 || mv[k - 1].0 != mv[k as int].0 {
                assert(after_header =~= before + section_header(mv[k as int].0));
            } else {
                assert(after_header =~= before);
            }
        }
        k += 1;
    }
}

/// Archives the done/dropped top-level task blocks of the roadmap text, appending them
/// to the archive text (a new archive when there is none).
pub fn run(roadmap: &str, archive: Option<&str>) -> (r: ArchivePlan)
    ensures
        (r.count as nat, r.roadmap@, r.archive@) == archive_spec(roadmap@, match archive {
            Some(a) => Some(a@),
            None => None,
        }),
        match archive {
            Some(a) => starts_with_s(r.archive@, a@),
            None => starts_with_s(r.archive@, "# Archive\n"@),
        },
{
    let cs = chars_of(roadmap);
    let ls = lines(&cs);
    let (kept, moved) = walk(&ls, &BlockSelect::Closed);
    let new_roadmap = rebuild_exec(&kept, &cs);
    let mut out: Vec<char> = match archive {
        Some(a) => {
            let mut v = chars_of(a);
            if !(v.len() == 0 || v[v.len() - 1] == '\n') {
                extend(&mut v, &lit("\n"));
            }
            v
        },
        None => lit("# Archive\n"),
    };
    let ghost base = out@;
    render_moved(&moved, &mut out);
    assert(moved_views(moved@).len() == moved@.len());
    proof {
        match archive {
            Some(a) => assert(out@.take(a@.len() as int) =~= a@),
            None => {
                reveal_strlit("# Archive\n");
                assert(out@.take(base.len() as int) =~= base);
            },
        }
    }
    ArchivePlan { count: moved.len(), roadmap: new_roadmap, archive: string_of(&out) }
}

} // verus!
