//! Restoring archived task blocks to the roadmap, each into the section it came from.

use vstd::prelude::*;

use crate::delete::{rebuild, rebuild_exec};
use crate::graph::opt_str_view;
use crate::ops::archive::{block_walk, moved_views, opt_chars, walk, BlockSelect, SelectView};
use crate::ops::add::is_heading_line;
use crate::ops::UnarchiveInput;
use crate::text::{chars_of, extend, lines, lines_s, seq_eq, slice, starts_with, string_of, views};

verus! {

/// The first line from `i` on equal to `l`.
pub open spec fn line_index(lines: Seq<Seq<char>>, l: Seq<char>, i: int) -> Option<int>
    decreases lines.len() - i,
{
    if i < 0 || i >= lines.len() {
        None
    } else if lines[i] == l {
        Some(i)
    } else {
        line_index(lines, l, i + 1)
    }
}

/// The first heading line from `j` on, or the end.
pub open spec fn next_heading(lines: Seq<Seq<char>>, j: int) -> int
    decreases lines.len() - j,
{
    if j < 0 || j >= lines.len() {
        lines.len() as int
    } else if is_heading_line(lines[j]) {
        j
    } else {
        next_heading(lines, j + 1)
    }
}

/// Backs up over empty lines, not before `lo`.
pub open spec fn before_blanks(lines: Seq<Seq<char>>, lo: int, j: int) -> int
    decreases j - lo,
{
    if j > lo && j <= lines.len() && lines[j - 1].len() == 0 {
        before_blanks(lines, lo, j - 1)
    } else {
        j
    }
}

/// Puts a block back: at the end of its section (before the blank lines that close it),
/// or, when the roadmap has no such section, at the end under a new heading.
pub open spec fn insert_block(lines: Seq<Seq<char>>, entry: (Option<Seq<char>>, Seq<Seq<char>>)) -> Seq<Seq<char>> {
    let (sec, block) = entry;
    match sec {
        Some(name) => match line_index(lines, "## "@ + name, 0) {
            Some(h) => {
                let j = before_blanks(lines, h + 1, next_heading(lines, h + 1));
                lines.take(j) + block + lines.skip(j)
            },
            None => lines + seq![Seq::<char>::empty(), "## "@ + name] + block,
        },
        None => lines + block,
    }
}

pub open spec fn restore_all(lines: Seq<Seq<char>>, entries: Seq<(Option<Seq<char>>, Seq<Seq<char>>)>) -> Seq<Seq<char>>
    decreases entries.len(),
{
    if entries.len() == 0 {
        lines
    } else {
        insert_block(restore_all(lines, entries.drop_last()), entries.last())
    }
}

/// The outcome of unarchiving: how many blocks come back, the new roadmap and archive
/// texts.
pub struct UnarchivePlan {
    pub count: usize,
    pub roadmap: String,
    pub archive: String,
}

/// Without a task id nothing is restored and both texts stay as they are (the archived
/// tasks are only listed, see `archived_tasks`); with one, the block of that task comes
/// back.
pub open spec fn unarchive_spec(roadmap: Seq<char>, archive: Seq<char>, task_id: Option<Seq<char>>) -> (nat, Seq<char>, Seq<char>) {
    match task_id {
        None => (0, roadmap, archive),
        Some(id) => {
            let (kept, restored) = block_walk(lines_s(archive), 0, None, SelectView::Id(id));
            (restored.len(), rebuild(restore_all(lines_s(roadmap), restored), roadmap), rebuild(kept, archive))
        },
    }
}

/// The first lines of the archive's top-level task blocks: the archived tasks.
pub open spec fn archived_list(archive: Seq<char>) -> Seq<Seq<char>> {
    block_walk(lines_s(archive), 0, None, SelectView::All).1.map_values(|b: (Option<Seq<char>>, Seq<Seq<char>>)| b.1[0])
}

fn lit(s: &str) -> (r: Vec<char>)
    ensures
        r@ == s@,
{
    chars_of(s)
}

proof fn lemma_next_heading_bound(lines: Seq<Seq<char>>, j: int)
    requires
        0 <= j,
    ensures
        next_heading(lines, j) <= lines.len(),
        j <= lines.len() ==> j <= next_heading(lines, j),
    decreases lines.len() - j,
{
    if j < lines.len() {
        lemma_next_heading_bound(lines, j + 1);
    }
}

proof fn lemma_before_blanks_bound(lines: Seq<Seq<char>>, lo: int, j: int)
    requires
        lo <= j <= lines.len(),
    ensures
        lo <= before_blanks(lines, lo, j) <= j,
    decreases j - lo,
{
    if j > lo && lines[j - 1].len() == 0 {
        lemma_before_blanks_bound(lines, lo, j - 1);
    }
}

proof fn lemma_line_index_bound(lines: Seq<Seq<char>>, l: Seq<char>, i: int)
    requires
        0 <= i,
    ensures
        line_index(lines, l, i) matches Some(k) ==> i <= k < lines.len(),
    decreases lines.len() - i,
{
    if i < lines.len() {
        lemma_line_index_bound(lines, l, i + 1);
    }
}

fn push_copy(out: &mut Vec<Vec<char>>, l: &Vec<char>)
    ensures
        views(final(out)@) == views(old(out)@).push(l@),
{
    let ghost before = views(out@);
    out.push(slice(l, 0, l.len()));
    assert(l@.subrange(0, l@.len() as int) =~= l@);
    assert(views(out@) =~= before.push(l@));
}

fn line_index_exec(ls: &Vec<Vec<char>>, l: &Vec<char>) -> (r: Option<usize>)
    ensures
        match r {
            Some(h) => h < ls@.len() && line_index(views(ls@), l@, 0) == Some(h as int),
            None => line_index(views(ls@), l@, 0) is None,
        },
{
    let ghost lv = views(ls@);
    let mut h: usize = 0;
    while h < ls.len()
        invariant
            h <= ls@.len(),
            lv == views(ls@),
            line_index(lv, l@, 0) == line_index(lv, l@, h as int),
        decreases ls@.len() - h,
    {
        assert(lv[h as int] == ls@[h as int]@);
        if seq_eq(&ls[h], l) {
            return Some(h);
        }
        h += 1;
    }
    None
}

fn next_heading_exec(ls: &Vec<Vec<char>>, start: usize) -> (r: usize)
    requires
        start <= ls@.len(),
    ensures
        r == next_heading(views(ls@), start as int),
        start <= r <= ls@.len(),
{
    let ghost lv = views(ls@);
    proof {
        lemma_next_heading_bound(lv, start as int);
    }
    let mut j = start;
    while j < ls.len()
        invariant
            start <= j <= ls@.len(),
            lv == views(ls@),
            next_heading(lv, start as int) == next_heading(lv, j as int),
        decreases ls@.len() - j,
    {
        assert(lv[j as int] == ls@[j as int]@);
        if starts_with(&ls[j], &lit("## ")) || starts_with(&ls[j], &lit("# ")) {
            return j;
        }
        j += 1;
    }
    j
}

fn insert_block_exec(ls: &Vec<Vec<char>>, sec: &Option<Vec<char>>, block: &Vec<Vec<char>>) -> (r: Vec<Vec<char>>)
    ensures
        views(r@) == insert_block(views(ls@), (opt_chars(*sec), views(block@))),
{
    let ghost lv = views(ls@);
    let ghost bv = views(block@);
    let mut out: Vec<Vec<char>> = Vec::new();
    match sec {
        Some(name) => {
            let mut heading = lit("## ");
            extend(&mut heading, name);
            proof {
                lemma_line_index_bound(lv, heading@, 0);
            }
            let hi = line_index_exec(ls, &heading);
            if hi.is_some() {
                let h = hi.unwrap();
                assert(h < ls.len());
                let mut j = next_heading_exec(ls, h + 1);
                let ghost nh = j as int;
                proof {
                    lemma_before_blanks_bound(lv, h + 1, nh);
                }
                while j > h + 1 && ls[j - 1].len() == 0
                    invariant
                        h + 1 <= j <= nh <= ls@.len(),
                        lv == views(ls@),
                        before_blanks(lv, h + 1, nh) == before_blanks(lv, h + 1, j as int),
                    decreases j,
                {
                    assert(lv[j - 1] == ls@[j - 1]@);
                    j -= 1;
                }
                proof {
                    if j > h + 1 {
                        assert(lv[j - 1] == ls@[j - 1]@);
                    }
                }
                let mut a: usize = 0;
                while a < j
                    invariant
                        a <= j <= ls@.len(),
                        lv == views(ls@),
                        views(out@) == lv.take(a as int),
                    decreases j - a,
                {
                    push_copy(&mut out, &ls[a]);
                    a += 1;
                    assert(lv.take(a as int) =~= lv.take(a - 1).push(lv[a - 1]));
                }
                let ghost head = views(out@);
                let mut b: usize = 0;
                while b < block.len()
                    invariant
                        b <= block@.len(),
                        bv == views(block@),
                        views(out@) == head + bv.take(b as int),
                    decreases block@.len() - b,
                {
                    push_copy(&mut out, &block[b]);
                    b += 1;
                    assert(bv.take(b as int) =~= bv.take(b - 1).push(bv[b - 1]));
                }
                assert(bv.take(bv.len() as int) =~= bv);
                let ghost mid = views(out@);
                let mut c = j;
                while c < ls.len()
                    invariant
                        j <= c <= ls@.len(),
                        lv == views(ls@),
                        views(out@) == mid + lv.subrange(j as int, c as int),
                    decreases ls@.len() - c,
                {
                    push_copy(&mut out, &ls[c]);
                    c += 1;
                    assert(lv.subrange(j as int, c as int) =~= lv.subrange(j as int, c - 1).push(lv[c - 1]));
                }
                assert(lv.subrange(j as int, lv.len() as int) =~= lv.skip(j as int));
                out
            } else {
                let mut a: usize = 0;
                while a < ls.len()
                    invariant
                        a <= ls@.len(),
                        lv == views(ls@),
                        views(out@) == lv.take(a as int),
                    decreases ls@.len() - a,
                {
                    push_copy(&mut out, &ls[a]);
                    a += 1;
                    assert(lv.take(a as int) =~= lv.take(a - 1).push(lv[a - 1]));
                }
                assert(lv.take(lv.len() as int) =~= lv);
                assert(line_index(lv, heading@, 0) is None);
                push_copy(&mut out, &Vec::new());
                push_copy(&mut out, &heading);
                let ghost head = views(out@);
                let mut b: usize = 0;
                while b < block.len()
                    invariant
                        b <= block@.len(),
                        bv == views(block@),
                        views(out@) == head + bv.take(b as int),
                    decreases block@.len() - b,
                {
                    push_copy(&mut out, &block[b]);
                    b += 1;
                    assert(bv.take(b as int) =~= bv.take(b - 1).push(bv[b - 1]));
                }
                assert(bv.take(bv.len() as int) =~= bv);
                assert(views(out@) =~= lv + seq![Seq::<char>::empty(), heading@] + bv);
                out
            }
        },
        None => {
            let mut a: usize = 0;
            while a < ls.len()
                invariant
                    a <= ls@.len(),
                    lv == views(ls@),
                    views(out@) == lv.take(a as int),
                decreases ls@.len() - a,
            {
                push_copy(&mut out, &ls[a]);
                a += 1;
                assert(lv.take(a as int) =~= lv.take(a - 1).push(lv[a - 1]));
            }
            let mut b: usize = 0;
            while b < block.len()
                invariant
                    b <= block@.len(),
                    bv == views(block@),
                    views(out@) == lv + bv.take(b as int),
                decreases block@.len() - b,
            {
                push_copy(&mut out, &block[b]);
                b += 1;
                assert(bv.take(b as int) =~= bv.take(b - 1).push(bv[b - 1]));
            }
            assert(bv.take(bv.len() as int) =~= bv);
            assert(lv.take(lv.len() as int) =~= lv);
            out
        },
    }
}

/// Restores the archived block of task `task_id` to the roadmap; without a task id
/// nothing changes. Returns how many blocks came back and the new roadmap and archive
/// texts.
pub fn run(roadmap: &str, archive: &str, input: &UnarchiveInput) -> (r: UnarchivePlan)
    ensures
        (r.count as nat, r.roadmap@, r.archive@) == unarchive_spec(roadmap@, archive@, opt_str_view(input.task_id)),
{
    let sel = match &input.task_id {
        Some(id) => BlockSelect::Id(chars_of(id.as_str())),
        None => return UnarchivePlan { count: 0, roadmap: roadmap.to_owned(), archive: archive.to_owned() },
    };
    let acs = chars_of(archive);
    let als = lines(&acs);
    let (kept, restored) = walk(&als, &sel);
    let ghost rv = moved_views(restored@);
    let rcs = chars_of(roadmap);
    let mut ls = lines(&rcs);
    let ghost start = views(ls@);
    let mut k: usize = 0;
    while k < restored.len()
        invariant
            k <= restored@.len(),
            rv == moved_views(restored@),
            views(ls@) == restore_all(start, rv.take(k as int)),
        decreases restored@.len() - k,
    {
        assert(rv.take(k + 1).drop_last() =~= rv.take(k as int));
        assert(rv[k as int] == (opt_chars(restored@[k as int].0), views(restored@[k as int].1@)));
        ls = insert_block_exec(&ls, &restored[k].0, &restored[k].1);
        k += 1;
    }
    assert(rv.take(rv.len() as int) =~= rv);
    UnarchivePlan { count: restored.len(), roadmap: rebuild_exec(&ls, &rcs), archive: rebuild_exec(&kept, &acs) }
}

/// The archived tasks: the first line of each top-level task block of the archive.
pub fn archived_tasks(archive: &str) -> (r: Vec<String>)
    ensures
        r@.map_values(|s: String| s@) == archived_list(archive@),
{
    let als = lines(&chars_of(archive));
    let (_, blocks) = walk(&als, &BlockSelect::All);
    let ghost bv = moved_views(blocks@);
    proof {
        crate::ops::archive::lemma_walk_keeps_every_line(views(als@), SelectView::All);
    }
    let mut out: Vec<String> = Vec::new();
    let mut k: usize = 0;
    while k < blocks.len()
        invariant
            k <= blocks@.len(),
            bv == moved_views(blocks@),
            bv == block_walk(views(als@), 0, None, SelectView::All).1,
            forall|i: int| 0 <= i < bv.len() ==> (#[trigger] bv[i]).1.len() > 0,
            out@.map_values(|s: String| s@) == bv.take(k as int).map_values(|b: (Option<Seq<char>>, Seq<Seq<char>>)| b.1[0]),
        decreases blocks@.len() - k,
    {
        assert(bv[k as int] == (opt_chars(blocks@[k as int].0), views(blocks@[k as int].1@)));
        assert(bv[k as int].1.len() > 0);
        let ghost before = out@.map_values(|s: String| s@);
        let first = string_of(&blocks[k].1[0]);
        assert(first@ == bv[k as int].1[0]);
        let ghost first_v = first@;
        out.push(first);
        assert(out@.map_values(|s: String| s@) =~= before.push(first_v));
        assert(bv.take(k + 1) =~= bv.take(k as int).push(bv[k as int]));
        assert(bv.take(k + 1).map_values(|b: (Option<Seq<char>>, Seq<Seq<char>>)| b.1[0]) =~= bv.take(k as int).map_values(|b: (Option<Seq<char>>, Seq<Seq<char>>)| b.1[0]).push(bv[k as int].1[0]));
        assert(out@.map_values(|s: String| s@) =~= bv.take(k + 1).map_values(|b: (Option<Seq<char>>, Seq<Seq<char>>)| b.1[0]));
        k += 1;
    }
    assert(bv.take(bv.len() as int) =~= bv);
    out
}

} // verus!
