//! Markdown parsing: headings and task lists become section and task nodes.

use vstd::prelude::*;

use crate::graph::{
    edge_views, node_views, opt_str_view, Edge, EdgeKind, EdgeView, Graph, MetaView, Metadata, Node,
    NodeKind, NodeView,
};
use crate::strmap::StrMap;
use crate::text::{
    chars_of, count_leading_ws, extend, ends_with, ends_with_s, is_digit, lemma_char_pos,
    lemma_leading_ws_bound, position, slice, starts_with_s, string_of, trim, trim_s, trim_start, trim_start_s,
};

use crate::scan::events::{markdown_events, md_events};

verus! {

/// What `char::is_alphanumeric` returns for a character (Unicode `Alphabetic` or `Numeric`).
pub uninterp spec fn alphanumeric(c: char) -> bool;

/// What `str::to_lowercase` returns for a text (Unicode lowercase mapping).
pub uninterp spec fn lowercase(s: Seq<char>) -> Seq<char>;

/// `char::is_alphanumeric`: the result is named by `alphanumeric`, a function of the
/// character alone; nothing more is stated of it.
#[verifier::external_body]
fn is_alphanumeric(c: char) -> (r: bool)
    ensures
        r == alphanumeric(c),
{
    c.is_alphanumeric()
}

/// `str::to_lowercase`: the result is named by `lowercase`, a function of the text alone;
/// nothing more is stated of it.
#[verifier::external_body]
fn to_lowercase(s: &str) -> (r: String)
    ensures
        r@ == lowercase(s@),
{
    s.to_lowercase()
}

/// Runs of non-alphanumeric characters become one hyphen, and the result carries whether
/// it ends in such a run (or is still empty).
pub open spec fn slug_build(s: Seq<char>) -> (Seq<char>, bool)
    decreases s.len(),
{
    if s.len() == 0 {
        (Seq::empty(), true)
    } else {
        let (r, hyphen) = slug_build(s.drop_last());
        let c = s.last();
        if alphanumeric(c) {
            (r.push(c), false)
        } else if !hyphen {
            (r.push('-'), true)
        } else {
            (r, hyphen)
        }
    }
}

/// The slug of a lowercased text, without a trailing hyphen.
pub open spec fn slug_of_lower(s: Seq<char>) -> Seq<char> {
    let r = slug_build(s).0;
    if r.len() > 0 && r.last() == '-' {
        r.drop_last()
    } else {
        r
    }
}

pub open spec fn slugify_spec(text: Seq<char>) -> Seq<char> {
    slug_of_lower(lowercase(text))
}

/// Every character of a slug under construction is alphanumeric or a hyphen.
proof fn lemma_slug_build_chars(s: Seq<char>)
    ensures
        forall|i: int|
            0 <= i < slug_build(s).0.len() ==> (alphanumeric(#[trigger] slug_build(s).0[i])
                || slug_build(s).0[i] == '-'),
    decreases s.len(),
{
    if s.len() > 0 {
        lemma_slug_build_chars(s.drop_last());
        let (r, h) = slug_build(s.drop_last());
        assert forall|i: int| 0 <= i < slug_build(s).0.len() implies (alphanumeric(
            #[trigger] slug_build(s).0[i],
        ) || slug_build(s).0[i] == '-') by {
            if i < r.len() {
                assert(slug_build(s).0[i] == r[i]);
            }
        }
    }
}

/// Given that `-` is not alphanumeric (it is Unicode punctuation), a slug under
/// construction has no leading hyphen, no two hyphens in a row, and ends in a hyphen
/// exactly when the flag says so (or is empty).
proof fn lemma_slug_build_shape(s: Seq<char>)
    requires
        !alphanumeric('-'),
    ensures
        ({
            let (r, hyphen) = slug_build(s);
            &&& r.len() > 0 ==> r[0] != '-'
            &&& forall|i: int| 0 <= i < r.len() - 1 ==> !(#[trigger] r[i] == '-' && r[i + 1] == '-')
            &&& hyphen <==> (r.len() == 0 || r.last() == '-')
        }),
    decreases s.len(),
{
    if s.len() > 0 {
        lemma_slug_build_shape(s.drop_last());
        let (r, h) = slug_build(s.drop_last());
        let (r2, h2) = slug_build(s);
        assert forall|i: int| 0 <= i < r2.len() - 1 implies !(#[trigger] r2[i] == '-' && r2[i + 1]
            == '-') by {
            if i < r.len() - 1 {
                assert(r2[i] == r[i] && r2[i + 1] == r[i + 1]);
            }
        }
    }
}

/// A slug holds only alphanumeric characters and hyphens; given that `-` is not
/// alphanumeric, it neither begins nor ends with a hyphen and holds no two hyphens in a row.
pub proof fn lemma_slug_shape(text: Seq<char>)
    ensures
        forall|i: int|
            0 <= i < slugify_spec(text).len() ==> (alphanumeric(#[trigger] slugify_spec(text)[i])
                || slugify_spec(text)[i] == '-'),
        !alphanumeric('-') ==> {
            let r = slugify_spec(text);
            &&& r.len() > 0 ==> r[0] != '-' && r.last() != '-'
            &&& forall|i: int| 0 <= i < r.len() - 1 ==> !(#[trigger] r[i] == '-' && r[i + 1] == '-')
        },
{
    let l = lowercase(text);
    lemma_slug_build_chars(l);
    let r = slug_build(l).0;
    let r2 = slugify_spec(text);
    assert forall|i: int| 0 <= i < r2.len() implies (alphanumeric(#[trigger] r2[i]) || r2[i]
        == '-') by {
        assert(r2[i] == r[i]);
    }
    if !alphanumeric('-') {
        lemma_slug_build_shape(l);
        assert forall|i: int| 0 <= i < r2.len() - 1 implies !(#[trigger] r2[i] == '-' && r2[i + 1]
            == '-') by {
            assert(r2[i] == r[i] && r2[i + 1] == r[i + 1]);
        }
        if r2.len() > 0 {
            assert(r2[0] == r[0]);
            if r.last() == '-' {
                assert(r2.last() == r[r.len() - 2]);
            }
        }
    }
}

/// `slug_build` with the alphanumeric test given as flags, one per character.
pub open spec fn slug_build_flags(s: Seq<char>, fl: Seq<bool>) -> (Seq<char>, bool)
    decreases s.len(),
{
    if s.len() == 0 || fl.len() == 0 {
        (Seq::empty(), true)
    } else {
        let (r, hyphen) = slug_build_flags(s.drop_last(), fl.drop_last());
        if fl.last() {
            (r.push(s.last()), false)
        } else if !hyphen {
            (r.push('-'), true)
        } else {
            (r, hyphen)
        }
    }
}

/// The slug of a lowercased text whose characters are flagged alphanumeric or not.
pub open spec fn slug_from_flags(s: Seq<char>, fl: Seq<bool>) -> Seq<char> {
    let r = slug_build_flags(s, fl).0;
    if r.len() > 0 && r.last() == '-' {
        r.drop_last()
    } else {
        r
    }
}

proof fn lemma_slug_flags(s: Seq<char>, fl: Seq<bool>)
    requires
        fl == s.map_values(|c: char| alphanumeric(c)),
    ensures
        slug_build_flags(s, fl) == slug_build(s),
    decreases s.len(),
{
    if s.len() > 0 {
        assert(fl.drop_last() == s.drop_last().map_values(|c: char| alphanumeric(c)));
        lemma_slug_flags(s.drop_last(), fl.drop_last());
        assert(fl.last() == alphanumeric(s.last()));
    }
}

/// The slug of a lowercased text, given for each character whether it is a letter or a
/// digit: runs of other characters become single hyphens, with no hyphen at either end.
pub fn slug_of_flags(cs: &[char], alnum: &[bool]) -> (r: String)
    requires
        cs@.len() == alnum@.len(),
    ensures
        r@ == slug_from_flags(cs@, alnum@),
{
    let mut result: Vec<char> = Vec::new();
    let mut prev_hyphen = true;
    let mut i: usize = 0;
    while i < cs.len()
        invariant
            i <= cs@.len(),
            cs@.len() == alnum@.len(),
            slug_build_flags(cs@.take(i as int), alnum@.take(i as int)) == (result@, prev_hyphen),
        decreases cs@.len() - i,
    {
        assert(cs@.take(i + 1).drop_last() == cs@.take(i as int));
        assert(alnum@.take(i + 1).drop_last() == alnum@.take(i as int));
        let c = cs[i];
        if alnum[i] {
            result.push(c);
            prev_hyphen = false;
        } else if !prev_hyphen {
            result.push('-');
            prev_hyphen = true;
        }
        i += 1;
    }
    assert(cs@.take(cs@.len() as int) == cs@);
    assert(alnum@.take(alnum@.len() as int) == alnum@);
    if result.len() > 0 && result[result.len() - 1] == '-' {
        result.pop();
    }
    string_of(&result)
}

/// Turns a text into an identifier fragment: lowercased, runs of other characters than
/// letters and digits replaced by single hyphens, no hyphen at either end.
pub fn slugify(text: &str) -> (r: String)
    ensures
        r@ == slugify_spec(text@),
{
    let lower = to_lowercase(text);
    let cs = chars_of(lower.as_str());
    let mut flags: Vec<bool> = Vec::new();
    let mut i: usize = 0;
    while i < cs.len()
        invariant
            i <= cs@.len(),
            flags@ == cs@.take(i as int).map_values(|c: char| alphanumeric(c)),
        decreases cs@.len() - i,
    {
        flags.push(is_alphanumeric(cs[i]));
        i += 1;
        assert(flags@ =~= cs@.take(i as int).map_values(|c: char| alphanumeric(c)));
    }
    assert(cs@.take(cs@.len() as int) == cs@);
    proof {
        lemma_slug_flags(cs@, flags@);
    }
    slug_of_flags(&cs, &flags)
}

pub open spec fn is_ascii_ws(c: char) -> bool {
    c == ' ' || c == '\t' || c == '\n' || c == '\u{C}' || c == '\r'
}

/// Whether position `i` continues a numeric id: a digit, or a dot before a digit.
pub open spec fn numeric_continues(s: Seq<char>, i: int) -> bool {
    ||| is_digit(s[i])
    ||| (s[i] == '.' && i + 1 < s.len() && is_digit(s[i + 1]))
}

/// End of the run of numeric-id characters from `i`.
pub open spec fn numeric_end(s: Seq<char>, i: int) -> int
    decreases s.len() - i,
{
    if 0 <= i < s.len() && numeric_continues(s, i) {
        numeric_end(s, i + 1)
    } else {
        i
    }
}

pub open spec fn count_char(s: Seq<char>, c: char) -> nat
    decreases s.len(),
{
    if s.len() == 0 {
        0
    } else {
        count_char(s.drop_last(), c) + if s.last() == c {
            1nat
        } else {
            0nat
        }
    }
}

/// A numeric task id such as `1.1` or `1.1.1` at the start of a label, followed by
/// ASCII white space: the id and the rest of the label without its leading white space.
pub open spec fn numeric_id_spec(s: Seq<char>) -> Option<(Seq<char>, Seq<char>)> {
    let i = numeric_end(s, 0);
    if s.len() == 0 || !is_digit(s[0]) || count_char(s.take(i), '.') == 0 || i >= s.len()
        || !is_ascii_ws(s[i]) {
        None
    } else {
        Some((s.take(i), trim_start_s(s.skip(i))))
    }
}

proof fn lemma_numeric_end(s: Seq<char>, i: int)
    requires
        0 <= i <= s.len(),
    ensures
        i <= numeric_end(s, i) <= s.len(),
    decreases s.len() - i,
{
    if i < s.len() && numeric_continues(s, i) {
        lemma_numeric_end(s, i + 1);
    }
}

proof fn lemma_numeric_run(s: Seq<char>, i: int)
    requires
        0 <= i <= s.len(),
    ensures
        forall|k: int| i <= k < numeric_end(s, i) ==> numeric_continues(s, k),
        numeric_end(s, i) < s.len() ==> !numeric_continues(s, numeric_end(s, i)),
    decreases s.len() - i,
{
    if i < s.len() && numeric_continues(s, i) {
        lemma_numeric_run(s, i + 1);
    }
}

/// A numeric id found at the start of a label is made of digits and dots, begins with a
/// digit, has at least one dot, and every dot is followed by a digit of the id; the label
/// begins with it and then white space, and the rest is what follows without that
/// white space.
pub proof fn lemma_numeric_id_shape(text: Seq<char>)
    ensures
        numeric_id_spec(text) matches Some((id, rest)) ==> {
            &&& text.take(id.len() as int) == id
            &&& id.len() < text.len() && is_ascii_ws(text[id.len() as int])
            &&& rest == trim_start_s(text.skip(id.len() as int))
            &&& is_digit(id[0])
            &&& count_char(id, '.') > 0
            &&& forall|k: int| 0 <= k < id.len() ==> is_digit(#[trigger] id[k]) || (id[k] == '.' && k + 1 < id.len() && is_digit(id[k + 1]))
        },
{
    lemma_numeric_end(text, 0);
    lemma_numeric_run(text, 0);
    let e = numeric_end(text, 0);
    match numeric_id_spec(text) {
        Some((id, rest)) => {
            assert(id == text.take(e));
            assert forall|k: int| 0 <= k < id.len() implies is_digit(#[trigger] id[k]) || (id[k] == '.' && k + 1 < id.len() && is_digit(id[k + 1])) by {
                assert(numeric_continues(text, k));
                if !is_digit(text[k]) {
                    assert(is_digit(text[k + 1]));
                    assert(numeric_continues(text, k + 1));
                    if k + 1 >= e {
                        assert(k + 1 == e);
                    }
                }
            }
        },
        None => {},
    }
}

/// Extract a numeric task ID prefix like "1.1" or "1.1.1" from the start of a label.
/// Returns (numeric_id, remaining_label) if found.
pub fn extract_numeric_id(text: &str) -> (r: Option<(&str, &str)>)
    ensures
        match r {
            Some((a, b)) => numeric_id_spec(text@) == Some((a@, b@)),
            None => numeric_id_spec(text@) is None,
        },
{
    let cs = chars_of(text);
    if cs.len() == 0 || !('0' <= cs[0] && cs[0] <= '9') {
        return None;
    }
    let mut i: usize = 0;
    let mut dot_count: usize = 0;
    while i < cs.len()
        invariant
            i <= cs@.len(),
            dot_count <= i,
            numeric_end(cs@, 0) == numeric_end(cs@, i as int),
            dot_count == count_char(cs@.take(i as int), '.'),
        ensures
            i <= cs@.len(),
            numeric_end(cs@, 0) == i,
            dot_count == count_char(cs@.take(i as int), '.'),
        decreases cs@.len() - i,
    {
        let c = cs[i];
        if '0' <= c && c <= '9' {
            assert(cs@.take(i + 1).drop_last() == cs@.take(i as int));
            i += 1;
        } else if c == '.' && i + 1 < cs.len() && '0' <= cs[i + 1] && cs[i + 1] <= '9' {
            assert(cs@.take(i + 1).drop_last() == cs@.take(i as int));
            dot_count += 1;
            i += 1;
        } else {
            break;
        }
    }
    proof {
        lemma_numeric_end(cs@, 0);
    }
    if dot_count == 0 {
        return None;
    }
    if i >= cs.len() {
        return None;
    }
    let c = cs[i];
    if !(c == ' ' || c == '\t' || c == '\n' || c == '\u{C}' || c == '\r') {
        return None;
    }
    let n = text.unicode_len();
    let rest_all = slice(&cs, i, n);
    proof {
        lemma_leading_ws_bound(rest_all@);
    }
    let ws = count_leading_ws(&rest_all);
    let id = text.substring_char(0, i);
    let rest = text.substring_char(i + ws, n);
    assert(rest_all@ == cs@.skip(i as int));
    assert(rest@ =~= trim_start_s(cs@.skip(i as int)));
    assert(id@ =~= cs@.take(i as int));
    Some((id, rest))
}

/// A list item beginning (after white space) with `[-]` or `[~]`: the marker and the
/// rest of the text without its leading white space.
pub open spec fn custom_marker_spec(s: Seq<char>) -> Option<(char, Seq<char>)> {
    let t = trim_start_s(s);
    if t.len() >= 3 && t[0] == '[' && t[2] == ']' && (t[1] == '-' || t[1] == '~') {
        Some((t[1], trim_start_s(t.skip(3))))
    } else {
        None
    }
}

/// Check if a list item starts with a custom task marker like `[-]` or `[~]`.
pub fn extract_custom_marker(text: &[char]) -> (r: Option<(char, Vec<char>)>)
    ensures
        match r {
            Some((m, rest)) => custom_marker_spec(text@) == Some((m, rest@)),
            None => custom_marker_spec(text@) is None,
        },
{
    let t = trim_start(text);
    if t.len() >= 3 && t[0] == '[' && t[2] == ']' {
        let marker = t[1];
        if marker == '-' || marker == '~' {
            let tail = slice(&t, 3, t.len());
            let rest = trim_start(&tail);
            assert(tail@ == t@.skip(3));
            return Some((marker, rest));
        }
    }
    None
}

pub open spec fn path_extensions() -> Seq<Seq<char>> {
    seq![
        ".rs"@, ".md"@, ".toml"@, ".json"@, ".yaml"@, ".yml"@, ".js"@, ".ts"@, ".py"@,
        ".go"@, ".sh"@, ".txt"@, ".html"@, ".css"@, ".xml"@,
    ]
}

/// A text that contains a slash, or ends in one of the known file extensions.
pub open spec fn looks_like_path_spec(s: Seq<char>) -> bool {
    ||| s.contains('/')
    ||| exists|k: int| 0 <= k < path_extensions().len() && ends_with_s(s, path_extensions()[k])
}

pub fn looks_like_path(s: &[char]) -> (r: bool)
    ensures
        r == looks_like_path_spec(s@),
{
    proof {
        lemma_char_pos(s@, '/', 0);
    }
    if position(s, '/', 0).is_some() {
        return true;
    }
    let exts: [&str; 15] = [
        ".rs", ".md", ".toml", ".json", ".yaml", ".yml", ".js", ".ts", ".py", ".go", ".sh",
        ".txt", ".html", ".css", ".xml",
    ];
    let ghost pe = path_extensions();
    proof {
        reveal_strlit(".rs");
        reveal_strlit(".md");
        reveal_strlit(".toml");
        reveal_strlit(".json");
        reveal_strlit(".yaml");
        reveal_strlit(".yml");
        reveal_strlit(".js");
        reveal_strlit(".ts");
        reveal_strlit(".py");
        reveal_strlit(".go");
        reveal_strlit(".sh");
        reveal_strlit(".txt");
        reveal_strlit(".html");
        reveal_strlit(".css");
        reveal_strlit(".xml");
        assert(exts@.map_values(|e: &str| e@) =~= pe);
    }
    let mut k: usize = 0;
    while k < 15
        invariant
            k <= 15,
            exts@.map_values(|e: &str| e@) == pe,
            pe == path_extensions(),
            forall|j: int| 0 <= j < k ==> !ends_with_s(s@, pe[j]),
        decreases 15 - k,
    {
        let e = chars_of(exts[k]);
        assert(e@ == pe[k as int]);
        if ends_with(s, &e) {
            return true;
        }
        k += 1;
    }
    false
}


/// How many identifiers each slug has been given so far in one file.
pub struct SlugCounts {
    entries: Vec<(String, u128)>,
    calls: Ghost<nat>,
}

pub open spec fn count_of(m: Map<Seq<char>, nat>, slug: Seq<char>) -> nat {
    if m.dom().contains(slug) {
        m[slug]
    } else {
        0
    }
}

spec fn entries_map(e: Seq<(String, u128)>) -> Map<Seq<char>, nat>
    decreases e.len(),
{
    if e.len() == 0 {
        Map::empty()
    } else {
        entries_map(e.drop_last()).insert(e.last().0@, e.last().1 as nat)
    }
}

proof fn lemma_entries_map(e: Seq<(String, u128)>)
    requires
        forall|i: int, j: int| 0 <= i < j < e.len() ==> e[i].0@ != e[j].0@,
    ensures
        forall|s: Seq<char>|
            #![trigger entries_map(e).dom().contains(s)]
            entries_map(e).dom().contains(s) <==> exists|i: int| 0 <= i < e.len() && e[i].0@ == s,
        forall|i: int| 0 <= i < e.len() ==> entries_map(e)[#[trigger] e[i].0@] == e[i].1 as nat,
    decreases e.len(),
{
    if e.len() > 0 {
        let d = e.drop_last();
        let k = e.last().0@;
        assert forall|i: int, j: int| 0 <= i < j < d.len() implies d[i].0@ != d[j].0@ by {
            assert(d[i] == e[i] && d[j] == e[j]);
        }
        lemma_entries_map(d);
        assert forall|s: Seq<char>| #![trigger entries_map(e).dom().contains(s)]
            entries_map(e).dom().contains(s) <==> exists|i: int| 0 <= i < e.len() && e[i].0@ == s by {
            if s == k {
                assert(e[e.len() - 1].0@ == s);
            } else {
                if entries_map(d).dom().contains(s) {
                    let i = choose|i: int| 0 <= i < d.len() && d[i].0@ == s;
                    assert(e[i].0@ == s);
                }
                if exists|i: int| 0 <= i < e.len() && e[i].0@ == s {
                    let i = choose|i: int| 0 <= i < e.len() && e[i].0@ == s;
                    assert(i < d.len());
                    assert(d[i].0@ == s);
                }
            }
        }
        assert forall|i: int| 0 <= i < e.len() implies entries_map(e)[#[trigger] e[i].0@]
            == e[i].1 as nat by {
            if i < d.len() {
                assert(d[i] == e[i]);
                assert(e[i].0@ != k);
            }
        }
    }
}

impl View for SlugCounts {
    type V = Map<Seq<char>, nat>;

    closed spec fn view(&self) -> Map<Seq<char>, nat> {
        entries_map(self.entries@)
    }
}

impl SlugCounts {
    #[verifier::type_invariant]
    spec fn inv(self) -> bool {
        &&& forall|i: int, j: int|
            0 <= i < j < self.entries@.len() ==> self.entries@[i].0@ != self.entries@[j].0@
        &&& forall|i: int| 0 <= i < self.entries@.len() ==> self.entries@[i].1 <= self.calls@
    }

    /// How many identifiers have been made with these counts.
    pub closed spec fn calls(&self) -> nat {
        self.calls@
    }

    pub fn new() -> (c: SlugCounts)
        ensures
            c@ == Map::<Seq<char>, nat>::empty(),
            c.calls() == 0,
    {
        SlugCounts { entries: Vec::new(), calls: Ghost(0) }
    }

    /// Counts one more use of `slug`, and returns the new count.
    pub fn bump(&mut self, slug: &str) -> (n: u128)
        requires
            old(self).calls() < u128::MAX,
        ensures
            n as nat == count_of(old(self)@, slug@) + 1,
            final(self)@ == old(self)@.insert(slug@, n as nat),
            final(self).calls() == old(self).calls() + 1,
    {
        proof {
            use_type_invariant(&*self);
            lemma_entries_map(self.entries@);
        }
        let ghost old_entries = self.entries@;
        let ghost calls = self.calls@;
        let mut i: usize = 0;
        while i < self.entries.len()
            invariant
                i <= self.entries@.len(),
                self.entries@ == old_entries,
                old(self).entries@ == old_entries,
                old(self).calls@ == calls,
                self.calls@ == calls,
                calls < u128::MAX,
                forall|a: int, b: int| 0 <= a < b < old_entries.len() ==> old_entries[a].0@ != old_entries[b].0@,
                forall|a: int| 0 <= a < old_entries.len() ==> old_entries[a].1 <= calls,
                forall|j: int| 0 <= j < i ==> old_entries[j].0@ != slug@,
            decreases self.entries@.len() - i,
        {
            if self.entries[i].0 == slug.to_owned() {
                let n = self.entries[i].1 + 1;
                let key = self.entries[i].0.clone();
                let new_calls: Ghost<nat> = Ghost(calls + 1);
                let mut entries = Vec::new();
                std::mem::swap(&mut entries, &mut self.entries);
                entries.set(i, (key, n));
                proof {
                    assert(entries@ == old_entries.update(i as int, (key, n)));
                    assert forall|a: int, b: int| 0 <= a < b < entries@.len() implies entries@[a].0@
                        != entries@[b].0@ by {
                        assert(entries@[a].0@ == old_entries[a].0@);
                        assert(entries@[b].0@ == old_entries[b].0@);
                    }
                    lemma_entries_map(entries@);
                    lemma_entries_map(old_entries);
                    assert(old_entries[i as int].0@ == slug@);
                    assert(entries@[i as int].0@ == slug@);
                    assert(entries_map(old_entries)[old_entries[i as int].0@] == old_entries[i as int].1 as nat);
                    assert(entries_map(entries@)[entries@[i as int].0@] == n as nat);
                    assert(entries_map(old_entries).dom().contains(slug@));
                    assert(entries_map(entries@) =~= entries_map(old_entries).insert(slug@, n as nat)) by {
                        assert forall|s: Seq<char>| #![trigger entries_map(entries@).dom().contains(s)]
                            entries_map(entries@).dom().contains(s) implies entries_map(old_entries).dom().contains(s) by {
                            let a = choose|a: int| 0 <= a < entries@.len() && entries@[a].0@ == s;
                            assert(old_entries[a].0@ == s);
                        }
                        assert forall|s: Seq<char>| #![trigger entries_map(old_entries).dom().contains(s)]
                            entries_map(old_entries).dom().contains(s) implies entries_map(entries@).dom().contains(s) by {
                            let a = choose|a: int| 0 <= a < old_entries.len() && old_entries[a].0@ == s;
                            assert(entries@[a].0@ == s);
                        }
                        assert forall|s: Seq<char>| #![trigger entries_map(entries@)[s]]
                            entries_map(entries@).dom().contains(s) && s != slug@ implies entries_map(entries@)[s] == entries_map(old_entries)[s] by {
                            let a = choose|a: int| 0 <= a < entries@.len() && entries@[a].0@ == s;
                            assert(a != i);
                            assert(entries@[a] == old_entries[a]);
                        }
                    }
                    assert forall|a: int| 0 <= a < entries@.len() implies entries@[a].1 <= new_calls@ by {
                        if a != i {
                            assert(entries@[a] == old_entries[a]);
                        }
                    }
                }
                *self = SlugCounts { entries, calls: new_calls };
                return n;
            }
            i += 1;
        }
        let new_calls: Ghost<nat> = Ghost(calls + 1);
        let mut entries = Vec::new();
        std::mem::swap(&mut entries, &mut self.entries);
        let key = slug.to_owned();
        entries.push((key, 1));
        proof {
            assert(entries@.drop_last() == old_entries);
            assert(!entries_map(old_entries).dom().contains(slug@));
            assert forall|a: int, b: int| 0 <= a < b < entries@.len() implies entries@[a].0@
                != entries@[b].0@ by {
                if b < old_entries.len() {
                    assert(entries@[a] == old_entries[a] && entries@[b] == old_entries[b]);
                } else {
                    assert(entries@[a] == old_entries[a]);
                }
            }
            assert forall|a: int| 0 <= a < entries@.len() implies entries@[a].1 <= new_calls@ by {
                if a < old_entries.len() {
                    assert(entries@[a] == old_entries[a]);
                }
            }
        }
        *self = SlugCounts { entries, calls: new_calls };
        1
    }
}

pub open spec fn digit_char(d: nat) -> char {
    (48 + d) as char
}

/// The decimal digits of a number.
pub open spec fn decimal(n: nat) -> Seq<char>
    decreases n,
{
    if n < 10 {
        seq![digit_char(n)]
    } else {
        decimal(n / 10).push(digit_char(n % 10))
    }
}

pub fn decimal_of(n: u128) -> (r: Vec<char>)
    ensures
        r@ == decimal(n as nat),
    decreases n,
{
    let d = ((n % 10) as u8 + 48) as char;
    assert(d == digit_char((n % 10) as nat));
    if n < 10 {
        vec![d]
    } else {
        let mut r = decimal_of(n / 10);
        r.push(d);
        r
    }
}

/// The identifier of the `n`-th use of `slug` in `file_id`.
pub open spec fn id_for(file_id: Seq<char>, slug: Seq<char>, n: nat) -> Seq<char> {
    if n == 1 {
        file_id + seq!['#'] + slug
    } else {
        file_id + seq!['#'] + slug + seq!['-'] + decimal(n)
    }
}

/// Makes a node identifier `file#slug`, with a `-n` suffix for the n-th repeat of a slug.
pub fn make_id(file_id: &str, slug: &str, slug_counts: &mut SlugCounts) -> (r: String)
    requires
        old(slug_counts).calls() < u128::MAX,
    ensures
        r@ == id_for(file_id@, slug@, count_of(old(slug_counts)@, slug@) + 1),
        final(slug_counts)@ == old(slug_counts)@.insert(slug@, count_of(old(slug_counts)@, slug@) + 1),
        final(slug_counts).calls() == old(slug_counts).calls() + 1,
{
    let n = slug_counts.bump(slug);
    let mut v = chars_of(file_id);
    v.push('#');
    let s = chars_of(slug);
    extend(&mut v, &s);
    if n != 1 {
        v.push('-');
        let d = decimal_of(n);
        extend(&mut v, &d);
    }
    string_of(&v)
}


/// One markdown event, as much of it as the scanner reads.
pub enum MdEvent {
    HeadingStart(u8),
    HeadingEnd,
    ListStart,
    ListEnd,
    ItemStart,
    ItemEnd,
    ParagraphStart,
    TaskMarker(bool),
    Text(String),
    Code(String),
    CodeBlockStart,
    CodeBlockEnd,
    LinkStart(String),
    Other,
}

pub enum MdEventView {
    HeadingStart(u8),
    HeadingEnd,
    ListStart,
    ListEnd,
    ItemStart,
    ItemEnd,
    ParagraphStart,
    TaskMarker(bool),
    Text(Seq<char>),
    Code(Seq<char>),
    CodeBlockStart,
    CodeBlockEnd,
    LinkStart(Seq<char>),
    Other,
}

impl View for MdEvent {
    type V = MdEventView;

    open spec fn view(&self) -> MdEventView {
        match self {
            MdEvent::HeadingStart(l) => MdEventView::HeadingStart(*l),
            MdEvent::HeadingEnd => MdEventView::HeadingEnd,
            MdEvent::ListStart => MdEventView::ListStart,
            MdEvent::ListEnd => MdEventView::ListEnd,
            MdEvent::ItemStart => MdEventView::ItemStart,
            MdEvent::ItemEnd => MdEventView::ItemEnd,
            MdEvent::ParagraphStart => MdEventView::ParagraphStart,
            MdEvent::TaskMarker(b) => MdEventView::TaskMarker(*b),
            MdEvent::Text(s) => MdEventView::Text(s@),
            MdEvent::Code(s) => MdEventView::Code(s@),
            MdEvent::CodeBlockStart => MdEventView::CodeBlockStart,
            MdEvent::CodeBlockEnd => MdEventView::CodeBlockEnd,
            MdEvent::LinkStart(s) => MdEventView::LinkStart(s@),
            MdEvent::Other => MdEventView::Other,
        }
    }
}

pub open spec fn event_views(e: Seq<MdEvent>) -> Seq<MdEventView> {
    e.map_values(|x: MdEvent| x@)
}

/// Lists opened minus lists closed.
pub open spec fn list_balance(e: Seq<MdEventView>) -> int
    decreases e.len(),
{
    if e.len() == 0 {
        0
    } else {
        list_balance(e.drop_last()) + match e.last() {
            MdEventView::ListStart => 1int,
            MdEventView::ListEnd => -1int,
            _ => 0int,
        }
    }
}

/// Scans markdown files into section and task nodes.
pub struct MarkdownScanner;

/// A link found in a markdown file, not yet resolved to a node.
pub struct RawLink {
    pub source_node: String,
    pub target_url: String,
    pub source_file: String,
}

pub struct LinkView {
    pub source_node: Seq<char>,
    pub target_url: Seq<char>,
    pub source_file: Seq<char>,
}

impl View for RawLink {
    type V = LinkView;

    open spec fn view(&self) -> LinkView {
        LinkView {
            source_node: self.source_node@,
            target_url: self.target_url@,
            source_file: self.source_file@,
        }
    }
}

pub open spec fn link_views(v: Seq<RawLink>) -> Seq<LinkView> {
    v.map_values(|l: RawLink| l@)
}

pub open spec fn pair_views(v: Seq<(String, String)>) -> Seq<(Seq<char>, Seq<char>)> {
    v.map_values(|p: (String, String)| (p.0@, p.1@))
}

/// Links waiting for the node they come from: each `(target, file)` pair becomes a link
/// from `source`.
pub open spec fn links_from(source: Seq<char>, pairs: Seq<(Seq<char>, Seq<char>)>) -> Seq<LinkView> {
    pairs.map_values(
        |p: (Seq<char>, Seq<char>)| LinkView { source_node: source, target_url: p.0, source_file: p.1 },
    )
}

/// A task list item whose end has not been seen yet.
pub struct TaskV {
    pub status: Seq<char>,
    pub text: Seq<char>,
    pub depth: int,
    pub id: Option<Seq<char>>,
    pub deferred: Seq<(Seq<char>, Seq<char>)>,
}

/// The state of the markdown scanner between events.
#[verifier::ext_equal]
pub struct ParseV {
    pub headings: Seq<(u8, Seq<char>)>,
    pub counts: Map<Seq<char>, nat>,
    pub tasks: Seq<TaskV>,
    pub depth: int,
    pub siblings: Map<Seq<char>, Seq<char>>,
    pub in_heading: bool,
    pub level: u8,
    pub heading_text: Seq<char>,
    pub in_code: bool,
    pub in_item: bool,
    pub is_task_item: bool,
    pub plain: Seq<char>,
    pub plain_done: bool,
    pub item_links: Seq<(Seq<char>, Seq<char>)>,
    pub nodes: Seq<NodeView>,
    pub edges: Seq<EdgeView>,
    pub links: Seq<LinkView>,
}

pub open spec fn parse_init() -> ParseV {
    ParseV {
        headings: Seq::empty(),
        counts: Map::empty(),
        tasks: Seq::empty(),
        depth: 0,
        siblings: Map::empty(),
        in_heading: false,
        level: 0,
        heading_text: Seq::empty(),
        in_code: false,
        in_item: false,
        is_task_item: false,
        plain: Seq::empty(),
        plain_done: false,
        item_links: Seq::empty(),
        nodes: Seq::empty(),
        edges: Seq::empty(),
        links: Seq::empty(),
    }
}

/// The innermost open heading, or else the file: the parent of new sections, of
/// top-level tasks, and the source of links outside list items.
pub open spec fn heading_parent(f: Seq<char>, s: ParseV) -> Seq<char> {
    if s.headings.len() > 0 {
        s.headings.last().1
    } else {
        f
    }
}

/// Closes the headings at `level` or deeper.
pub open spec fn pop_headings(h: Seq<(u8, Seq<char>)>, level: u8) -> Seq<(u8, Seq<char>)>
    decreases h.len(),
{
    if h.len() > 0 && h.last().0 >= level {
        pop_headings(h.drop_last(), level)
    } else {
        h
    }
}

/// Adds a node under `parent`: a contains edge from the parent, a sequence edge from the
/// parent's previous child, and the node becomes the parent's last child.
pub open spec fn attach(s: ParseV, parent: Seq<char>, n: NodeView) -> ParseV {
    let e1 = s.edges.push(EdgeView { source: parent, target: n.id, kind: EdgeKind::Contains });
    let e2 = if s.siblings.dom().contains(parent) {
        e1.push(EdgeView { source: s.siblings[parent], target: n.id, kind: EdgeKind::Sequence })
    } else {
        e1
    };
    ParseV { nodes: s.nodes.push(n), edges: e2, siblings: s.siblings.insert(parent, n.id), ..s }
}

/// The numeric id and the label of a task text.
pub open spec fn split_label(raw: Seq<char>) -> (Option<Seq<char>>, Seq<char>) {
    match numeric_id_spec(raw) {
        Some((a, b)) => (Some(a), b),
        None => (None, raw),
    }
}

pub open spec fn task_node(id: Seq<char>, raw: Seq<char>, status: Seq<char>) -> NodeView {
    NodeView {
        id,
        kind: NodeKind::Task,
        source: "markdown"@,
        label: split_label(raw).1,
        metadata: Some(MetaView { level: None, status: Some(status), stable_id: split_label(raw).0 }),
    }
}

pub open spec fn on_heading_end(f: Seq<char>, s: ParseV) -> ParseV {
    let slug = slugify_spec(s.heading_text);
    let n = count_of(s.counts, slug) + 1;
    let id = id_for(f, slug, n);
    let s1 = ParseV {
        in_heading: false,
        counts: s.counts.insert(slug, n),
        headings: pop_headings(s.headings, s.level),
        ..s
    };
    let node = NodeView {
        id,
        kind: NodeKind::Section,
        source: "markdown"@,
        label: s.heading_text,
        metadata: Some(MetaView { level: Some(s.level as u64), status: None, stable_id: None }),
    };
    let s2 = attach(s1, heading_parent(f, s1), node);
    ParseV { headings: s2.headings.push((s.level, id)), ..s2 }
}

/// The end of a task list item: the task becomes a node under the enclosing task (whose
/// identifier is made now if it has none yet) or heading, and its links leave with it.
pub open spec fn on_task_end(f: Seq<char>, s: ParseV) -> ParseV {
    let task = s.tasks.last();
    let rest = s.tasks.drop_last();
    let raw = trim_s(task.text);
    let slug = slugify_spec(split_label(raw).1);
    let n = count_of(s.counts, slug) + 1;
    let counts1 = if task.id is Some {
        s.counts
    } else {
        s.counts.insert(slug, n)
    };
    let tid = match task.id {
        Some(i) => i,
        None => id_for(f, slug, n),
    };
    let p = rest.last();
    let pslug = slugify_spec(trim_s(p.text));
    let pn = count_of(counts1, pslug) + 1;
    let pid = id_for(f, pslug, pn);
    let counts2 = if rest.len() > 0 && p.id is None {
        counts1.insert(pslug, pn)
    } else {
        counts1
    };
    let tasks2 = if rest.len() > 0 && p.id is None {
        rest.update(rest.len() - 1, TaskV { id: Some(pid), ..p })
    } else {
        rest
    };
    let parent = if rest.len() > 0 {
        match p.id {
            Some(i) => i,
            None => pid,
        }
    } else {
        heading_parent(f, s)
    };
    let s1 = ParseV { in_item: false, counts: counts2, tasks: tasks2, ..s };
    let s2 = attach(s1, parent, task_node(tid, raw, task.status));
    ParseV {
        links: s2.links + links_from(tid, task.deferred) + links_from(tid, s.item_links),
        item_links: Seq::empty(),
        ..s2
    }
}

/// The end of a list item that is not a task: with a `[-]` or `[~]` marker it becomes
/// an in-progress or dropped task under the innermost heading.
pub open spec fn on_plain_item_end(f: Seq<char>, s: ParseV) -> ParseV {
    let s0 = ParseV { in_item: false, ..s };
    if s.in_item && !s.is_task_item && s.plain.len() > 0 && custom_marker_spec(s.plain) is Some {
        let (m, raw) = custom_marker_spec(s.plain).unwrap();
        let status = if m == '-' {
            "in-progress"@
        } else {
            "dropped"@
        };
        let slug = slugify_spec(split_label(raw).1);
        let n = count_of(s.counts, slug) + 1;
        let id = id_for(f, slug, n);
        let s1 = ParseV { counts: s.counts.insert(slug, n), ..s0 };
        let s2 = attach(s1, heading_parent(f, s), task_node(id, raw, status));
        ParseV { links: s2.links + links_from(id, s.item_links), item_links: Seq::empty(), ..s2 }
    } else {
        s0
    }
}

/// Whether the innermost open task belongs to the current list level.
pub open spec fn top_at_depth(s: ParseV) -> bool {
    s.tasks.len() > 0 && s.tasks.last().depth == s.depth
}

pub open spec fn append_top_text(s: ParseV, t: Seq<char>) -> ParseV {
    ParseV {
        tasks: s.tasks.update(
            s.tasks.len() - 1,
            TaskV { text: s.tasks.last().text + t, ..s.tasks.last() },
        ),
        ..s
    }
}

/// A link inside a list item waits for the item's task; outside, it leaves from the
/// innermost heading.
pub open spec fn add_link(f: Seq<char>, s: ParseV, url: Seq<char>) -> ParseV {
    if s.in_item {
        if top_at_depth(s) {
            ParseV {
                tasks: s.tasks.update(
                    s.tasks.len() - 1,
                    TaskV { deferred: s.tasks.last().deferred.push((url, f)), ..s.tasks.last() },
                ),
                ..s
            }
        } else {
            ParseV { item_links: s.item_links.push((url, f)), ..s }
        }
    } else {
        ParseV {
            links: s.links.push(
                LinkView { source_node: heading_parent(f, s), target_url: url, source_file: f },
            ),
            ..s
        }
    }
}

pub open spec fn on_text(s: ParseV, t: Seq<char>) -> ParseV {
    if s.in_heading {
        ParseV { heading_text: s.heading_text + t, ..s }
    } else if s.in_code {
        s
    } else if s.in_item && !s.is_task_item {
        if s.plain_done {
            s
        } else {
            ParseV { plain: s.plain + t, ..s }
        }
    } else if top_at_depth(s) {
        append_top_text(s, t)
    } else {
        s
    }
}

/// In a plain item (one that may be marked `[-]` or `[~]`), a paragraph that follows
/// the first one is its description: the item's label is complete. A checkbox task's
/// label takes in the text of all its paragraphs.
pub open spec fn on_paragraph(s: ParseV) -> ParseV {
    if s.in_item && !s.is_task_item && s.plain.len() > 0 {
        ParseV { plain_done: true, ..s }
    } else {
        s
    }
}

pub open spec fn on_code(f: Seq<char>, s: ParseV, c: Seq<char>) -> ParseV {
    if s.in_heading {
        ParseV { heading_text: s.heading_text + c, ..s }
    } else if s.in_code {
        s
    } else {
        let s1 = if top_at_depth(s) {
            append_top_text(s, c)
        } else {
            s
        };
        if looks_like_path_spec(c) {
            add_link(f, s1, c)
        } else {
            s1
        }
    }
}

pub open spec fn on_link(f: Seq<char>, s: ParseV, url: Seq<char>) -> ParseV {
    if s.in_code {
        s
    } else {
        add_link(f, s, url)
    }
}

/// What one event does to the scanner's state.
pub open spec fn parse_step(f: Seq<char>, s: ParseV, e: MdEventView) -> ParseV {
    match e {
        MdEventView::HeadingStart(l) => ParseV {
            in_heading: true,
            level: l,
            heading_text: Seq::empty(),
            ..s
        },
        MdEventView::HeadingEnd => on_heading_end(f, s),
        MdEventView::ListStart => ParseV { depth: s.depth + 1, ..s },
        MdEventView::ListEnd => ParseV { depth: s.depth - 1, ..s },
        MdEventView::ItemStart => ParseV {
            in_item: true,
            is_task_item: false,
            plain: Seq::empty(),
            plain_done: false,
            item_links: Seq::empty(),
            ..s
        },
        MdEventView::TaskMarker(checked) => ParseV {
            is_task_item: true,
            tasks: s.tasks.push(
                TaskV {
                    status: if checked {
                        "done"@
                    } else {
                        "todo"@
                    },
                    text: Seq::empty(),
                    depth: s.depth,
                    id: None,
                    deferred: Seq::empty(),
                },
            ),
            ..s
        },
        MdEventView::ItemEnd => if top_at_depth(s) {
            on_task_end(f, s)
        } else {
            on_plain_item_end(f, s)
        },
        MdEventView::ParagraphStart => on_paragraph(s),
        MdEventView::Text(t) => on_text(s, t),
        MdEventView::Code(c) => on_code(f, s, c),
        MdEventView::CodeBlockStart => ParseV { in_code: true, ..s },
        MdEventView::CodeBlockEnd => ParseV { in_code: false, ..s },
        MdEventView::LinkStart(url) => on_link(f, s, url),
        MdEventView::Other => s,
    }
}

/// The scanner's state after a sequence of events.
pub open spec fn parse_run(f: Seq<char>, e: Seq<MdEventView>) -> ParseV
    decreases e.len(),
{
    if e.len() == 0 {
        parse_init()
    } else {
        parse_step(f, parse_run(f, e.drop_last()), e.last())
    }
}

/// What scanning a markdown text as file `f` yields: its nodes, edges and links.
pub open spec fn parse_spec(f: Seq<char>, content: Seq<char>) -> ParseV {
    parse_run(f, markdown_events(content))
}

/// The graph scanned from a markdown text as file `f`.
pub open spec fn parsed_graph(f: Seq<char>, content: Seq<char>) -> crate::graph::GraphView {
    crate::graph::GraphView { nodes: parse_spec(f, content).nodes, edges: parse_spec(f, content).edges }
}


/// An identifier made in file `f`: `f#...`.
pub open spec fn id_in_file(f: Seq<char>, id: Seq<char>) -> bool {
    starts_with_s(id, f + seq!['#'])
}

pub open spec fn names_node(nodes: Seq<NodeView>, id: Seq<char>) -> bool {
    exists|j: int| 0 <= j < nodes.len() && #[trigger] nodes[j].id == id
}

/// What holds of the scanner's state after any events: every node and every identifier
/// waiting for its node belongs to the file, every edge ends at a node, and every link
/// (collected or waiting) comes from the file.
pub open spec fn parse_inv(f: Seq<char>, s: ParseV) -> bool {
    &&& forall|i: int| 0 <= i < s.nodes.len() ==> id_in_file(f, #[trigger] s.nodes[i].id)
    &&& forall|k: int| 0 <= k < s.tasks.len() && (#[trigger] s.tasks[k]).id is Some ==> id_in_file(f, s.tasks[k].id->0)
    &&& forall|k: int, j: int| 0 <= k < s.tasks.len() && 0 <= j < s.tasks[k].deferred.len() ==> (#[trigger] s.tasks[k].deferred[j]).1 == f
    &&& forall|j: int| 0 <= j < s.item_links.len() ==> (#[trigger] s.item_links[j]).1 == f
    &&& forall|j: int| 0 <= j < s.links.len() ==> (#[trigger] s.links[j]).source_file == f
    &&& forall|i: int| 0 <= i < s.edges.len() ==> names_node(s.nodes, #[trigger] s.edges[i].target)
}

proof fn lemma_id_for_in_file(f: Seq<char>, slug: Seq<char>, n: nat)
    ensures
        id_in_file(f, id_for(f, slug, n)),
{
    let p = f + seq!['#'];
    if n == 1 {
        assert(id_for(f, slug, n).take(p.len() as int) =~= p);
    } else {
        assert(id_for(f, slug, n).take(p.len() as int) =~= p);
    }
}

proof fn lemma_attach_inv(f: Seq<char>, s: ParseV, parent: Seq<char>, n: NodeView)
    requires
        parse_inv(f, s),
        id_in_file(f, n.id),
    ensures
        parse_inv(f, attach(s, parent, n)),
{
    let t = attach(s, parent, n);
    assert forall|i: int| 0 <= i < t.edges.len() implies names_node(t.nodes, #[trigger] t.edges[i].target) by {
        if i < s.edges.len() {
            assert(t.edges[i] == s.edges[i]);
            let j = choose|j: int| 0 <= j < s.nodes.len() && #[trigger] s.nodes[j].id == s.edges[i].target;
            assert(t.nodes[j] == s.nodes[j]);
        } else {
            assert(t.edges[i].target == n.id);
            assert(t.nodes[s.nodes.len() as int] == n);
        }
    }
    assert forall|i: int| 0 <= i < t.nodes.len() implies id_in_file(f, #[trigger] t.nodes[i].id) by {
        if i < s.nodes.len() {
            assert(t.nodes[i] == s.nodes[i]);
        }
    }
}

proof fn lemma_links_from_inv(f: Seq<char>, src: Seq<char>, pairs: Seq<(Seq<char>, Seq<char>)>, links: Seq<LinkView>)
    requires
        forall|j: int| 0 <= j < pairs.len() ==> (#[trigger] pairs[j]).1 == f,
        forall|j: int| 0 <= j < links.len() ==> (#[trigger] links[j]).source_file == f,
    ensures
        forall|j: int| 0 <= j < (links + links_from(src, pairs)).len() ==> (#[trigger] (links + links_from(src, pairs))[j]).source_file == f,
{
    assert forall|j: int| 0 <= j < (links + links_from(src, pairs)).len() implies (#[trigger] (links + links_from(src, pairs))[j]).source_file == f by {
        if j >= links.len() {
            assert(pairs[j - links.len()].1 == f);
        }
    }
}

proof fn lemma_task_end_inv(f: Seq<char>, s: ParseV)
    requires
        parse_inv(f, s),
        top_at_depth(s),
    ensures
        parse_inv(f, on_task_end(f, s)),
{
    let task = s.tasks.last();
    let rest = s.tasks.drop_last();
    let raw = trim_s(task.text);
    let slug = slugify_spec(split_label(raw).1);
    let n = count_of(s.counts, slug) + 1;
    let tid = match task.id {
        Some(i) => i,
        None => id_for(f, slug, n),
    };
    lemma_id_for_in_file(f, slug, n);
    assert(s.tasks[s.tasks.len() - 1] == task);
    assert(id_in_file(f, tid));
    let counts1 = if task.id is Some {
        s.counts
    } else {
        s.counts.insert(slug, n)
    };
    let p = rest.last();
    let pslug = slugify_spec(trim_s(p.text));
    let pn = count_of(counts1, pslug) + 1;
    let pid = id_for(f, pslug, pn);
    lemma_id_for_in_file(f, pslug, pn);
    let counts2 = if rest.len() > 0 && p.id is None {
        counts1.insert(pslug, pn)
    } else {
        counts1
    };
    let tasks2 = if rest.len() > 0 && p.id is None {
        rest.update(rest.len() - 1, TaskV { id: Some(pid), ..p })
    } else {
        rest
    };
    let parent = if rest.len() > 0 {
        match p.id {
            Some(i) => i,
            None => pid,
        }
    } else {
        heading_parent(f, s)
    };
    let s1 = ParseV { in_item: false, counts: counts2, tasks: tasks2, ..s };
    assert forall|k: int| 0 <= k < s1.tasks.len() && (#[trigger] s1.tasks[k]).id is Some implies id_in_file(f, s1.tasks[k].id->0) by {
        assert(s.tasks[k] == rest[k]);
    }
    assert forall|k: int, j: int| 0 <= k < s1.tasks.len() && 0 <= j < s1.tasks[k].deferred.len() implies (#[trigger] s1.tasks[k].deferred[j]).1 == f by {
        assert(s.tasks[k] == rest[k]);
        assert(s1.tasks[k].deferred == s.tasks[k].deferred);
        assert(s.tasks[k].deferred[j].1 == f);
    }
    assert(parse_inv(f, s1));
    let node = task_node(tid, raw, task.status);
    lemma_attach_inv(f, s1, parent, node);
    let s2 = attach(s1, parent, node);
    assert forall|j: int| 0 <= j < task.deferred.len() implies (#[trigger] task.deferred[j]).1 == f by {
        assert(s.tasks[s.tasks.len() - 1].deferred[j].1 == f);
    }
    lemma_links_from_inv(f, tid, task.deferred, s2.links);
    lemma_links_from_inv(f, tid, s.item_links, s2.links + links_from(tid, task.deferred));
    assert(s2.links + links_from(tid, task.deferred) + links_from(tid, s.item_links) == on_task_end(f, s).links);
}

proof fn lemma_plain_end_inv(f: Seq<char>, s: ParseV)
    requires
        parse_inv(f, s),
    ensures
        parse_inv(f, on_plain_item_end(f, s)),
{
    if s.in_item && !s.is_task_item && s.plain.len() > 0 && custom_marker_spec(s.plain) is Some {
        let (m, raw) = custom_marker_spec(s.plain).unwrap();
        let status = if m == '-' {
            "in-progress"@
        } else {
            "dropped"@
        };
        let slug = slugify_spec(split_label(raw).1);
        let n = count_of(s.counts, slug) + 1;
        let id = id_for(f, slug, n);
        lemma_id_for_in_file(f, slug, n);
        let s0 = ParseV { in_item: false, ..s };
        let s1 = ParseV { counts: s.counts.insert(slug, n), ..s0 };
        lemma_attach_inv(f, s1, heading_parent(f, s), task_node(id, raw, status));
        let s2 = attach(s1, heading_parent(f, s), task_node(id, raw, status));
        lemma_links_from_inv(f, id, s.item_links, s2.links);
    }
}

proof fn lemma_add_link_inv(f: Seq<char>, s: ParseV, url: Seq<char>)
    requires
        parse_inv(f, s),
    ensures
        parse_inv(f, add_link(f, s, url)),
{
    let t = add_link(f, s, url);
    if s.in_item && top_at_depth(s) {
        assert forall|k: int| 0 <= k < t.tasks.len() && (#[trigger] t.tasks[k]).id is Some implies id_in_file(f, t.tasks[k].id->0) by {
            assert(t.tasks[k].id == s.tasks[k].id);
        }
        assert forall|k: int, j: int| 0 <= k < t.tasks.len() && 0 <= j < t.tasks[k].deferred.len() implies (#[trigger] t.tasks[k].deferred[j]).1 == f by {
            if k < s.tasks.len() - 1 {
                assert(t.tasks[k] == s.tasks[k]);
            } else if j < s.tasks[k].deferred.len() {
                assert(t.tasks[k].deferred[j] == s.tasks[k].deferred[j]);
            }
        }
    } else if !s.in_item {
        assert forall|j: int| 0 <= j < t.links.len() implies (#[trigger] t.links[j]).source_file == f by {
            if j < s.links.len() {
                assert(t.links[j] == s.links[j]);
            }
        }
    } else {
        assert forall|j: int| 0 <= j < t.item_links.len() implies (#[trigger] t.item_links[j]).1 == f by {
            if j < s.item_links.len() {
                assert(t.item_links[j] == s.item_links[j]);
            }
        }
    }
}

proof fn lemma_append_text_inv(f: Seq<char>, s: ParseV, t: Seq<char>)
    requires
        parse_inv(f, s),
        top_at_depth(s),
    ensures
        parse_inv(f, append_top_text(s, t)),
{
    let u = append_top_text(s, t);
    assert forall|k: int| 0 <= k < u.tasks.len() && (#[trigger] u.tasks[k]).id is Some implies id_in_file(f, u.tasks[k].id->0) by {
        assert(u.tasks[k].id == s.tasks[k].id);
    }
    assert forall|k: int, j: int| 0 <= k < u.tasks.len() && 0 <= j < u.tasks[k].deferred.len() implies (#[trigger] u.tasks[k].deferred[j]).1 == f by {
        assert(u.tasks[k].deferred == s.tasks[k].deferred);
    }
}

proof fn lemma_step_inv(f: Seq<char>, s: ParseV, e: MdEventView)
    requires
        parse_inv(f, s),
    ensures
        parse_inv(f, parse_step(f, s, e)),
{
    match e {
        MdEventView::HeadingEnd => {
            let slug = slugify_spec(s.heading_text);
            let n = count_of(s.counts, slug) + 1;
            lemma_id_for_in_file(f, slug, n);
            let s1 = ParseV { in_heading: false, counts: s.counts.insert(slug, n), headings: pop_headings(s.headings, s.level), ..s };
            let node = NodeView {
                id: id_for(f, slug, n),
                kind: NodeKind::Section,
                source: "markdown"@,
                label: s.heading_text,
                metadata: Some(MetaView { level: Some(s.level as u64), status: None, stable_id: None }),
            };
            lemma_attach_inv(f, s1, heading_parent(f, s1), node);
        },
        MdEventView::TaskMarker(checked) => {
            let t = parse_step(f, s, e);
            assert forall|k: int| 0 <= k < t.tasks.len() && (#[trigger] t.tasks[k]).id is Some implies id_in_file(f, t.tasks[k].id->0) by {
                if k < s.tasks.len() {
                    assert(t.tasks[k] == s.tasks[k]);
                }
            }
            assert forall|k: int, j: int| 0 <= k < t.tasks.len() && 0 <= j < t.tasks[k].deferred.len() implies (#[trigger] t.tasks[k].deferred[j]).1 == f by {
                assert(t.tasks[k] == s.tasks[k]);
            }
        },
        MdEventView::ItemEnd => {
            if top_at_depth(s) {
                lemma_task_end_inv(f, s);
            } else {
                lemma_plain_end_inv(f, s);
            }
        },
        MdEventView::Text(t) => {
            if !s.in_heading && !s.in_code && !(s.in_item && !s.is_task_item) && top_at_depth(s) {
                lemma_append_text_inv(f, s, t);
            }
        },
        MdEventView::Code(c) => {
            if !s.in_heading && !s.in_code {
                let s1 = if top_at_depth(s) {
                    append_top_text(s, c)
                } else {
                    s
                };
                if top_at_depth(s) {
                    lemma_append_text_inv(f, s, c);
                }
                if looks_like_path_spec(c) {
                    lemma_add_link_inv(f, s1, c);
                }
            }
        },
        MdEventView::LinkStart(url) => {
            if !s.in_code {
                lemma_add_link_inv(f, s, url);
            }
        },
        _ => {},
    }
}

proof fn lemma_run_inv(f: Seq<char>, e: Seq<MdEventView>)
    ensures
        parse_inv(f, parse_run(f, e)),
    decreases e.len(),
{
    if e.len() > 0 {
        lemma_run_inv(f, e.drop_last());
        lemma_step_inv(f, parse_run(f, e.drop_last()), e.last());
    }
}

/// Whatever the text, scanning it as file `f` gives nodes whose ids all begin with
/// `f#`, edges that all end at one of those nodes, and links that all come from `f`.
pub proof fn lemma_scan_stays_in_file(f: Seq<char>, content: Seq<char>)
    ensures
        forall|i: int| 0 <= i < parse_spec(f, content).nodes.len() ==> id_in_file(f, #[trigger] parse_spec(f, content).nodes[i].id),
        forall|i: int| 0 <= i < parse_spec(f, content).edges.len() ==> names_node(parse_spec(f, content).nodes, #[trigger] parse_spec(f, content).edges[i].target),
        forall|j: int| 0 <= j < parse_spec(f, content).links.len() ==> (#[trigger] parse_spec(f, content).links[j]).source_file == f,
{
    lemma_run_inv(f, markdown_events(content));
}

/// A task list item whose end has not been seen yet.
struct PendingTask {
    status: String,
    text: String,
    list_depth: usize,
    id: Option<String>,
    deferred_links: Vec<(String, String)>,
}

impl View for PendingTask {
    type V = TaskV;

    closed spec fn view(&self) -> TaskV {
        TaskV {
            status: self.status@,
            text: self.text@,
            depth: self.list_depth as int,
            id: opt_str_view(self.id),
            deferred: pair_views(self.deferred_links@),
        }
    }
}

spec fn task_views(v: Seq<PendingTask>) -> Seq<TaskV> {
    v.map_values(|t: PendingTask| t@)
}

spec fn heading_views(v: Seq<(u8, String)>) -> Seq<(u8, Seq<char>)> {
    v.map_values(|h: (u8, String)| (h.0, h.1@))
}

/// The markdown scanner between events.
struct MdParser {
    headings: Vec<(u8, String)>,
    counts: SlugCounts,
    tasks: Vec<PendingTask>,
    depth: usize,
    siblings: StrMap,
    in_heading: bool,
    level: u8,
    heading_text: String,
    in_code: bool,
    in_item: bool,
    is_task_item: bool,
    plain: String,
    plain_done: bool,
    item_links: Vec<(String, String)>,
    nodes: Vec<Node>,
    edges: Vec<Edge>,
    links: Vec<RawLink>,
}

impl View for MdParser {
    type V = ParseV;

    closed spec fn view(&self) -> ParseV {
        ParseV {
            headings: heading_views(self.headings@),
            counts: self.counts@,
            tasks: task_views(self.tasks@),
            depth: self.depth as int,
            siblings: self.siblings@,
            in_heading: self.in_heading,
            level: self.level,
            heading_text: self.heading_text@,
            in_code: self.in_code,
            in_item: self.in_item,
            is_task_item: self.is_task_item,
            plain: self.plain@,
            plain_done: self.plain_done,
            item_links: pair_views(self.item_links@),
            nodes: node_views(self.nodes@),
            edges: edge_views(self.edges@),
            links: link_views(self.links@),
        }
    }
}

/// `s` with white space removed from both ends.
fn trimmed(s: &String) -> (r: String)
    ensures
        r@ == trim_s(s@),
{
    let cs = chars_of(s.as_str());
    let t = trim(&cs);
    string_of(&t)
}

/// The numeric id and the label of a task text.
fn label_parts(raw: &String) -> (r: (Option<String>, String))
    ensures
        opt_str_view(r.0) == split_label(raw@).0,
        r.1@ == split_label(raw@).1,
{
    match extract_numeric_id(raw.as_str()) {
        Some((a, b)) => (Some(a.to_owned()), b.to_owned()),
        None => (None, raw.clone()),
    }
}

/// Appends a link from `source` for each `(target, file)` pair.
fn push_links(links: &mut Vec<RawLink>, source: &String, pairs: &Vec<(String, String)>)
    ensures
        link_views(final(links)@) == link_views(old(links)@) + links_from(source@, pair_views(pairs@)),
{
    let ghost start = link_views(links@);
    let mut i: usize = 0;
    while i < pairs.len()
        invariant
            i <= pairs@.len(),
            link_views(links@) == start + links_from(source@, pair_views(pairs@).take(i as int)),
        decreases pairs@.len() - i,
    {
        let ghost before = links@;
        let l = RawLink {
            source_node: source.clone(),
            target_url: pairs[i].0.clone(),
            source_file: pairs[i].1.clone(),
        };
        links.push(l);
        assert(link_views(links@) =~= link_views(before).push(l@));
        assert(pair_views(pairs@).take(i + 1) =~= pair_views(pairs@).take(i as int).push(
            pair_views(pairs@)[i as int],
        ));
        i += 1;
        assert(link_views(links@) =~= start + links_from(source@, pair_views(pairs@).take(i as int)));
    }
    assert(pair_views(pairs@).take(pairs@.len() as int) =~= pair_views(pairs@));
}

/// Closes the headings at `level` or deeper.
fn pop_to_level(headings: &mut Vec<(u8, String)>, level: u8)
    ensures
        heading_views(final(headings)@) == pop_headings(heading_views(old(headings)@), level),
{
    let ghost start = heading_views(headings@);
    while headings.len() > 0 && headings[headings.len() - 1].0 >= level
        invariant
            pop_headings(heading_views(headings@), level) == pop_headings(start, level),
        decreases headings@.len(),
    {
        let ghost h = heading_views(headings@);
        headings.pop();
        assert(heading_views(headings@) =~= h.drop_last());
    }
}

impl MdParser {
    spec fn calls(&self) -> nat {
        self.counts.calls()
    }

    fn new() -> (p: MdParser)
        ensures
            p@ == parse_init(),
            p.calls() == 0,
    {
        let p = MdParser {
            headings: Vec::new(),
            counts: SlugCounts::new(),
            tasks: Vec::new(),
            depth: 0,
            siblings: StrMap::new(),
            in_heading: false,
            level: 0,
            heading_text: String::new(),
            in_code: false,
            in_item: false,
            is_task_item: false,
            plain: String::new(),
            plain_done: false,
            item_links: Vec::new(),
            nodes: Vec::new(),
            edges: Vec::new(),
            links: Vec::new(),
        };
        assert(p@ =~= parse_init());
        p
    }

    fn heading_parent_id(&self, f: &str) -> (r: String)
        ensures
            r@ == heading_parent(f@, self@),
    {
        if self.headings.len() > 0 {
            self.headings[self.headings.len() - 1].1.clone()
        } else {
            f.to_owned()
        }
    }

    fn top_at_depth(&self) -> (r: bool)
        ensures
            r == top_at_depth(self@),
    {
        self.tasks.len() > 0 && self.tasks[self.tasks.len() - 1].list_depth == self.depth
    }

    fn attach(&mut self, parent: String, node: Node)
        ensures
            final(self)@ == attach(old(self)@, parent@, node@),
            final(self).calls() == old(self).calls(),
    {
        let ghost s = self@;
        let id = node.id.clone();
        let ghost nv = node@;
        self.nodes.push(node);
        assert(node_views(self.nodes@) =~= s.nodes.push(nv));
        let ghost e0 = self.edges@;
        let contains = Edge { source: parent.clone(), target: id.clone(), kind: EdgeKind::Contains };
        self.edges.push(contains);
        assert(edge_views(self.edges@) =~= edge_views(e0).push(contains@));
        match self.siblings.get(&parent) {
            Some(prev) => {
                let ghost e1 = self.edges@;
                let seq_edge = Edge { source: prev, target: id.clone(), kind: EdgeKind::Sequence };
                self.edges.push(seq_edge);
                assert(edge_views(self.edges@) =~= edge_views(e1).push(seq_edge@));
            },
            None => {},
        }
        self.siblings.insert(parent, id);
        assert(self@ =~= attach(s, parent@, nv));
    }

    fn heading_end(&mut self, f: &str)
        requires
            old(self).calls() < u128::MAX,
        ensures
            final(self)@ == on_heading_end(f@, old(self)@),
            final(self).calls() == old(self).calls() + 1,
    {
        let ghost s = self@;
        self.in_heading = false;
        let slug = slugify(self.heading_text.as_str());
        let id = make_id(f, slug.as_str(), &mut self.counts);
        let level = self.level;
        pop_to_level(&mut self.headings, level);
        let ghost s1 = self@;
        assert(s1 =~= ParseV {
            in_heading: false,
            counts: s.counts.insert(slugify_spec(s.heading_text), count_of(s.counts, slugify_spec(s.heading_text)) + 1),
            headings: pop_headings(s.headings, s.level),
            ..s
        });
        let parent = self.heading_parent_id(f);
        let node = Node {
            id: id.clone(),
            kind: NodeKind::Section,
            source: String::from_str("markdown"),
            label: self.heading_text.clone(),
            metadata: Some(Metadata { level: Some(level as u64), status: None, stable_id: None }),
        };
        self.attach(parent, node);
        let ghost h = heading_views(self.headings@);
        self.headings.push((level, id));
        assert(heading_views(self.headings@) =~= h.push((level, id@)));
    }

    fn task_end(&mut self, f: &str)
        requires
            top_at_depth(old(self)@),
            old(self).calls() + 2 <= u128::MAX,
        ensures
            final(self)@ == on_task_end(f@, old(self)@),
            final(self).calls() <= old(self).calls() + 2,
    {
        let ghost s = self@;
        let ghost hp = heading_parent(f@, s);
        self.in_item = false;
        let task = self.tasks.pop().unwrap();
        let ghost rest = task_views(self.tasks@);
        assert(rest =~= s.tasks.drop_last());
        let raw = trimmed(&task.text);
        let (stable_id, label) = label_parts(&raw);
        let slug = slugify(label.as_str());
        let tid = match task.id {
            Some(i) => i,
            None => make_id(f, slug.as_str(), &mut self.counts),
        };
        let ghost counts1 = self.counts@;
        let parent = if self.tasks.len() > 0 {
            let mut p = self.tasks.pop().unwrap();
            let ghost pv = p@;
            assert(pv == rest.last());
            match &p.id {
                Some(i) => {
                    let pid = i.clone();
                    self.tasks.push(p);
                    assert(task_views(self.tasks@) =~= rest);
                    pid
                },
                None => {
                    let ptext = trimmed(&p.text);
                    let pslug = slugify(ptext.as_str());
                    let pid = make_id(f, pslug.as_str(), &mut self.counts);
                    p.id = Some(pid.clone());
                    self.tasks.push(p);
                    assert(task_views(self.tasks@) =~= rest.update(
                        rest.len() - 1,
                        TaskV { id: Some(pid@), ..pv },
                    ));
                    pid
                },
            }
        } else {
            assert(self.headings@ == old(self).headings@);
            self.heading_parent_id(f)
        };
        assert(parent@ == (if rest.len() > 0 {
            match rest.last().id {
                Some(i) => i,
                None => id_for(f@, slugify_spec(trim_s(rest.last().text)), count_of(counts1, slugify_spec(trim_s(rest.last().text))) + 1),
            }
        } else {
            hp
        }));
        let node = Node {
            id: tid.clone(),
            kind: NodeKind::Task,
            source: String::from_str("markdown"),
            label,
            metadata: Some(Metadata { level: None, status: Some(task.status), stable_id }),
        };
        assert(node@ == task_node(tid@, raw@, task@.status));
        self.attach(parent, node);
        push_links(&mut self.links, &tid, &task.deferred_links);
        push_links(&mut self.links, &tid, &self.item_links);
        self.item_links = Vec::new();
        assert(pair_views(self.item_links@) =~= Seq::empty());
        assert(self@ =~= on_task_end(f@, s));
    }

    fn plain_item_end(&mut self, f: &str)
        requires
            old(self).calls() < u128::MAX,
        ensures
            final(self)@ == on_plain_item_end(f@, old(self)@),
            final(self).calls() <= old(self).calls() + 1,
    {
        let ghost s = self@;
        let was_in = self.in_item;
        self.in_item = false;
        if was_in && !self.is_task_item {
            let pc = chars_of(self.plain.as_str());
            if pc.len() > 0 {
                match extract_custom_marker(&pc) {
                    Some((m, rest)) => {
                        let status = if m == '-' {
                            String::from_str("in-progress")
                        } else {
                            String::from_str("dropped")
                        };
                        let raw = string_of(&rest);
                        let (stable_id, label) = label_parts(&raw);
                        let slug = slugify(label.as_str());
                        let id = make_id(f, slug.as_str(), &mut self.counts);
                        let parent = self.heading_parent_id(f);
                        let node = Node {
                            id: id.clone(),
                            kind: NodeKind::Task,
                            source: String::from_str("markdown"),
                            label,
                            metadata: Some(Metadata { level: None, status: Some(status), stable_id }),
                        };
                        self.attach(parent, node);
                        push_links(&mut self.links, &id, &self.item_links);
                        self.item_links = Vec::new();
                        assert(pair_views(self.item_links@) =~= Seq::empty());
                    },
                    None => {},
                }
            }
        }
        assert(self@ =~= on_plain_item_end(f@, s));
    }

    /// Applies one event.
    fn step(&mut self, f: &str, e: &MdEvent)
        requires
            old(self).calls() + 2 <= u128::MAX,
            old(self).depth < usize::MAX,
            e@ is ListEnd ==> old(self).depth > 0,
        ensures
            final(self)@ == parse_step(f@, old(self)@, e@),
            final(self).calls() <= old(self).calls() + 2,
    {
        let ghost s = self@;
        match e {
            MdEvent::HeadingStart(l) => {
                self.in_heading = true;
                self.level = *l;
                self.heading_text = String::new();
                assert(self@ =~= parse_step(f@, s, e@));
            },
            MdEvent::HeadingEnd => self.heading_end(f),
            MdEvent::ListStart => {
                self.depth = self.depth + 1;
                assert(self@ =~= parse_step(f@, s, e@));
            },
            MdEvent::ListEnd => {
                self.depth = self.depth - 1;
                assert(self@ =~= parse_step(f@, s, e@));
            },
            MdEvent::ItemStart => {
                self.in_item = true;
                self.is_task_item = false;
                self.plain = String::new();
                self.plain_done = false;
                self.item_links = Vec::new();
                assert(pair_views(self.item_links@) =~= Seq::empty());
                assert(self@ =~= parse_step(f@, s, e@));
            },
            MdEvent::TaskMarker(checked) => {
                self.is_task_item = true;
                let status = if *checked {
                    String::from_str("done")
                } else {
                    String::from_str("todo")
                };
                let t = PendingTask {
                    status,
                    text: String::new(),
                    list_depth: self.depth,
                    id: None,
                    deferred_links: Vec::new(),
                };
                assert(pair_views(t.deferred_links@) =~= Seq::empty());
                let ghost tv = task_views(self.tasks@);
                self.tasks.push(t);
                assert(task_views(self.tasks@) =~= tv.push(t@));
                assert(self@ =~= parse_step(f@, s, e@));
            },
            MdEvent::ItemEnd => {
                if self.top_at_depth() {
                    self.task_end(f);
                } else {
                    self.plain_item_end(f);
                }
            },
            MdEvent::ParagraphStart => self.paragraph(),
            MdEvent::Text(t) => self.text(t),
            MdEvent::Code(c) => self.code(f, c),
            MdEvent::CodeBlockStart => {
                self.in_code = true;
                assert(self@ =~= parse_step(f@, s, e@));
            },
            MdEvent::CodeBlockEnd => {
                self.in_code = false;
                assert(self@ =~= parse_step(f@, s, e@));
            },
            MdEvent::LinkStart(url) => self.link(f, url),
            MdEvent::Other => {},
        }
    }

    fn append_top_text(&mut self, t: &str)
        requires
            old(self)@.tasks.len() > 0,
        ensures
            final(self)@ == append_top_text(old(self)@, t@),
            final(self).calls() == old(self).calls(),
    {
        let ghost s = self@;
        let mut top = self.tasks.pop().unwrap();
        top.text.append(t);
        self.tasks.push(top);
        assert(task_views(self.tasks@) =~= s.tasks.update(
            s.tasks.len() - 1,
            TaskV { text: s.tasks.last().text + t@, ..s.tasks.last() },
        ));
        assert(self@ =~= append_top_text(s, t@));
    }

    fn add_link(&mut self, f: &str, url: String)
        ensures
            final(self)@ == add_link(f@, old(self)@, url@),
            final(self).calls() == old(self).calls(),
    {
        let ghost s = self@;
        if self.in_item {
            if self.top_at_depth() {
                let mut top = self.tasks.pop().unwrap();
                let ghost d = top.deferred_links@;
                top.deferred_links.push((url, f.to_owned()));
                assert(pair_views(top.deferred_links@) =~= pair_views(d).push((url@, f@)));
                self.tasks.push(top);
                assert(task_views(self.tasks@) =~= s.tasks.update(
                    s.tasks.len() - 1,
                    TaskV { deferred: s.tasks.last().deferred.push((url@, f@)), ..s.tasks.last() },
                ));
            } else {
                let ghost d = self.item_links@;
                self.item_links.push((url, f.to_owned()));
                assert(pair_views(self.item_links@) =~= pair_views(d).push((url@, f@)));
            }
        } else {
            let source_node = self.heading_parent_id(f);
            let l = RawLink { source_node, target_url: url, source_file: f.to_owned() };
            let ghost before = self.links@;
            self.links.push(l);
            assert(link_views(self.links@) =~= link_views(before).push(l@));
        }
        assert(self@ =~= add_link(f@, s, url@));
    }

    fn text(&mut self, t: &String)
        ensures
            final(self)@ == on_text(old(self)@, t@),
            final(self).calls() == old(self).calls(),
    {
        if self.in_heading {
            self.heading_text.append(t.as_str());
        } else if self.in_code {
        } else if self.in_item && !self.is_task_item {
            if !self.plain_done {
                self.plain.append(t.as_str());
            }
        } else if self.top_at_depth() {
            self.append_top_text(t.as_str());
        }
    }

    fn paragraph(&mut self)
        ensures
            final(self)@ == on_paragraph(old(self)@),
            final(self).calls() == old(self).calls(),
    {
        let ghost s = self@;
        if self.in_item && !self.is_task_item && !self.plain.as_str().is_empty() {
            self.plain_done = true;
            assert(self@ =~= on_paragraph(s));
        }
    }

    fn code(&mut self, f: &str, c: &String)
        ensures
            final(self)@ == on_code(f@, old(self)@, c@),
            final(self).calls() == old(self).calls(),
    {
        if self.in_heading {
            self.heading_text.append(c.as_str());
        } else if self.in_code {
        } else {
            if self.top_at_depth() {
                self.append_top_text(c.as_str());
            }
            let cs = chars_of(c.as_str());
            if looks_like_path(&cs) {
                self.add_link(f, c.clone());
            }
        }
    }

    fn link(&mut self, f: &str, url: &String)
        ensures
            final(self)@ == on_link(f@, old(self)@, url@),
            final(self).calls() == old(self).calls(),
    {
        if !self.in_code {
            self.add_link(f, url.clone());
        }
    }
}


/// Builds the nodes, edges and links of one markdown file from its events: each heading
/// becomes a section node and each task list item (or item marked `[-]` or `[~]`) a task
/// node, joined by contains edges to their parent and sequence edges to their previous
/// sibling; links and path-like code spans are collected for later resolution.
pub fn parse_events(file_id: &str, events: &Vec<MdEvent>, graph: &mut Graph, links: &mut Vec<RawLink>)
    requires
        forall|j: int| 0 <= j <= events@.len() ==> list_balance(#[trigger] event_views(events@).take(j)) >= 0,
    ensures
        final(graph)@.nodes == old(graph)@.nodes + parse_run(file_id@, event_views(events@)).nodes,
        final(graph)@.edges == old(graph)@.edges + parse_run(file_id@, event_views(events@)).edges,
        link_views(final(links)@) == link_views(old(links)@) + parse_run(file_id@, event_views(events@)).links,
{
    let ghost evs = event_views(events@);
    let mut p = MdParser::new();
    let mut k: usize = 0;
    assert(evs.take(0) =~= Seq::<MdEventView>::empty());
    while k < events.len()
        invariant
            k <= events@.len(),
            event_views(events@) == evs,
            forall|j: int| 0 <= j <= events@.len() ==> list_balance(#[trigger] evs.take(j)) >= 0,
            p@ == parse_run(file_id@, evs.take(k as int)),
            p.depth == list_balance(evs.take(k as int)),
            p.depth <= k,
            p.calls() <= 2 * k,
        decreases events@.len() - k,
    {
        let ghost before = evs.take(k as int);
        assert(evs.take(k + 1).drop_last() =~= before);
        assert(evs.take(k + 1).last() == events@[k as int]@);
        assert(list_balance(evs.take(k + 1)) >= 0);
        p.step(file_id, &events[k]);
        k += 1;
    }
    assert(evs.take(events@.len() as int) =~= evs);
    let ghost gn = graph@.nodes;
    let ghost ge = graph@.edges;
    let ghost lv = link_views(links@);
    let ghost pv = p@;
    graph.nodes.append(&mut p.nodes);
    graph.edges.append(&mut p.edges);
    links.append(&mut p.links);
    assert(node_views(graph.nodes@) =~= gn + pv.nodes);
    assert(edge_views(graph.edges@) =~= ge + pv.edges);
    assert(link_views(links@) =~= lv + pv.links);
}

/// Scans one markdown file: the events `pulldown_cmark` yields for it, through
/// `parse_events`.
pub fn parse_markdown(file_id: &str, content: &str, graph: &mut Graph, links: &mut Vec<RawLink>)
    ensures
        final(graph)@.nodes == old(graph)@.nodes + parse_spec(file_id@, content@).nodes,
        final(graph)@.edges == old(graph)@.edges + parse_spec(file_id@, content@).edges,
        link_views(final(links)@) == link_views(old(links)@) + parse_spec(file_id@, content@).links,
{
    let events = md_events(content);
    parse_events(file_id, &events, graph, links);
}

} // verus!
