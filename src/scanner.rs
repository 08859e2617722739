//! Finding directive markers `<!-- cmdrun COMMAND -->` in text, and splicing
//! replacement text in their place.
//!
//! A marker opens with `<!--`, then any number of spaces, then `cmdrun ` and
//! the command text, which runs on the same line up to the first `-->` after
//! which the marker may end. A line-consuming marker must be followed directly
//! by a line terminator (`"\n"` or `"\r\n"`), which it takes in; an inline one
//! ends at `-->`. Markers are taken leftmost first, and the search goes on
//! after the end of each.

use vstd::prelude::*;

use crate::command::wv;
use crate::text::{push_all, push_range};

verus! {

/// A located marker: `start..end` is what gets replaced, and
/// `cmd_start..cmd_end` is the command text inside it.
#[derive(Clone, Copy, Debug, PartialEq, Eq, Structural)]
pub struct Directive {
    pub start: usize,
    pub cmd_start: usize,
    pub cmd_end: usize,
    pub end: usize,
}

impl Directive {
    pub open spec fn view(&self) -> (int, int, int, int) {
        (self.start as int, self.cmd_start as int, self.cmd_end as int, self.end as int)
    }
}

pub open spec fn opens_at(t: Seq<char>, p: int) -> bool {
    0 <= p && p + 4 <= t.len() && t[p] == '<' && t[p + 1] == '!' && t[p + 2] == '-' && t[p
        + 3] == '-'
}

pub open spec fn keyword_at(t: Seq<char>, q: int) -> bool {
    0 <= q && q + 7 <= t.len() && t[q] == 'c' && t[q + 1] == 'm' && t[q + 2] == 'd' && t[q + 3]
        == 'r' && t[q + 4] == 'u' && t[q + 5] == 'n' && t[q + 6] == ' '
}

/// The first position at or after `i` that does not hold a space.
pub open spec fn skip_spaces(t: Seq<char>, i: int) -> int
    decreases t.len() - i,
{
    if 0 <= i < t.len() && t[i] == ' ' {
        skip_spaces(t, i + 1)
    } else {
        i
    }
}

/// The length of the line terminator at `i`, or 0 where there is none.
pub open spec fn terminator_len(t: Seq<char>, i: int) -> int {
    if 0 <= i < t.len() && t[i] == '\n' {
        1
    } else if 0 <= i && i + 1 < t.len() && t[i] == '\r' && t[i + 1] == '\n' {
        2
    } else {
        0
    }
}

/// A marker may close at `e`: `-->` stands there, followed by a line
/// terminator in line-consuming mode.
pub open spec fn closes_at(t: Seq<char>, e: int, inline: bool) -> bool {
    0 <= e && e + 3 <= t.len() && t[e] == '-' && t[e + 1] == '-' && t[e + 2] == '>' && (inline
        || terminator_len(t, e + 3) > 0)
}

/// The first place at or after `i` where the marker closes, unless a newline
/// comes first.
pub open spec fn find_close(t: Seq<char>, i: int, inline: bool) -> Option<int>
    decreases t.len() - i,
{
    if i < 0 || i + 3 > t.len() {
        None
    } else if closes_at(t, i, inline) {
        Some(i)
    } else if t[i] == '\n' {
        None
    } else {
        find_close(t, i + 1, inline)
    }
}

/// The marker that starts at `p`, if one does.
pub open spec fn marker_at(t: Seq<char>, p: int, inline: bool) -> Option<(int, int, int, int)> {
    if opens_at(t, p) && keyword_at(t, skip_spaces(t, p + 4)) {
        let c = skip_spaces(t, p + 4) + 7;
        match find_close(t, c, inline) {
            Some(e) => Some(
                (p, c, e, if inline {
                    e + 3
                } else {
                    e + 3 + terminator_len(t, e + 3)
                }),
            ),
            None => None,
        }
    } else {
        None
    }
}

/// All markers at or after `from`, leftmost first and not overlapping.
pub open spec fn markers_from(t: Seq<char>, from: int, inline: bool) -> Seq<(int, int, int, int)>
    decreases t.len() - from,
{
    if from < 0 || from >= t.len() {
        Seq::empty()
    } else {
        match marker_at(t, from, inline) {
            Some(m) => if from < m.3 <= t.len() {
                seq![m] + markers_from(t, m.3, inline)
            } else {
                Seq::empty()
            },
            None => markers_from(t, from + 1, inline),
        }
    }
}

pub open spec fn views(ds: Seq<Directive>) -> Seq<(int, int, int, int)> {
    ds.map_values(|d: Directive| d@)
}

/// The markers lie in order, each at or after the end of the one before, the
/// first at or after `from`, and all within `n` characters; the command text
/// of each lies inside it.
pub open spec fn placed(ds: Seq<(int, int, int, int)>, from: int, n: int) -> bool
    decreases ds.len(),
{
    if ds.len() == 0 {
        0 <= from <= n
    } else {
        0 <= from <= ds[0].0 <= ds[0].1 <= ds[0].2 <= ds[0].3 && placed(ds.drop_first(), ds[0].3, n)
    }
}

/// `t` from `from` on, each marker of `ds` replaced by the matching text of
/// `reps`.
pub open spec fn spliced(
    t: Seq<char>,
    ds: Seq<(int, int, int, int)>,
    reps: Seq<Seq<char>>,
    from: int,
) -> Seq<char>
    decreases ds.len(),
{
    if ds.len() == 0 || reps.len() == 0 {
        t.subrange(from, t.len() as int)
    } else {
        t.subrange(from, ds[0].0) + reps[0] + spliced(t, ds.drop_first(), reps.drop_first(), ds[0].3)
    }
}

/// All markers of `t` in the given mode.
pub open spec fn markers(t: Seq<char>, inline: bool) -> Seq<(int, int, int, int)> {
    markers_from(t, 0, inline)
}

proof fn lemma_skip_spaces_bounds(t: Seq<char>, i: int)
    requires
        0 <= i <= t.len(),
    ensures
        i <= skip_spaces(t, i) <= t.len(),
    decreases t.len() - i,
{
    if 0 <= i < t.len() && t[i] == ' ' {
        lemma_skip_spaces_bounds(t, i + 1);
    }
}

pub proof fn lemma_find_close_bounds(t: Seq<char>, i: int, inline: bool)
    ensures
        find_close(t, i, inline) matches Some(e) ==> i <= e && closes_at(t, e, inline),
    decreases t.len() - i,
{
    if !(i < 0 || i + 3 > t.len()) && !closes_at(t, i, inline) && t[i] != '\n' {
        lemma_find_close_bounds(t, i + 1, inline);
    }
}

/// A marker found at `p` lies within the text, its command text inside it.
pub proof fn lemma_marker_bounds(t: Seq<char>, p: int, inline: bool)
    requires
        0 <= p,
    ensures
        marker_at(t, p, inline) matches Some(m) ==> m.0 == p && p < m.1 <= m.2 < m.3 <= t.len(),
{
    if opens_at(t, p) && keyword_at(t, skip_spaces(t, p + 4)) {
        lemma_skip_spaces_bounds(t, p + 4);
        let c = skip_spaces(t, p + 4) + 7;
        lemma_find_close_bounds(t, c, inline);
    }
}

fn skip_spaces_exec(t: &Vec<char>, i: usize) -> (r: usize)
    requires
        i <= t@.len(),
    ensures
        r as int == skip_spaces(t@, i as int),
        i <= r <= t@.len(),
{
    let mut j: usize = i;
    while j < t.len() && t[j] == ' '
        invariant
            i <= j <= t@.len(),
            skip_spaces(t@, j as int) == skip_spaces(t@, i as int),
        decreases t@.len() - j,
    {
        j = j + 1;
    }
    j
}

fn closes_at_exec(t: &Vec<char>, e: usize, inline: bool) -> (r: bool)
    ensures
        r == closes_at(t@, e as int, inline),
{
    if e >= t.len() || t.len() - e < 3 {
        return false;
    }
    if !(t[e] == '-' && t[e + 1] == '-' && t[e + 2] == '>') {
        return false;
    }
    inline || terminator_len_exec(t, e + 3) > 0
}

fn terminator_len_exec(t: &Vec<char>, i: usize) -> (r: usize)
    ensures
        r as int == terminator_len(t@, i as int),
{
    if i < t.len() && t[i] == '\n' {
        1
    } else if i < t.len() && t.len() - i >= 2 && t[i] == '\r' && t[i + 1] == '\n' {
        2
    } else {
        0
    }
}

fn find_close_exec(t: &Vec<char>, i: usize, inline: bool) -> (r: Option<usize>)
    ensures
        r matches Some(e) ==> find_close(t@, i as int, inline) == Some(e as int),
        r is None ==> find_close(t@, i as int, inline) is None,
{
    let mut j: usize = i;
    while j < t.len() && t.len() - j >= 3
        invariant
            i <= j,
            find_close(t@, j as int, inline) == find_close(t@, i as int, inline),
        decreases t@.len() - j,
    {
        if closes_at_exec(t, j, inline) {
            return Some(j);
        }
        if t[j] == '\n' {
            return None;
        }
        j = j + 1;
    }
    None
}

fn marker_at_exec(t: &Vec<char>, p: usize, inline: bool) -> (r: Option<Directive>)
    requires
        p < t@.len(),
    ensures
        r matches Some(d) ==> marker_at(t@, p as int, inline) == Some(d@),
        r is None ==> marker_at(t@, p as int, inline) is None,
{
    if !(t.len() - p >= 4 && t[p] == '<' && t[p + 1] == '!' && t[p + 2] == '-' && t[p + 3] == '-') {
        return None;
    }
    let q = skip_spaces_exec(t, p + 4);
    if !(t.len() - q >= 7 && t[q] == 'c' && t[q + 1] == 'm' && t[q + 2] == 'd' && t[q + 3] == 'r'
        && t[q + 4] == 'u' && t[q + 5] == 'n' && t[q + 6] == ' ') {
        return None;
    }
    let c = q + 7;
    match find_close_exec(t, c, inline) {
        Some(e) => {
            proof {
                lemma_find_close_bounds(t@, c as int, inline);
            }
            let end = if inline {
                e + 3
            } else {
                e + 3 + terminator_len_exec(t, e + 3)
            };
            Some(Directive { start: p, cmd_start: c, cmd_end: e, end })
        },
        None => None,
    }
}

/// Finds every marker of `t` in the given mode, leftmost first.
pub fn find_markers(t: &Vec<char>, inline: bool) -> (r: Vec<Directive>)
    ensures
        views(r@) == markers(t@, inline),
{
    let mut r: Vec<Directive> = Vec::new();
    let mut p: usize = 0;
    let ghost found: Seq<(int, int, int, int)> = Seq::empty();
    while p < t.len()
        invariant
            p <= t@.len(),
            r@.len() == found.len(),
            forall|k: int| 0 <= k < r@.len() ==> #[trigger] r@[k]@ == found[k],
            found + markers_from(t@, p as int, inline) == markers(t@, inline),
        decreases t@.len() - p,
    {
        proof {
            lemma_marker_bounds(t@, p as int, inline);
        }
        match marker_at_exec(t, p, inline) {
            Some(d) => {
                r.push(d);
                proof {
                    assert(found + markers_from(t@, p as int, inline) =~= found.push(d@)
                        + markers_from(t@, d.end as int, inline));
                    found = found.push(d@);
                }
                p = d.end;
            },
            None => {
                p = p + 1;
            },
        }
    }
    proof {
        assert(found =~= markers(t@, inline));
        assert(views(r@) =~= found);
    }
    r
}

/// The markers found from `from` on lie in order within the text.
pub proof fn lemma_markers_placed(t: Seq<char>, from: int, inline: bool)
    requires
        0 <= from <= t.len(),
    ensures
        placed(markers_from(t, from, inline), from, t.len() as int),
    decreases t.len() - from,
{
    if from < t.len() {
        lemma_marker_bounds(t, from, inline);
        match marker_at(t, from, inline) {
            Some(m) => {
                lemma_markers_placed(t, m.3, inline);
                assert((seq![m] + markers_from(t, m.3, inline)).drop_first() =~= markers_from(
                    t,
                    m.3,
                    inline,
                ));
            },
            None => {
                lemma_markers_placed(t, from + 1, inline);
                lemma_placed_weaken(markers_from(t, from + 1, inline), from, from + 1, t.len() as int);
            },
        }
    }
}

proof fn lemma_placed_weaken(ds: Seq<(int, int, int, int)>, a: int, b: int, n: int)
    requires
        0 <= a <= b,
        placed(ds, b, n),
    ensures
        placed(ds, a, n),
{
}

/// Replaces each marker `ds[k]` of `t` by `reps[k]`.
pub fn splice(t: &Vec<char>, ds: &Vec<Directive>, reps: &Vec<Vec<char>>) -> (r: Vec<char>)
    requires
        placed(views(ds@), 0, t@.len() as int),
        reps@.len() == ds@.len(),
    ensures
        r@ == spliced(t@, views(ds@), wv(reps@), 0),
{
    let mut out: Vec<char> = Vec::new();
    let mut i: usize = 0;
    let mut prev: usize = 0;
    let ghost n = ds@.len() as int;
    assert(views(ds@).subrange(0, n) =~= views(ds@));
    assert(wv(reps@).subrange(0, n) =~= wv(reps@));
    while i < ds.len()
        invariant
            n == ds@.len() == reps@.len(),
            i <= n,
            prev <= t@.len(),
            placed(views(ds@).subrange(i as int, n), prev as int, t@.len() as int),
            out@ + spliced(t@, views(ds@).subrange(i as int, n), wv(reps@).subrange(i as int, n), prev as int)
                == spliced(t@, views(ds@), wv(reps@), 0),
        decreases n - i,
    {
        let ghost dv = views(ds@).subrange(i as int, n);
        let ghost rv = wv(reps@).subrange(i as int, n);
        let d = ds[i];
        assert(dv[0] == d@);
        assert(dv.drop_first() =~= views(ds@).subrange(i + 1, n));
        assert(rv.drop_first() =~= wv(reps@).subrange(i + 1, n));
        assert(rv[0] == reps@[i as int]@);
        assert(d.end as int <= t@.len()) by {
            lemma_placed_end(dv.drop_first(), d.end as int, t@.len() as int);
        }
        let ghost before = out@;
        let ghost old_prev = prev as int;
        push_range(&mut out, t, prev, d.start);
        push_all(&mut out, &reps[i]);
        assert(out@ == before + t@.subrange(prev as int, d.start as int) + rv[0]);
        prev = d.end;
        i = i + 1;
        assert(out@ + spliced(t@, views(ds@).subrange(i as int, n), wv(reps@).subrange(i as int, n), prev as int)
            =~= before + spliced(t@, dv, rv, old_prev));
    }
    let ghost dv = views(ds@).subrange(i as int, n);
    assert(dv.len() == 0);
    push_range(&mut out, t, prev, t.len());
    out
}

/// The end bound of a placed sequence is no smaller than where it starts.
pub proof fn lemma_placed_end(ds: Seq<(int, int, int, int)>, from: int, n: int)
    requires
        placed(ds, from, n),
    ensures
        from <= n,
    decreases ds.len(),
{
    if ds.len() > 0 {
        lemma_placed_end(ds.drop_first(), ds[0].3, n);
    }
}

} // verus!
