use vstd::prelude::*;

use crate::text::{
    chars_to_string, dec_str, lemma_trim_end_len, push_char, split_lines, str_to_chars, str_views,
    lines_from, trimmed_end, trim_end_pos, copy_region,
};
use vstd::string::StringExecFns;

verus! {

/// One before/after pair to compare, under a display name.
#[derive(Debug, Clone)]
pub struct FileDiff {
    filename: String,
    left: String,
    right: String,
}

impl FileDiff {
    /// The display name the banner carries.
    pub closed spec fn name_text(&self) -> Seq<char> {
        self.filename@
    }

    /// The text before the change.
    pub closed spec fn left_text(&self) -> Seq<char> {
        self.left@
    }

    /// The text after the change.
    pub closed spec fn right_text(&self) -> Seq<char> {
        self.right@
    }

    pub fn new(filename: String, left: String, right: String) -> (r: Self)
        ensures
            r.name_text() == filename@,
            r.left_text() == left@,
            r.right_text() == right@,
    {
        Self { filename, left, right }
    }
}

/// One aligned row of a comparison: a line only the left text holds, one
/// only the right text holds, or one common to both.
#[derive(Debug, Clone)]
pub enum DiffLine {
    Left(String),
    Right(String),
    Both(String),
}

pub ghost enum DiffLineGhost {
    Left(Seq<char>),
    Right(Seq<char>),
    Both(Seq<char>),
}

impl View for DiffLine {
    type V = DiffLineGhost;

    open spec fn view(&self) -> DiffLineGhost {
        match self {
            DiffLine::Left(t) => DiffLineGhost::Left(t@),
            DiffLine::Right(t) => DiffLineGhost::Right(t@),
            DiffLine::Both(t) => DiffLineGhost::Both(t@),
        }
    }
}

pub open spec fn dviews(d: Seq<DiffLine>) -> Seq<DiffLineGhost> {
    d.map_values(|x: DiffLine| x@)
}

/// The lines of the left text that an alignment spells, in order.
pub open spec fn left_lines(d: Seq<DiffLineGhost>) -> Seq<Seq<char>>
    decreases d.len(),
{
    if d.len() == 0 {
        Seq::empty()
    } else {
        (match d[0] {
            DiffLineGhost::Left(t) => seq![t],
            DiffLineGhost::Both(t) => seq![t],
            DiffLineGhost::Right(_) => Seq::empty(),
        }) + left_lines(d.skip(1))
    }
}

/// The lines of the right text that an alignment spells, in order.
pub open spec fn right_lines(d: Seq<DiffLineGhost>) -> Seq<Seq<char>>
    decreases d.len(),
{
    if d.len() == 0 {
        Seq::empty()
    } else {
        (match d[0] {
            DiffLineGhost::Right(t) => seq![t],
            DiffLineGhost::Both(t) => seq![t],
            DiffLineGhost::Left(_) => Seq::empty(),
        }) + right_lines(d.skip(1))
    }
}

/// `d` is an alignment of the two line sequences: deleting its right-only
/// rows leaves the left text, and deleting its left-only rows leaves the
/// right text.
pub open spec fn align_ok(d: Seq<DiffLineGhost>, la: Seq<Seq<char>>, lb: Seq<Seq<char>>) -> bool {
    left_lines(d) == la && right_lines(d) == lb
}

/// Aligns two line sequences.
/// Relies on diff::slice: a longest-common-subsequence alignment whose
/// left-only and common rows spell the left input, whose right-only and
/// common rows spell the right input, and which aligns equal inputs wholly
/// as common rows.
#[verifier::external_body]
fn lcs_diff(a: &Vec<String>, b: &Vec<String>) -> (r: Vec<DiffLine>)
    ensures
        left_lines(dviews(r@)) == a.deep_view(),
        right_lines(dviews(r@)) == b.deep_view(),
        a.deep_view() == b.deep_view() ==> (forall|i: int|
            0 <= i < r@.len() ==> dviews(r@)[i] is Both),
{
    ::diff::slice(a, b)
        .into_iter()
        .map(
            |d|
                match d {
                    ::diff::Result::Left(x) => DiffLine::Left(x.clone()),
                    ::diff::Result::Both(x, _) => DiffLine::Both(x.clone()),
                    ::diff::Result::Right(x) => DiffLine::Right(x.clone()),
                },
        )
        .collect()
}

// ---------------------------------------------------------------------------
// Hunks
// ---------------------------------------------------------------------------

/// The indices of the rows that changed, from `k` on, in order.
pub open spec fn changed_ids(d: Seq<DiffLineGhost>, k: int) -> Seq<int>
    decreases d.len() - k when 0 <= k <= d.len()
{
    if 0 <= k < d.len() {
        if d[k] is Both {
            changed_ids(d, k + 1)
        } else {
            seq![k] + changed_ids(d, k + 1)
        }
    } else {
        Seq::empty()
    }
}

/// The changed indices from `p` on, grouped: two neighbours more than 7
/// apart open a new group; each group is its first and last index.
pub open spec fn groups_from(ids: Seq<int>, p: int) -> Seq<(int, int)>
    decreases ids.len() - p when 0 <= p <= ids.len()
{
    if 0 <= p < ids.len() {
        if p == ids.len() - 1 {
            seq![(ids[p], ids[p])]
        } else {
            let rest = groups_from(ids, p + 1);
            if ids[p + 1] - ids[p] > 7 {
                seq![(ids[p], ids[p])] + rest
            } else {
                seq![(ids[p], rest[0].1)] + rest.skip(1)
            }
        }
    } else {
        Seq::empty()
    }
}

/// A group's display window: three rows of context on each side, clamped to
/// the alignment.
pub open spec fn window_of(g: (int, int), n: int) -> (int, int) {
    ((if g.0 >= 3 { g.0 - 3 } else { 0 }), (if g.1 + 3 <= n - 1 { g.1 + 3 } else { n - 1 }))
}

pub open spec fn windows_of(gs: Seq<(int, int)>, n: int) -> Seq<(int, int)> {
    gs.map_values(|g: (int, int)| window_of(g, n))
}

/// The number of right-only rows before `k`.
pub open spec fn cnt_right(d: Seq<DiffLineGhost>, k: int) -> int
    decreases k,
{
    if k <= 0 {
        0
    } else {
        cnt_right(d, k - 1) + (if d[k - 1] is Right { 1int } else { 0int })
    }
}

/// The number of left-only rows before `k`.
pub open spec fn cnt_left(d: Seq<DiffLineGhost>, k: int) -> int
    decreases k,
{
    if k <= 0 {
        0
    } else {
        cnt_left(d, k - 1) + (if d[k - 1] is Left { 1int } else { 0int })
    }
}

pub proof fn lemma_cnt_bounds(d: Seq<DiffLineGhost>, k: int)
    requires
        k >= 0,
    ensures
        0 <= cnt_right(d, k) <= k,
        0 <= cnt_left(d, k) <= k,
        cnt_left(d, k) + cnt_right(d, k) <= k,
    decreases k,
{
    if k > 0 {
        lemma_cnt_bounds(d, k - 1);
    }
}

pub proof fn lemma_cnt_mono(d: Seq<DiffLineGhost>, k1: int, k2: int)
    requires
        0 <= k1 <= k2,
    ensures
        cnt_right(d, k1) <= cnt_right(d, k2),
        cnt_right(d, k2) - cnt_right(d, k1) <= k2 - k1,
        cnt_left(d, k1) <= cnt_left(d, k2),
        cnt_left(d, k2) - cnt_left(d, k1) <= k2 - k1,
    decreases k2 - k1,
{
    if k1 < k2 {
        lemma_cnt_mono(d, k1, k2 - 1);
    }
}

/// One hunk: the window's position and extent in the before and after
/// text, as conventional patch tools state them, and its rows.
pub ghost struct DiffEntryGhost {
    pub from1: int,
    pub count1: int,
    pub from2: int,
    pub count2: int,
    pub lines: Seq<DiffLineGhost>,
}

/// The hunk that a display window yields: its start line in each text is
/// the window start less the rows the other side alone holds, one-based,
/// and its extent counts the window's rows that belong to that text.
pub open spec fn hunk_of(d: Seq<DiffLineGhost>, w: (int, int)) -> DiffEntryGhost {
    DiffEntryGhost {
        from1: w.0 - cnt_right(d, w.0) + 1,
        count1: (w.1 + 1 - w.0) - (cnt_right(d, w.1 + 1) - cnt_right(d, w.0)),
        from2: w.0 - cnt_left(d, w.0) + 1,
        count2: (w.1 + 1 - w.0) - (cnt_left(d, w.1 + 1) - cnt_left(d, w.0)),
        lines: d.subrange(w.0, w.1 + 1),
    }
}

pub open spec fn hunks_of(d: Seq<DiffLineGhost>, ws: Seq<(int, int)>) -> Seq<DiffEntryGhost> {
    ws.map_values(|w: (int, int)| hunk_of(d, w))
}

/// One row rendered: removed lines with `-`, added lines with `+`, common
/// lines with a space.
pub open spec fn row_line(x: DiffLineGhost) -> Seq<char> {
    match x {
        DiffLineGhost::Left(t) => seq!['-'] + t,
        DiffLineGhost::Right(t) => seq!['+'] + t,
        DiffLineGhost::Both(t) => seq![' '] + t,
    }
}

pub open spec fn entry_header(e: DiffEntryGhost) -> Seq<char> {
    "@@ -"@ + dec_str(e.from1 as nat) + seq![','] + dec_str(e.count1 as nat) + " +"@ + dec_str(
        e.from2 as nat,
    ) + seq![','] + dec_str(e.count2 as nat) + " @@"@
}

pub open spec fn entry_lines(e: DiffEntryGhost) -> Seq<Seq<char>> {
    seq![entry_header(e)] + e.lines.map_values(|x: DiffLineGhost| row_line(x))
}

pub open spec fn render_entries(es: Seq<DiffEntryGhost>) -> Seq<Seq<char>>
    decreases es.len(),
{
    if es.len() == 0 {
        Seq::empty()
    } else {
        entry_lines(es[0]) + render_entries(es.skip(1))
    }
}

/// The whole rendering of one comparison: nothing when no row changed, else
/// the two banner lines and the hunks over the grouped change windows.
pub open spec fn diff_render(d: Seq<DiffLineGhost>, name: Seq<char>) -> Seq<Seq<char>> {
    let ids = changed_ids(d, 0);
    if ids.len() == 0 {
        Seq::empty()
    } else {
        seq!["--- "@ + name + " before"@, "+++ "@ + name + " after"@] + render_entries(
            hunks_of(d, windows_of(groups_from(ids, 0), d.len() as int)),
        )
    }
}

pub proof fn lemma_render_entries_push(es: Seq<DiffEntryGhost>, one: DiffEntryGhost)
    ensures
        render_entries(es.push(one)) == render_entries(es) + entry_lines(one),
    decreases es.len(),
{
    if es.len() == 0 {
        assert(es =~= Seq::<DiffEntryGhost>::empty());
        assert(render_entries(es) == Seq::<Seq<char>>::empty());
        assert(es.push(one)[0] == one);
        assert(es.push(one).skip(1) =~= Seq::<DiffEntryGhost>::empty());
        assert(render_entries(Seq::<DiffEntryGhost>::empty()) == Seq::<Seq<char>>::empty());
        assert(render_entries(es.push(one).skip(1)) == Seq::<Seq<char>>::empty());
        assert(render_entries(es.push(one)) =~= entry_lines(one) + Seq::<Seq<char>>::empty());
        assert(entry_lines(one) + Seq::<Seq<char>>::empty() =~= entry_lines(one));
        assert(Seq::<Seq<char>>::empty() + entry_lines(one) =~= entry_lines(one));
    } else {
        assert(es.push(one).skip(1) =~= es.skip(1).push(one));
        lemma_render_entries_push(es.skip(1), one);
        assert(render_entries(es.push(one)) == entry_lines(es[0]) + (render_entries(es.skip(1))
            + entry_lines(one)));
        assert(entry_lines(es[0]) + (render_entries(es.skip(1)) + entry_lines(one)) =~= (
        entry_lines(es[0]) + render_entries(es.skip(1))) + entry_lines(one));
    }
}

// ---------------------------------------------------------------------------
// Facts about changed rows and groups
// ---------------------------------------------------------------------------

pub proof fn lemma_changed_ids(d: Seq<DiffLineGhost>, k: int)
    requires
        0 <= k <= d.len(),
    ensures
        forall|j: int|
            0 <= j < changed_ids(d, k).len() ==> k <= #[trigger] changed_ids(d, k)[j] < d.len(),
        forall|j: int|
            0 <= j < changed_ids(d, k).len() - 1 ==> #[trigger] changed_ids(d, k)[j] < changed_ids(
                d,
                k,
            )[j + 1],
        changed_ids(d, k).len() == 0 <==> (forall|j: int| k <= j < d.len() ==> d[j] is Both),
    decreases d.len() - k,
{
    if k < d.len() {
        lemma_changed_ids(d, k + 1);
        let tail = changed_ids(d, k + 1);
        if !(d[k] is Both) {
            assert(changed_ids(d, k) =~= seq![k] + tail);
        }
    }
}

/// An alignment of common rows alone spells the same lines on both sides.
pub proof fn lemma_all_common_equal(d: Seq<DiffLineGhost>)
    requires
        forall|j: int| 0 <= j < d.len() ==> d[j] is Both,
    ensures
        left_lines(d) == right_lines(d),
    decreases d.len(),
{
    if d.len() > 0 {
        assert(forall|j: int| 0 <= j < d.skip(1).len() ==> d.skip(1)[j] == d[j + 1]);
        lemma_all_common_equal(d.skip(1));
    }
}

pub proof fn lemma_groups(ids: Seq<int>, p: int, n: int)
    requires
        0 <= p <= ids.len(),
        forall|j: int| 0 <= j < ids.len() ==> 0 <= #[trigger] ids[j] < n,
        forall|j: int| 0 <= j < ids.len() - 1 ==> #[trigger] ids[j] < ids[j + 1],
    ensures
        forall|j: int|
            0 <= j < groups_from(ids, p).len() ==> 0 <= (#[trigger] groups_from(ids, p)[j]).0
                <= groups_from(ids, p)[j].1 < n,
        p < ids.len() ==> groups_from(ids, p).len() > 0 && groups_from(ids, p)[0].0 == ids[p],
    decreases ids.len() - p,
{
    if 0 <= p < ids.len() {
        if p < ids.len() - 1 {
            lemma_groups(ids, p + 1, n);
            let rest = groups_from(ids, p + 1);
            if ids[p + 1] - ids[p] > 7 {
                assert(forall|j: int|
                    0 <= j < groups_from(ids, p).len() - 1 ==> groups_from(ids, p)[j + 1] == rest[
                    j]);
            } else {
                assert(groups_from(ids, p)[0] == (ids[p], rest[0].1));
                assert(forall|j: int|
                    1 <= j < groups_from(ids, p).len() ==> groups_from(ids, p)[j] == rest.skip(1)[j
                    - 1]);
            }
        }
    }
}

// ---------------------------------------------------------------------------
// Computing hunks
// ---------------------------------------------------------------------------

pub open spec fn uviews(s: Seq<usize>) -> Seq<int> {
    s.map_values(|u: usize| u as int)
}

pub open spec fn pviews(s: Seq<(usize, usize)>) -> Seq<(int, int)> {
    s.map_values(|p: (usize, usize)| (p.0 as int, p.1 as int))
}

/// The indices of the rows that are not common to both sides.
pub(crate) fn get_changed_lines(lines: &Vec<DiffLine>) -> (r: Vec<usize>)
    ensures
        uviews(r@) == changed_ids(dviews(lines@), 0),
{
    let ghost d = dviews(lines@);
    let mut out: Vec<usize> = Vec::new();
    let mut i: usize = 0;
    assert(uviews(out@) =~= Seq::<int>::empty());
    #[verifier::loop_isolation(false)]
    while i < lines.len()
        invariant
            i <= lines@.len(),
            changed_ids(d, 0) =~= uviews(out@) + changed_ids(d, i as int),
        decreases lines@.len() - i,
    {
        let ghost out0 = out@;
        let common = match &lines[i] {
            DiffLine::Both(_) => true,
            _ => false,
        };
        assert(d[i as int] == lines@[i as int]@);
        if !common {
            out.push(i);
            assert(uviews(out@) =~= uviews(out0) + seq![i as int]);
            assert(changed_ids(d, i as int) == seq![i as int] + changed_ids(d, i + 1));
            assert(uviews(out0) + (seq![i as int] + changed_ids(d, i + 1)) =~= (uviews(out0)
                + seq![i as int]) + changed_ids(d, i + 1));
        }
        i = i + 1;
    }
    assert(changed_ids(d, lines@.len() as int) =~= Seq::<int>::empty());
    assert(uviews(out@) =~= uviews(out@) + changed_ids(d, lines@.len() as int));
    out
}

fn x_groups(ids: &Vec<usize>, p: usize) -> (r: Vec<(usize, usize)>)
    requires
        p <= ids@.len(),
        forall|j: int| 0 <= j < ids@.len() - 1 ==> #[trigger] ids@[j] < ids@[j + 1],
    ensures
        pviews(r@) == groups_from(uviews(ids@), p as int),
    decreases ids@.len() - p,
{
    let ghost gids = uviews(ids@);
    assert(forall|j: int| 0 <= j < gids.len() - 1 ==> #[trigger] gids[j] < gids[j + 1]);
    if p >= ids.len() {
        let out: Vec<(usize, usize)> = Vec::new();
        assert(pviews(out@) =~= Seq::<(int, int)>::empty());
        return out;
    }
    if p == ids.len() - 1 {
        let mut out: Vec<(usize, usize)> = Vec::new();
        out.push((ids[p], ids[p]));
        assert(pviews(out@) =~= seq![(gids[p as int], gids[p as int])]);
        return out;
    }
    let mut rest = x_groups(ids, p + 1);
    let ghost rest0 = pviews(rest@);
    proof {
        if rest@.len() == 0 {
            assert(groups_from(gids, p + 1).len() == 0);
            assert(p + 1 < gids.len());
            assert(false);
        }
    }
    if ids[p + 1] - ids[p] > 7 {
        rest.insert(0, (ids[p], ids[p]));
        assert(pviews(rest@) =~= seq![(gids[p as int], gids[p as int])] + rest0);
        rest
    } else {
        let head = rest.remove(0);
        rest.insert(0, (ids[p], head.1));
        proof {
            assert(pviews(rest@) =~= seq![(gids[p as int], rest0[0].1)] + rest0.skip(1));
        }
        rest
    }
}

/// The display windows of the changed rows, grouped and padded with three
/// rows of context, clamped to the alignment's extent.
pub(crate) fn group_changes(line_numbers: &Vec<usize>, len: usize) -> (r: Vec<(usize, usize)>)
    requires
        forall|j: int|
            0 <= j < line_numbers@.len() ==> 0 <= #[trigger] line_numbers@[j] < len,
        forall|j: int|
            0 <= j < line_numbers@.len() - 1 ==> #[trigger] line_numbers@[j] < line_numbers@[j
                + 1],
    ensures
        pviews(r@) == windows_of(groups_from(uviews(line_numbers@), 0), len as int),
        forall|j: int| 0 <= j < r@.len() ==> (#[trigger] r@[j]).0 <= r@[j].1 < len,
{
    let ghost gids = uviews(line_numbers@);
    proof {
        assert(forall|j: int| 0 <= j < gids.len() ==> 0 <= #[trigger] gids[j] < len);
        assert(forall|j: int| 0 <= j < gids.len() - 1 ==> #[trigger] gids[j] < gids[j + 1]);
        lemma_groups(gids, 0, len as int);
    }
    let groups = x_groups(line_numbers, 0);
    let mut out: Vec<(usize, usize)> = Vec::new();
    let mut i: usize = 0;
    let ghost gs = groups_from(gids, 0);
    assert(pviews(out@) =~= windows_of(gs, len as int).take(0));
    #[verifier::loop_isolation(false)]
    while i < groups.len()
        invariant
            i <= groups@.len(),
            pviews(out@) =~= windows_of(gs, len as int).take(i as int),
            forall|j: int| 0 <= j < out@.len() ==> (#[trigger] out@[j]).0 <= out@[j].1 < len,
        decreases groups@.len() - i,
    {
        let (a, b) = groups[i];
        assert(pviews(groups@)[i as int] == gs[i as int]);
        assert(0 <= gs[i as int].0 <= gs[i as int].1 < len);
        let lo = if a >= 3 {
            a - 3
        } else {
            0
        };
        let hi = if len - 1 - b >= 3 {
            b + 3
        } else {
            len - 1
        };
        let ghost out0 = pviews(out@);
        out.push((lo, hi));
        proof {
            assert((lo as int, hi as int) == window_of(gs[i as int], len as int));
            assert(pviews(out@) =~= out0 + seq![window_of(gs[i as int], len as int)]);
            assert(windows_of(gs, len as int).take(i + 1) =~= windows_of(gs, len as int).take(
                i as int,
            ).push(windows_of(gs, len as int)[i as int]));
        }
        i = i + 1;
    }
    assert(windows_of(gs, len as int).take(groups@.len() as int) =~= windows_of(gs, len as int));
    out
}

/// One computed hunk, ready to render.
pub struct DiffEntry {
    pub from1: usize,
    pub count1: usize,
    pub from2: usize,
    pub count2: usize,
    pub lines: Vec<DiffLine>,
}

impl View for DiffEntry {
    type V = DiffEntryGhost;

    open spec fn view(&self) -> DiffEntryGhost {
        DiffEntryGhost {
            from1: self.from1 as int,
            count1: self.count1 as int,
            from2: self.from2 as int,
            count2: self.count2 as int,
            lines: dviews(self.lines@),
        }
    }
}

fn count_right(lines: &Vec<DiffLine>, k: usize) -> (r: usize)
    requires
        k <= lines@.len(),
    ensures
        r as int == cnt_right(dviews(lines@), k as int),
        r <= k,
{
    let ghost d = dviews(lines@);
    let mut acc: usize = 0;
    let mut i: usize = 0;
    #[verifier::loop_isolation(false)]
    while i < k
        invariant
            i <= k,
            acc as int == cnt_right(d, i as int),
            acc <= i,
        decreases k - i,
    {
        assert(d[i as int] == lines@[i as int]@);
        match &lines[i] {
            DiffLine::Right(_) => {
                acc = acc + 1;
            },
            _ => {},
        }
        i = i + 1;
    }
    acc
}

fn count_left(lines: &Vec<DiffLine>, k: usize) -> (r: usize)
    requires
        k <= lines@.len(),
    ensures
        r as int == cnt_left(dviews(lines@), k as int),
        r <= k,
{
    let ghost d = dviews(lines@);
    let mut acc: usize = 0;
    let mut i: usize = 0;
    #[verifier::loop_isolation(false)]
    while i < k
        invariant
            i <= k,
            acc as int == cnt_left(d, i as int),
            acc <= i,
        decreases k - i,
    {
        assert(d[i as int] == lines@[i as int]@);
        match &lines[i] {
            DiffLine::Left(_) => {
                acc = acc + 1;
            },
            _ => {},
        }
        i = i + 1;
    }
    acc
}

fn copy_rows(lines: &Vec<DiffLine>, from: usize, to: usize) -> (r: Vec<DiffLine>)
    requires
        from <= to <= lines@.len(),
    ensures
        dviews(r@) == dviews(lines@).subrange(from as int, to as int),
{
    let mut out: Vec<DiffLine> = Vec::new();
    let mut i: usize = from;
    #[verifier::loop_isolation(false)]
    while i < to
        invariant
            from <= i <= to,
            dviews(out@) =~= dviews(lines@).subrange(from as int, i as int),
        decreases to - i,
    {
        let ghost out0 = dviews(out@);
        let row = match &lines[i] {
            DiffLine::Left(t) => DiffLine::Left(t.clone()),
            DiffLine::Right(t) => DiffLine::Right(t.clone()),
            DiffLine::Both(t) => DiffLine::Both(t.clone()),
        };
        assert(row@ == lines@[i as int]@);
        out.push(row);
        assert(dviews(out@) =~= out0 + seq![lines@[i as int]@]);
        i = i + 1;
    }
    assert(dviews(out@) =~= dviews(lines@).subrange(from as int, to as int));
    out
}

/// The hunks over the display windows, with their header positions and
/// extents.
pub(crate) fn with_diff(groups: &Vec<(usize, usize)>, lines: &Vec<DiffLine>) -> (r: Vec<DiffEntry>)
    requires
        forall|j: int|
            0 <= j < groups@.len() ==> (#[trigger] groups@[j]).0 <= groups@[j].1 < lines@.len(),
    ensures
        r@.map_values(|e: DiffEntry| e@) == hunks_of(dviews(lines@), pviews(groups@)),
{
    let ghost d = dviews(lines@);
    let ghost ws = pviews(groups@);
    let mut out: Vec<DiffEntry> = Vec::new();
    let mut i: usize = 0;
    assert(out@.map_values(|e: DiffEntry| e@) =~= hunks_of(d, ws).take(0));
    #[verifier::loop_isolation(false)]
    while i < groups.len()
        invariant
            i <= groups@.len(),
            out@.map_values(|e: DiffEntry| e@) =~= hunks_of(d, ws).take(i as int),
        decreases groups@.len() - i,
    {
        let (lo, hi) = groups[i];
        let n = lines.len();
        assert(groups@[i as int].0 <= groups@[i as int].1 < lines@.len());
        assert(lo <= hi < n);
        assert(ws[i as int] == (lo as int, hi as int));
        proof {
            lemma_cnt_bounds(d, lo as int);
            lemma_cnt_mono(d, lo as int, hi + 1);
        }
        let cr_lo = count_right(lines, lo);
        let cr_hi = count_right(lines, hi + 1);
        let cl_lo = count_left(lines, lo);
        let cl_hi = count_left(lines, hi + 1);
        let from1 = lo - cr_lo + 1;
        let count1 = (hi + 1 - lo) - (cr_hi - cr_lo);
        let from2 = lo - cl_lo + 1;
        let count2 = (hi + 1 - lo) - (cl_hi - cl_lo);
        let rows = copy_rows(lines, lo, hi + 1);
        let entry = DiffEntry { from1, count1, from2, count2, lines: rows };
        let ghost out0 = out@.map_values(|e: DiffEntry| e@);
        assert(entry@ == hunk_of(d, ws[i as int]));
        out.push(entry);
        proof {
            assert(out@.map_values(|e: DiffEntry| e@) =~= out0 + seq![hunk_of(d, ws[i as int])]);
            assert(hunks_of(d, ws).take(i + 1) =~= hunks_of(d, ws).take(i as int).push(
                hunks_of(d, ws)[i as int],
            ));
        }
        i = i + 1;
    }
    assert(hunks_of(d, ws).take(groups@.len() as int) =~= hunks_of(d, ws));
    out
}


// ---------------------------------------------------------------------------
// Rendering a comparison
// ---------------------------------------------------------------------------

fn render_entry(out: &mut Vec<String>, e: &DiffEntry)
    ensures
        str_views(final(out)@) == str_views(old(out)@) + entry_lines(e@),
{
    let ghost before = str_views(out@);
    let mut h = String::new();
    h.append("@@ -");
    let t1 = crate::text::u64_to_string(e.from1 as u64);
    h.append(t1.as_str());
    push_char(&mut h, ',');
    let t2 = crate::text::u64_to_string(e.count1 as u64);
    h.append(t2.as_str());
    h.append(" +");
    let t3 = crate::text::u64_to_string(e.from2 as u64);
    h.append(t3.as_str());
    push_char(&mut h, ',');
    let t4 = crate::text::u64_to_string(e.count2 as u64);
    h.append(t4.as_str());
    h.append(" @@");
    assert(h@ =~= entry_header(e@));
    let ghost rows = e@.lines.map_values(|x: DiffLineGhost| row_line(x));
    out.push(h);
    assert(str_views(out@) =~= before + seq![entry_header(e@)]);
    let ghost mid = str_views(out@);
    let mut i: usize = 0;
    #[verifier::loop_isolation(false)]
    while i < e.lines.len()
        invariant
            i <= e.lines@.len(),
            str_views(out@) =~= mid + rows.take(i as int),
        decreases e.lines@.len() - i,
    {
        let ghost sofar = str_views(out@);
        let mut line = String::new();
        match &e.lines[i] {
            DiffLine::Left(t) => {
                push_char(&mut line, '-');
                line.append(t.as_str());
            },
            DiffLine::Right(t) => {
                push_char(&mut line, '+');
                line.append(t.as_str());
            },
            DiffLine::Both(t) => {
                push_char(&mut line, ' ');
                line.append(t.as_str());
            },
        }
        assert(line@ == row_line(e.lines@[i as int]@));
        assert(rows[i as int] == row_line(e.lines@[i as int]@));
        out.push(line);
        assert(str_views(out@) =~= sofar + seq![rows[i as int]]);
        assert(str_views(out@) =~= mid + rows.take(i + 1));
        i = i + 1;
    }
    assert(rows.take(e.lines@.len() as int) =~= rows);
    assert(str_views(out@) =~= (before + seq![entry_header(e@)]) + rows);
    assert((before + seq![entry_header(e@)]) + rows =~= before + (seq![entry_header(e@)] + rows));
}

/// The unified-diff rendering of one before/after pair: nothing when the
/// trailing-whitespace-trimmed sides read the same, else the banner pair and
/// the hunks, one output line each.
pub fn diff_file(file_diff: &FileDiff) -> (r: Vec<String>)
    ensures
        (r@.len() == 0) == (lines_from(trimmed_end(file_diff.left_text()), 0) == lines_from(
            trimmed_end(file_diff.right_text()),
            0,
        )),
        exists|d: Seq<DiffLineGhost>|
            align_ok(
                d,
                lines_from(trimmed_end(file_diff.left_text()), 0),
                lines_from(trimmed_end(file_diff.right_text()), 0),
            ) && str_views(r@) == diff_render(d, file_diff.name_text()),
{
    let ghost la_spec = lines_from(trimmed_end(file_diff.left_text()), 0);
    let ghost lb_spec = lines_from(trimmed_end(file_diff.right_text()), 0);
    let lchars = str_to_chars(file_diff.left.as_str());
    let e1 = trim_end_pos(&lchars);
    proof {
        lemma_trim_end_len(lchars@);
    }
    let ltrim = copy_region(&lchars, 0, e1);
    assert(ltrim@ =~= trimmed_end(file_diff.left_text()));
    let rchars = str_to_chars(file_diff.right.as_str());
    let e2 = trim_end_pos(&rchars);
    proof {
        lemma_trim_end_len(rchars@);
    }
    let rtrim = copy_region(&rchars, 0, e2);
    assert(rtrim@ =~= trimmed_end(file_diff.right_text()));
    let la = split_lines(&ltrim);
    let lb = split_lines(&rtrim);
    assert(la.deep_view() =~= str_views(la@));
    assert(lb.deep_view() =~= str_views(lb@));
    let d = lcs_diff(&la, &lb);
    let ghost dv = dviews(d@);
    proof {
        lemma_changed_ids(dv, 0);
    }
    let changed = get_changed_lines(&d);
    if changed.len() == 0 {
        proof {
            assert(forall|j: int| 0 <= j < dv.len() ==> dv[j] is Both);
            lemma_all_common_equal(dv);
        }
        let out: Vec<String> = Vec::new();
        assert(str_views(out@) =~= Seq::<Seq<char>>::empty());
        assert(align_ok(dv, la_spec, lb_spec) && str_views(out@) == diff_render(
            dv,
            file_diff.name_text(),
        ));
        return out;
    }
    proof {
        if la_spec == lb_spec {
            assert(forall|j: int| 0 <= j < dv.len() ==> dviews(d@)[j] is Both);
            assert(uviews(changed@).len() == 0);
            assert(false);
        }
    }
    let ghost ids = changed_ids(dv, 0);
    proof {
        assert(uviews(changed@) == ids);
        assert(forall|j: int|
            0 <= j < changed@.len() ==> #[trigger] changed@[j] as int == uviews(changed@)[j]);
        assert(forall|j: int| 0 <= j < changed@.len() ==> 0 <= #[trigger] changed@[j] < d@.len());
        assert(forall|j: int|
            0 <= j < changed@.len() - 1 ==> #[trigger] changed@[j] < changed@[j + 1]) by {
            assert(forall|j: int|
                0 <= j < ids.len() - 1 ==> #[trigger] ids[j] < ids[j + 1]);
            assert(forall|j: int|
                0 <= j < changed@.len() - 1 ==> #[trigger] changed@[j] as int == ids[j]
                    && changed@[j + 1] as int == ids[j + 1]);
        }
    }
    let windows = group_changes(&changed, d.len());
    let hunks = with_diff(&windows, &d);
    let mut out: Vec<String> = Vec::new();
    let mut b1 = String::new();
    b1.append("--- ");
    b1.append(file_diff.filename.as_str());
    b1.append(" before");
    let mut b2 = String::new();
    b2.append("+++ ");
    b2.append(file_diff.filename.as_str());
    b2.append(" after");
    out.push(b1);
    out.push(b2);
    let ghost banners = seq![
        "--- "@ + file_diff.name_text() + " before"@,
        "+++ "@ + file_diff.name_text() + " after"@,
    ];
    assert(str_views(out@) =~= banners);
    let ghost es = hunks@.map_values(|e: DiffEntry| e@);
    let mut i: usize = 0;
    assert(render_entries(es.take(0)) =~= Seq::<Seq<char>>::empty()) by {
        assert(es.take(0) =~= Seq::<DiffEntryGhost>::empty());
    }
    assert(str_views(out@) =~= banners + render_entries(es.take(0)));
    #[verifier::loop_isolation(false)]
    while i < hunks.len()
        invariant
            i <= hunks@.len(),
            str_views(out@) == banners + render_entries(es.take(i as int)),
        decreases hunks@.len() - i,
    {
        render_entry(&mut out, &hunks[i]);
        proof {
            assert(es.take(i + 1) =~= es.take(i as int).push(es[i as int]));
            lemma_render_entries_push(es.take(i as int), es[i as int]);
            assert(str_views(out@) =~= banners + render_entries(es.take(i + 1)));
        }
        i = i + 1;
    }
    assert(es.take(hunks@.len() as int) =~= es);
    proof {
        assert(es == hunks_of(dv, windows_of(groups_from(ids, 0), dv.len() as int)));
        assert(str_views(out@) == diff_render(dv, file_diff.name_text()));
        assert(align_ok(dv, la_spec, lb_spec) && str_views(out@) == diff_render(
            dv,
            file_diff.name_text(),
        ));
    }
    assert(out@.len() > 0);
    out
}

/// The renderings of several before/after pairs, one after the other;
/// nothing at all exactly when every pair reads the same after trimming.
pub fn diff_files(file_diffs: &Vec<FileDiff>) -> (r: Vec<String>)
    ensures
        (r@.len() == 0) == (forall|i: int|
            0 <= i < file_diffs@.len() ==> lines_from(
                trimmed_end(#[trigger] file_diffs@[i].left_text()),
                0,
            ) == lines_from(trimmed_end(file_diffs@[i].right_text()), 0)),
{
    let mut out: Vec<String> = Vec::new();
    let mut i: usize = 0;
    #[verifier::loop_isolation(false)]
    while i < file_diffs.len()
        invariant
            i <= file_diffs@.len(),
            (out@.len() == 0) == (forall|j: int|
                0 <= j < i ==> lines_from(trimmed_end(#[trigger] file_diffs@[j].left_text()), 0)
                    == lines_from(trimmed_end(file_diffs@[j].right_text()), 0)),
        decreases file_diffs@.len() - i,
    {
        let part = diff_file(&file_diffs[i]);
        let mut j: usize = 0;
        let ghost out0 = out@;
        #[verifier::loop_isolation(false)]
        while j < part.len()
            invariant
                j <= part@.len(),
                out@.len() == out0.len() + j,
            decreases part@.len() - j,
        {
            let line = part[j].clone();
            out.push(line);
            j = j + 1;
        }
        i = i + 1;
    }
    out
}

} // verus!
