use vstd::prelude::*;

use crate::date::{date_of_text, Date, DateGhost};
use crate::generate::{m_bullet, m_cont, m_h2, m_h3};
use crate::model::{
    Changelog, ChangelogGhost, Ref, RefGhost, Release, ReleaseGhost, Version, VersionGhost,
};
use crate::text::{
    begins_at, chars_to_string, copy_region, find_chr, find_chr_pos, find_nl, lemma_line_end,
    line_end, starts_at, trimmed,
};
use crate::version::{semver_of_text, SemVer, SemVerGhost};

verus! {

// ---------------------------------------------------------------------------
// The grammar, over character sequences
// ---------------------------------------------------------------------------

/// The lower-case twin of an upper-case ASCII letter; any other character
/// stays as it is. Section headings are matched after this fold.
pub open spec fn lower_chr(c: char) -> char {
    if c == 'A' { 'a' }
    else if c == 'B' { 'b' }
    else if c == 'C' { 'c' }
    else if c == 'D' { 'd' }
    else if c == 'E' { 'e' }
    else if c == 'F' { 'f' }
    else if c == 'G' { 'g' }
    else if c == 'H' { 'h' }
    else if c == 'I' { 'i' }
    else if c == 'J' { 'j' }
    else if c == 'K' { 'k' }
    else if c == 'L' { 'l' }
    else if c == 'M' { 'm' }
    else if c == 'N' { 'n' }
    else if c == 'O' { 'o' }
    else if c == 'P' { 'p' }
    else if c == 'Q' { 'q' }
    else if c == 'R' { 'r' }
    else if c == 'S' { 's' }
    else if c == 'T' { 't' }
    else if c == 'U' { 'u' }
    else if c == 'V' { 'v' }
    else if c == 'W' { 'w' }
    else if c == 'X' { 'x' }
    else if c == 'Y' { 'y' }
    else if c == 'Z' { 'z' }
    else { c }
}

pub open spec fn folded(s: Seq<char>) -> Seq<char> {
    s.map_values(|c: char| lower_chr(c))
}

/// What a release heading line states: the version tag and, for a released
/// block, its date.
pub open spec fn heading_of_line(line: Seq<char>) -> Option<(VersionGhost, Option<DateGhost>)> {
    let rest = line.skip(4);
    if rest == "Unreleased]"@ {
        Option::Some((VersionGhost::Unreleased, Option::None::<DateGhost>))
    } else {
        let cb = find_chr(rest, 0, ']');
        if cb >= rest.len() {
            Option::None
        } else {
            let vt = rest.take(cb);
            let after = rest.skip(cb + 1);
            if after.len() == 13 && after.take(3) == seq![' ', '-', ' '] {
                match (semver_of_text(vt), date_of_text(after.skip(3))) {
                    (Option::Some(v), Option::Some(d)) => Option::Some(
                        (VersionGhost::Released(v), Option::Some(d)),
                    ),
                    _ => Option::None,
                }
            } else {
                Option::None
            }
        }
    }
}

/// What a reference line states: the bracketed anchor and the target after
/// the closing `]: `.
pub open spec fn ref_of_line(line: Seq<char>) -> Option<RefGhost> {
    if line.len() > 0 && line[0] == '[' {
        let cb = find_chr(line, 1, ']');
        if cb < line.len() && begins_at(line, cb + 1, seq![':', ' ']) {
            Option::Some(RefGhost { anchor: line.subrange(1, cb), href: line.skip(cb + 3) })
        } else {
            Option::None
        }
    } else {
        Option::None
    }
}

/// The line starting at `k` has the shape of a reference line.
pub open spec fn is_ref_start(s: Seq<char>, k: int) -> bool {
    ref_of_line(s.subrange(k, line_end(s, k))) is Some
}

/// A position where a release's body ends: the document's end, another
/// heading, a section heading, or the reference list.
pub open spec fn at_boundary(s: Seq<char>, k: int) -> bool {
    k >= s.len() || begins_at(s, k, m_h2()) || begins_at(s, k, m_h3()) || is_ref_start(s, k)
}

/// The start of the first release heading line at or after `k`; the document
/// text before it is the intro.
pub open spec fn intro_end(s: Seq<char>, k: int) -> int
    decreases s.len() - k when 0 <= k <= s.len() via intro_end_dec
{
    if 0 <= k < s.len() {
        if begins_at(s, k, m_h2()) {
            k
        } else {
            let e = line_end(s, k);
            if e >= s.len() {
                s.len() as int
            } else {
                intro_end(s, e + 1)
            }
        }
    } else {
        s.len() as int
    }
}

#[via_fn]
proof fn intro_end_dec(s: Seq<char>, k: int) {
    if 0 <= k < s.len() {
        lemma_line_end(s, k);
    }
}

/// The start of the first boundary line at or after `k`; the text before it
/// is a release's own intro.
pub open spec fn text_end(s: Seq<char>, k: int) -> int
    decreases s.len() - k when 0 <= k <= s.len() via text_end_dec
{
    if 0 <= k < s.len() {
        if at_boundary(s, k) {
            k
        } else {
            let e = line_end(s, k);
            if e >= s.len() {
                s.len() as int
            } else {
                text_end(s, e + 1)
            }
        }
    } else {
        s.len() as int
    }
}

#[via_fn]
proof fn text_end_dec(s: Seq<char>, k: int) {
    if 0 <= k < s.len() {
        lemma_line_end(s, k);
    }
}

/// The text that a bullet's continuation lines add, one embedded line break
/// before each, and the position after the run.
pub open spec fn conts_of_text(s: Seq<char>, k: int) -> (Seq<char>, int)
    decreases s.len() - k when 0 <= k <= s.len() via conts_of_text_dec
{
    if 0 <= k < s.len() && begins_at(s, k, m_cont()) {
        let e = line_end(s, k);
        let content = s.subrange(k + 2, e);
        if e >= s.len() {
            (seq!['\n'] + content, s.len() as int)
        } else {
            let (more, k2) = conts_of_text(s, e + 1);
            (seq!['\n'] + content + more, k2)
        }
    } else {
        (Seq::empty(), k)
    }
}

#[via_fn]
proof fn conts_of_text_dec(s: Seq<char>, k: int) {
    if 0 <= k < s.len() {
        lemma_line_end(s, k);
    }
}

/// One bullet's raw text, the bullet line and its continuations joined by
/// line breaks, and the position after it. Trimming happens at the caller.
pub open spec fn item_of_text(s: Seq<char>, k: int) -> (Seq<char>, int) {
    let e = line_end(s, k);
    let first = s.subrange(k + 2, e);
    if e >= s.len() {
        (first, s.len() as int)
    } else {
        let (more, k2) = conts_of_text(s, e + 1);
        (first + more, k2)
    }
}

pub proof fn lemma_conts_progress(s: Seq<char>, k: int)
    requires
        0 <= k <= s.len(),
    ensures
        k <= conts_of_text(s, k).1 <= s.len(),
    decreases s.len() - k,
{
    if 0 <= k < s.len() && begins_at(s, k, m_cont()) {
        lemma_line_end(s, k);
        let e = line_end(s, k);
        if e < s.len() {
            lemma_conts_progress(s, e + 1);
        }
    }
}

pub proof fn lemma_item_progress(s: Seq<char>, k: int)
    requires
        0 <= k < s.len(),
    ensures
        k < item_of_text(s, k).1 <= s.len(),
{
    lemma_line_end(s, k);
    let e = line_end(s, k);
    if e < s.len() {
        lemma_conts_progress(s, e + 1);
    }
}

/// The bullet items of one section, trimmed, with blank lines between them
/// skipped; stops at a boundary, and refuses any other line.
pub open spec fn items_of_text(s: Seq<char>, k: int) -> Option<(Seq<Seq<char>>, int)>
    decreases s.len() - k when 0 <= k <= s.len() via items_of_text_dec
{
    if 0 <= k < s.len() {
        if s[k] == '\n' {
            items_of_text(s, k + 1)
        } else if begins_at(s, k, m_bullet()) {
            let (raw, k2) = item_of_text(s, k);
            match items_of_text(s, k2) {
                Option::None => Option::None,
                Option::Some((rest, k3)) => Option::Some((seq![trimmed(raw)] + rest, k3)),
            }
        } else if at_boundary(s, k) {
            Option::Some((Seq::empty(), k))
        } else {
            Option::None
        }
    } else {
        Option::Some((Seq::empty(), k))
    }
}

#[via_fn]
proof fn items_of_text_dec(s: Seq<char>, k: int) {
    if 0 <= k < s.len() {
        lemma_item_progress(s, k);
    }
}

pub proof fn lemma_items_progress(s: Seq<char>, k: int)
    requires
        0 <= k <= s.len(),
    ensures
        items_of_text(s, k) matches Option::Some(p) ==> k <= p.1 <= s.len(),
    decreases s.len() - k,
{
    if 0 <= k < s.len() {
        if s[k] == '\n' {
            lemma_items_progress(s, k + 1);
        } else if begins_at(s, k, m_bullet()) {
            lemma_item_progress(s, k);
            lemma_items_progress(s, item_of_text(s, k).1);
        }
    }
}

/// One section: its folded heading name, its items, and the position after
/// it.
pub open spec fn section_of_text(s: Seq<char>, k: int) -> Option<(Seq<char>, Seq<Seq<char>>, int)> {
    let e = line_end(s, k);
    let name = folded(s.subrange(k + 4, e));
    if e >= s.len() {
        Option::Some((name, Seq::empty(), s.len() as int))
    } else {
        match items_of_text(s, e + 1) {
            Option::None => Option::None,
            Option::Some((items, k2)) => Option::Some((name, items, k2)),
        }
    }
}

pub proof fn lemma_section_progress(s: Seq<char>, k: int)
    requires
        0 <= k < s.len(),
    ensures
        section_of_text(s, k) matches Option::Some(p) ==> k < p.2 <= s.len(),
{
    lemma_line_end(s, k);
    let e = line_end(s, k);
    if e < s.len() {
        lemma_items_progress(s, e + 1);
    }
}

/// The sections after a release's intro, folded into the release record;
/// among sections with the same recognized name the last one stands, and an
/// unrecognized name is read but kept nowhere.
pub open spec fn sections_of_text(s: Seq<char>, k: int, acc: ReleaseGhost) -> Option<
    (ReleaseGhost, int),
>
    decreases s.len() - k when 0 <= k <= s.len() via sections_of_text_dec
{
    if 0 <= k < s.len() && begins_at(s, k, m_h3()) {
        match section_of_text(s, k) {
            Option::None => Option::None,
            Option::Some((name, items, k2)) => {
                let acc2 = if name == "added"@ {
                    ReleaseGhost { added: items, ..acc }
                } else if name == "removed"@ {
                    ReleaseGhost { removed: items, ..acc }
                } else if name == "fixed"@ {
                    ReleaseGhost { fixed: items, ..acc }
                } else if name == "changed"@ {
                    ReleaseGhost { changed: items, ..acc }
                } else {
                    acc
                };
                sections_of_text(s, k2, acc2)
            },
        }
    } else {
        Option::Some((acc, k))
    }
}

#[via_fn]
proof fn sections_of_text_dec(s: Seq<char>, k: int, acc: ReleaseGhost) {
    if 0 <= k < s.len() {
        lemma_section_progress(s, k);
    }
}

pub proof fn lemma_sections_progress(s: Seq<char>, k: int, acc: ReleaseGhost)
    requires
        0 <= k <= s.len(),
    ensures
        sections_of_text(s, k, acc) matches Option::Some(p) ==> k <= p.1 <= s.len(),
    decreases s.len() - k,
{
    if 0 <= k < s.len() && begins_at(s, k, m_h3()) {
        lemma_section_progress(s, k);
        match section_of_text(s, k) {
            Option::None => {},
            Option::Some((name, items, k2)) => {
                let acc2 = if name == "added"@ {
                    ReleaseGhost { added: items, ..acc }
                } else if name == "removed"@ {
                    ReleaseGhost { removed: items, ..acc }
                } else if name == "fixed"@ {
                    ReleaseGhost { fixed: items, ..acc }
                } else if name == "changed"@ {
                    ReleaseGhost { changed: items, ..acc }
                } else {
                    acc
                };
                lemma_sections_progress(s, k2, acc2);
            },
        }
    }
}

/// An empty release record carrying a heading's version and date.
pub open spec fn bare_release(ver: VersionGhost, date: Option<DateGhost>) -> ReleaseGhost {
    ReleaseGhost {
        version: ver,
        date: date,
        intro: Seq::empty(),
        added: Seq::empty(),
        removed: Seq::empty(),
        fixed: Seq::empty(),
        changed: Seq::empty(),
    }
}

/// One release block starting at its heading line: the heading, one optional
/// blank line, the intro text up to a boundary, then the sections.
pub open spec fn rel_of_text(s: Seq<char>, k: int) -> Option<(ReleaseGhost, int)> {
    let e = line_end(s, k);
    match heading_of_line(s.subrange(k, e)) {
        Option::None => Option::None,
        Option::Some((ver, date)) => {
            if e >= s.len() {
                Option::Some((bare_release(ver, date), s.len() as int))
            } else {
                let k1 = e + 1;
                let k2 = if k1 < s.len() && s[k1] == '\n' {
                    k1 + 1
                } else {
                    k1
                };
                let b = text_end(s, k2);
                let base = ReleaseGhost { intro: s.subrange(k2, b), ..bare_release(ver, date) };
                sections_of_text(s, b, base)
            }
        },
    }
}

pub proof fn lemma_text_end(s: Seq<char>, k: int)
    requires
        0 <= k <= s.len(),
    ensures
        k <= text_end(s, k) <= s.len(),
    decreases s.len() - k,
{
    if 0 <= k < s.len() && !at_boundary(s, k) {
        lemma_line_end(s, k);
        let e = line_end(s, k);
        if e < s.len() {
            lemma_text_end(s, e + 1);
        }
    }
}

pub proof fn lemma_intro_end(s: Seq<char>, k: int)
    requires
        0 <= k <= s.len(),
    ensures
        k <= intro_end(s, k) <= s.len(),
    decreases s.len() - k,
{
    if 0 <= k < s.len() && !begins_at(s, k, m_h2()) {
        lemma_line_end(s, k);
        let e = line_end(s, k);
        if e < s.len() {
            lemma_intro_end(s, e + 1);
        }
    }
}

pub proof fn lemma_rel_progress(s: Seq<char>, k: int)
    requires
        0 <= k < s.len(),
    ensures
        rel_of_text(s, k) matches Option::Some(p) ==> k < p.1 <= s.len(),
{
    lemma_line_end(s, k);
    let e = line_end(s, k);
    match heading_of_line(s.subrange(k, e)) {
        Option::None => {},
        Option::Some((ver, date)) => {
            if e < s.len() {
                let k1 = e + 1;
                let k2 = if k1 < s.len() && s[k1] == '\n' {
                    k1 + 1
                } else {
                    k1
                };
                lemma_text_end(s, k2);
                let b = text_end(s, k2);
                let base = ReleaseGhost {
                    intro: s.subrange(k2, b),
                    ..bare_release(ver, date)
                };
                lemma_sections_progress(s, b, base);
            }
        },
    }
}

/// The run of release blocks from `k`, and the position after them.
pub open spec fn rels_of_text(s: Seq<char>, k: int) -> Option<(Seq<ReleaseGhost>, int)>
    decreases s.len() - k when 0 <= k <= s.len() via rels_of_text_dec
{
    if 0 <= k < s.len() && begins_at(s, k, m_h2()) {
        match rel_of_text(s, k) {
            Option::None => Option::None,
            Option::Some((rel, k2)) => match rels_of_text(s, k2) {
                Option::None => Option::None,
                Option::Some((rest, k3)) => Option::Some((seq![rel] + rest, k3)),
            },
        }
    } else {
        Option::Some((Seq::empty(), k))
    }
}

#[via_fn]
proof fn rels_of_text_dec(s: Seq<char>, k: int) {
    if 0 <= k < s.len() {
        lemma_rel_progress(s, k);
    }
}

/// The reference lines from `k` to the end, blank lines between them
/// skipped; any other line refuses the document.
pub open spec fn refs_of_text(s: Seq<char>, k: int) -> Option<Seq<RefGhost>>
    decreases s.len() - k when 0 <= k <= s.len() via refs_of_text_dec
{
    if 0 <= k < s.len() {
        if s[k] == '\n' {
            refs_of_text(s, k + 1)
        } else {
            let e = line_end(s, k);
            match ref_of_line(s.subrange(k, e)) {
                Option::None => Option::None,
                Option::Some(f) => {
                    if e >= s.len() {
                        Option::Some(seq![f])
                    } else {
                        match refs_of_text(s, e + 1) {
                            Option::None => Option::None,
                            Option::Some(rest) => Option::Some(seq![f] + rest),
                        }
                    }
                },
            }
        }
    } else {
        Option::Some(Seq::empty())
    }
}

#[via_fn]
proof fn refs_of_text_dec(s: Seq<char>, k: int) {
    if 0 <= k < s.len() {
        lemma_line_end(s, k);
    }
}

/// The document that a text denotes: intro up to the first release heading,
/// the release blocks, then the reference lines.
pub open spec fn doc_of_text(s: Seq<char>) -> Option<ChangelogGhost> {
    let k = intro_end(s, 0);
    match rels_of_text(s, k) {
        Option::None => Option::None,
        Option::Some((rels, k2)) => match refs_of_text(s, k2) {
            Option::None => Option::None,
            Option::Some(refs) => Option::Some(
                ChangelogGhost { intro: s.take(k), releases: rels, refs: refs },
            ),
        },
    }
}


// ---------------------------------------------------------------------------
// Reading a document
// ---------------------------------------------------------------------------

fn mk_h2() -> (r: Vec<char>)
    ensures
        r@ == m_h2(),
{
    let mut v: Vec<char> = Vec::new();
    v.push('#');
    v.push('#');
    v.push(' ');
    v.push('[');
    assert(v@ =~= m_h2());
    v
}

fn mk_h3() -> (r: Vec<char>)
    ensures
        r@ == m_h3(),
{
    let mut v: Vec<char> = Vec::new();
    v.push('#');
    v.push('#');
    v.push('#');
    v.push(' ');
    assert(v@ =~= m_h3());
    v
}

fn mk_bullet() -> (r: Vec<char>)
    ensures
        r@ == m_bullet(),
{
    let mut v: Vec<char> = Vec::new();
    v.push('-');
    v.push(' ');
    assert(v@ =~= m_bullet());
    v
}

fn mk_cont() -> (r: Vec<char>)
    ensures
        r@ == m_cont(),
{
    let mut v: Vec<char> = Vec::new();
    v.push(' ');
    v.push(' ');
    assert(v@ =~= m_cont());
    v
}

fn chars_eq(a: &Vec<char>, b: &Vec<char>) -> (r: bool)
    ensures
        r == (a@ == b@),
{
    if a.len() != b.len() {
        return false;
    }
    let r = starts_at(a, 0, b);
    proof {
        if begins_at(a@, 0, b@) {
            assert(a@.subrange(0, b@.len() as int) =~= a@);
        } else {
            if a@ == b@ {
                assert(a@.subrange(0, b@.len() as int) =~= b@);
            }
        }
    }
    r
}

fn trim_vec(v: &Vec<char>) -> (r: Vec<char>)
    ensures
        r@ == trimmed(v@),
{
    let r = crate::text::trim_region(v, 0, v.len());
    assert(v@.subrange(0, v@.len() as int) =~= v@);
    r
}

fn lower(c: char) -> (r: char)
    ensures
        r == lower_chr(c),
{
    if c == 'A' { 'a' }
    else if c == 'B' { 'b' }
    else if c == 'C' { 'c' }
    else if c == 'D' { 'd' }
    else if c == 'E' { 'e' }
    else if c == 'F' { 'f' }
    else if c == 'G' { 'g' }
    else if c == 'H' { 'h' }
    else if c == 'I' { 'i' }
    else if c == 'J' { 'j' }
    else if c == 'K' { 'k' }
    else if c == 'L' { 'l' }
    else if c == 'M' { 'm' }
    else if c == 'N' { 'n' }
    else if c == 'O' { 'o' }
    else if c == 'P' { 'p' }
    else if c == 'Q' { 'q' }
    else if c == 'R' { 'r' }
    else if c == 'S' { 's' }
    else if c == 'T' { 't' }
    else if c == 'U' { 'u' }
    else if c == 'V' { 'v' }
    else if c == 'W' { 'w' }
    else if c == 'X' { 'x' }
    else if c == 'Y' { 'y' }
    else if c == 'Z' { 'z' }
    else { c }
}

fn fold_region(v: &Vec<char>, from: usize, to: usize) -> (r: Vec<char>)
    requires
        from <= to <= v@.len(),
    ensures
        r@ == folded(v@.subrange(from as int, to as int)),
{
    let ghost sub = v@.subrange(from as int, to as int);
    let mut out: Vec<char> = Vec::new();
    let mut i: usize = from;
    #[verifier::loop_isolation(false)]
    while i < to
        invariant
            from <= i <= to,
            out@.len() == i - from,
            forall|j: int| 0 <= j < i - from ==> out@[j] == lower_chr(sub[j]),
        decreases to - i,
    {
        let c = lower(v[i]);
        out.push(c);
        i = i + 1;
    }
    assert(out@ =~= folded(sub));
    out
}

fn x_ref_of_line(line: &Vec<char>) -> (r: Option<Ref>)
    ensures
        match r {
            Option::Some(f) => ref_of_line(line@) == Option::Some(f@),
            Option::None => ref_of_line(line@) is None,
        },
{
    let n = line.len();
    if n == 0 || line[0] != '[' {
        return Option::None;
    }
    let cb = find_chr_pos(line, 1, ']');
    if cb >= n {
        return Option::None;
    }
    if n - cb > 2 && line[cb + 1] == ':' && line[cb + 2] == ' ' {
        assert(line@.subrange(cb + 1, cb + 3 as int) =~= seq![':', ' ']);
        assert(begins_at(line@, cb + 1 as int, seq![':', ' ']));
        let anchor_chars = copy_region(line, 1, cb);
        let href_chars = copy_region(line, cb + 3, n);
        assert(href_chars@ =~= line@.skip(cb + 3));
        let anchor = chars_to_string(&anchor_chars);
        let href = chars_to_string(&href_chars);
        Option::Some(Ref { anchor, href })
    } else {
        proof {
            if begins_at(line@, cb + 1 as int, seq![':', ' ']) {
                assert(line@.subrange(cb + 1, cb + 3 as int)[0] == ':');
                assert(line@.subrange(cb + 1, cb + 3 as int)[1] == ' ');
                assert(line@[cb + 1] == ':');
                assert(line@[cb + 2] == ' ');
            }
        }
        assert(!begins_at(line@, cb + 1 as int, seq![':', ' ']));
        Option::None
    }
}

fn x_is_ref_start(v: &Vec<char>, k: usize) -> (r: bool)
    requires
        k <= v@.len(),
    ensures
        r == is_ref_start(v@, k as int),
{
    let e = find_nl(v, k);
    let line = copy_region(v, k, e);
    match x_ref_of_line(&line) {
        Option::Some(_) => true,
        Option::None => false,
    }
}

fn x_at_boundary(v: &Vec<char>, k: usize, h2: &Vec<char>, h3: &Vec<char>) -> (r: bool)
    requires
        k <= v@.len(),
        h2@ == m_h2(),
        h3@ == m_h3(),
    ensures
        r == at_boundary(v@, k as int),
{
    if k >= v.len() {
        return true;
    }
    if starts_at(v, k, h2) {
        return true;
    }
    if starts_at(v, k, h3) {
        return true;
    }
    x_is_ref_start(v, k)
}

fn x_intro_end(v: &Vec<char>, k: usize, h2: &Vec<char>) -> (r: usize)
    requires
        k <= v@.len(),
        h2@ == m_h2(),
    ensures
        r as int == intro_end(v@, k as int),
        k <= r <= v@.len(),
{
    proof {
        lemma_intro_end(v@, k as int);
    }
    let mut j: usize = k;
    #[verifier::loop_isolation(false)]
    while j < v.len()
        invariant
            k <= j <= v@.len(),
            intro_end(v@, k as int) == intro_end(v@, j as int),
        decreases v@.len() - j,
    {
        if starts_at(v, j, h2) {
            return j;
        }
        let e = find_nl(v, j);
        if e >= v.len() {
            return v.len();
        }
        j = e + 1;
    }
    j
}

fn x_text_end(v: &Vec<char>, k: usize, h2: &Vec<char>, h3: &Vec<char>) -> (r: usize)
    requires
        k <= v@.len(),
        h2@ == m_h2(),
        h3@ == m_h3(),
    ensures
        r as int == text_end(v@, k as int),
        k <= r <= v@.len(),
    decreases v@.len() - k,
{
    proof {
        lemma_text_end(v@, k as int);
    }
    if k >= v.len() {
        return k;
    }
    if x_at_boundary(v, k, h2, h3) {
        return k;
    }
    let e = find_nl(v, k);
    if e >= v.len() {
        return v.len();
    }
    x_text_end(v, e + 1, h2, h3)
}

fn x_heading_of_line(line: &Vec<char>) -> (r: Option<(Version, Option<Date>)>)
    requires
        line@.len() >= 4,
    ensures
        match r {
            Option::Some(p) => heading_of_line(line@) matches Option::Some(q) && q.0 == p.0@
                && (match (p.1, q.1) {
                (Option::Some(d), Option::Some(dg)) => d@ == dg,
                (Option::None, Option::None) => true,
                _ => false,
            }),
            Option::None => heading_of_line(line@) is None,
        },
{
    let n = line.len();
    let rest = copy_region(line, 4, n);
    assert(rest@ =~= line@.skip(4));
    let marker = crate::text::str_to_chars("Unreleased]");
    if chars_eq(&rest, &marker) {
        return Option::Some((Version::Unreleased, Option::None));
    }
    let m = rest.len();
    let cb = find_chr_pos(&rest, 0, ']');
    if cb >= m {
        return Option::None;
    }
    if !(m - (cb + 1) == 13 && rest[cb + 1] == ' ' && rest[cb + 2] == '-' && rest[cb + 3] == ' ') {
        proof {
            let after = rest@.skip(cb + 1);
            if after.len() == 13 && after.take(3) == seq![' ', '-', ' '] {
                assert(after.take(3)[0] == ' ');
                assert(after.take(3)[1] == '-');
                assert(after.take(3)[2] == ' ');
                assert(rest@[cb + 1] == ' ');
                assert(rest@[cb + 2] == '-');
                assert(rest@[cb + 3] == ' ');
            }
        }
        return Option::None;
    }
    proof {
        let after = rest@.skip(cb + 1);
        assert(after.len() == 13);
        assert(after.take(3) =~= seq![' ', '-', ' ']);
    }
    let vt = copy_region(&rest, 0, cb);
    assert(vt@ =~= rest@.take(cb as int));
    let datext = copy_region(&rest, cb + 4, m);
    assert(datext@ =~= rest@.skip(cb + 1).skip(3));
    let sv = match SemVer::of_text(&vt) {
        Option::Some(x) => x,
        Option::None => {
            return Option::None;
        },
    };
    let d = match Date::of_text(&datext) {
        Option::Some(x) => x,
        Option::None => {
            return Option::None;
        },
    };
    Option::Some((Version::Released(sv), Option::Some(d)))
}

fn x_conts(v: &Vec<char>, k: usize, cont: &Vec<char>) -> (r: (Vec<char>, usize))
    requires
        k <= v@.len(),
        cont@ == m_cont(),
    ensures
        conts_of_text(v@, k as int) == (r.0@, r.1 as int),
        k <= r.1 <= v@.len(),
    decreases v@.len() - k,
{
    if k < v.len() && starts_at(v, k, cont) {
        let e = find_nl(v, k);
        proof {
            lemma_line_end(v@, k as int);
            assert(v@[k as int] == ' ');
            assert(v@[k + 1] == ' ');
        }
        assert(k + 2 <= e);
        let content = copy_region(v, k + 2, e);
        let mut piece: Vec<char> = Vec::new();
        piece.push('\n');
        crate::text::extend_chars(&mut piece, &content);
        assert(piece@ =~= seq!['\n'] + content@);
        if e >= v.len() {
            assert(piece@ =~= conts_of_text(v@, k as int).0);
            return (piece, v.len());
        }
        let (more, k2) = x_conts(v, e + 1, cont);
        crate::text::extend_chars(&mut piece, &more);
        assert(piece@ =~= (seq!['\n'] + content@) + more@);
        assert(piece@ =~= seq!['\n'] + v@.subrange(k + 2, e as int) + more@);
        (piece, k2)
    } else {
        let out: Vec<char> = Vec::new();
        assert(out@ =~= Seq::<char>::empty());
        (out, k)
    }
}

fn x_item(v: &Vec<char>, k: usize, cont: &Vec<char>) -> (r: (Vec<char>, usize))
    requires
        k < v@.len(),
        begins_at(v@, k as int, m_bullet()),
        cont@ == m_cont(),
    ensures
        item_of_text(v@, k as int) == (r.0@, r.1 as int),
        k < r.1 <= v@.len(),
    decreases v@.len() - k,
{
    let e = find_nl(v, k);
    proof {
        lemma_line_end(v@, k as int);
        assert(v@.subrange(k as int, k + 2)[0] == '-');
        assert(v@.subrange(k as int, k + 2)[1] == ' ');
        assert(v@[k as int] == '-');
        assert(v@[k + 1] == ' ');
    }
    assert(k + 2 <= e);
    let first = copy_region(v, k + 2, e);
    if e >= v.len() {
        return (first, v.len());
    }
    let (more, k2) = x_conts(v, e + 1, cont);
    let mut out = first;
    crate::text::extend_chars(&mut out, &more);
    assert(out@ =~= v@.subrange(k + 2, e as int) + more@);
    (out, k2)
}

fn x_items(v: &Vec<char>, k: usize, h2: &Vec<char>, h3: &Vec<char>, bullet: &Vec<char>, cont: &Vec<char>) -> (r:
    Option<(Vec<String>, usize)>)
    requires
        k <= v@.len(),
        h2@ == m_h2(),
        h3@ == m_h3(),
        bullet@ == m_bullet(),
        cont@ == m_cont(),
    ensures
        match r {
            Option::Some(p) => items_of_text(v@, k as int) matches Option::Some(q) && q.0
                == p.0.deep_view() && q.1 == p.1 as int && k <= p.1 <= v@.len(),
            Option::None => items_of_text(v@, k as int) is None,
        },
    decreases v@.len() - k,
{
    if k >= v.len() {
        let out: Vec<String> = Vec::new();
        assert(out.deep_view() =~= Seq::<Seq<char>>::empty());
        return Option::Some((out, k));
    }
    if v[k] == '\n' {
        return x_items(v, k + 1, h2, h3, bullet, cont);
    }
    if starts_at(v, k, bullet) {
        let (raw, k2) = x_item(v, k, cont);
        let trimmed_item = trim_vec(&raw);
        let item = chars_to_string(&trimmed_item);
        let rest = x_items(v, k2, h2, h3, bullet, cont);
        match rest {
            Option::None => {
                return Option::None;
            },
            Option::Some((mut list, k3)) => {
                list.insert(0, item);
                proof {
                    let q = items_of_text(v@, k2 as int).unwrap();
                    assert(list.deep_view() =~= seq![trimmed(raw@)] + q.0);
                }
                return Option::Some((list, k3));
            },
        }
    }
    if x_at_boundary(v, k, h2, h3) {
        let out: Vec<String> = Vec::new();
        assert(out.deep_view() =~= Seq::<Seq<char>>::empty());
        return Option::Some((out, k));
    }
    Option::None
}

fn x_sections(v: &Vec<char>, k: usize, acc: Release, h2: &Vec<char>, h3: &Vec<char>, bullet: &Vec<char>, cont: &Vec<char>) -> (r:
    Option<(Release, usize)>)
    requires
        k <= v@.len(),
        h2@ == m_h2(),
        h3@ == m_h3(),
        bullet@ == m_bullet(),
        cont@ == m_cont(),
    ensures
        match r {
            Option::Some(p) => sections_of_text(v@, k as int, acc@) matches Option::Some(q) && q.0
                == p.0@ && q.1 == p.1 as int && k <= p.1 <= v@.len(),
            Option::None => sections_of_text(v@, k as int, acc@) is None,
        },
    decreases v@.len() - k,
{
    if k < v.len() && starts_at(v, k, h3) {
        let e = find_nl(v, k);
        proof {
            lemma_line_end(v@, k as int);
            assert(v@.subrange(k as int, k + 4)[0] == '#');
            assert(v@.subrange(k as int, k + 4)[1] == '#');
            assert(v@.subrange(k as int, k + 4)[2] == '#');
            assert(v@.subrange(k as int, k + 4)[3] == ' ');
            assert(v@[k as int] == '#');
            assert(v@[k + 1] == '#');
            assert(v@[k + 2] == '#');
            assert(v@[k + 3] == ' ');
        }
        assert(k + 4 <= e);
        let name = fold_region(v, k + 4, e);
        let (items, k2) = if e >= v.len() {
            let empty_items: Vec<String> = Vec::new();
            assert(empty_items.deep_view() =~= Seq::<Seq<char>>::empty());
            (empty_items, v.len())
        } else {
            match x_items(v, e + 1, h2, h3, bullet, cont) {
                Option::None => {
                    return Option::None;
                },
                Option::Some(p) => p,
            }
        };
        proof {
            lemma_section_progress(v@, k as int);
        }
        let w_added = crate::text::str_to_chars("added");
        let w_removed = crate::text::str_to_chars("removed");
        let w_fixed = crate::text::str_to_chars("fixed");
        let w_changed = crate::text::str_to_chars("changed");
        let acc2 = if chars_eq(&name, &w_added) {
            Release { added: items, ..acc }
        } else if chars_eq(&name, &w_removed) {
            Release { removed: items, ..acc }
        } else if chars_eq(&name, &w_fixed) {
            Release { fixed: items, ..acc }
        } else if chars_eq(&name, &w_changed) {
            Release { changed: items, ..acc }
        } else {
            acc
        };
        x_sections(v, k2, acc2, h2, h3, bullet, cont)
    } else {
        Option::Some((acc, k))
    }
}

fn x_rel(v: &Vec<char>, k: usize, h2: &Vec<char>, h3: &Vec<char>, bullet: &Vec<char>, cont: &Vec<char>) -> (r:
    Option<(Release, usize)>)
    requires
        k < v@.len(),
        begins_at(v@, k as int, m_h2()),
        h2@ == m_h2(),
        h3@ == m_h3(),
        bullet@ == m_bullet(),
        cont@ == m_cont(),
    ensures
        match r {
            Option::Some(p) => rel_of_text(v@, k as int) matches Option::Some(q) && q.0 == p.0@
                && q.1 == p.1 as int && k < p.1 <= v@.len(),
            Option::None => rel_of_text(v@, k as int) is None,
        },
{
    let e = find_nl(v, k);
    let line = copy_region(v, k, e);
    assert(line@.len() >= 4) by {
        assert(begins_at(v@, k as int, m_h2()));
        lemma_line_end(v@, k as int);
        assert(v@.subrange(k as int, k + 4)[0] == '#');
        assert(v@.subrange(k as int, k + 4)[1] == '#');
        assert(v@.subrange(k as int, k + 4)[2] == ' ');
        assert(v@.subrange(k as int, k + 4)[3] == '[');
        assert(v@[k as int] == '#');
        assert(v@[k + 1] == '#');
        assert(v@[k + 2] == ' ');
        assert(v@[k + 3] == '[');
    }
    let (ver, date) = match x_heading_of_line(&line) {
        Option::None => {
            return Option::None;
        },
        Option::Some(p) => p,
    };
    let base = Release {
        version: ver,
        date: date,
        intro: String::new(),
        added: Vec::new(),
        removed: Vec::new(),
        fixed: Vec::new(),
        changed: Vec::new(),
    };
    proof {
        assert(base.added.deep_view() =~= Seq::<Seq<char>>::empty());
        assert(base.removed.deep_view() =~= Seq::<Seq<char>>::empty());
        assert(base.fixed.deep_view() =~= Seq::<Seq<char>>::empty());
        assert(base.changed.deep_view() =~= Seq::<Seq<char>>::empty());
        lemma_rel_progress(v@, k as int);
    }
    if e >= v.len() {
        return Option::Some((base, v.len()));
    }
    let k1 = e + 1;
    let k2 = if k1 < v.len() && v[k1] == '\n' {
        k1 + 1
    } else {
        k1
    };
    let b = x_text_end(v, k2, h2, h3);
    let intro_chars = copy_region(v, k2, b);
    let base2 = Release { intro: chars_to_string(&intro_chars), ..base };
    x_sections(v, b, base2, h2, h3, bullet, cont)
}

fn x_rels(v: &Vec<char>, k: usize, h2: &Vec<char>, h3: &Vec<char>, bullet: &Vec<char>, cont: &Vec<char>) -> (r:
    Option<(Vec<Release>, usize)>)
    requires
        k <= v@.len(),
        h2@ == m_h2(),
        h3@ == m_h3(),
        bullet@ == m_bullet(),
        cont@ == m_cont(),
    ensures
        match r {
            Option::Some(p) => rels_of_text(v@, k as int) matches Option::Some(q) && q.0
                == p.0@.map_values(|x: Release| x@) && q.1 == p.1 as int && k <= p.1 <= v@.len(),
            Option::None => rels_of_text(v@, k as int) is None,
        },
    decreases v@.len() - k,
{
    if k < v.len() && starts_at(v, k, h2) {
        let (rel, k2) = match x_rel(v, k, h2, h3, bullet, cont) {
            Option::None => {
                return Option::None;
            },
            Option::Some(p) => p,
        };
        match x_rels(v, k2, h2, h3, bullet, cont) {
            Option::None => Option::None,
            Option::Some((mut list, k3)) => {
                let ghost tail = list@.map_values(|x: Release| x@);
                list.insert(0, rel);
                proof {
                    assert(list@.map_values(|x: Release| x@) =~= seq![rel@] + tail);
                }
                Option::Some((list, k3))
            },
        }
    } else {
        let out: Vec<Release> = Vec::new();
        assert(out@.map_values(|x: Release| x@) =~= Seq::<ReleaseGhost>::empty());
        Option::Some((out, k))
    }
}

fn x_refs(v: &Vec<char>, k: usize) -> (r: Option<Vec<Ref>>)
    requires
        k <= v@.len(),
    ensures
        match r {
            Option::Some(p) => refs_of_text(v@, k as int) matches Option::Some(q) && q
                == p@.map_values(|x: Ref| x@),
            Option::None => refs_of_text(v@, k as int) is None,
        },
    decreases v@.len() - k,
{
    if k >= v.len() {
        let out: Vec<Ref> = Vec::new();
        assert(out@.map_values(|x: Ref| x@) =~= Seq::<RefGhost>::empty());
        return Option::Some(out);
    }
    if v[k] == '\n' {
        return x_refs(v, k + 1);
    }
    let e = find_nl(v, k);
    let line = copy_region(v, k, e);
    let f = match x_ref_of_line(&line) {
        Option::None => {
            return Option::None;
        },
        Option::Some(f) => f,
    };
    if e >= v.len() {
        let mut out: Vec<Ref> = Vec::new();
        out.push(f);
        proof {
            assert(out@.map_values(|x: Ref| x@) =~= seq![f@]);
        }
        return Option::Some(out);
    }
    match x_refs(v, e + 1) {
        Option::None => Option::None,
        Option::Some(mut list) => {
            let ghost tail = list@.map_values(|x: Ref| x@);
            list.insert(0, f);
            proof {
                assert(list@.map_values(|x: Ref| x@) =~= seq![f@] + tail);
            }
            Option::Some(list)
        },
    }
}

/// The document that the text denotes; nothing comes back when the text does
/// not conform to the grammar, and the caller treats that as fatal.
pub fn parse_str(content: &str) -> (r: Option<Changelog>)
    ensures
        match r {
            Option::Some(c) => doc_of_text(content@) == Option::Some(c@),
            Option::None => doc_of_text(content@) is None,
        },
{
    let v = crate::text::str_to_chars(content);
    let h2 = mk_h2();
    let h3 = mk_h3();
    let bullet = mk_bullet();
    let cont = mk_cont();
    let k = x_intro_end(&v, 0, &h2);
    let (rels, k2) = match x_rels(&v, k, &h2, &h3, &bullet, &cont) {
        Option::None => {
            return Option::None;
        },
        Option::Some(p) => p,
    };
    let refs = match x_refs(&v, k2) {
        Option::None => {
            return Option::None;
        },
        Option::Some(p) => p,
    };
    let intro_chars = copy_region(&v, 0, k);
    assert(intro_chars@ =~= content@.take(k as int));
    let intro = chars_to_string(&intro_chars);
    let c = Changelog { intro, releases: rels, refs };
    Option::Some(c)
}

} // verus!
