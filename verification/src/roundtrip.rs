use vstd::prelude::*;

use crate::date::{date_wf, lemma_date_text_round_trip};
use crate::generate::{
    gen_doc, gen_heading, gen_item, gen_items, gen_ref, gen_refs, gen_release, gen_releases,
    gen_section, item_body, m_bullet, m_cont, m_h2, m_h3, ver_label,
};
use crate::model::{ChangelogGhost, RefGhost, ReleaseGhost, VersionGhost};
use crate::parser::{
    at_boundary, bare_release, conts_of_text, doc_of_text, folded, heading_of_line, intro_end,
    is_ref_start, item_of_text, items_of_text, lower_chr, ref_of_line, refs_of_text, rel_of_text,
    rels_of_text, section_of_text, sections_of_text, text_end,
};
use crate::text::{
    begins_at, find_chr, is_wsp, lemma_find_chr, lemma_find_chr_is, lemma_line_end,
    lemma_line_end_is, line_end, trim_end_len, trim_start_len, trimmed, trimmed_end,
};
use crate::version::{lemma_semver_text_chars, lemma_semver_text_round_trip, semver_text, sv_wf};

verus! {

// ---------------------------------------------------------------------------
// Well-formed pieces: what parsing guarantees and generation inverts
// ---------------------------------------------------------------------------

pub open spec fn no_nl(t: Seq<char>) -> bool {
    forall|i: int| 0 <= i < t.len() ==> t[i] != '\n'
}

/// A reference that renders to one well-shaped line: the anchor closes at
/// its own bracket and neither part spills onto another line.
pub open spec fn wf_ref(f: RefGhost) -> bool {
    no_nl(f.anchor) && no_nl(f.href) && (forall|i: int|
        0 <= i < f.anchor.len() ==> f.anchor[i] != ']')
}

pub open spec fn wf_refs(fs: Seq<RefGhost>) -> bool {
    forall|i: int| 0 <= i < fs.len() ==> wf_ref(#[trigger] fs[i])
}

/// Law: a well-formed reference list reads back from its own rendering.
pub proof fn lemma_refs_round_trip(s: Seq<char>, k: int, fs: Seq<RefGhost>)
    requires
        0 <= k <= s.len(),
        s.skip(k) == gen_refs(fs),
        wf_refs(fs),
    ensures
        refs_of_text(s, k) == Option::Some(fs),
        fs.len() > 0 ==> is_ref_start(s, k),
    decreases fs.len(),
{
    if fs.len() == 0 {
        assert(s.skip(k).len() == 0);
        assert(k == s.len());
        assert(refs_of_text(s, k) == Option::Some(Seq::<RefGhost>::empty()));
        assert(Seq::<RefGhost>::empty() =~= fs);
    } else {
        let f = fs[0];
        assert(wf_ref(f));
        let line = seq!['['] + f.anchor + seq![']', ':', ' '] + f.href;
        let whole = gen_refs(fs);
        assert(whole == gen_ref(f) + gen_refs(fs.skip(1)));
        assert(gen_ref(f) =~= line + seq!['\n']);
        let ll = line.len() as int;
        assert(s.skip(k).len() == gen_refs(fs).len());
        assert(k + ll < s.len());
        // the line runs to its own break
        assert forall|j: int| k <= j < k + ll implies #[trigger] s[j] != '\n' by {
            let i = j - k;
            assert(s[j] == (s.skip(k))[i]);
            assert((s.skip(k))[i] == (gen_ref(f) + gen_refs(fs.skip(1)))[i]);
            assert((gen_ref(f) + gen_refs(fs.skip(1)))[i] == gen_ref(f)[i]);
            assert(gen_ref(f)[i] == line[i]);
            assert(line[i] != '\n');
        }
        assert(s[k + ll] == (s.skip(k))[ll]);
        assert((s.skip(k))[ll] == gen_ref(f)[ll]);
        assert(gen_ref(f)[ll] == '\n');
        lemma_line_end_is(s, k, k + ll);
        let e = line_end(s, k);
        assert(e == k + ll);
        assert(s[k] == (s.skip(k))[0]);
        assert((s.skip(k))[0] == gen_ref(f)[0]);
        assert(s[k] == '[');
        assert(s[k] != '\n');
        let sub = s.subrange(k, e);
        assert forall|i: int| 0 <= i < ll implies sub[i] == line[i] by {
            assert(sub[i] == s[k + i]);
            assert(s[k + i] == (s.skip(k))[i]);
            assert((s.skip(k))[i] == gen_ref(f)[i]);
        }
        assert(sub =~= line);
        // the anchor closes at its own bracket
        let cb = 1 + f.anchor.len() as int;
        assert(forall|i: int| 1 <= i < cb ==> line[i] != ']') by {
            assert(forall|i: int| 1 <= i < cb ==> line[i] == f.anchor[i - 1]);
        }
        assert(line[cb] == ']');
        lemma_find_chr_is(line, 1, ']', cb);
        assert(line.subrange(cb + 1, cb + 3) =~= seq![':', ' ']);
        assert(begins_at(line, cb + 1, seq![':', ' ']));
        assert(line.subrange(1, cb) =~= f.anchor);
        assert(line.skip(cb + 3) =~= f.href);
        assert(ref_of_line(sub) == Option::Some(f));
        // what follows is the rest of the list
        assert(e < s.len());
        assert forall|i: int| 0 <= i < s.len() - e - 1 implies (s.skip(e + 1))[i] == gen_refs(
            fs.skip(1),
        )[i] by {
            assert((s.skip(e + 1))[i] == s[e + 1 + i]);
            assert(s[e + 1 + i] == (s.skip(k))[ll + 1 + i]);
            assert((s.skip(k))[ll + 1 + i] == gen_refs(fs.skip(1))[i]);
        }
        assert(s.skip(e + 1) =~= gen_refs(fs.skip(1)));
        assert(wf_refs(fs.skip(1))) by {
            assert(forall|i: int| 0 <= i < fs.skip(1).len() ==> fs.skip(1)[i] == fs[i + 1]);
        }
        lemma_refs_round_trip(s, e + 1, fs.skip(1));
        assert(refs_of_text(s, k) == Option::Some(seq![f] + fs.skip(1)));
        assert(seq![f] + fs.skip(1) =~= fs);
    }
}


// ---------------------------------------------------------------------------
// Peeling generated text apart
// ---------------------------------------------------------------------------

/// The piece `a` sits at `k`, character for character, and `b` follows it.
pub proof fn lemma_slab(s: Seq<char>, k: int, a: Seq<char>, b: Seq<char>)
    requires
        0 <= k <= s.len(),
        s.skip(k) == a + b,
    ensures
        k + a.len() + b.len() == s.len(),
        forall|j: int| k <= j < k + a.len() ==> #[trigger] s[j] == a[j - k],
        s.subrange(k, k + a.len()) == a,
        s.skip(k + a.len()) == b,
{
    assert(s.skip(k).len() == a.len() + b.len());
    assert forall|j: int| k <= j < k + a.len() implies #[trigger] s[j] == a[j - k] by {
        assert(s[j] == (s.skip(k))[j - k]);
        assert((s.skip(k))[j - k] == (a + b)[j - k]);
    }
    assert(s.subrange(k, k + a.len()) =~= a);
    assert forall|j: int| 0 <= j < b.len() implies (s.skip(k + a.len()))[j] == b[j] by {
        assert((s.skip(k + a.len()))[j] == s[k + a.len() + j]);
        assert(s[k + a.len() + j] == (s.skip(k))[a.len() + j]);
        assert((s.skip(k))[a.len() + j] == (a + b)[a.len() + j]);
    }
    assert(s.skip(k + a.len()) =~= b);
}

/// A stop position for the intro scan: no heading opens a line before it,
/// and a heading (or the end) stands at it.
pub proof fn lemma_intro_end_is(s: Seq<char>, k: int, p: int)
    requires
        0 <= k <= p <= s.len(),
        forall|j: int|
            k <= j < p && (j == k || s[j - 1] == '\n') ==> !begins_at(s, j, m_h2()),
        p < s.len() ==> (p == k || s[p - 1] == '\n') && begins_at(s, p, m_h2()),
    ensures
        intro_end(s, k) == p,
    decreases p - k,
{
    if k == p {
    } else {
        assert(!begins_at(s, k, m_h2()));
        lemma_line_end(s, k);
        let e = line_end(s, k);
        if e >= s.len() {
            if p < s.len() {
                assert(s[p - 1] == '\n');
                assert(false);
            }
        } else {
            if p < s.len() {
                assert(s[p - 1] == '\n');
                assert(e <= p - 1);
            }
            lemma_intro_end_is(s, e + 1, p);
        }
    }
}

/// A stop position for a release-body scan: no boundary opens a line before
/// it, and a boundary (or the end) stands at it.
pub proof fn lemma_text_end_is(s: Seq<char>, k: int, p: int)
    requires
        0 <= k <= p <= s.len(),
        forall|j: int| k <= j < p && (j == k || s[j - 1] == '\n') ==> !at_boundary(s, j),
        p < s.len() ==> (p == k || s[p - 1] == '\n') && at_boundary(s, p),
    ensures
        text_end(s, k) == p,
    decreases p - k,
{
    if k == p {
    } else {
        assert(!at_boundary(s, k));
        lemma_line_end(s, k);
        let e = line_end(s, k);
        if e >= s.len() {
            if p < s.len() {
                assert(s[p - 1] == '\n');
                assert(false);
            }
        } else {
            if p < s.len() {
                assert(s[p - 1] == '\n');
                assert(e <= p - 1);
            }
            lemma_text_end_is(s, e + 1, p);
        }
    }
}

// ---------------------------------------------------------------------------
// Well-formed models: what parsing guarantees and generation inverts
// ---------------------------------------------------------------------------

pub open spec fn is_line_start(t: Seq<char>, j: int) -> bool {
    0 <= j < t.len() && (j == 0 || t[j - 1] == '\n')
}

/// Free text: no line of it opens a release heading, a section heading, or a
/// reference definition, so a scan passes over all of it.
pub open spec fn free_text(t: Seq<char>) -> bool {
    forall|j: int|
        #[trigger] is_line_start(t, j) ==> !begins_at(t, j, m_h2()) && !begins_at(t, j, m_h3())
            && !is_ref_start(t, j)
}

/// An item as the parser leaves it: clear of surrounding whitespace.
pub open spec fn wf_item(it: Seq<char>) -> bool {
    trimmed(it) == it
}

pub open spec fn wf_items(items: Seq<Seq<char>>) -> bool {
    forall|i: int| 0 <= i < items.len() ==> wf_item(#[trigger] items[i])
}

/// A release as the parser leaves it: a released block carries a
/// well-formed version and date and an unreleased one carries neither, its
/// intro is free text that closes its final line, and its items are trimmed.
/// A release whose intro does not close its final line is `bare`: nothing
/// may follow it, not even its own sections.
pub open spec fn wf_release(r: ReleaseGhost, bare_ok: bool) -> bool {
    &&& match r.version {
        VersionGhost::Released(v) => sv_wf(v) && r.date is Some,
        VersionGhost::Unreleased => r.date is None,
    }
    &&& match r.date {
        Option::Some(d) => date_wf(d),
        Option::None => true,
    }
    &&& free_text(r.intro)
    &&& (r.intro.len() == 0 || r.intro.last() == '\n' || (bare_ok && r.added.len() == 0
        && r.removed.len() == 0 && r.fixed.len() == 0 && r.changed.len() == 0))
    &&& wf_items(r.added)
    &&& wf_items(r.removed)
    &&& wf_items(r.fixed)
    &&& wf_items(r.changed)
}

/// A document as the parser leaves it: the intro opens no release heading
/// and closes its final line whenever releases follow, every release is
/// well-formed with only the last one possibly bare, and the references are
/// well-shaped and stand only behind at least one release.
pub open spec fn wf_doc(m: ChangelogGhost) -> bool {
    &&& (forall|j: int| #[trigger] is_line_start(m.intro, j) ==> !begins_at(m.intro, j, m_h2()))
    &&& (m.releases.len() > 0 ==> (m.intro.len() == 0 || m.intro.last() == '\n'))
    &&& (m.releases.len() == 0 ==> m.refs.len() == 0)
    &&& (forall|i: int|
        0 <= i < m.releases.len() ==> wf_release(
            #[trigger] m.releases[i],
            i == m.releases.len() - 1 && m.refs.len() == 0,
        ))
    &&& wf_refs(m.refs)
}


// ---------------------------------------------------------------------------
// Bullets read back from their rendering
// ---------------------------------------------------------------------------

/// Re-indentation leaves text without line breaks alone.
proof fn lemma_body_no_nl(u: Seq<char>)
    requires
        no_nl(u),
    ensures
        item_body(u) == u,
    decreases u.len(),
{
    if u.len() == 0 {
    } else {
        assert(u[0] != '\n');
        if begins_at(u, 0, seq!['\n']) {
            assert(u.subrange(0, 1) == seq!['\n']);
            assert(u.subrange(0, 1)[0] == u[0]);
            assert(u[0] == '\n');
        }
        assert(!begins_at(u, 0, seq!['\n']));
        assert(no_nl(u.skip(1))) by {
            assert(forall|i: int| 0 <= i < u.skip(1).len() ==> u.skip(1)[i] == u[i + 1]);
        }
        lemma_body_no_nl(u.skip(1));
        assert(item_body(u) == seq![u[0]] + item_body(u.skip(1)));
        assert(seq![u[0]] + u.skip(1) =~= u);
    }
}

/// Re-indentation splits at the first line break.
proof fn lemma_body_split(u: Seq<char>, w: Seq<char>)
    requires
        no_nl(u),
    ensures
        item_body(u + seq!['\n'] + w) == u + seq!['\n', ' ', ' '] + item_body(w),
    decreases u.len(),
{
    let t = u + seq!['\n'] + w;
    if u.len() == 0 {
        assert(t =~= seq!['\n'] + w);
        assert(t.len() > 0);
        assert(t.subrange(0, 1) =~= seq!['\n']);
        assert(begins_at(t, 0, seq!['\n']));
        assert(t.skip(1) =~= w);
        assert(item_body(t) == seq!['\n', ' ', ' '] + item_body(w));
        assert(u + seq!['\n', ' ', ' '] + item_body(w) =~= seq!['\n', ' ', ' '] + item_body(w));
    } else {
        assert(t.len() > 0);
        assert(t[0] == u[0]);
        assert(u[0] != '\n');
        if begins_at(t, 0, seq!['\n']) {
            assert(t.subrange(0, 1) == seq!['\n']);
            assert(t.subrange(0, 1)[0] == t[0]);
            assert(t[0] == '\n');
        }
        assert(!begins_at(t, 0, seq!['\n']));
        assert(no_nl(u.skip(1))) by {
            assert(forall|i: int| 0 <= i < u.skip(1).len() ==> u.skip(1)[i] == u[i + 1]);
        }
        lemma_body_split(u.skip(1), w);
        assert(t.skip(1) =~= u.skip(1) + seq!['\n'] + w);
        assert(item_body(t) == seq![t[0]] + item_body(t.skip(1)));
        assert(seq![u[0]] + (u.skip(1) + seq!['\n', ' ', ' '] + item_body(w)) =~= u + seq![
            '\n',
            ' ',
            ' ',
        ] + item_body(w));
    }
}

/// The run of continuation lines that a tail's re-indentation prints reads
/// back as that tail, one break before each of its lines.
#[verifier::rlimit(80)]
proof fn lemma_conts_region(s: Seq<char>, k: int, w: Seq<char>, after: Seq<char>)
    requires
        0 <= k <= s.len(),
        s.skip(k) == seq![' ', ' '] + item_body(w) + seq!['\n'] + after,
        after.len() == 0 || after[0] != ' ',
    ensures
        conts_of_text(s, k) == (seq!['\n'] + w, k + 3 + item_body(w).len()),
    decreases w.len(),
{
    let e0 = line_end(w, 0);
    lemma_line_end(w, 0);
    let u = w.take(e0);
    assert(no_nl(u)) by {
        assert(forall|i: int| 0 <= i < u.len() ==> u[i] == w[i]);
    }
    if e0 == w.len() {
        // one continuation line and no more
        assert(u =~= w);
        lemma_body_no_nl(w);
        assert(s.skip(k) =~= (seq![' ', ' '] + w) + (seq!['\n'] + after));
        lemma_slab(s, k, seq![' ', ' '] + w, seq!['\n'] + after);
        assert(begins_at(s, k, seq![' ', ' '])) by {
            assert(s.subrange(k, k + 2) =~= (seq![' ', ' '] + w).subrange(0, 2));
            assert((seq![' ', ' '] + w).subrange(0, 2) =~= seq![' ', ' ']);
        }
        assert(begins_at(s, k, m_cont()));
        assert forall|j: int| k <= j < k + 2 + w.len() implies #[trigger] s[j] != '\n' by {
            assert(s[j] == (seq![' ', ' '] + w)[j - k]);
        }
        assert(s[k + 2 + w.len()] == (seq!['\n'] + after)[0]);
        lemma_line_end_is(s, k, k + 2 + w.len());
        let e = line_end(s, k);
        assert(e == k + 2 + w.len());
        assert(s.subrange(k + 2, e) =~= w);
        assert(e < s.len());
        if e + 1 < s.len() {
            assert(s[e + 1] == (s.skip(k + 2 + w.len()))[1]);
            assert((seq!['\n'] + after)[1] == after[0]);
            assert(s[e + 1] == after[0]);
            assert(after[0] != ' ');
            if begins_at(s, e + 1, m_cont()) {
                assert(s.subrange(e + 1, e + 3)[0] == ' ');
            }
            assert(!begins_at(s, e + 1, m_cont()));
        }
        assert(conts_of_text(s, e + 1) == (Seq::<char>::empty(), e + 1));
        assert(conts_of_text(s, k) == (seq!['\n'] + s.subrange(k + 2, e)
            + Seq::<char>::empty(), e + 1));
        assert(seq!['\n'] + s.subrange(k + 2, e) + Seq::<char>::empty() =~= seq!['\n'] + w);
    } else {
        // this line, then the rest of the run
        let rest = w.skip(e0 + 1);
        assert(w =~= u + seq!['\n'] + rest);
        lemma_body_split(u, rest);
        assert(item_body(w) == u + seq!['\n', ' ', ' '] + item_body(rest));
        let head = seq![' ', ' '] + u + seq!['\n'];
        assert(s.skip(k) =~= head + (seq![' ', ' '] + item_body(rest) + seq!['\n'] + after)) by {
            assert(s.skip(k) =~= seq![' ', ' '] + (u + seq!['\n', ' ', ' '] + item_body(rest))
                + seq!['\n'] + after);
        }
        lemma_slab(s, k, head, seq![' ', ' '] + item_body(rest) + seq!['\n'] + after);
        assert(begins_at(s, k, m_cont())) by {
            assert(s.subrange(k, k + 2) =~= head.subrange(0, 2));
            assert(head.subrange(0, 2) =~= m_cont());
        }
        assert forall|j: int| k <= j < k + 2 + u.len() implies #[trigger] s[j] != '\n' by {
            assert(s[j] == head[j - k]);
        }
        assert(s[k + 2 + u.len()] == head[2 + u.len() as int]);
        lemma_line_end_is(s, k, k + 2 + u.len());
        let e = line_end(s, k);
        assert(e == k + 2 + u.len());
        assert(s.subrange(k + 2, e) =~= u);
        assert(e + 1 == k + head.len());
        assert(e < s.len());
        lemma_conts_region(s, e + 1, rest, after);
        let inner = conts_of_text(s, e + 1);
        assert(conts_of_text(s, k) == (seq!['\n'] + s.subrange(k + 2, e) + inner.0, inner.1));
        assert(seq!['\n'] + u + (seq!['\n'] + rest) =~= seq!['\n'] + w);
        assert(inner.1 == e + 1 + 3 + item_body(rest).len());
        assert(k + 3 + item_body(w).len() == inner.1);
    }
}

/// One bullet reads back as exactly the item it rendered.
#[verifier::rlimit(80)]
proof fn lemma_item_region(s: Seq<char>, k: int, it: Seq<char>, after: Seq<char>)
    requires
        0 <= k <= s.len(),
        s.skip(k) == gen_item(it) + after,
        after.len() == 0 || after[0] != ' ',
    ensures
        begins_at(s, k, m_bullet()),
        item_of_text(s, k) == (it, k + gen_item(it).len()),
{
    let e0 = line_end(it, 0);
    lemma_line_end(it, 0);
    let u = it.take(e0);
    assert(no_nl(u)) by {
        assert(forall|i: int| 0 <= i < u.len() ==> u[i] == it[i]);
    }
    if e0 == it.len() {
        assert(u =~= it);
        lemma_body_no_nl(it);
        assert(gen_item(it) =~= seq!['-', ' '] + it + seq!['\n']);
        assert(s.skip(k) =~= (seq!['-', ' '] + it) + (seq!['\n'] + after));
        lemma_slab(s, k, seq!['-', ' '] + it, seq!['\n'] + after);
        assert(begins_at(s, k, m_bullet())) by {
            assert(s.subrange(k, k + 2) =~= (seq!['-', ' '] + it).subrange(0, 2));
            assert((seq!['-', ' '] + it).subrange(0, 2) =~= m_bullet());
        }
        assert forall|j: int| k <= j < k + 2 + it.len() implies #[trigger] s[j] != '\n' by {
            assert(s[j] == (seq!['-', ' '] + it)[j - k]);
        }
        assert(s[k + 2 + it.len()] == (seq!['\n'] + after)[0]);
        lemma_line_end_is(s, k, k + 2 + it.len());
        let e = line_end(s, k);
        assert(e == k + 2 + it.len());
        assert(s.subrange(k + 2, e) =~= it);
        assert(e < s.len());
        if e + 1 >= s.len() {
            assert(conts_of_text(s, e + 1) == (Seq::<char>::empty(), e + 1));
        } else {
            assert(s[e + 1] == (s.skip(k + 2 + it.len()))[1]);
            assert((seq!['\n'] + after)[1] == after[0]);
            assert(s[e + 1] == after[0]);
            if begins_at(s, e + 1, m_cont()) {
                assert(s.subrange(e + 1, e + 3)[0] == ' ');
            }
            assert(!begins_at(s, e + 1, m_cont()));
        }
        assert(conts_of_text(s, e + 1) == (Seq::<char>::empty(), e + 1));
        assert(it + Seq::<char>::empty() =~= it);
    } else {
        let rest = it.skip(e0 + 1);
        assert(it =~= u + seq!['\n'] + rest);
        lemma_body_split(u, rest);
        assert(item_body(it) == u + seq!['\n', ' ', ' '] + item_body(rest));
        let head = seq!['-', ' '] + u + seq!['\n'];
        assert(s.skip(k) =~= head + (seq![' ', ' '] + item_body(rest) + seq!['\n'] + after)) by {
            assert(s.skip(k) =~= seq!['-', ' '] + (u + seq!['\n', ' ', ' '] + item_body(rest))
                + seq!['\n'] + after);
        }
        lemma_slab(s, k, head, seq![' ', ' '] + item_body(rest) + seq!['\n'] + after);
        assert(begins_at(s, k, m_bullet())) by {
            assert(s.subrange(k, k + 2) =~= head.subrange(0, 2));
            assert(head.subrange(0, 2) =~= m_bullet());
        }
        assert forall|j: int| k <= j < k + 2 + u.len() implies #[trigger] s[j] != '\n' by {
            assert(s[j] == head[j - k]);
        }
        assert(s[k + 2 + u.len()] == head[2 + u.len() as int]);
        lemma_line_end_is(s, k, k + 2 + u.len());
        let e = line_end(s, k);
        assert(e == k + 2 + u.len());
        assert(s.subrange(k + 2, e) =~= u);
        assert(e < s.len());
        lemma_conts_region(s, e + 1, rest, after);
        let inner = conts_of_text(s, e + 1);
        assert(item_of_text(s, k) == (s.subrange(k + 2, e) + inner.0, inner.1));
        assert(u + (seq!['\n'] + rest) =~= it);
        assert(inner.1 == k + gen_item(it).len());
    }
}


/// A boundary line opens with a marker, so it is neither blank nor a bullet.
proof fn lemma_boundary_shape(s: Seq<char>, p: int)
    requires
        0 <= p < s.len(),
        at_boundary(s, p),
    ensures
        s[p] != '\n',
        s[p] == '#' || s[p] == '[',
        !begins_at(s, p, m_bullet()),
        !begins_at(s, p, m_cont()),
{
    lemma_line_end(s, p);
    if begins_at(s, p, m_h2()) {
        assert(s.subrange(p, p + 4)[0] == s[p]);
        assert(m_h2()[0] == '#');
    } else if begins_at(s, p, m_h3()) {
        assert(s.subrange(p, p + 4)[0] == s[p]);
        assert(m_h3()[0] == '#');
    } else {
        assert(is_ref_start(s, p));
        let sub = s.subrange(p, line_end(s, p));
        if s[p] == '\n' {
            assert(line_end(s, p) == p);
            assert(sub.len() == 0);
            assert(ref_of_line(sub) is None);
            assert(false);
        }
        assert(line_end(s, p) > p);
        assert(sub[0] == s[p]);
        assert(sub.len() > 0 && sub[0] == '[');
    }
    if begins_at(s, p, m_bullet()) {
        assert(s.subrange(p, p + 2)[0] == s[p]);
        assert(m_bullet()[0] == '-');
    }
    if begins_at(s, p, m_cont()) {
        assert(s.subrange(p, p + 2)[0] == s[p]);
        assert(m_cont()[0] == ' ');
    }
}

/// A section's bullet list, with its closing blank line, reads back as
/// exactly its items.
proof fn lemma_items_region(s: Seq<char>, k: int, items: Seq<Seq<char>>, tail: Seq<char>)
    requires
        0 <= k <= s.len(),
        s.skip(k) == gen_items(items) + seq!['\n'] + tail,
        wf_items(items),
        at_boundary(s, k + gen_items(items).len() + 1),
    ensures
        items_of_text(s, k) == Option::Some((items, k + gen_items(items).len() + 1)),
    decreases items.len(),
{
    if items.len() == 0 {
        assert(gen_items(items) == Seq::<char>::empty());
        assert(s.skip(k) =~= Seq::<char>::empty() + (seq!['\n'] + tail));
        lemma_slab(s, k, Seq::<char>::empty(), seq!['\n'] + tail);
        assert(s[k] == (s.skip(k))[0]);
        assert((seq!['\n'] + tail)[0] == '\n');
        assert(s[k] == '\n');
        let p = k + 1;
        if p >= s.len() {
            assert(items_of_text(s, p) == Option::Some((Seq::<Seq<char>>::empty(), p)));
        } else {
            lemma_boundary_shape(s, p);
            assert(items_of_text(s, p) == Option::Some((Seq::<Seq<char>>::empty(), p)));
        }
        assert(Seq::<Seq<char>>::empty() =~= items);
    } else {
        let it = items[0];
        let rest = items.skip(1);
        let after0 = gen_items(rest) + seq!['\n'] + tail;
        assert(gen_items(items) == gen_item(it) + gen_items(rest));
        assert(s.skip(k) =~= gen_item(it) + after0);
        if rest.len() == 0 {
            assert(gen_items(rest) == Seq::<char>::empty());
            assert(after0 =~= seq!['\n'] + tail);
            assert(after0[0] == '\n');
        } else {
            assert(gen_items(rest) == gen_item(rest[0]) + gen_items(rest.skip(1)));
            assert(after0[0] == gen_item(rest[0])[0]);
            assert(gen_item(rest[0])[0] == '-');
        }
        assert(after0[0] != ' ');
        lemma_item_region(s, k, it, after0);
        assert(s.subrange(k, k + 2)[0] == s[k]);
        assert(s[k] == '-');
        assert(s[k] != '\n');
        let k2 = k + gen_item(it).len();
        lemma_slab(s, k, gen_item(it), after0);
        assert(wf_items(rest)) by {
            assert(forall|i: int| 0 <= i < rest.len() ==> rest[i] == items[i + 1]);
        }
        lemma_items_region(s, k2, rest, tail);
        assert(trimmed(it) == it);
        let q = items_of_text(s, k2).unwrap();
        assert(items_of_text(s, k) == Option::Some((seq![it] + q.0, q.1)));
        assert(seq![it] + rest =~= items);
        assert(q.1 == k + gen_items(items).len() + 1);
    }
}

/// One rendered section reads back as its folded heading and its items.
proof fn lemma_section_region(
    s: Seq<char>,
    k: int,
    name: Seq<char>,
    items: Seq<Seq<char>>,
    tail: Seq<char>,
)
    requires
        0 <= k <= s.len(),
        s.skip(k) == gen_section(name, items) + tail,
        items.len() > 0,
        wf_items(items),
        no_nl(name),
        at_boundary(s, k + gen_section(name, items).len()),
    ensures
        begins_at(s, k, m_h3()),
        section_of_text(s, k) == Option::Some(
            (folded(name), items, k + gen_section(name, items).len()),
        ),
{
    let head = m_h3() + name + seq!['\n'];
    let mid = seq!['\n'] + gen_items(items) + seq!['\n'] + tail;
    assert(s.skip(k) =~= head + mid);
    lemma_slab(s, k, head, mid);
    assert(begins_at(s, k, m_h3())) by {
        assert(s.subrange(k, k + 4) =~= head.subrange(0, 4));
        assert(head.subrange(0, 4) =~= m_h3());
    }
    assert forall|j: int| k <= j < k + 4 + name.len() implies #[trigger] s[j] != '\n' by {
        assert(s[j] == head[j - k]);
        if j - k >= 4 {
            assert(head[j - k] == name[j - k - 4]);
        }
    }
    assert(s[k + 4 + name.len()] == head[4 + name.len() as int]);
    lemma_line_end_is(s, k, k + 4 + name.len() as int);
    let e = line_end(s, k);
    assert(e == k + 4 + name.len());
    assert(s.subrange(k + 4, e) =~= name);
    assert(e < s.len());
    // the blank line after the heading is skipped before the bullets
    assert(mid =~= seq!['\n'] + (gen_items(items) + seq!['\n'] + tail));
    lemma_slab(s, k + head.len() as int, seq!['\n'], gen_items(items) + seq!['\n'] + tail);
    assert(s[e + 1] == '\n');
    lemma_items_region(s, e + 2, items, tail);
    assert(items_of_text(s, e + 1) == items_of_text(s, e + 2));
    assert(section_of_text(s, k) == Option::Some(
        (folded(name), items, e + 2 + gen_items(items).len() + 1),
    ));
    assert(e + 2 + gen_items(items).len() + 1 == k + gen_section(name, items).len());
}


/// The canonical section headings fold to the names the parser matches,
/// and those names are pairwise distinct.
proof fn lemma_fold_names()
    ensures
        folded("Added"@) == "added"@,
        folded("Fixed"@) == "fixed"@,
        folded("Changed"@) == "changed"@,
        folded("Removed"@) == "removed"@,
        "added"@ != "removed"@,
        "fixed"@ != "added"@,
        "fixed"@ != "removed"@,
        "changed"@ != "added"@,
        "changed"@ != "removed"@,
        "changed"@ != "fixed"@,
{
    reveal_strlit("Added");
    reveal_strlit("added");
    reveal_strlit("Fixed");
    reveal_strlit("fixed");
    reveal_strlit("Changed");
    reveal_strlit("changed");
    reveal_strlit("Removed");
    reveal_strlit("removed");
    assert forall|i: int| 0 <= i < 5 implies folded("Added"@)[i] == "added"@[i] by {
        assert(folded("Added"@)[i] == lower_chr("Added"@[i]));
    }
    assert(folded("Added"@) =~= "added"@);
    assert forall|i: int| 0 <= i < 5 implies folded("Fixed"@)[i] == "fixed"@[i] by {
        assert(folded("Fixed"@)[i] == lower_chr("Fixed"@[i]));
    }
    assert(folded("Fixed"@) =~= "fixed"@);
    assert forall|i: int| 0 <= i < 7 implies folded("Changed"@)[i] == "changed"@[i] by {
        assert(folded("Changed"@)[i] == lower_chr("Changed"@[i]));
    }
    assert(folded("Changed"@) =~= "changed"@);
    assert forall|i: int| 0 <= i < 7 implies folded("Removed"@)[i] == "removed"@[i] by {
        assert(folded("Removed"@)[i] == lower_chr("Removed"@[i]));
    }
    assert(folded("Removed"@) =~= "removed"@);
    assert("added"@[0] != "fixed"@[0]);
    assert("changed"@[0] != "removed"@[0]);
}

/// The text between a heading's brackets and its optional date part.
pub open spec fn date_part(date: Option<crate::date::DateGhost>) -> Seq<char> {
    match date {
        Option::Some(d) => seq![' ', '-', ' '] + crate::date::date_text(d),
        Option::None => Seq::empty(),
    }
}

/// A heading line without its closing breaks.
pub open spec fn heading_line_text(ver: VersionGhost, date: Option<crate::date::DateGhost>) -> Seq<
    char,
> {
    m_h2() + ver_label(ver) + seq![']'] + date_part(date)
}

/// A label character is neither a line break nor a closing bracket.
proof fn lemma_label_chr_shape(c: char)
    requires
        crate::version::is_label_chr(c),
    ensures
        c != '\n',
        c != ']',
{
}

/// Law: a rendered heading line reads back as its version and date.
proof fn lemma_heading_line(ver: VersionGhost, date: Option<crate::date::DateGhost>)
    requires
        match ver {
            VersionGhost::Released(v) => sv_wf(v) && date is Some,
            VersionGhost::Unreleased => date is None,
        },
        match date {
            Option::Some(d) => date_wf(d),
            Option::None => true,
        },
    ensures
        heading_of_line(heading_line_text(ver, date)) == Option::Some((ver, date)),
        no_nl(heading_line_text(ver, date)),
{
    let line = heading_line_text(ver, date);
    let rest = line.skip(4);
    match ver {
        VersionGhost::Unreleased => {
            reveal_strlit("Unreleased");
            reveal_strlit("Unreleased]");
            assert(rest =~= "Unreleased"@ + seq![']']);
            assert(rest =~= "Unreleased]"@);
            assert(heading_of_line(line) == Option::Some(
                (VersionGhost::Unreleased, Option::None::<crate::date::DateGhost>),
            ));
            assert forall|i: int| 0 <= i < line.len() implies #[trigger] line[i] != '\n' by {
                if i < 4 {
                    assert(line[i] == m_h2()[i]);
                } else {
                    assert(line[i] == rest[i - 4]);
                    assert(rest[i - 4] == "Unreleased]"@[i - 4]);
                }
            }
        },
        VersionGhost::Released(v) => {
            let d = date->Some_0;
            let vt = semver_text(v);
            let lv = vt.len() as int;
            lemma_semver_text_chars(v);
            crate::date::lemma_date_text_shape(d);
            assert(rest =~= vt + seq![']'] + (seq![' ', '-', ' '] + crate::date::date_text(d)));
            reveal_strlit("Unreleased]");
            assert(rest.len() >= 19);
            assert(rest != "Unreleased]"@);
            assert forall|i: int| 0 <= i < lv implies rest[i] != ']' by {
                assert(rest[i] == vt[i]);
                lemma_label_chr_shape(vt[i]);
            }
            assert(rest[lv] == ']');
            lemma_find_chr_is(rest, 0, ']', lv);
            assert(rest.take(lv) =~= vt);
            let after = rest.skip(lv + 1);
            assert(after =~= seq![' ', '-', ' '] + crate::date::date_text(d));
            assert(after.len() == 13);
            assert(after.take(3) =~= seq![' ', '-', ' ']);
            assert(after.skip(3) =~= crate::date::date_text(d));
            lemma_semver_text_round_trip(v);
            lemma_date_text_round_trip(d);
            assert(heading_of_line(line) == Option::Some((ver, date)));
            assert forall|i: int| 0 <= i < line.len() implies #[trigger] line[i] != '\n' by {
                if i < 4 {
                    assert(line[i] == m_h2()[i]);
                } else if i - 4 < lv {
                    assert(line[i] == rest[i - 4]);
                    assert(rest[i - 4] == vt[i - 4]);
                    lemma_label_chr_shape(vt[i - 4]);
                } else if i - 4 == lv {
                    assert(line[i] == rest[i - 4]);
                } else {
                    assert(line[i] == rest[i - 4]);
                    assert(rest[i - 4] == after[i - 4 - lv - 1]);
                    if i - 4 - lv - 1 >= 3 {
                        assert(after[i - 4 - lv - 1] == crate::date::date_text(d)[i - 8 - lv]);
                    }
                }
            }
        },
    }
}


// ---------------------------------------------------------------------------
// The four sections of a release
// ---------------------------------------------------------------------------

/// What the parser stops a section run at: the next release heading, the
/// reference list, or the end of the document.
pub open spec fn sections_stop(s: Seq<char>, p: int) -> bool {
    p >= s.len() || begins_at(s, p, m_h2()) || is_ref_start(s, p)
}

/// One parsed section folded into the record, as the parser folds it.
pub open spec fn sec_apply(acc: ReleaseGhost, fname: Seq<char>, items: Seq<Seq<char>>) -> ReleaseGhost {
    if fname == "added"@ {
        ReleaseGhost { added: items, ..acc }
    } else if fname == "removed"@ {
        ReleaseGhost { removed: items, ..acc }
    } else if fname == "fixed"@ {
        ReleaseGhost { fixed: items, ..acc }
    } else if fname == "changed"@ {
        ReleaseGhost { changed: items, ..acc }
    } else {
        acc
    }
}

/// Headed item lists, rendered one after the other; an empty list renders
/// nothing.
pub open spec fn gen_sec_list(ps: Seq<(Seq<char>, Seq<Seq<char>>)>) -> Seq<char>
    decreases ps.len(),
{
    if ps.len() == 0 {
        Seq::empty()
    } else {
        gen_section(ps[0].0, ps[0].1) + gen_sec_list(ps.skip(1))
    }
}

/// The record after reading the rendered sections back: empty lists leave
/// no text and no trace, the others land in their fields.
pub open spec fn apply_secs(ps: Seq<(Seq<char>, Seq<Seq<char>>)>, acc: ReleaseGhost) -> ReleaseGhost
    decreases ps.len(),
{
    if ps.len() == 0 {
        acc
    } else if ps[0].1.len() == 0 {
        apply_secs(ps.skip(1), acc)
    } else {
        apply_secs(ps.skip(1), sec_apply(acc, folded(ps[0].0), ps[0].1))
    }
}

/// A pair carries one of the four canonical headings and trimmed items.
pub open spec fn wf_pair(p: (Seq<char>, Seq<Seq<char>>)) -> bool {
    (p.0 == "Added"@ || p.0 == "Fixed"@ || p.0 == "Changed"@ || p.0 == "Removed"@) && wf_items(p.1)
}

proof fn lemma_names_no_nl()
    ensures
        no_nl("Added"@),
        no_nl("Fixed"@),
        no_nl("Changed"@),
        no_nl("Removed"@),
{
    reveal_strlit("Added");
    reveal_strlit("Fixed");
    reveal_strlit("Changed");
    reveal_strlit("Removed");
}

/// A nonempty run of rendered sections opens with a section marker.
proof fn lemma_sec_list_head(ps: Seq<(Seq<char>, Seq<Seq<char>>)>)
    ensures
        gen_sec_list(ps).len() > 0 ==> gen_sec_list(ps).len() >= 4 && gen_sec_list(ps).subrange(
            0,
            4,
        ) == m_h3(),
    decreases ps.len(),
{
    if ps.len() > 0 {
        lemma_sec_list_head(ps.skip(1));
        let head = gen_section(ps[0].0, ps[0].1);
        let t = gen_sec_list(ps);
        if ps[0].1.len() == 0 {
            assert(head.len() == 0);
            assert(t =~= gen_sec_list(ps.skip(1)));
            if gen_sec_list(ps.skip(1)).len() > 0 {
                assert(t.subrange(0, 4) =~= gen_sec_list(ps.skip(1)).subrange(0, 4));
            }
        } else {
            assert(head.len() >= 4);
            assert forall|i: int| 0 <= i < 4 implies t.subrange(0, 4)[i] == m_h3()[i] by {
                assert(t[i] == head[i]);
                assert(head[i] == m_h3()[i]);
            }
            assert(t.subrange(0, 4) =~= m_h3());
        }
    }
}

/// A stop for the section run never opens a section marker itself.
proof fn lemma_stop_not_h3(s: Seq<char>, p: int)
    requires
        sections_stop(s, p),
    ensures
        !(0 <= p < s.len() && begins_at(s, p, m_h3())),
{
    if 0 <= p < s.len() && begins_at(s, p, m_h3()) {
        assert(s.subrange(p, p + 4)[2] == s[p + 2]);
        assert(s[p + 2] == '#');
        assert(s.subrange(p, p + 4)[0] == s[p]);
        assert(s[p] == '#');
        if begins_at(s, p, m_h2()) {
            assert(s.subrange(p, p + 4)[2] == ' ');
        } else {
            assert(is_ref_start(s, p));
            lemma_line_end(s, p);
            assert(s[p] != '\n');
            assert(line_end(s, p) > p);
            let sub = s.subrange(p, line_end(s, p));
            assert(sub[0] == s[p]);
            assert(sub.len() > 0 && sub[0] == '[');
        }
    }
}

/// Law: a run of rendered sections reads back into the record exactly.
proof fn lemma_sec_list_round_trip(
    s: Seq<char>,
    k: int,
    ps: Seq<(Seq<char>, Seq<Seq<char>>)>,
    acc: ReleaseGhost,
    tail: Seq<char>,
)
    requires
        0 <= k <= s.len(),
        s.skip(k) == gen_sec_list(ps) + tail,
        forall|i: int| 0 <= i < ps.len() ==> wf_pair(#[trigger] ps[i]),
        sections_stop(s, k + gen_sec_list(ps).len()),
    ensures
        sections_of_text(s, k, acc) == Option::Some(
            (apply_secs(ps, acc), k + gen_sec_list(ps).len()),
        ),
    decreases ps.len(),
{
    lemma_fold_names();
    if ps.len() == 0 {
        assert(gen_sec_list(ps).len() == 0);
        lemma_stop_not_h3(s, k);
        if 0 <= k < s.len() && begins_at(s, k, m_h3()) {
            assert(false);
        }
        assert(sections_of_text(s, k, acc) == Option::Some((acc, k)));
    } else {
        let head = gen_section(ps[0].0, ps[0].1);
        let rest_text = gen_sec_list(ps.skip(1));
        assert(gen_sec_list(ps) == head + rest_text);
        assert(wf_pair(ps[0]));
        assert(forall|i: int| 0 <= i < ps.skip(1).len() ==> ps.skip(1)[i] == ps[i + 1]);
        assert(forall|i: int| 0 <= i < ps.skip(1).len() ==> wf_pair(#[trigger] ps.skip(1)[i]));
        if ps[0].1.len() == 0 {
            assert(head.len() == 0);
            assert(s.skip(k) =~= rest_text + tail);
            assert(gen_sec_list(ps).len() == rest_text.len());
            lemma_sec_list_round_trip(s, k, ps.skip(1), acc, tail);
        } else {
            assert(s.skip(k) =~= head + (rest_text + tail));
            lemma_slab(s, k, head, rest_text + tail);
            let k2 = k + head.len() as int;
            lemma_sec_list_head(ps.skip(1));
            if rest_text.len() > 0 {
                assert(begins_at(s, k2, m_h3())) by {
                    assert forall|i: int| 0 <= i < 4 implies s.subrange(k2, k2 + 4)[i] == m_h3()[
                    i] by {
                        assert(s.subrange(k2, k2 + 4)[i] == s[k2 + i]);
                        assert(s[k2 + i] == (s.skip(k2))[i]);
                        assert((s.skip(k2))[i] == (rest_text + tail)[i]);
                        assert((rest_text + tail)[i] == rest_text[i]);
                        assert(rest_text[i] == rest_text.subrange(0, 4)[i]);
                    }
                    assert(s.subrange(k2, k2 + 4) =~= m_h3());
                }
                assert(at_boundary(s, k2));
            } else {
                assert(k2 == k + gen_sec_list(ps).len());
                assert(at_boundary(s, k2)) by {
                    if k2 < s.len() {
                        assert(sections_stop(s, k2));
                    }
                }
            }
            lemma_names_no_nl();
            lemma_section_region(s, k, ps[0].0, ps[0].1, rest_text + tail);
            assert(k < s.len());
            let fname = folded(ps[0].0);
            let acc2 = sec_apply(acc, fname, ps[0].1);
            assert(sections_of_text(s, k, acc) == sections_of_text(s, k2, acc2)) by {
                assert(section_of_text(s, k) == Option::Some((fname, ps[0].1, k2)));
            }
            lemma_sec_list_round_trip(s, k2, ps.skip(1), acc2, tail);
        }
    }
}


// ---------------------------------------------------------------------------
// One release block
// ---------------------------------------------------------------------------

/// The four headed lists of a release, in the order they render.
pub open spec fn sec_pairs(r: ReleaseGhost) -> Seq<(Seq<char>, Seq<Seq<char>>)> {
    seq![
        ("Added"@, r.added),
        ("Fixed"@, r.fixed),
        ("Changed"@, r.changed),
        ("Removed"@, r.removed),
    ]
}

proof fn lemma_sec_pairs(r: ReleaseGhost, base: ReleaseGhost)
    requires
        base.added.len() == 0,
        base.removed.len() == 0,
        base.fixed.len() == 0,
        base.changed.len() == 0,
    ensures
        gen_sec_list(sec_pairs(r)) == gen_section("Added"@, r.added) + gen_section(
            "Fixed"@,
            r.fixed,
        ) + gen_section("Changed"@, r.changed) + gen_section("Removed"@, r.removed),
        apply_secs(sec_pairs(r), base) == (ReleaseGhost {
            added: r.added,
            removed: r.removed,
            fixed: r.fixed,
            changed: r.changed,
            ..base
        }),
{
    lemma_fold_names();
    let ps = sec_pairs(r);
    assert(ps.skip(1) =~= seq![("Fixed"@, r.fixed), ("Changed"@, r.changed), ("Removed"@, r.removed)]);
    assert(ps.skip(1).skip(1) =~= seq![("Changed"@, r.changed), ("Removed"@, r.removed)]);
    assert(ps.skip(1).skip(1).skip(1) =~= seq![("Removed"@, r.removed)]);
    assert(ps.skip(1).skip(1).skip(1).skip(1) =~= Seq::<(Seq<char>, Seq<Seq<char>>)>::empty());
    let e4 = gen_sec_list(ps.skip(1).skip(1).skip(1).skip(1));
    assert(e4 == Seq::<char>::empty());
    assert(gen_sec_list(ps.skip(1).skip(1).skip(1)) =~= gen_section("Removed"@, r.removed));
    assert(gen_sec_list(ps.skip(1).skip(1)) =~= gen_section("Changed"@, r.changed) + gen_section(
        "Removed"@,
        r.removed,
    ));
    assert(gen_sec_list(ps.skip(1)) =~= gen_section("Fixed"@, r.fixed) + (gen_section(
        "Changed"@,
        r.changed,
    ) + gen_section("Removed"@, r.removed)));
    assert(gen_sec_list(ps) =~= gen_section("Added"@, r.added) + gen_section("Fixed"@, r.fixed)
        + gen_section("Changed"@, r.changed) + gen_section("Removed"@, r.removed));
    assert(ps[0] == ("Added"@, r.added));
    assert(ps.skip(1)[0] == ("Fixed"@, r.fixed));
    assert(ps.skip(1).skip(1)[0] == ("Changed"@, r.changed));
    assert(ps.skip(1).skip(1).skip(1)[0] == ("Removed"@, r.removed));
    let a1 = if r.added.len() == 0 {
        base
    } else {
        sec_apply(base, "added"@, r.added)
    };
    let a2 = if r.fixed.len() == 0 {
        a1
    } else {
        sec_apply(a1, "fixed"@, r.fixed)
    };
    let a3 = if r.changed.len() == 0 {
        a2
    } else {
        sec_apply(a2, "changed"@, r.changed)
    };
    let a4 = if r.removed.len() == 0 {
        a3
    } else {
        sec_apply(a3, "removed"@, r.removed)
    };
    assert(apply_secs(ps, base) == apply_secs(ps.skip(1), a1));
    assert(apply_secs(ps.skip(1), a1) == apply_secs(ps.skip(1).skip(1), a2));
    assert(apply_secs(ps.skip(1).skip(1), a2) == apply_secs(ps.skip(1).skip(1).skip(1), a3));
    assert(apply_secs(ps.skip(1).skip(1).skip(1), a3) == apply_secs(
        ps.skip(1).skip(1).skip(1).skip(1),
        a4,
    ));
    assert(apply_secs(ps, base) == a4);
    if r.added.len() == 0 {
        assert(base.added =~= r.added);
    }
    if r.fixed.len() == 0 {
        assert(base.fixed =~= r.fixed);
    }
    if r.changed.len() == 0 {
        assert(base.changed =~= r.changed);
    }
    if r.removed.len() == 0 {
        assert(base.removed =~= r.removed);
    }
    assert(a4 == (ReleaseGhost {
        added: r.added,
        removed: r.removed,
        fixed: r.fixed,
        changed: r.changed,
        ..base
    }));
}


/// No line of a release's own text stops the body scan.
#[verifier::rlimit(100)]
proof fn lemma_intro_not_boundary(s: Seq<char>, k2: int, intro: Seq<char>, rest2: Seq<char>)
    requires
        0 <= k2 <= s.len(),
        s.skip(k2) == intro + rest2,
        free_text(intro),
        intro.len() == 0 || intro.last() == '\n' || rest2.len() == 0,
    ensures
        forall|j: int|
            k2 <= j < k2 + intro.len() && (j == k2 || s[j - 1] == '\n') ==> !at_boundary(s, j),
{
    let li = intro.len() as int;
    lemma_slab(s, k2, intro, rest2);
    let p = k2 + li;
    assert forall|j: int|
        k2 <= j < p && (j == k2 || s[j - 1] == '\n') implies !at_boundary(s, j) by {
        let jj = j - k2;
        assert(s[j] == intro[jj]);
        assert(is_line_start(intro, jj)) by {
            if j > k2 {
                assert(s[j - 1] == intro[jj - 1]);
            }
        }
        assert(!begins_at(intro, jj, m_h2()) && !begins_at(intro, jj, m_h3()) && !is_ref_start(
            intro,
            jj,
        ));
        let bare = intro.last() != '\n';
        if bare {
            assert(rest2.len() == 0);
            assert(s.len() == p);
        }
        if begins_at(s, j, m_h2()) {
            if jj + 4 <= li {
                assert(s.subrange(j, j + 4) =~= intro.subrange(jj, jj + 4));
                assert(begins_at(intro, jj, m_h2()));
            } else {
                assert(j + 4 <= s.len());
                assert(!bare);
                assert(s[k2 + li - 1] == intro[li - 1]);
                assert(s.subrange(j, j + 4)[k2 + li - 1 - j] == s[k2 + li - 1]);
                assert(m_h2()[k2 + li - 1 - j] == '\n');
            }
            assert(false);
        }
        if begins_at(s, j, m_h3()) {
            if jj + 4 <= li {
                assert(s.subrange(j, j + 4) =~= intro.subrange(jj, jj + 4));
                assert(begins_at(intro, jj, m_h3()));
            } else {
                assert(j + 4 <= s.len());
                assert(!bare);
                assert(s[k2 + li - 1] == intro[li - 1]);
                assert(s.subrange(j, j + 4)[k2 + li - 1 - j] == s[k2 + li - 1]);
                assert(m_h3()[k2 + li - 1 - j] == '\n');
            }
            assert(false);
        }
        if is_ref_start(s, j) {
            let ei = line_end(intro, jj);
            lemma_line_end(intro, jj);
            assert forall|x: int| j <= x < k2 + ei implies #[trigger] s[x] != '\n' by {
                assert(s[x] == intro[x - k2]);
            }
            if ei < li {
                assert(s[k2 + ei] == intro[ei]);
                lemma_line_end_is(s, j, k2 + ei);
                assert(s.subrange(j, k2 + ei) =~= intro.subrange(jj, ei));
            } else {
                if intro.last() == '\n' {
                    assert(intro[li - 1] == '\n');
                    assert(ei <= li - 1);
                    assert(false);
                }
                assert(s.len() == p);
                lemma_line_end_is(s, j, s.len() as int);
                assert(s.subrange(j, s.len() as int) =~= intro.subrange(jj, ei));
            }
            assert(is_ref_start(intro, jj));
            assert(false);
        }
    }
}

/// Law: one rendered release block reads back as itself.
#[verifier::rlimit(100)]
proof fn lemma_release_round_trip(s: Seq<char>, k: int, r: ReleaseGhost, tail: Seq<char>)
    requires
        0 <= k <= s.len(),
        s.skip(k) == gen_release(r) + tail,
        wf_release(r, tail.len() == 0),
        sections_stop(s, k + gen_release(r).len()),
    ensures
        begins_at(s, k, m_h2()),
        rel_of_text(s, k) == Option::Some((r, k + gen_release(r).len())),
{
    let hl = heading_line_text(r.version, r.date);
    lemma_heading_line(r.version, r.date);
    let intro = r.intro;
    let li = intro.len() as int;
    let st = gen_sec_list(sec_pairs(r));
    lemma_sec_pairs(r, bare_release(r.version, r.date));
    assert(gen_release(r) =~= hl + seq!['\n', '\n'] + intro + st);
    assert(s.skip(k) =~= hl + (seq!['\n', '\n'] + intro + st + tail));
    lemma_slab(s, k, hl, seq!['\n', '\n'] + intro + st + tail);
    let lh = hl.len() as int;
    assert(begins_at(s, k, m_h2())) by {
        assert forall|i: int| 0 <= i < 4 implies s.subrange(k, k + 4)[i] == m_h2()[i] by {
            assert(s.subrange(k, k + 4)[i] == s[k + i]);
            assert(s[k + i] == hl[i]);
            assert(hl[i] == m_h2()[i]);
        }
        assert(s.subrange(k, k + 4) =~= m_h2());
    }
    // the heading line runs to the first generated break
    assert(s[k + lh] == (s.skip(k + lh))[0]);
    assert((seq!['\n', '\n'] + intro + st + tail)[0] == '\n');
    assert forall|j: int| k <= j < k + lh implies #[trigger] s[j] != '\n' by {
        assert(s[j] == hl[j - k]);
    }
    lemma_line_end_is(s, k, k + lh);
    let e = line_end(s, k);
    assert(e == k + lh);
    assert(s.subrange(k, e) =~= hl);
    assert(heading_of_line(s.subrange(k, e)) == Option::Some((r.version, r.date)));
    assert(e < s.len());
    let k1 = e + 1;
    assert(s.skip(k + lh) =~= seq!['\n', '\n'] + (intro + st + tail));
    lemma_slab(s, k + lh, seq!['\n', '\n'], intro + st + tail);
    assert(s[k1] == (s.skip(k + lh))[1]);
    assert(s[k1] == '\n');
    assert(k1 < s.len());
    let k2 = k1 + 1;
    assert(s.skip(k2) == intro + st + tail);
    assert(s.skip(k2) =~= intro + (st + tail));
    lemma_slab(s, k2, intro, st + tail);
    let p = k2 + li;
    // nothing in the release's own text stops the scan early
    assert(intro.len() == 0 || intro.last() == '\n' || (st + tail).len() == 0) by {
        if intro.len() > 0 && intro.last() != '\n' {
            assert(st.len() == 0 && tail.len() == 0);
        }
    }
    lemma_intro_not_boundary(s, k2, intro, st + tail);
    // a boundary stands where the intro ends
    lemma_sec_list_head(sec_pairs(r));
    if p < s.len() {
        assert(p == k2 || s[p - 1] == '\n') by {
            if li > 0 {
                assert(s[p - 1] == intro[li - 1]);
                if intro.last() != '\n' {
                    assert(st.len() == 0 && tail.len() == 0);
                    assert(s.len() == p);
                }
            }
        }
        assert(at_boundary(s, p)) by {
            if st.len() > 0 {
                assert(begins_at(s, p, m_h3())) by {
                    assert forall|i: int| 0 <= i < 4 implies s.subrange(p, p + 4)[i] == m_h3()[
                    i] by {
                        assert(s.subrange(p, p + 4)[i] == s[p + i]);
                        assert(s[p + i] == (s.skip(p))[i]);
                        assert((s.skip(p))[i] == (st + tail)[i]);
                        assert((st + tail)[i] == st[i]);
                        assert(st[i] == st.subrange(0, 4)[i]);
                    }
                    assert(s.subrange(p, p + 4) =~= m_h3());
                }
            } else {
                assert(p == k + gen_release(r).len());
                assert(sections_stop(s, p));
            }
        }
    }
    lemma_text_end_is(s, k2, p);
    assert(text_end(s, k2) == p);
    assert(s.subrange(k2, p) =~= intro);
    let base = ReleaseGhost { intro: s.subrange(k2, p), ..bare_release(r.version, r.date) };
    assert(forall|i: int| 0 <= i < sec_pairs(r).len() ==> wf_pair(#[trigger] sec_pairs(r)[i]));
    assert(sections_stop(s, p + st.len()));
    lemma_sec_list_round_trip(s, p, sec_pairs(r), base, tail);
    let fin = apply_secs(sec_pairs(r), base);
    assert(base.added.len() == 0 && base.removed.len() == 0 && base.fixed.len() == 0
        && base.changed.len() == 0);
    lemma_sec_pairs(r, base);
    assert(fin == r);
    assert(rel_of_text(s, k) == Option::Some((fin, p + st.len())));
    assert(p + st.len() == k + gen_release(r).len());
}


// ---------------------------------------------------------------------------
// The whole document
// ---------------------------------------------------------------------------

/// A rendered release block opens with the heading marker.
proof fn lemma_release_head(r: ReleaseGhost)
    ensures
        gen_release(r).len() >= 4,
        gen_release(r).subrange(0, 4) == m_h2(),
{
    let t = gen_release(r);
    let h = gen_heading(r);
    assert forall|i: int| 0 <= i < 4 implies t.subrange(0, 4)[i] == m_h2()[i] by {
        assert(t[i] == h[i]);
        assert(h[i] == m_h2()[i]);
    }
    assert(t.subrange(0, 4) =~= m_h2());
}

/// Law: a run of rendered release blocks reads back as itself.
#[verifier::rlimit(100)]
proof fn lemma_rels_round_trip(s: Seq<char>, k: int, rels: Seq<ReleaseGhost>, tail: Seq<char>)
    requires
        0 <= k <= s.len(),
        s.skip(k) == gen_releases(rels) + tail,
        forall|i: int|
            0 <= i < rels.len() ==> wf_release(
                #[trigger] rels[i],
                i == rels.len() - 1 && tail.len() == 0,
            ),
        k + gen_releases(rels).len() >= s.len() || is_ref_start(s, k + gen_releases(rels).len()),
    ensures
        rels_of_text(s, k) == Option::Some((rels, k + gen_releases(rels).len())),
    decreases rels.len(),
{
    let p_end = k + gen_releases(rels).len() as int;
    if rels.len() == 0 {
        assert(gen_releases(rels).len() == 0);
        if k < s.len() && begins_at(s, k, m_h2()) {
            assert(is_ref_start(s, k));
            lemma_line_end(s, k);
            assert(s.subrange(k, k + 4)[0] == s[k]);
            assert(s[k] == '#');
            assert(s[k] != '\n');
            assert(line_end(s, k) > k);
            let sub = s.subrange(k, line_end(s, k));
            assert(sub[0] == s[k]);
            assert(sub.len() > 0 && sub[0] == '[');
            assert(false);
        }
        assert(rels_of_text(s, k) == Option::Some((Seq::<ReleaseGhost>::empty(), k)));
        assert(Seq::<ReleaseGhost>::empty() =~= rels);
    } else {
        let r0 = rels[0];
        let rest = rels.skip(1);
        let tail0 = gen_releases(rest) + tail;
        assert(gen_releases(rels) == gen_release(r0) + gen_releases(rest));
        assert(s.skip(k) =~= gen_release(r0) + tail0);
        lemma_slab(s, k, gen_release(r0), tail0);
        let k2 = k + gen_release(r0).len() as int;
        assert(sections_stop(s, k2)) by {
            if rest.len() > 0 {
                assert(gen_releases(rest) == gen_release(rest[0]) + gen_releases(rest.skip(1)));
                lemma_release_head(rest[0]);
                assert(begins_at(s, k2, m_h2())) by {
                    assert forall|i: int| 0 <= i < 4 implies s.subrange(k2, k2 + 4)[i] == m_h2()[
                    i] by {
                        assert(s.subrange(k2, k2 + 4)[i] == s[k2 + i]);
                        assert(s[k2 + i] == (s.skip(k2))[i]);
                        assert((s.skip(k2))[i] == tail0[i]);
                        assert(tail0[i] == gen_releases(rest)[i]);
                        assert(gen_releases(rest)[i] == gen_release(rest[0])[i]);
                        assert(gen_release(rest[0])[i] == gen_release(rest[0]).subrange(0, 4)[i]);
                    }
                    assert(s.subrange(k2, k2 + 4) =~= m_h2());
                }
            } else {
                assert(k2 == p_end);
            }
        }
        assert(wf_release(r0, tail0.len() == 0)) by {
            assert(wf_release(rels[0], 0 == rels.len() - 1 && tail.len() == 0));
            if rels.len() > 1 {
                lemma_release_head(rest[0]);
                assert(gen_releases(rest).len() >= 4) by {
                    assert(gen_releases(rest) == gen_release(rest[0]) + gen_releases(
                        rest.skip(1),
                    ));
                }
                assert(tail0.len() > 0);
            }
        }
        lemma_release_round_trip(s, k, r0, tail0);
        assert(k < s.len());
        assert(forall|i: int| 0 <= i < rest.len() ==> rest[i] == rels[i + 1]);
        assert(forall|i: int|
            0 <= i < rest.len() ==> wf_release(
                #[trigger] rest[i],
                i == rest.len() - 1 && tail.len() == 0,
            ));
        lemma_rels_round_trip(s, k2, rest, tail);
        let q = rels_of_text(s, k2).unwrap();
        assert(rels_of_text(s, k) == Option::Some((seq![r0] + q.0, q.1)));
        assert(seq![r0] + rest =~= rels);
        assert(q.1 == p_end);
    }
}

/// A rendered reference list is as long as its lines.
proof fn lemma_gen_refs_len(fs: Seq<RefGhost>)
    ensures
        fs.len() > 0 ==> gen_refs(fs).len() > 0,
        fs.len() == 0 ==> gen_refs(fs).len() == 0,
{
    if fs.len() > 0 {
        assert(gen_refs(fs) == gen_ref(fs[0]) + gen_refs(fs.skip(1)));
        assert(gen_ref(fs[0]).len() >= 5);
    }
}


/// No line of the document's intro opens a release heading.
#[verifier::rlimit(100)]
proof fn lemma_doc_intro_scan(s: Seq<char>, intro: Seq<char>, body: Seq<char>)
    requires
        s == intro + body,
        forall|j: int| #[trigger] is_line_start(intro, j) ==> !begins_at(intro, j, m_h2()),
        body.len() > 0 ==> (intro.len() == 0 || intro.last() == '\n'),
    ensures
        forall|j: int|
            0 <= j < intro.len() && (j == 0 || s[j - 1] == '\n') ==> !begins_at(s, j, m_h2()),
{
    let li = intro.len() as int;
    assert(s.skip(0) =~= intro + body);
    lemma_slab(s, 0, intro, body);
    assert forall|j: int|
        0 <= j < li && (j == 0 || s[j - 1] == '\n') implies !begins_at(s, j, m_h2()) by {
        assert(s[j] == intro[j]);
        assert(is_line_start(intro, j)) by {
            if j > 0 {
                assert(s[j - 1] == intro[j - 1]);
            }
        }
        assert(!begins_at(intro, j, m_h2()));
        if begins_at(s, j, m_h2()) {
            if j + 4 <= li {
                assert(s.subrange(j, j + 4) =~= intro.subrange(j, j + 4));
                assert(begins_at(intro, j, m_h2()));
            } else {
                assert(j + 4 <= s.len());
                assert(body.len() > 0);
                assert(intro.last() == '\n');
                assert(s[li - 1] == intro[li - 1]);
                assert(s.subrange(j, j + 4)[li - 1 - j] == s[li - 1]);
                assert(m_h2()[li - 1 - j] == '\n');
            }
            assert(false);
        }
    }
}

/// Law: generating a well-formed document and parsing the text back yields
/// the same document. Together with the exact contracts of `parse_str` and
/// `generate_str`, parsing a generated document returns the model it came
/// from: the structural round trip.
#[verifier::rlimit(100)]
pub proof fn lemma_generate_parse_round_trip(m: ChangelogGhost)
    requires
        wf_doc(m),
    ensures
        doc_of_text(gen_doc(m)) == Option::Some(m),
{
    let s = gen_doc(m);
    let intro = m.intro;
    let li = intro.len() as int;
    let body = gen_releases(m.releases) + gen_refs(m.refs);
    assert(s =~= intro + body);
    assert(s.skip(0) =~= intro + body);
    lemma_slab(s, 0, intro, body);
    lemma_gen_refs_len(m.refs);
    // the intro runs to the first release heading
    assert(body.len() > 0 ==> m.releases.len() > 0) by {
        if m.releases.len() == 0 {
            assert(m.refs.len() == 0);
            assert(gen_releases(m.releases).len() == 0);
            assert(body.len() == 0);
        }
    }
    lemma_doc_intro_scan(s, intro, body);
    if li < s.len() {
        assert(body.len() > 0);
        assert(m.releases.len() > 0) by {
            if m.releases.len() == 0 {
                assert(m.refs.len() == 0);
                assert(gen_releases(m.releases).len() == 0);
                assert(body.len() == 0);
            }
        }
        assert(li == 0 || s[li - 1] == '\n') by {
            if li > 0 {
                assert(s[li - 1] == intro[li - 1]);
                assert(intro.last() == '\n');
            }
        }
        assert(begins_at(s, li, m_h2())) by {
            lemma_release_head(m.releases[0]);
            assert(gen_releases(m.releases) == gen_release(m.releases[0]) + gen_releases(
                m.releases.skip(1),
            ));
            assert forall|i: int| 0 <= i < 4 implies s.subrange(li, li + 4)[i] == m_h2()[i] by {
                assert(s.subrange(li, li + 4)[i] == s[li + i]);
                assert(s[li + i] == body[i]);
                assert(body[i] == gen_releases(m.releases)[i]);
                assert(gen_releases(m.releases)[i] == gen_release(m.releases[0])[i]);
                assert(gen_release(m.releases[0])[i] == gen_release(m.releases[0]).subrange(
                    0,
                    4,
                )[i]);
            }
            assert(s.subrange(li, li + 4) =~= m_h2());
        }
    }
    lemma_intro_end_is(s, 0, li);
    assert(intro_end(s, 0) == li);
    // the release blocks
    assert(s.skip(li) =~= gen_releases(m.releases) + gen_refs(m.refs));
    let p2 = li + gen_releases(m.releases).len() as int;
    lemma_slab(s, li, gen_releases(m.releases), gen_refs(m.refs));
    assert(forall|i: int|
        0 <= i < m.releases.len() ==> wf_release(
            #[trigger] m.releases[i],
            i == m.releases.len() - 1 && gen_refs(m.refs).len() == 0,
        )) by {
        assert(forall|i: int|
            0 <= i < m.releases.len() ==> wf_release(
                #[trigger] m.releases[i],
                i == m.releases.len() - 1 && m.refs.len() == 0,
            ));
    }
    if p2 < s.len() {
        assert(gen_refs(m.refs).len() > 0);
        assert(m.refs.len() > 0);
        lemma_refs_round_trip(s, p2, m.refs);
    }
    assert(p2 >= s.len() || is_ref_start(s, p2));
    lemma_rels_round_trip(s, li, m.releases, gen_refs(m.refs));
    // the reference list
    lemma_refs_round_trip(s, p2, m.refs);
    // assemble
    assert(s.take(li) =~= intro) by {
        assert(s.take(li) =~= s.subrange(0, li));
    }
    assert(doc_of_text(s) == Option::Some(
        ChangelogGhost { intro: s.take(li), releases: m.releases, refs: m.refs },
    ));
    assert(ChangelogGhost { intro: s.take(li), releases: m.releases, refs: m.refs } == m);
}


// ---------------------------------------------------------------------------
// What parsing guarantees
// ---------------------------------------------------------------------------

/// Trimming is idempotent: a trimmed item trims to itself.
proof fn lemma_trimmed_idem(x: Seq<char>)
    ensures
        trimmed(trimmed(x)) == trimmed(x),
{
    let te = trimmed_end(x);
    crate::text::lemma_trim_end_len(x);
    let tsl = trim_start_len(te);
    crate::text::lemma_trim_start_len(te);
    let t = trimmed(x);
    assert(t == te.skip(tsl));
    assert(t.len() == te.len() - tsl);
    if t.len() > 0 {
        assert(t.last() == te.last()) by {
            assert(t[t.len() - 1] == te[tsl + t.len() - 1]);
        }
        assert(!is_wsp(te.last())) by {
            assert(trim_end_len(x) > 0);
            assert(!is_wsp(x[trim_end_len(x) - 1]));
            assert(te[te.len() - 1] == x[trim_end_len(x) - 1]);
        }
        assert(!is_wsp(t.last()));
        assert(trim_end_len(t) == t.len() as int);
        assert(trimmed_end(t) =~= t);
        assert(t[0] == te[tsl]);
        assert(!is_wsp(t[0]));
        assert(trim_start_len(t) == 0);
        assert(trimmed(t) =~= t);
    } else {
        assert(t =~= Seq::<char>::empty());
        assert(trim_end_len(t) == 0);
        assert(trimmed_end(t) =~= t);
        assert(trim_start_len(t) == 0);
        assert(trimmed(t) =~= t);
    }
}

/// A version read from text is well-formed.
proof fn lemma_semver_of_text_wf(t: Seq<char>, v: crate::version::SemVerGhost)
    requires
        crate::version::semver_of_text(t) == Option::Some(v),
    ensures
        sv_wf(v),
{
}

/// Items read from text are trimmed.
proof fn lemma_items_of_text_wf(s: Seq<char>, k: int)
    requires
        0 <= k <= s.len(),
    ensures
        items_of_text(s, k) matches Option::Some(q) ==> wf_items(q.0),
    decreases s.len() - k,
{
    if 0 <= k < s.len() {
        if s[k] == '\n' {
            lemma_items_of_text_wf(s, k + 1);
        } else if begins_at(s, k, m_bullet()) {
            crate::parser::lemma_item_progress(s, k);
            let (raw, k2) = item_of_text(s, k);
            lemma_items_of_text_wf(s, k2);
            lemma_trimmed_idem(raw);
            match items_of_text(s, k2) {
                Option::None => {},
                Option::Some((rest, k3)) => {
                    let items = seq![trimmed(raw)] + rest;
                    assert forall|i: int| 0 <= i < items.len() implies wf_item(
                        #[trigger] items[i],
                    ) by {
                        if i == 0 {
                            assert(items[0] == trimmed(raw));
                        } else {
                            assert(items[i] == rest[i - 1]);
                        }
                    }
                },
            }
        }
    }
}

/// References read from text are well-shaped.
proof fn lemma_refs_of_text_wf(s: Seq<char>, k: int)
    requires
        0 <= k <= s.len(),
    ensures
        refs_of_text(s, k) matches Option::Some(fs) ==> wf_refs(fs),
    decreases s.len() - k,
{
    if 0 <= k < s.len() {
        if s[k] == '\n' {
            lemma_refs_of_text_wf(s, k + 1);
        } else {
            lemma_line_end(s, k);
            let e = line_end(s, k);
            let line = s.subrange(k, e);
            match ref_of_line(line) {
                Option::None => {},
                Option::Some(f) => {
                    let cb = find_chr(line, 1, ']');
                    lemma_find_chr(line, 1, ']');
                    assert(wf_ref(f)) by {
                        assert(f.anchor == line.subrange(1, cb));
                        assert(f.href == line.skip(cb + 3));
                        assert(forall|i: int| 0 <= i < line.len() ==> line[i] == s[k + i]);
                        assert forall|i: int| 0 <= i < f.anchor.len() implies f.anchor[i]
                            != '\n' && f.anchor[i] != ']' by {
                            assert(f.anchor[i] == line[1 + i]);
                        }
                        assert forall|i: int| 0 <= i < f.href.len() implies f.href[i] != '\n' by {
                            assert(f.href[i] == line[cb + 3 + i]);
                        }
                    }
                    if e < s.len() {
                        lemma_refs_of_text_wf(s, e + 1);
                        match refs_of_text(s, e + 1) {
                            Option::None => {},
                            Option::Some(rest) => {
                                let fs = seq![f] + rest;
                                assert forall|i: int| 0 <= i < fs.len() implies wf_ref(
                                    #[trigger] fs[i],
                                ) by {
                                    if i > 0 {
                                        assert(fs[i] == rest[i - 1]);
                                    }
                                }
                            },
                        }
                    } else {
                        assert(refs_of_text(s, k) == Option::Some(seq![f]));
                        assert forall|i: int| 0 <= i < seq![f].len() implies wf_ref(
                            #[trigger] seq![f][i],
                        ) by {
                            assert(seq![f][i] == f);
                        }
                    }
                },
            }
        }
    }
}


/// What the intro scan passes over, and where it stands when it stops.
proof fn lemma_intro_end_props(s: Seq<char>, k: int)
    requires
        0 <= k <= s.len(),
    ensures
        k <= intro_end(s, k) <= s.len(),
        forall|j: int|
            k <= j < intro_end(s, k) && (j == k || s[j - 1] == '\n') ==> !begins_at(s, j, m_h2()),
        intro_end(s, k) < s.len() ==> begins_at(s, intro_end(s, k), m_h2()) && (intro_end(s, k)
            == k || s[intro_end(s, k) - 1] == '\n'),
    decreases s.len() - k,
{
    crate::parser::lemma_intro_end(s, k);
    if 0 <= k < s.len() && !begins_at(s, k, m_h2()) {
        lemma_line_end(s, k);
        let e = line_end(s, k);
        if e < s.len() {
            lemma_intro_end_props(s, e + 1);
            assert forall|j: int|
                k <= j < intro_end(s, k) && (j == k || s[j - 1] == '\n') implies !begins_at(
                s,
                j,
                m_h2(),
            ) by {
                if j > k && j < e + 1 {
                    assert(s[j - 1] != '\n');
                }
            }
        }
    }
}

/// What the body scan passes over, and where it stands when it stops.
proof fn lemma_text_end_props(s: Seq<char>, k: int)
    requires
        0 <= k <= s.len(),
    ensures
        k <= text_end(s, k) <= s.len(),
        forall|j: int|
            k <= j < text_end(s, k) && (j == k || s[j - 1] == '\n') ==> !at_boundary(s, j),
        text_end(s, k) < s.len() ==> at_boundary(s, text_end(s, k)) && (text_end(s, k) == k || s[
            text_end(s, k) - 1] == '\n'),
    decreases s.len() - k,
{
    crate::parser::lemma_text_end(s, k);
    if 0 <= k < s.len() && !at_boundary(s, k) {
        lemma_line_end(s, k);
        let e = line_end(s, k);
        if e < s.len() {
            lemma_text_end_props(s, e + 1);
            assert forall|j: int|
                k <= j < text_end(s, k) && (j == k || s[j - 1] == '\n') implies !at_boundary(
                s,
                j,
            ) by {
                if j > k && j < e + 1 {
                    assert(s[j - 1] != '\n');
                }
            }
        }
    }
}

/// A stretch of text that a scan passed over is free text.
proof fn lemma_scan_free_text(s: Seq<char>, k: int, b: int)
    requires
        0 <= k <= b <= s.len(),
        b == k || b == s.len() || s[b - 1] == '\n',
        forall|j: int| k <= j < b && (j == k || s[j - 1] == '\n') ==> !at_boundary(s, j),
    ensures
        free_text(s.subrange(k, b)),
{
    let t = s.subrange(k, b);
    assert forall|jj: int| #[trigger] is_line_start(t, jj) implies !begins_at(t, jj, m_h2())
        && !begins_at(t, jj, m_h3()) && !is_ref_start(t, jj) by {
        let j = k + jj;
        assert(t[jj] == s[j]);
        assert(j == k || s[j - 1] == '\n') by {
            if jj > 0 {
                assert(t[jj - 1] == s[j - 1]);
            }
        }
        assert(!at_boundary(s, j));
        if begins_at(t, jj, m_h2()) {
            assert(s.subrange(j, j + 4) =~= t.subrange(jj, jj + 4));
            assert(begins_at(s, j, m_h2()));
            assert(false);
        }
        if begins_at(t, jj, m_h3()) {
            assert(s.subrange(j, j + 4) =~= t.subrange(jj, jj + 4));
            assert(begins_at(s, j, m_h3()));
            assert(false);
        }
        if is_ref_start(t, jj) {
            let et = line_end(t, jj);
            lemma_line_end(t, jj);
            assert forall|x: int| j <= x < k + et implies #[trigger] s[x] != '\n' by {
                assert(s[x] == t[x - k]);
            }
            if et < t.len() {
                assert(s[k + et] == t[et]);
                lemma_line_end_is(s, j, k + et);
                assert(s.subrange(j, k + et) =~= t.subrange(jj, et));
            } else {
                assert(b == s.len() || s[b - 1] == '\n');
                if b < s.len() {
                    assert(t[t.len() - 1] == s[b - 1]);
                    assert(et <= t.len() - 1);
                    assert(false);
                }
                lemma_line_end_is(s, j, s.len() as int);
                assert(s.subrange(j, s.len() as int) =~= t.subrange(jj, et));
            }
            assert(is_ref_start(s, j));
            assert(false);
        }
    }
}

/// The document intro that the scan leaves opens no release heading.
proof fn lemma_take_free_h2(s: Seq<char>, k: int)
    requires
        0 <= k <= s.len(),
        forall|j: int| 0 <= j < k && (j == 0 || s[j - 1] == '\n') ==> !begins_at(s, j, m_h2()),
    ensures
        forall|j: int|
            #[trigger] is_line_start(s.take(k), j) ==> !begins_at(s.take(k), j, m_h2()),
{
    let t = s.take(k);
    assert forall|j: int| #[trigger] is_line_start(t, j) implies !begins_at(t, j, m_h2()) by {
        assert(t[j] == s[j]);
        assert(j == 0 || s[j - 1] == '\n') by {
            if j > 0 {
                assert(t[j - 1] == s[j - 1]);
            }
        }
        if begins_at(t, j, m_h2()) {
            assert(s.subrange(j, j + 4) =~= t.subrange(j, j + 4));
            assert(begins_at(s, j, m_h2()));
        }
    }
}

/// Loosening the bare allowance keeps a release well-formed.
proof fn lemma_wf_release_mono(r: ReleaseGhost, b1: bool, b2: bool)
    requires
        wf_release(r, b1),
        b1 ==> b2,
    ensures
        wf_release(r, b2),
{
}

/// The lists of a parsed record are trimmed whenever the record it grew
/// from had trimmed lists.
proof fn lemma_sections_of_text_wf(s: Seq<char>, k: int, acc: ReleaseGhost)
    requires
        0 <= k <= s.len(),
        wf_items(acc.added),
        wf_items(acc.removed),
        wf_items(acc.fixed),
        wf_items(acc.changed),
    ensures
        sections_of_text(s, k, acc) matches Option::Some(q) ==> (wf_items(q.0.added) && wf_items(
            q.0.removed,
        ) && wf_items(q.0.fixed) && wf_items(q.0.changed) && q.0.version == acc.version && q.0.date
            == acc.date && q.0.intro == acc.intro),
    decreases s.len() - k,
{
    if 0 <= k < s.len() && begins_at(s, k, m_h3()) {
        crate::parser::lemma_section_progress(s, k);
        match section_of_text(s, k) {
            Option::None => {},
            Option::Some((name, items, k2)) => {
                lemma_line_end(s, k);
                let e = line_end(s, k);
                if e < s.len() {
                    lemma_items_of_text_wf(s, e + 1);
                }
                assert(wf_items(items)) by {
                    if e >= s.len() {
                        assert(items =~= Seq::<Seq<char>>::empty());
                    }
                }
                let acc2 = if name == "added"@ {
                    ReleaseGhost { added: items, ..acc }
                } else if name == "removed"@ {
                    ReleaseGhost { removed: items, ..acc }
                } else if name == "fixed"@ {
                    ReleaseGhost { fixed: items, ..acc }
                } else if name == "changed"@ {
                    ReleaseGhost { changed: items, ..acc }
                } else {
                    acc
                };
                lemma_sections_of_text_wf(s, k2, acc2);
            },
        }
    }
}

/// A parsed release block is well-formed; it is bare only when it ran to
/// the document's end.
proof fn lemma_rel_of_text_wf(s: Seq<char>, k: int)
    requires
        0 <= k < s.len(),
    ensures
        rel_of_text(s, k) matches Option::Some(q) ==> k < q.1 <= s.len() && wf_release(
            q.0,
            q.1 == s.len(),
        ),
{
    crate::parser::lemma_rel_progress(s, k);
    lemma_line_end(s, k);
    let e = line_end(s, k);
    match heading_of_line(s.subrange(k, e)) {
        Option::None => {},
        Option::Some((ver, date)) => {
            assert(match ver {
                VersionGhost::Released(v) => sv_wf(v) && date is Some,
                VersionGhost::Unreleased => date is None,
            } && match date {
                Option::Some(d) => date_wf(d),
                Option::None => true,
            }) by {
                let line = s.subrange(k, e);
                let rest = line.skip(4);
                if rest != "Unreleased]"@ {
                    let cb = find_chr(rest, 0, ']');
                    if cb < rest.len() {
                        let after = rest.skip(cb + 1);
                        if after.len() == 13 && after.take(3) == seq![' ', '-', ' '] {
                            match (crate::version::semver_of_text(rest.take(cb)),
                            crate::date::date_of_text(after.skip(3))) {
                                (Option::Some(v), Option::Some(d)) => {
                                    lemma_semver_of_text_wf(rest.take(cb), v);
                                },
                                _ => {},
                            }
                        }
                    }
                }
            }
            let base = bare_release(ver, date);
            assert(wf_items(base.added) && wf_items(base.removed) && wf_items(base.fixed)
                && wf_items(base.changed));
            if e >= s.len() {
                assert(rel_of_text(s, k) == Option::Some((base, s.len() as int)));
                assert(free_text(base.intro)) by {
                    assert(forall|j: int| !is_line_start(base.intro, j));
                }
                assert(wf_release(base, true));
            } else {
                let k1 = e + 1;
                let k2 = if k1 < s.len() && s[k1] == '\n' {
                    k1 + 1
                } else {
                    k1
                };
                lemma_text_end_props(s, k2);
                let b = text_end(s, k2);
                let intro = s.subrange(k2, b);
                assert(b == k2 || b == s.len() || s[b - 1] == '\n') by {
                    if b < s.len() && b != k2 {
                        assert(s[b - 1] == '\n');
                    }
                }
                lemma_scan_free_text(s, k2, b);
                let base2 = ReleaseGhost { intro: intro, ..base };
                lemma_sections_of_text_wf(s, b, base2);
                crate::parser::lemma_sections_progress(s, b, base2);
                match sections_of_text(s, b, base2) {
                    Option::None => {},
                    Option::Some((r, k3)) => {
                        assert(wf_release(r, k3 == s.len())) by {
                            assert(r.version == ver && r.date == date && r.intro == intro);
                            if intro.len() > 0 && intro.last() != '\n' {
                                // the scan ran to the end: nothing else follows
                                assert(s[b - 1] == intro[intro.len() - 1]);
                                assert(b == s.len());
                                assert(sections_of_text(s, b, base2) == Option::Some(
                                    (base2, b),
                                ));
                                assert(r == base2);
                                assert(k3 == s.len());
                                assert(r.added.len() == 0 && r.removed.len() == 0 && r.fixed.len()
                                    == 0 && r.changed.len() == 0);
                            }
                        }
                    },
                }
            }
        },
    }
}

/// Parsed release runs are well-formed; only a final block that ran to the
/// document's end may be bare.
proof fn lemma_rels_of_text_wf(s: Seq<char>, k: int)
    requires
        0 <= k <= s.len(),
    ensures
        rels_of_text(s, k) matches Option::Some(q) ==> k <= q.1 <= s.len() && (forall|i: int|
            0 <= i < q.0.len() ==> wf_release(
                #[trigger] q.0[i],
                i == q.0.len() - 1 && q.1 == s.len(),
            )),
    decreases s.len() - k,
{
    if 0 <= k < s.len() && begins_at(s, k, m_h2()) {
        crate::parser::lemma_rel_progress(s, k);
        lemma_rel_of_text_wf(s, k);
        match rel_of_text(s, k) {
            Option::None => {},
            Option::Some((rel, k2)) => {
                lemma_rels_of_text_wf(s, k2);
                match rels_of_text(s, k2) {
                    Option::None => {},
                    Option::Some((rest, k3)) => {
                        let rels = seq![rel] + rest;
                        assert forall|i: int| 0 <= i < rels.len() implies wf_release(
                            #[trigger] rels[i],
                            i == rels.len() - 1 && k3 == s.len(),
                        ) by {
                            if i == 0 {
                                assert(rels[0] == rel);
                                if rest.len() == 0 {
                                    assert(k3 == k2);
                                    lemma_wf_release_mono(
                                        rel,
                                        k2 == s.len(),
                                        0 == rels.len() - 1 && k3 == s.len(),
                                    );
                                } else {
                                    assert(k2 < s.len()) by {
                                        crate::parser::lemma_rel_progress(s, k2);
                                        if k2 >= s.len() {
                                            assert(rels_of_text(s, k2) == Option::Some(
                                                (Seq::<ReleaseGhost>::empty(), k2),
                                            ));
                                        }
                                    }
                                    lemma_wf_release_mono(rel, false, false);
                                }
                            } else {
                                assert(rels[i] == rest[i - 1]);
                            }
                        }
                    },
                }
            },
        }
    }
}

/// Law: a document that parses is well-formed.
pub proof fn lemma_parse_wf(d: Seq<char>, m: ChangelogGhost)
    requires
        doc_of_text(d) == Option::Some(m),
    ensures
        wf_doc(m),
{
    lemma_intro_end_props(d, 0);
    let k = intro_end(d, 0);
    lemma_take_free_h2(d, k);
    assert(m.intro == d.take(k));
    lemma_rels_of_text_wf(d, k);
    let q = rels_of_text(d, k).unwrap();
    assert(m.releases == q.0);
    lemma_refs_of_text_wf(d, q.1);
    assert(m.refs == refs_of_text(d, q.1).unwrap());
    if m.releases.len() > 0 {
        assert(begins_at(d, k, m_h2())) by {
            if !(0 <= k < d.len() && begins_at(d, k, m_h2())) {
                assert(rels_of_text(d, k) == Option::Some((Seq::<ReleaseGhost>::empty(), k)));
            }
        }
        assert(k < d.len());
        assert(m.intro.len() == 0 || m.intro.last() == '\n') by {
            if k > 0 {
                assert(d[k - 1] == '\n');
                assert(m.intro[k - 1] == d[k - 1]);
            }
        }
    }
    if m.releases.len() == 0 {
        assert(q.1 == k);
        assert(k == d.len()) by {
            if k < d.len() {
                assert(begins_at(d, k, m_h2()));
                assert(rels_of_text(d, k) matches Option::Some(p) ==> p.0.len() > 0) by {
                    crate::parser::lemma_rel_progress(d, k);
                    match rel_of_text(d, k) {
                        Option::None => {},
                        Option::Some((rel, k2)) => {
                            match rels_of_text(d, k2) {
                                Option::None => {},
                                Option::Some((rest, k3)) => {
                                    assert(rels_of_text(d, k) == Option::Some(
                                        (seq![rel] + rest, k3),
                                    ));
                                    assert((seq![rel] + rest).len() > 0);
                                },
                            }
                        },
                    }
                }
            }
        }
        assert(refs_of_text(d, d.len() as int) == Option::Some(Seq::<RefGhost>::empty()));
        assert(m.refs.len() == 0);
    }
    assert forall|i: int| 0 <= i < m.releases.len() implies wf_release(
        #[trigger] m.releases[i],
        i == m.releases.len() - 1 && m.refs.len() == 0,
    ) by {
        assert(wf_release(m.releases[i], i == m.releases.len() - 1 && q.1 == d.len()));
        if i == m.releases.len() - 1 && q.1 == d.len() {
            assert(refs_of_text(d, q.1) == Option::Some(Seq::<RefGhost>::empty()));
            assert(m.refs.len() == 0);
        } else {
            lemma_wf_release_mono(
                m.releases[i],
                i == m.releases.len() - 1 && q.1 == d.len(),
                i == m.releases.len() - 1 && m.refs.len() == 0,
            );
        }
    }
}

/// Law: the structural round trip. Parsing a document, rendering the model,
/// and parsing again yields the first model exactly: section order is
/// normalized in the text, and the content is preserved.
pub proof fn lemma_parse_generate_parse(d: Seq<char>, m: ChangelogGhost)
    requires
        doc_of_text(d) == Option::Some(m),
    ensures
        doc_of_text(gen_doc(m)) == Option::Some(m),
{
    lemma_parse_wf(d, m);
    lemma_generate_parse_round_trip(m);
}

} // verus!
