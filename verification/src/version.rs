use vstd::prelude::*;

use crate::text::{
    all_digits, begins_at, dec_str, dec_val, digit_chr, find_chr, find_chr_pos, is_digit,
    lemma_dec_str_val, lemma_find_chr, lemma_find_chr_is, lemma_rfind_chr, lemma_rfind_chr_is,
    parse_u64, push_char, rfind_chr, rfind_chr_pos, u64_to_string, valid_u64,
};
use vstd::string::StringExecFns;

verus! {

/// The kind of change a release makes, which decides how the version advances.
#[derive(Debug, Copy, Clone, PartialEq, Eq)]
pub enum Change {
    Major,
    Minor,
    Patch,
    Prerelease,
}

/// A prerelease tag: a textual label and a trailing numeric counter,
/// rendered as `label.counter` (for example `next.0`).
#[derive(Debug, Clone, PartialEq, Eq)]
pub struct PreTag {
    pub label: String,
    pub counter: u64,
}

pub ghost struct PreTagGhost {
    pub label: Seq<char>,
    pub counter: int,
}

impl View for PreTag {
    type V = PreTagGhost;

    open spec fn view(&self) -> PreTagGhost {
        PreTagGhost { label: self.label@, counter: self.counter as int }
    }
}

/// A semantic version: a numeric triple and an optional prerelease tag.
#[derive(Debug, Clone, PartialEq, Eq)]
pub struct SemVer {
    pub major: u64,
    pub minor: u64,
    pub patch: u64,
    pub pre: Option<PreTag>,
}

pub ghost struct SemVerGhost {
    pub major: int,
    pub minor: int,
    pub patch: int,
    pub pre: Option<PreTagGhost>,
}

impl View for SemVer {
    type V = SemVerGhost;

    open spec fn view(&self) -> SemVerGhost {
        SemVerGhost {
            major: self.major as int,
            minor: self.minor as int,
            patch: self.patch as int,
            pre: match self.pre {
                Option::Some(t) => Option::Some(t@),
                Option::None => Option::None,
            },
        }
    }
}

/// The label a fresh prerelease tag carries.
pub open spec fn fresh_label() -> Seq<char> {
    "next"@
}

/// The version that a change of the given kind leads to.
///
/// Without a prerelease tag the triple advances at the changed position and
/// resets what follows; `Prerelease` advances the patch level and opens a
/// fresh tag with counter 0. With a prerelease tag, `Major` and `Minor`
/// finalize the current triple unchanged when it already sits at the matching
/// boundary, and otherwise advance it; `Patch` always finalizes unchanged;
/// `Prerelease` advances only the tag's counter.
pub open spec fn bump_of(v: SemVerGhost, change: Change) -> SemVerGhost {
    match change {
        Change::Major => {
            if v.pre is None || v.minor != 0 || v.patch != 0 {
                SemVerGhost { major: v.major + 1, minor: 0, patch: 0, pre: Option::None }
            } else {
                SemVerGhost { major: v.major, minor: 0, patch: 0, pre: Option::None }
            }
        },
        Change::Minor => {
            if v.pre is None || v.patch != 0 {
                SemVerGhost { major: v.major, minor: v.minor + 1, patch: 0, pre: Option::None }
            } else {
                SemVerGhost { major: v.major, minor: v.minor, patch: 0, pre: Option::None }
            }
        },
        Change::Patch => {
            if v.pre is None {
                SemVerGhost { major: v.major, minor: v.minor, patch: v.patch + 1, pre: Option::None }
            } else {
                SemVerGhost { major: v.major, minor: v.minor, patch: v.patch, pre: Option::None }
            }
        },
        Change::Prerelease => {
            match v.pre {
                Option::None => SemVerGhost {
                    major: v.major,
                    minor: v.minor,
                    patch: v.patch + 1,
                    pre: Option::Some(PreTagGhost { label: fresh_label(), counter: 0 }),
                },
                Option::Some(t) => SemVerGhost {
                    major: v.major,
                    minor: v.minor,
                    patch: v.patch,
                    pre: Option::Some(PreTagGhost { label: t.label, counter: t.counter + 1 }),
                },
            }
        },
    }
}

pub trait Bump: Sized {
    /// The machine limits under which the advance can be computed.
    spec fn bump_ok(&self, change: Change) -> bool;

    /// `r` is the version that the change leads to.
    spec fn bump_rel(&self, change: Change, r: Self) -> bool;

    fn bump(&self, change: Change) -> (r: Self)
        requires
            self.bump_ok(change),
        ensures
            self.bump_rel(change, r),
    ;
}

impl Bump for SemVer {
    open spec fn bump_ok(&self, change: Change) -> bool {
        match change {
            Change::Major => (self@.pre is None || self.minor != 0 || self.patch != 0)
                ==> self.major < u64::MAX,
            Change::Minor => (self@.pre is None || self.patch != 0) ==> self.minor < u64::MAX,
            Change::Patch => self@.pre is None ==> self.patch < u64::MAX,
            Change::Prerelease => match self.pre {
                Option::None => self.patch < u64::MAX,
                Option::Some(t) => t.counter < u64::MAX,
            },
        }
    }

    open spec fn bump_rel(&self, change: Change, r: Self) -> bool {
        r@ == bump_of(self@, change)
    }

    fn bump(&self, change: Change) -> (r: Self)
    {
        match change {
            Change::Major => {
                if self.pre.is_none() || self.minor > 0 || self.patch > 0 {
                    SemVer { major: self.major + 1, minor: 0, patch: 0, pre: Option::None }
                } else {
                    SemVer { major: self.major, minor: 0, patch: 0, pre: Option::None }
                }
            },
            Change::Minor => {
                if self.pre.is_none() || self.patch > 0 {
                    SemVer { major: self.major, minor: self.minor + 1, patch: 0, pre: Option::None }
                } else {
                    SemVer { major: self.major, minor: self.minor, patch: 0, pre: Option::None }
                }
            },
            Change::Patch => {
                if self.pre.is_none() {
                    SemVer {
                        major: self.major,
                        minor: self.minor,
                        patch: self.patch + 1,
                        pre: Option::None,
                    }
                } else {
                    SemVer {
                        major: self.major,
                        minor: self.minor,
                        patch: self.patch,
                        pre: Option::None,
                    }
                }
            },
            Change::Prerelease => {
                match &self.pre {
                    Option::None => {
                        let label = "next".to_owned();
                        SemVer {
                            major: self.major,
                            minor: self.minor,
                            patch: self.patch + 1,
                            pre: Option::Some(PreTag { label, counter: 0 }),
                        }
                    },
                    Option::Some(t) => {
                        SemVer {
                            major: self.major,
                            minor: self.minor,
                            patch: self.patch,
                            pre: Option::Some(
                                PreTag { label: t.label.clone(), counter: t.counter + 1 },
                            ),
                        }
                    },
                }
            },
        }
    }
}

/// Law: a version without a prerelease tag advances its patch level under a
/// `Patch` change and stays without a tag.
pub proof fn lemma_bump_patch_plain(v: SemVerGhost)
    requires
        v.pre is None,
    ensures
        bump_of(v, Change::Patch) == (SemVerGhost {
            major: v.major,
            minor: v.minor,
            patch: v.patch + 1,
            pre: Option::None,
        }),
{
}

/// Law: a `Prerelease` change on a tagged version keeps the numeric triple
/// and the label, and advances only the tag's counter.
pub proof fn lemma_bump_prerelease_counts(v: SemVerGhost, label: Seq<char>, n: int)
    requires
        v.pre == Option::Some(PreTagGhost { label: label, counter: n }),
    ensures
        bump_of(v, Change::Prerelease) == (SemVerGhost {
            major: v.major,
            minor: v.minor,
            patch: v.patch,
            pre: Option::Some(PreTagGhost { label: label, counter: n + 1 }),
        }),
{
}

/// Law: a `Major` change on a tagged version finalizes the triple unchanged
/// at an `X.0.0` boundary and advances the major position anywhere else;
/// either way the tag is dropped.
pub proof fn lemma_bump_major_boundary(v: SemVerGhost)
    requires
        v.pre is Some,
    ensures
        v.minor == 0 && v.patch == 0 ==> bump_of(v, Change::Major) == (SemVerGhost {
            major: v.major,
            minor: 0,
            patch: 0,
            pre: Option::None,
        }),
        v.minor != 0 || v.patch != 0 ==> bump_of(v, Change::Major) == (SemVerGhost {
            major: v.major + 1,
            minor: 0,
            patch: 0,
            pre: Option::None,
        }),
{
}

// ---------------------------------------------------------------------------
// Rendering
// ---------------------------------------------------------------------------

/// The text of a prerelease tag.
pub open spec fn pre_text(t: PreTagGhost) -> Seq<char> {
    t.label + seq!['.'] + dec_str(t.counter as nat)
}

/// The text of a version, `major.minor.patch` with `-label.counter` after it
/// when a prerelease tag is present.
pub open spec fn semver_text(v: SemVerGhost) -> Seq<char> {
    let triple = dec_str(v.major as nat) + seq!['.'] + dec_str(v.minor as nat) + seq!['.']
        + dec_str(v.patch as nat);
    match v.pre {
        Option::None => triple,
        Option::Some(t) => triple + seq!['-'] + pre_text(t),
    }
}

impl SemVer {
    pub fn new(major: u64, minor: u64, patch: u64) -> (r: SemVer)
        ensures
            r@ == (SemVerGhost {
                major: major as int,
                minor: minor as int,
                patch: patch as int,
                pre: Option::None,
            }),
    {
        SemVer { major, minor, patch, pre: Option::None }
    }

    /// The version as text.
    pub fn to_text(&self) -> (r: String)
        ensures
            r@ == semver_text(self@),
    {
        let mut s = u64_to_string(self.major);
        push_char(&mut s, '.');
        let minor = u64_to_string(self.minor);
        s.append(minor.as_str());
        push_char(&mut s, '.');
        let patch = u64_to_string(self.patch);
        s.append(patch.as_str());
        match &self.pre {
            Option::None => {},
            Option::Some(t) => {
                push_char(&mut s, '-');
                s.append(t.label.as_str());
                push_char(&mut s, '.');
                let counter = u64_to_string(t.counter);
                s.append(counter.as_str());
            },
        }
        assert(s@ =~= semver_text(self@));
        s
    }
}


// ---------------------------------------------------------------------------
// Reading versions
// ---------------------------------------------------------------------------

/// A character a prerelease label may carry.
pub open spec fn is_label_chr(c: char) -> bool {
    is_digit(c) || ('a' as u32 <= c as u32 && c as u32 <= 'z' as u32) || ('A' as u32 <= c as u32
        && c as u32 <= 'Z' as u32) || c == '-' || c == '.'
}

pub open spec fn label_ok(s: Seq<char>) -> bool {
    s.len() > 0 && forall|i: int| 0 <= i < s.len() ==> is_label_chr(#[trigger] s[i])
}

/// The version a `u64` triple can hold, with a prerelease label of the
/// accepted shape.
pub open spec fn sv_wf(v: SemVerGhost) -> bool {
    0 <= v.major <= u64::MAX && 0 <= v.minor <= u64::MAX && 0 <= v.patch <= u64::MAX
        && match v.pre {
        Option::None => true,
        Option::Some(t) => label_ok(t.label) && 0 <= t.counter <= u64::MAX,
    }
}

/// The prerelease tag that a piece of text denotes: the part after the last
/// dot must be a numeral, and what precedes that dot is the label.
pub open spec fn pre_of_text(s: Seq<char>) -> Option<PreTagGhost> {
    let ld = rfind_chr(s, '.');
    if ld < 0 {
        Option::None
    } else {
        let label = s.take(ld);
        let count = s.skip(ld + 1);
        if label_ok(label) && valid_u64(count) {
            Option::Some(PreTagGhost { label: label, counter: dec_val(count) as int })
        } else {
            Option::None
        }
    }
}

/// The version that a piece of text denotes, when it has the shape
/// `major.minor.patch` with an optional `-tag` after it.
pub open spec fn semver_of_text(s: Seq<char>) -> Option<SemVerGhost> {
    let d1 = find_chr(s, 0, '.');
    if d1 >= s.len() {
        Option::None
    } else {
        let d2 = find_chr(s, d1 + 1, '.');
        if d2 >= s.len() {
            Option::None
        } else {
            let dh = find_chr(s, d2 + 1, '-');
            let mj = s.take(d1);
            let mn = s.subrange(d1 + 1, d2);
            let pt = s.subrange(d2 + 1, dh);
            if !(valid_u64(mj) && valid_u64(mn) && valid_u64(pt)) {
                Option::None
            } else if dh >= s.len() {
                Option::Some(
                    SemVerGhost {
                        major: dec_val(mj) as int,
                        minor: dec_val(mn) as int,
                        patch: dec_val(pt) as int,
                        pre: Option::None,
                    },
                )
            } else {
                match pre_of_text(s.skip(dh + 1)) {
                    Option::None => Option::None,
                    Option::Some(t) => Option::Some(
                        SemVerGhost {
                            major: dec_val(mj) as int,
                            minor: dec_val(mn) as int,
                            patch: dec_val(pt) as int,
                            pre: Option::Some(t),
                        },
                    ),
                }
            }
        }
    }
}

pub fn label_chr(c: char) -> (r: bool)
    ensures
        r == is_label_chr(c),
{
    let u = c as u32;
    ('0' as u32 <= u && u <= '9' as u32) || ('a' as u32 <= u && u <= 'z' as u32) || ('A' as u32
        <= u && u <= 'Z' as u32) || u == '-' as u32 || u == '.' as u32
}

impl SemVer {
    /// The version that the text denotes, when it has the accepted shape.
    pub fn of_text(w: &Vec<char>) -> (r: Option<SemVer>)
        ensures
            match r {
                Option::Some(sv) => semver_of_text(w@) == Option::Some(sv@),
                Option::None => semver_of_text(w@) is None,
            },
    {
        let n = w.len();
        let d1 = find_chr_pos(w, 0, '.');
        if d1 >= n {
            return Option::None;
        }
        let d2 = find_chr_pos(w, d1 + 1, '.');
        if d2 >= n {
            return Option::None;
        }
        let dh = find_chr_pos(w, d2 + 1, '-');
        let mj = match parse_u64(w, 0, d1) {
            Option::Some(x) => x,
            Option::None => {
                return Option::None;
            },
        };
        assert(w@.take(d1 as int) =~= w@.subrange(0, d1 as int));
        let mn = match parse_u64(w, d1 + 1, d2) {
            Option::Some(x) => x,
            Option::None => {
                return Option::None;
            },
        };
        let pt = match parse_u64(w, d2 + 1, dh) {
            Option::Some(x) => x,
            Option::None => {
                return Option::None;
            },
        };
        if dh >= n {
            return Option::Some(SemVer { major: mj, minor: mn, patch: pt, pre: Option::None });
        }
        let tag = crate::text::copy_region(w, dh + 1, n);
        assert(tag@ =~= w@.skip(dh + 1));
        let ld = match rfind_chr_pos(&tag, '.') {
            Option::Some(x) => x,
            Option::None => {
                return Option::None;
            },
        };
        proof {
            lemma_rfind_chr(tag@, '.');
        }
        let mut i: usize = 0;
        if ld == 0 {
            assert(!label_ok(tag@.take(0)));
            return Option::None;
        }
        #[verifier::loop_isolation(false)]
        while i < ld
            invariant
                i <= ld,
                forall|j: int| 0 <= j < i ==> is_label_chr(#[trigger] tag@[j]),
            decreases ld - i,
        {
            if !label_chr(tag[i]) {
                assert(tag@.take(ld as int)[i as int] == tag@[i as int]);
                assert(!label_ok(tag@.take(ld as int)));
                return Option::None;
            }
            i = i + 1;
        }
        assert(forall|j: int| 0 <= j < ld ==> tag@.take(ld as int)[j] == tag@[j]);
        assert(label_ok(tag@.take(ld as int)));
        let counter = match parse_u64(&tag, ld + 1, tag.len()) {
            Option::Some(x) => x,
            Option::None => {
                assert(tag@.subrange(ld + 1, tag@.len() as int) =~= tag@.skip(ld + 1));
                return Option::None;
            },
        };
        assert(tag@.subrange(ld + 1, tag@.len() as int) =~= tag@.skip(ld + 1));
        let label_chars = crate::text::copy_region(&tag, 0, ld);
        assert(label_chars@ =~= tag@.take(ld as int));
        let label = crate::text::chars_to_string(&label_chars);
        Option::Some(
            SemVer {
                major: mj,
                minor: mn,
                patch: pt,
                pre: Option::Some(PreTag { label, counter }),
            },
        )
    }
}

impl SemVer {
    /// The version that the text denotes, when it has the accepted shape.
    pub fn parse(text: &str) -> (r: Option<SemVer>)
        ensures
            match r {
                Option::Some(sv) => semver_of_text(text@) == Option::Some(sv@),
                Option::None => semver_of_text(text@) is None,
            },
    {
        let w = crate::text::str_to_chars(text);
        SemVer::of_text(&w)
    }
}

/// Law: rendering a well-formed version and reading the text back yields the
/// same version.
pub proof fn lemma_semver_text_round_trip(v: SemVerGhost)
    requires
        sv_wf(v),
    ensures
        semver_of_text(semver_text(v)) == Option::Some(v),
{
    let s = semver_text(v);
    let a = dec_str(v.major as nat);
    let b = dec_str(v.minor as nat);
    let c = dec_str(v.patch as nat);
    lemma_dec_str_val(v.major as nat);
    lemma_dec_str_val(v.minor as nat);
    lemma_dec_str_val(v.patch as nat);
    let la = a.len() as int;
    let lb = b.len() as int;
    let lc = c.len() as int;
    let triple = a + seq!['.'] + b + seq!['.'] + c;
    // first separating dot
    assert forall|j: int| 0 <= j < la implies s[j] != '.' by {
        assert(is_digit(s[j]));
    }
    assert(s[la] == '.');
    lemma_find_chr_is(s, 0, '.', la);
    // second separating dot
    assert forall|j: int| la + 1 <= j < la + 1 + lb implies s[j] != '.' by {
        assert(s[j] == b[j - la - 1]);
        assert(is_digit(s[j]));
    }
    assert(s[la + 1 + lb] == '.');
    lemma_find_chr_is(s, la + 1, '.', la + 1 + lb);
    let d2 = la + 1 + lb;
    // the hyphen comes right after the triple, or nowhere
    assert forall|j: int| d2 + 1 <= j < d2 + 1 + lc implies s[j] != '-' by {
        assert(s[j] == c[j - d2 - 1]);
        assert(is_digit(s[j]));
    }
    assert(s.take(la) =~= a);
    assert(s.subrange(la + 1, d2) =~= b);
    match v.pre {
        Option::None => {
            assert(s.len() == d2 + 1 + lc);
            lemma_find_chr_is(s, d2 + 1, '-', s.len() as int);
            assert(s.subrange(d2 + 1, s.len() as int) =~= c);
        },
        Option::Some(t) => {
            let dh = d2 + 1 + lc;
            assert(s[dh] == '-');
            lemma_find_chr_is(s, d2 + 1, '-', dh);
            assert(s.subrange(d2 + 1, dh) =~= c);
            let tag = t.label + seq!['.'] + dec_str(t.counter as nat);
            assert(s.skip(dh + 1) =~= tag);
            lemma_dec_str_val(t.counter as nat);
            let ll = t.label.len() as int;
            let nd = dec_str(t.counter as nat).len() as int;
            assert forall|j: int| ll < j < tag.len() implies tag[j] != '.' by {
                assert(tag[j] == dec_str(t.counter as nat)[j - ll - 1]);
                assert(is_digit(tag[j]));
            }
            assert(tag[ll] == '.');
            lemma_rfind_chr_is(tag, '.', ll);
            assert(tag.take(ll) =~= t.label);
            assert(tag.skip(ll + 1) =~= dec_str(t.counter as nat));
        },
    }
}

// ---------------------------------------------------------------------------
// Ordering
// ---------------------------------------------------------------------------

/// Text ordered by character code, position by position.
pub open spec fn lex_le(a: Seq<char>, b: Seq<char>) -> bool
    decreases a.len(),
{
    if a.len() == 0 {
        true
    } else if b.len() == 0 {
        false
    } else if (a[0] as u32) != (b[0] as u32) {
        (a[0] as u32) < (b[0] as u32)
    } else {
        lex_le(a.skip(1), b.skip(1))
    }
}

/// A version with a prerelease tag sorts below the same triple without one;
/// two tags are ordered by label text, then by counter.
pub open spec fn pre_le(a: Option<PreTagGhost>, b: Option<PreTagGhost>) -> bool {
    match (a, b) {
        (Option::None, Option::None) => true,
        (Option::Some(_), Option::None) => true,
        (Option::None, Option::Some(_)) => false,
        (Option::Some(x), Option::Some(y)) => {
            if x.label == y.label {
                x.counter <= y.counter
            } else {
                lex_le(x.label, y.label)
            }
        },
    }
}

/// Versions ordered by the numeric triple first, then by prerelease.
pub open spec fn sv_le(a: SemVerGhost, b: SemVerGhost) -> bool {
    if a.major != b.major {
        a.major < b.major
    } else if a.minor != b.minor {
        a.minor < b.minor
    } else if a.patch != b.patch {
        a.patch < b.patch
    } else {
        pre_le(a.pre, b.pre)
    }
}

pub fn str_lex_le(a: &str, b: &str) -> (r: bool)
    ensures
        r == lex_le(a@, b@),
{
    let na = a.unicode_len();
    let nb = b.unicode_len();
    let mut i: usize = 0;
    assert(a@.skip(0) =~= a@);
    assert(b@.skip(0) =~= b@);
    while i < na && i < nb
        invariant
            i <= na,
            i <= nb,
            na == a@.len(),
            nb == b@.len(),
            lex_le(a@, b@) == lex_le(a@.skip(i as int), b@.skip(i as int)),
        decreases na - i,
    {
        let ca = a.get_char(i);
        let cb = b.get_char(i);
        assert(a@.skip(i as int)[0] == ca);
        assert(b@.skip(i as int)[0] == cb);
        if ca as u32 != cb as u32 {
            return (ca as u32) < (cb as u32);
        }
        assert(a@.skip(i as int).skip(1) =~= a@.skip(i + 1));
        assert(b@.skip(i as int).skip(1) =~= b@.skip(i + 1));
        i = i + 1;
    }
    i >= na
}

impl SemVer {
    /// Whether this version precedes the other, or equals it.
    pub fn at_most(&self, other: &SemVer) -> (r: bool)
        ensures
            r == sv_le(self@, other@),
    {
        if self.major != other.major {
            return self.major < other.major;
        }
        if self.minor != other.minor {
            return self.minor < other.minor;
        }
        if self.patch != other.patch {
            return self.patch < other.patch;
        }
        match (&self.pre, &other.pre) {
            (Option::None, Option::None) => true,
            (Option::Some(_), Option::None) => true,
            (Option::None, Option::Some(_)) => false,
            (Option::Some(x), Option::Some(y)) => {
                let same = x.label.eq(&y.label);
                if same {
                    x.counter <= y.counter
                } else {
                    assert(x.label@ != y.label@);
                    str_lex_le(x.label.as_str(), y.label.as_str())
                }
            },
        }
    }
}


impl SemVer {
    /// A copy equal to this version.
    pub fn duplicate(&self) -> (r: SemVer)
        ensures
            r == *self,
    {
        SemVer {
            major: self.major,
            minor: self.minor,
            patch: self.patch,
            pre: match &self.pre {
                Option::None => Option::None,
                Option::Some(t) => Option::Some(
                    PreTag { label: t.label.clone(), counter: t.counter },
                ),
            },
        }
    }
}

pub proof fn lemma_lex_le_total(a: Seq<char>, b: Seq<char>)
    ensures
        lex_le(a, b) || lex_le(b, a),
    decreases a.len(),
{
    if a.len() > 0 && b.len() > 0 && (a[0] as u32) == (b[0] as u32) {
        lemma_lex_le_total(a.skip(1), b.skip(1));
    }
}

/// The version order compares any two versions.
pub proof fn lemma_sv_le_total(a: SemVerGhost, b: SemVerGhost)
    ensures
        sv_le(a, b) || sv_le(b, a),
{
    match (a.pre, b.pre) {
        (Option::Some(x), Option::Some(y)) => {
            lemma_lex_le_total(x.label, y.label);
        },
        _ => {},
    }
}


/// Every character of a well-formed version's text is a label character:
/// a digit, a letter, a dot or a dash.
pub proof fn lemma_semver_text_chars(v: SemVerGhost)
    requires
        sv_wf(v),
    ensures
        forall|i: int|
            0 <= i < semver_text(v).len() ==> is_label_chr(#[trigger] semver_text(v)[i]),
        semver_text(v).len() >= 5,
{
    let a = dec_str(v.major as nat);
    let b = dec_str(v.minor as nat);
    let c = dec_str(v.patch as nat);
    lemma_dec_str_val(v.major as nat);
    lemma_dec_str_val(v.minor as nat);
    lemma_dec_str_val(v.patch as nat);
    let t = semver_text(v);
    let la = a.len() as int;
    let lb = b.len() as int;
    let lc = c.len() as int;
    match v.pre {
        Option::None => {
            assert forall|i: int| 0 <= i < t.len() implies is_label_chr(#[trigger] t[i]) by {
                if i < la {
                    assert(t[i] == a[i]);
                    assert(is_digit(a[i]));
                } else if i == la {
                    assert(t[i] == '.');
                } else if i < la + 1 + lb {
                    assert(t[i] == b[i - la - 1]);
                    assert(is_digit(b[i - la - 1]));
                } else if i == la + 1 + lb {
                    assert(t[i] == '.');
                } else {
                    assert(t[i] == c[i - la - lb - 2]);
                    assert(is_digit(c[i - la - lb - 2]));
                }
            }
        },
        Option::Some(tag) => {
            let n = dec_str(tag.counter as nat);
            lemma_dec_str_val(tag.counter as nat);
            let ll = tag.label.len() as int;
            let base = la + 1 + lb + 1 + lc;
            assert forall|i: int| 0 <= i < t.len() implies is_label_chr(#[trigger] t[i]) by {
                if i < la {
                    assert(t[i] == a[i]);
                    assert(is_digit(a[i]));
                } else if i == la {
                    assert(t[i] == '.');
                } else if i < la + 1 + lb {
                    assert(t[i] == b[i - la - 1]);
                    assert(is_digit(b[i - la - 1]));
                } else if i == la + 1 + lb {
                    assert(t[i] == '.');
                } else if i < base {
                    assert(t[i] == c[i - la - lb - 2]);
                    assert(is_digit(c[i - la - lb - 2]));
                } else if i == base {
                    assert(t[i] == '-');
                } else if i < base + 1 + ll {
                    assert(t[i] == tag.label[i - base - 1]);
                    assert(label_ok(tag.label));
                } else if i == base + 1 + ll {
                    assert(t[i] == '.');
                } else {
                    assert(t[i] == n[i - base - ll - 2]);
                    assert(is_digit(n[i - base - ll - 2]));
                }
            }
        },
    }
}

} // verus!
