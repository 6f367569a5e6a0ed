use vstd::prelude::*;

use crate::date::{Date, DateGhost};
use crate::text::{chars_to_string, lemma_dec_str_val, replace_chars, replace_seq, str_to_chars};
use crate::version::{lemma_sv_le_total, semver_text, sv_le, SemVer, SemVerGhost};

verus! {

/// A release's place in the document: still being gathered, or published
/// under a concrete version.
#[derive(Debug, Clone, PartialEq, Eq)]
pub enum Version {
    Unreleased,
    Released(SemVer),
}

pub ghost enum VersionGhost {
    Unreleased,
    Released(SemVerGhost),
}

impl View for Version {
    type V = VersionGhost;

    open spec fn view(&self) -> VersionGhost {
        match self {
            Version::Unreleased => VersionGhost::Unreleased,
            Version::Released(v) => VersionGhost::Released(v@),
        }
    }
}

/// A reference-style link definition, `[anchor]: href`.
#[derive(Debug, Clone, PartialEq, Eq)]
pub struct Ref {
    pub anchor: String,
    pub href: String,
}

pub ghost struct RefGhost {
    pub anchor: Seq<char>,
    pub href: Seq<char>,
}

impl View for Ref {
    type V = RefGhost;

    open spec fn view(&self) -> RefGhost {
        RefGhost { anchor: self.anchor@, href: self.href@ }
    }
}

impl Ref {
    pub fn new(anchor: String, href: String) -> (r: Self)
        ensures
            r@ == (RefGhost { anchor: anchor@, href: href@ }),
    {
        Ref { anchor, href }
    }
}

/// One release block: its version tag, date, leading text, and the four
/// change lists.
#[derive(Debug, Clone, PartialEq, Eq)]
pub struct Release {
    pub version: Version,
    pub date: Option<Date>,
    pub intro: String,
    pub added: Vec<String>,
    pub removed: Vec<String>,
    pub fixed: Vec<String>,
    pub changed: Vec<String>,
}

pub ghost struct ReleaseGhost {
    pub version: VersionGhost,
    pub date: Option<DateGhost>,
    pub intro: Seq<char>,
    pub added: Seq<Seq<char>>,
    pub removed: Seq<Seq<char>>,
    pub fixed: Seq<Seq<char>>,
    pub changed: Seq<Seq<char>>,
}

impl View for Release {
    type V = ReleaseGhost;

    open spec fn view(&self) -> ReleaseGhost {
        ReleaseGhost {
            version: self.version@,
            date: match self.date {
                Option::Some(d) => Option::Some(d@),
                Option::None => Option::None,
            },
            intro: self.intro@,
            added: self.added.deep_view(),
            removed: self.removed.deep_view(),
            fixed: self.fixed.deep_view(),
            changed: self.changed.deep_view(),
        }
    }
}

impl Release {
    /// A fresh release block, still unreleased and empty.
    pub fn empty() -> (r: Self)
        ensures
            r@ == (ReleaseGhost {
                version: VersionGhost::Unreleased,
                date: Option::None,
                intro: Seq::<char>::empty(),
                added: Seq::<Seq<char>>::empty(),
                removed: Seq::<Seq<char>>::empty(),
                fixed: Seq::<Seq<char>>::empty(),
                changed: Seq::<Seq<char>>::empty(),
            }),
    {
        let r = Release {
            version: Version::Unreleased,
            date: Option::None,
            intro: String::new(),
            added: Vec::new(),
            removed: Vec::new(),
            fixed: Vec::new(),
            changed: Vec::new(),
        };
        assert(r.added.deep_view() =~= Seq::<Seq<char>>::empty());
        assert(r.removed.deep_view() =~= Seq::<Seq<char>>::empty());
        assert(r.fixed.deep_view() =~= Seq::<Seq<char>>::empty());
        assert(r.changed.deep_view() =~= Seq::<Seq<char>>::empty());
        r
    }
}

/// The whole document: leading text, the release blocks in document order,
/// and the reference links in document order.
#[derive(Debug, Clone, PartialEq, Eq)]
pub struct Changelog {
    pub intro: String,
    pub releases: Vec<Release>,
    pub refs: Vec<Ref>,
}

pub ghost struct ChangelogGhost {
    pub intro: Seq<char>,
    pub releases: Seq<ReleaseGhost>,
    pub refs: Seq<RefGhost>,
}

impl View for Changelog {
    type V = ChangelogGhost;

    open spec fn view(&self) -> ChangelogGhost {
        ChangelogGhost {
            intro: self.intro@,
            releases: self.releases@.map_values(|r: Release| r@),
            refs: self.refs@.map_values(|r: Ref| r@),
        }
    }
}

// ---------------------------------------------------------------------------
// The highest released version
// ---------------------------------------------------------------------------

/// The greatest version among the released blocks, favouring a later block
/// on ties.
pub open spec fn max_released(rels: Seq<ReleaseGhost>) -> Option<SemVerGhost>
    decreases rels.len(),
{
    if rels.len() == 0 {
        Option::None
    } else {
        let rest = max_released(rels.drop_last());
        match rels.last().version {
            VersionGhost::Unreleased => rest,
            VersionGhost::Released(v) => match rest {
                Option::None => Option::Some(v),
                Option::Some(b) => if sv_le(b, v) {
                    Option::Some(v)
                } else {
                    Option::Some(b)
                },
            },
        }
    }
}

/// The index of the first unreleased block, or the length when none exists.
pub open spec fn first_unreleased_from(rels: Seq<ReleaseGhost>, k: int) -> int
    decreases rels.len() - k when 0 <= k <= rels.len()
{
    if 0 <= k < rels.len() {
        if rels[k].version is Unreleased {
            k
        } else {
            first_unreleased_from(rels, k + 1)
        }
    } else {
        rels.len() as int
    }
}

pub open spec fn first_unreleased(rels: Seq<ReleaseGhost>) -> int {
    first_unreleased_from(rels, 0)
}

pub proof fn lemma_first_unreleased(rels: Seq<ReleaseGhost>, k: int)
    requires
        0 <= k <= rels.len(),
    ensures
        k <= first_unreleased_from(rels, k) <= rels.len(),
        first_unreleased_from(rels, k) < rels.len() ==> rels[first_unreleased_from(
            rels,
            k,
        )].version is Unreleased,
        forall|j: int|
            k <= j < first_unreleased_from(rels, k) ==> !(rels[j].version is Unreleased),
    decreases rels.len() - k,
{
    if k < rels.len() && !(rels[k].version is Unreleased) {
        lemma_first_unreleased(rels, k + 1);
    }
}

// ---------------------------------------------------------------------------
// The reference rewrite a bump performs
// ---------------------------------------------------------------------------

/// The reference list after a bump: the first link's target has every
/// occurrence of the old version's text replaced by the new one, and a link
/// for the new version is inserted behind it, pointing at the first link's
/// original target with `HEAD` replaced by `v` and the new version. An empty
/// list stays empty.
pub open spec fn bumped_refs(refs: Seq<RefGhost>, cur: SemVerGhost, nv: SemVerGhost) -> Seq<
    RefGhost,
> {
    if refs.len() == 0 {
        refs
    } else {
        let first = RefGhost {
            anchor: refs[0].anchor,
            href: replace_seq(refs[0].href, semver_text(cur), semver_text(nv)),
        };
        let fresh = RefGhost {
            anchor: semver_text(nv),
            href: replace_seq(refs[0].href, "HEAD"@, seq!['v'] + semver_text(nv)),
        };
        seq![first, fresh] + refs.skip(1)
    }
}

/// The document after a bump: the first unreleased block carries the new
/// version and the given date, the references are rewritten, and everything
/// else stays.
pub open spec fn bumped_doc(
    c: ChangelogGhost,
    cur: SemVerGhost,
    nv: SemVerGhost,
    today: DateGhost,
) -> ChangelogGhost {
    let u = first_unreleased(c.releases);
    ChangelogGhost {
        intro: c.intro,
        releases: c.releases.update(
            u,
            ReleaseGhost {
                version: VersionGhost::Released(nv),
                date: Option::Some(today),
                ..c.releases[u]
            },
        ),
        refs: bumped_refs(c.refs, cur, nv),
    }
}

impl Changelog {
    pub fn new() -> (r: Self)
        ensures
            r@ == (ChangelogGhost {
                intro: Seq::<char>::empty(),
                releases: Seq::<ReleaseGhost>::empty(),
                refs: Seq::<RefGhost>::empty(),
            }),
    {
        let r = Changelog { intro: String::new(), releases: Vec::new(), refs: Vec::new() };
        assert(r.releases@.map_values(|x: Release| x@) =~= Seq::<ReleaseGhost>::empty());
        assert(r.refs@.map_values(|x: Ref| x@) =~= Seq::<RefGhost>::empty());
        r
    }

    /// The greatest version among the released blocks, if any block is
    /// released.
    pub fn version(&self) -> (r: Option<SemVer>)
        ensures
            match r {
                Option::Some(v) => max_released(self@.releases) == Option::Some(v@),
                Option::None => max_released(self@.releases) is None,
            },
    {
        let ghost rels = self@.releases;
        let mut best: Option<SemVer> = Option::None;
        let mut i: usize = 0;
        assert(rels.take(0) =~= Seq::<ReleaseGhost>::empty());
        #[verifier::loop_isolation(false)]
        while i < self.releases.len()
            invariant
                i <= self.releases@.len(),
                match best {
                    Option::Some(b) => max_released(rels.take(i as int)) == Option::Some(b@),
                    Option::None => max_released(rels.take(i as int)) is None,
                },
            decreases self.releases@.len() - i,
        {
            proof {
                assert(rels.take(i + 1).drop_last() =~= rels.take(i as int));
                assert(rels.take(i + 1).last() == rels[i as int]);
            }
            match &self.releases[i].version {
                Version::Unreleased => {},
                Version::Released(v) => {
                    match &best {
                        Option::None => {
                            best = Option::Some(v.duplicate());
                        },
                        Option::Some(b) => {
                            proof {
                                lemma_sv_le_total(b@, v@);
                            }
                            if b.at_most(v) {
                                best = Option::Some(v.duplicate());
                            }
                        },
                    }
                },
            }
            i = i + 1;
        }
        assert(rels.take(self.releases@.len() as int) =~= rels);
        best
    }

    /// Whether the document still holds a working release.
    pub fn has_unreleased(&self) -> (r: bool)
        ensures
            r == (first_unreleased(self@.releases) < self@.releases.len()),
    {
        match self.unreleased() {
            Option::Some(_) => true,
            Option::None => false,
        }
    }

    /// The position of the working release, the first unreleased block.
    pub fn unreleased(&self) -> (r: Option<usize>)
        ensures
            match r {
                Option::Some(i) => first_unreleased(self@.releases) == i as int && i
                    < self@.releases.len(),
                Option::None => first_unreleased(self@.releases) == self@.releases.len(),
            },
    {
        let ghost rels = self@.releases;
        proof {
            lemma_first_unreleased(rels, 0);
        }
        let mut i: usize = 0;
        #[verifier::loop_isolation(false)]
        while i < self.releases.len()
            invariant
                i <= rels.len(),
                first_unreleased(rels) == first_unreleased_from(rels, i as int),
            decreases rels.len() - i,
        {
            match &self.releases[i].version {
                Version::Unreleased => {
                    return Option::Some(i);
                },
                Version::Released(_) => {},
            }
            i = i + 1;
        }
        Option::None
    }

    /// Publish the working release under `new_version`, dated `today`.
    ///
    /// Nothing happens, and `false` comes back, when no block is released
    /// yet or no working release exists; both are legitimate "nothing to
    /// release" outcomes, not errors.
    pub fn bump(&mut self, new_version: &SemVer, today: Date) -> (r: bool)
        ensures
            r == (max_released(old(self)@.releases) is Some && first_unreleased(
                old(self)@.releases,
            ) < old(self)@.releases.len()),
            !r ==> final(self)@ == old(self)@,
            r ==> match max_released(old(self)@.releases) {
                Option::Some(cur) => final(self)@ == bumped_doc(
                    old(self)@,
                    cur,
                    new_version@,
                    today@,
                ),
                Option::None => false,
            },
    {
        let current = match self.version() {
            Option::Some(v) => v,
            Option::None => {
                return false;
            },
        };
        let u = match self.unreleased() {
            Option::Some(i) => i,
            Option::None => {
                return false;
            },
        };
        let ghost c0 = self@;
        let rel = &mut self.releases[u];
        rel.version = Version::Released(new_version.duplicate());
        rel.date = Option::Some(today);
        assert(self@.releases =~= c0.releases.update(
            u as int,
            ReleaseGhost {
                version: VersionGhost::Released(new_version@),
                date: Option::Some(today@),
                ..c0.releases[u as int]
            },
        ));
        if self.refs.len() > 0 {
            let old_href = self.refs[0].href.clone();
            let cur_text = current.to_text();
            let new_text = new_version.to_text();
            let href_chars = str_to_chars(old_href.as_str());
            let cur_chars = str_to_chars(cur_text.as_str());
            let new_chars = str_to_chars(new_text.as_str());
            proof {
                lemma_dec_str_val(current@.major as nat);
                assert(cur_chars@.len() > 0);
            }
            let replaced = replace_chars(&href_chars, &cur_chars, &new_chars);
            self.refs[0].href = chars_to_string(&replaced);
            let head_chars = str_to_chars("HEAD");
            proof {
                reveal_strlit("HEAD");
                assert(head_chars@.len() == 4);
            }
            let mut vtag: Vec<char> = Vec::new();
            vtag.push('v');
            crate::text::extend_chars(&mut vtag, &new_chars);
            assert(vtag@ =~= seq!['v'] + semver_text(new_version@));
            let href2 = replace_chars(&href_chars, &head_chars, &vtag);
            let fresh = Ref { anchor: new_text, href: chars_to_string(&href2) };
            self.refs.insert(1, fresh);
            assert(self@.refs =~= bumped_refs(c0.refs, current@, new_version@));
        } else {
            assert(self@.refs =~= bumped_refs(c0.refs, current@, new_version@));
        }
        assert(self@.intro == c0.intro);
        assert(self@ == bumped_doc(c0, current@, new_version@, today@));
        true
    }
}

} // verus!
