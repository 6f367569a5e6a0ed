use vstd::prelude::*;

use crate::date::date_text;
use crate::model::{Changelog, ChangelogGhost, RefGhost, Release, ReleaseGhost, VersionGhost};
use crate::text::{push_char, replace_chars, replace_seq, str_to_chars};
use crate::version::semver_text;
use vstd::string::StringExecFns;

verus! {

// ---------------------------------------------------------------------------
// The text a document turns into
// ---------------------------------------------------------------------------

/// Marker opening a release heading line.
pub open spec fn m_h2() -> Seq<char> {
    seq!['#', '#', ' ', '[']
}

/// Marker opening a section heading line.
pub open spec fn m_h3() -> Seq<char> {
    seq!['#', '#', '#', ' ']
}

/// Marker opening a bullet line.
pub open spec fn m_bullet() -> Seq<char> {
    seq!['-', ' ']
}

/// The indentation carried by a bullet's continuation lines.
pub open spec fn m_cont() -> Seq<char> {
    seq![' ', ' ']
}

/// An item's text as it stands inside its bullet: each embedded line break
/// re-indented by two spaces.
pub open spec fn item_body(item: Seq<char>) -> Seq<char> {
    replace_seq(item, seq!['\n'], seq!['\n', ' ', ' '])
}

pub open spec fn gen_item(item: Seq<char>) -> Seq<char> {
    m_bullet() + item_body(item) + seq!['\n']
}

pub open spec fn gen_items(items: Seq<Seq<char>>) -> Seq<char>
    decreases items.len(),
{
    if items.len() == 0 {
        Seq::empty()
    } else {
        gen_item(items[0]) + gen_items(items.skip(1))
    }
}

/// A section: heading, blank line, one bullet per item, trailing blank line;
/// nothing at all when the list is empty.
pub open spec fn gen_section(heading: Seq<char>, items: Seq<Seq<char>>) -> Seq<char> {
    if items.len() == 0 {
        Seq::empty()
    } else {
        m_h3() + heading + seq!['\n', '\n'] + gen_items(items) + seq!['\n']
    }
}

/// The bracketed label of a release heading.
pub open spec fn ver_label(v: VersionGhost) -> Seq<char> {
    match v {
        VersionGhost::Unreleased => "Unreleased"@,
        VersionGhost::Released(sv) => semver_text(sv),
    }
}

pub open spec fn gen_heading(r: ReleaseGhost) -> Seq<char> {
    m_h2() + ver_label(r.version) + seq![']'] + (match r.date {
        Option::Some(d) => seq![' ', '-', ' '] + date_text(d),
        Option::None => Seq::empty(),
    }) + seq!['\n', '\n']
}

/// A release block: heading, leading text, then the four sections in the
/// fixed order Added, Fixed, Changed, Removed.
pub open spec fn gen_release(r: ReleaseGhost) -> Seq<char> {
    gen_heading(r) + r.intro + gen_section("Added"@, r.added) + gen_section("Fixed"@, r.fixed)
        + gen_section("Changed"@, r.changed) + gen_section("Removed"@, r.removed)
}

pub open spec fn gen_releases(rs: Seq<ReleaseGhost>) -> Seq<char>
    decreases rs.len(),
{
    if rs.len() == 0 {
        Seq::empty()
    } else {
        gen_release(rs[0]) + gen_releases(rs.skip(1))
    }
}

pub open spec fn gen_ref(f: RefGhost) -> Seq<char> {
    seq!['['] + f.anchor + seq![']', ':', ' '] + f.href + seq!['\n']
}

pub open spec fn gen_refs(fs: Seq<RefGhost>) -> Seq<char>
    decreases fs.len(),
{
    if fs.len() == 0 {
        Seq::empty()
    } else {
        gen_ref(fs[0]) + gen_refs(fs.skip(1))
    }
}

/// The whole document: leading text, the release blocks in order, then the
/// reference links in order.
pub open spec fn gen_doc(c: ChangelogGhost) -> Seq<char> {
    c.intro + gen_releases(c.releases) + gen_refs(c.refs)
}

pub proof fn lemma_gen_items_push(items: Seq<Seq<char>>, one: Seq<char>)
    ensures
        gen_items(items.push(one)) == gen_items(items) + gen_item(one),
    decreases items.len(),
{
    if items.len() == 0 {
        assert(items =~= Seq::<Seq<char>>::empty());
        assert(gen_items(items) == Seq::<char>::empty());
        assert(items.push(one)[0] == one);
        assert(items.push(one).skip(1) =~= Seq::<Seq<char>>::empty());
        assert(gen_items(Seq::<Seq<char>>::empty()) == Seq::<char>::empty());
        assert(gen_items(items.push(one).skip(1)) == Seq::<char>::empty());
        assert(gen_items(items.push(one)) =~= gen_item(one) + Seq::<char>::empty());
        assert(gen_item(one) + Seq::<char>::empty() =~= gen_item(one));
        assert(Seq::<char>::empty() + gen_item(one) =~= gen_item(one));
    } else {
        assert(items.push(one).skip(1) =~= items.skip(1).push(one));
        lemma_gen_items_push(items.skip(1), one);
        assert(gen_items(items.push(one)) == gen_item(items[0]) + (gen_items(items.skip(1))
            + gen_item(one)));
        assert(gen_item(items[0]) + (gen_items(items.skip(1)) + gen_item(one)) =~= (gen_item(
            items[0],
        ) + gen_items(items.skip(1))) + gen_item(one));
    }
}

pub proof fn lemma_gen_releases_push(rs: Seq<ReleaseGhost>, one: ReleaseGhost)
    ensures
        gen_releases(rs.push(one)) == gen_releases(rs) + gen_release(one),
    decreases rs.len(),
{
    if rs.len() == 0 {
        assert(rs =~= Seq::<ReleaseGhost>::empty());
        assert(gen_releases(rs) == Seq::<char>::empty());
        assert(rs.push(one)[0] == one);
        assert(rs.push(one).skip(1) =~= Seq::<ReleaseGhost>::empty());
        assert(gen_releases(Seq::<ReleaseGhost>::empty()) == Seq::<char>::empty());
        assert(gen_releases(rs.push(one).skip(1)) == Seq::<char>::empty());
        assert(gen_releases(rs.push(one)) =~= gen_release(one) + Seq::<char>::empty());
        assert(gen_release(one) + Seq::<char>::empty() =~= gen_release(one));
        assert(Seq::<char>::empty() + gen_release(one) =~= gen_release(one));
    } else {
        assert(rs.push(one).skip(1) =~= rs.skip(1).push(one));
        lemma_gen_releases_push(rs.skip(1), one);
        assert(gen_releases(rs.push(one)) == gen_release(rs[0]) + (gen_releases(rs.skip(1))
            + gen_release(one)));
        assert(gen_release(rs[0]) + (gen_releases(rs.skip(1)) + gen_release(one)) =~= (gen_release(
            rs[0],
        ) + gen_releases(rs.skip(1))) + gen_release(one));
    }
}

pub proof fn lemma_gen_refs_push(fs: Seq<RefGhost>, one: RefGhost)
    ensures
        gen_refs(fs.push(one)) == gen_refs(fs) + gen_ref(one),
    decreases fs.len(),
{
    if fs.len() == 0 {
        assert(fs =~= Seq::<RefGhost>::empty());
        assert(gen_refs(fs) == Seq::<char>::empty());
        assert(fs.push(one)[0] == one);
        assert(fs.push(one).skip(1) =~= Seq::<RefGhost>::empty());
        assert(gen_refs(Seq::<RefGhost>::empty()) == Seq::<char>::empty());
        assert(gen_refs(fs.push(one).skip(1)) == Seq::<char>::empty());
        assert(gen_refs(fs.push(one)) =~= gen_ref(one) + Seq::<char>::empty());
        assert(gen_ref(one) + Seq::<char>::empty() =~= gen_ref(one));
        assert(Seq::<char>::empty() + gen_ref(one) =~= gen_ref(one));
    } else {
        assert(fs.push(one).skip(1) =~= fs.skip(1).push(one));
        lemma_gen_refs_push(fs.skip(1), one);
        assert(gen_refs(fs.push(one)) == gen_ref(fs[0]) + (gen_refs(fs.skip(1)) + gen_ref(one)));
        assert(gen_ref(fs[0]) + (gen_refs(fs.skip(1)) + gen_ref(one)) =~= (gen_ref(fs[0])
            + gen_refs(fs.skip(1))) + gen_ref(one));
    }
}

impl crate::model::Version {
    /// The bracketed label this tag renders as.
    pub fn label(&self) -> (r: String)
        ensures
            r@ == ver_label(self@),
    {
        match self {
            crate::model::Version::Unreleased => "Unreleased".to_owned(),
            crate::model::Version::Released(v) => v.to_text(),
        }
    }
}

// ---------------------------------------------------------------------------
// Rendering
// ---------------------------------------------------------------------------

/// Append one section to the output.
pub fn generate_section(target: &mut String, heading: &str, items: &Vec<String>)
    ensures
        final(target)@ == old(target)@ + gen_section(heading@, items.deep_view()),
{
    let ghost t0 = target@;
    if items.len() == 0 {
        assert(items.deep_view() =~= Seq::<Seq<char>>::empty());
        assert(t0 + gen_section(heading@, items.deep_view()) =~= t0);
        return ;
    }
    push_char(target, '#');
    push_char(target, '#');
    push_char(target, '#');
    push_char(target, ' ');
    target.append(heading);
    push_char(target, '\n');
    push_char(target, '\n');
    let ghost before_items = target@;
    let mut i: usize = 0;
    let mut pat: Vec<char> = Vec::new();
    pat.push('\n');
    let mut sub: Vec<char> = Vec::new();
    sub.push('\n');
    sub.push(' ');
    sub.push(' ');
    assert(pat@ =~= seq!['\n']);
    assert(sub@ =~= seq!['\n', ' ', ' ']);
    #[verifier::loop_isolation(false)]
    while i < items.len()
        invariant
            i <= items@.len(),
            target@ == before_items + gen_items(items.deep_view().take(i as int)),
        decreases items@.len() - i,
    {
        assert(gen_items(items.deep_view().take(0)) =~= Seq::<char>::empty()) by {
            assert(items.deep_view().take(0) =~= Seq::<Seq<char>>::empty());
        }
        let chars = str_to_chars(items[i].as_str());
        let body = replace_chars(&chars, &pat, &sub);
        push_char(target, '-');
        push_char(target, ' ');
        let ghost mid = target@;
        let mut j: usize = 0;
        while j < body.len()
            invariant
                j <= body@.len(),
                target@ =~= mid + body@.take(j as int),
            decreases body@.len() - j,
        {
            push_char(target, body[j]);
            assert(target@ =~= mid + body@.take(j + 1 as int));
            j = j + 1;
        }
        assert(target@ =~= mid + body@);
        push_char(target, '\n');
        proof {
            assert(items.deep_view()[i as int] == items[i as int]@);
            assert(items.deep_view().take(i + 1) =~= items.deep_view().take(i as int).push(
                items.deep_view()[i as int],
            ));
            lemma_gen_items_push(items.deep_view().take(i as int), items.deep_view()[i as int]);
            assert(target@ =~= before_items + gen_items(items.deep_view().take(i + 1)));
        }
        i = i + 1;
    }
    assert(items.deep_view().take(items@.len() as int) =~= items.deep_view());
    push_char(target, '\n');
    assert(target@ =~= t0 + gen_section(heading@, items.deep_view()));
}

#[verifier::rlimit(60)]
fn generate_release(target: &mut String, release: &Release)
    ensures
        final(target)@ == old(target)@ + gen_release(release@),
{
    let ghost t0 = target@;
    push_char(target, '#');
    push_char(target, '#');
    push_char(target, ' ');
    push_char(target, '[');
    match &release.version {
        crate::model::Version::Unreleased => {
            target.append("Unreleased");
        },
        crate::model::Version::Released(sv) => {
            let vt = sv.to_text();
            target.append(vt.as_str());
        },
    }
    push_char(target, ']');
    match &release.date {
        Option::Some(d) => {
            push_char(target, ' ');
            push_char(target, '-');
            push_char(target, ' ');
            let dt = d.to_text();
            target.append(dt.as_str());
        },
        Option::None => {},
    }
    push_char(target, '\n');
    push_char(target, '\n');
    assert(target@ =~= t0 + gen_heading(release@));
    target.append(release.intro.as_str());
    generate_section(target, "Added", &release.added);
    generate_section(target, "Fixed", &release.fixed);
    generate_section(target, "Changed", &release.changed);
    generate_section(target, "Removed", &release.removed);
    assert(target@ =~= t0 + gen_release(release@));
}

/// The document as text, a deterministic serialization of the model.
#[verifier::rlimit(60)]
pub fn generate_str(model: &Changelog) -> (r: String)
    ensures
        r@ == gen_doc(model@),
{
    let mut s = String::new();
    s.append(model.intro.as_str());
    let ghost after_intro = s@;
    let mut i: usize = 0;
    assert(gen_releases(model@.releases.take(0)) =~= Seq::<char>::empty()) by {
        assert(model@.releases.take(0) =~= Seq::<ReleaseGhost>::empty());
    }
    assert(s@ =~= after_intro + gen_releases(model@.releases.take(0)));
    #[verifier::loop_isolation(false)]
    while i < model.releases.len()
        invariant
            i <= model.releases@.len(),
            s@ == after_intro + gen_releases(model@.releases.take(i as int)),
        decreases model.releases@.len() - i,
    {
        generate_release(&mut s, &model.releases[i]);
        proof {
            assert(model@.releases[i as int] == model.releases[i as int]@);
            assert(model@.releases.take(i + 1) =~= model@.releases.take(i as int).push(
                model@.releases[i as int],
            ));
            lemma_gen_releases_push(model@.releases.take(i as int), model@.releases[i as int]);
            assert(s@ =~= after_intro + gen_releases(model@.releases.take(i + 1)));
        }
        i = i + 1;
    }
    assert(model@.releases.take(model.releases@.len() as int) =~= model@.releases);
    let ghost after_rels = s@;
    let mut j: usize = 0;
    assert(gen_refs(model@.refs.take(0)) =~= Seq::<char>::empty()) by {
        assert(model@.refs.take(0) =~= Seq::<RefGhost>::empty());
    }
    assert(s@ =~= after_rels + gen_refs(model@.refs.take(0)));
    #[verifier::loop_isolation(false)]
    while j < model.refs.len()
        invariant
            j <= model.refs@.len(),
            s@ == after_rels + gen_refs(model@.refs.take(j as int)),
        decreases model.refs@.len() - j,
    {
        push_char(&mut s, '[');
        s.append(model.refs[j].anchor.as_str());
        push_char(&mut s, ']');
        push_char(&mut s, ':');
        push_char(&mut s, ' ');
        s.append(model.refs[j].href.as_str());
        push_char(&mut s, '\n');
        proof {
            assert(model@.refs[j as int] == model.refs[j as int]@);
            assert(model@.refs.take(j + 1) =~= model@.refs.take(j as int).push(
                model@.refs[j as int],
            ));
            lemma_gen_refs_push(model@.refs.take(j as int), model@.refs[j as int]);
            assert(s@ =~= after_rels + gen_refs(model@.refs.take(j + 1)));
        }
        j = j + 1;
    }
    assert(model@.refs.take(model.refs@.len() as int) =~= model@.refs);
    assert(s@ =~= gen_doc(model@));
    s
}

} // verus!
