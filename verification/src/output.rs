//! What rendering gives: files to be written, and the fragments that a page
//! is put together from.

use vstd::prelude::*;

verus! {

/// A file to be written: where it goes and what it holds.
#[derive(Debug)]
pub struct OutputFile {
    pub path: String,
    pub data: Vec<u8>,
}

pub struct OutputFileView {
    pub path: Seq<char>,
    pub data: Seq<u8>,
}

impl View for OutputFile {
    type V = OutputFileView;

    open spec fn view(&self) -> OutputFileView {
        OutputFileView { path: self.path@, data: self.data@ }
    }
}

/// The views of files.
pub open spec fn file_views(files: Seq<OutputFile>) -> Seq<OutputFileView> {
    files.map_values(|file: OutputFile| file@)
}

/// What a piece of content adds to a page: some HTML, and the assets to be
/// written beside the page.
pub struct Fragment {
    pub html: Seq<char>,
    pub assets: Seq<OutputFileView>,
}

impl Fragment {
    /// Nothing at all.
    pub open spec fn empty() -> Fragment {
        Fragment { html: Seq::empty(), assets: Seq::empty() }
    }

    /// HTML without assets.
    pub open spec fn of_html(html: Seq<char>) -> Fragment {
        Fragment { html, assets: Seq::empty() }
    }

    /// `self`, and `next` after it.
    pub open spec fn followed_by(self, next: Fragment) -> Fragment {
        Fragment { html: self.html + next.html, assets: self.assets + next.assets }
    }

    /// The fragments `parts`, one after the other.
    pub open spec fn join(parts: Seq<Fragment>) -> Fragment
        decreases parts.len(),
    {
        if parts.len() == 0 {
            Fragment::empty()
        } else {
            Fragment::join(parts.drop_last()).followed_by(parts.last())
        }
    }
}

/// Whether `part` stands somewhere in `whole`, unbroken.
pub open spec fn occurs_in(part: Seq<char>, whole: Seq<char>) -> bool {
    exists|at: int|
        0 <= at <= whole.len() - part.len() && #[trigger] whole.subrange(at, at + part.len())
            == part
}

/// A text occurs in whatever is put around it.
pub proof fn lemma_occurs_in_concat(before: Seq<char>, part: Seq<char>, after: Seq<char>)
    ensures
        occurs_in(part, before + part + after),
{
    let whole = before + part + after;
    let at = before.len() as int;
    assert(whole.subrange(at, at + part.len()) =~= part);
}

/// What occurs in a part of a text occurs in the text.
pub proof fn lemma_occurs_in_trans(inner: Seq<char>, part: Seq<char>, whole: Seq<char>)
    requires
        occurs_in(inner, part),
        occurs_in(part, whole),
    ensures
        occurs_in(inner, whole),
{
    let i = choose|at: int|
        0 <= at <= part.len() - inner.len() && #[trigger] part.subrange(at, at + inner.len())
            == inner;
    let j = choose|at: int|
        0 <= at <= whole.len() - part.len() && #[trigger] whole.subrange(at, at + part.len())
            == part;
    let found = whole.subrange(i + j, i + j + inner.len());
    assert(found =~= whole.subrange(j, j + part.len()).subrange(i, i + inner.len()));
}

/// Joining fragments in two runs, one after the other, is joining them all.
pub proof fn lemma_join_concat(first: Seq<Fragment>, rest: Seq<Fragment>)
    ensures
        Fragment::join(first + rest) == Fragment::join(first).followed_by(Fragment::join(rest)),
    decreases rest.len(),
{
    let all = Fragment::join(first + rest);
    let both = Fragment::join(first).followed_by(Fragment::join(rest));
    if rest.len() == 0 {
        assert(first + rest =~= first);
    } else {
        lemma_join_concat(first, rest.drop_last());
        assert((first + rest).drop_last() =~= first + rest.drop_last());
    }
    assert(all.html =~= both.html);
    assert(all.assets =~= both.assets);
}

/// Each of the fragments is found in their join: its HTML occurs in the
/// joined HTML, and its assets are among the joined assets.
pub proof fn lemma_join_part(parts: Seq<Fragment>, k: int)
    requires
        0 <= k < parts.len(),
    ensures
        occurs_in(parts[k].html, Fragment::join(parts).html),
        forall|i: int|
            0 <= i < parts[k].assets.len() ==> Fragment::join(parts).assets.contains(
                #[trigger] parts[k].assets[i],
            ),
{
    let before = Fragment::join(parts.take(k));
    let after = Fragment::join(parts.skip(k + 1));
    let all = Fragment::join(parts);
    assert(parts.take(k + 1).drop_last() =~= parts.take(k));
    assert(parts.take(k + 1) + parts.skip(k + 1) =~= parts);
    lemma_join_concat(parts.take(k + 1), parts.skip(k + 1));
    assert(all.html =~= before.html + parts[k].html + after.html);
    lemma_occurs_in_concat(before.html, parts[k].html, after.html);
    assert forall|i: int| 0 <= i < parts[k].assets.len() implies all.assets.contains(
        #[trigger] parts[k].assets[i],
    ) by {
        assert(all.assets[before.assets.len() + i] == parts[k].assets[i]);
    }
}

/// What holds of every asset of every fragment holds of every asset of their
/// join.
pub proof fn lemma_join_assets(parts: Seq<Fragment>, holds: spec_fn(OutputFileView) -> bool)
    requires
        forall|k: int, i: int|
            0 <= k < parts.len() && 0 <= i < parts[k].assets.len() ==> holds(
                #[trigger] parts[k].assets[i],
            ),
    ensures
        forall|i: int|
            0 <= i < Fragment::join(parts).assets.len() ==> holds(
                #[trigger] Fragment::join(parts).assets[i],
            ),
    decreases parts.len(),
{
    if parts.len() > 0 {
        let before = Fragment::join(parts.drop_last());
        let all = Fragment::join(parts);
        assert forall|k: int, i: int|
            0 <= k < parts.drop_last().len() && 0 <= i < parts.drop_last()[k].assets.len()
            implies holds(#[trigger] parts.drop_last()[k].assets[i]) by {
            assert(parts.drop_last()[k] == parts[k]);
        }
        lemma_join_assets(parts.drop_last(), holds);
        assert forall|i: int| 0 <= i < all.assets.len() implies holds(#[trigger] all.assets[i]) by {
            if i < before.assets.len() {
                assert(all.assets[i] == before.assets[i]);
            } else {
                assert(all.assets[i] == parts.last().assets[i - before.assets.len()]);
                assert(parts.last() == parts[parts.len() - 1]);
            }
        }
    }
}

} // verus!
