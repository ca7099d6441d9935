//! The export driver: renders every page of a document, series by series.

use vstd::prelude::*;
use crate::model::{document_wf, Document, PageView};
use crate::page::{
    fallback_title, is_valid_stem, lemma_fallback_stem, page_path, page_stem, render_page,
    rendered_page, RenderedPage, RenderedPageView,
};
use crate::text::{decimal, lemma_decimal_injective};

verus! {

/// What rendering gives for the pages of one series: each page is rendered
/// at its position in the series, counted from zero.
pub open spec fn exported_series(pages: Seq<PageView>, output_dir: Seq<char>) -> Seq<
    RenderedPageView,
> {
    Seq::new(pages.len(), |i: int| rendered_page(pages[i], i as nat, output_dir))
}

/// What exporting a document gives: the rendered pages of its series, one
/// series after the other.
pub open spec fn exported(document: Seq<Seq<PageView>>, output_dir: Seq<char>) -> Seq<
    RenderedPageView,
>
    decreases document.len(),
{
    if document.len() == 0 {
        Seq::empty()
    } else {
        exported(document.drop_last(), output_dir) + exported_series(document.last(), output_dir)
    }
}

/// The number of pages in all the series of a document.
pub open spec fn page_count(document: Seq<Seq<PageView>>) -> nat
    decreases document.len(),
{
    if document.len() == 0 {
        0
    } else {
        page_count(document.drop_last()) + document.last().len()
    }
}

/// The views of rendered pages.
pub open spec fn views(pages: Seq<RenderedPage>) -> Seq<RenderedPageView> {
    pages.map_values(|page: RenderedPage| page@)
}

/// Exporting gives one rendered page for each page of the document.
pub proof fn lemma_exported_len(document: Seq<Seq<PageView>>, output_dir: Seq<char>)
    ensures
        exported(document, output_dir).len() == page_count(document),
    decreases document.len(),
{
    if document.len() > 0 {
        lemma_exported_len(document.drop_last(), output_dir);
    }
}

/// The page at position `p` of series `s` is rendered at that position, and
/// is found after all the pages of the series before `s`.
pub proof fn lemma_exported_page(
    document: Seq<Seq<PageView>>,
    output_dir: Seq<char>,
    s: int,
    p: int,
)
    requires
        0 <= s < document.len(),
        0 <= p < document[s].len(),
    ensures
        page_count(document.take(s)) + p < exported(document, output_dir).len(),
        exported(document, output_dir)[page_count(document.take(s)) + p] == rendered_page(
            document[s][p],
            p as nat,
            output_dir,
        ),
    decreases document.len(),
{
    let before = document.drop_last();
    lemma_exported_len(before, output_dir);
    lemma_exported_len(document, output_dir);
    if s < document.len() - 1 {
        lemma_exported_page(before, output_dir, s, p);
        assert(document.take(s) =~= before.take(s));
    }
}

/// Two pages go to the same HTML file exactly when they have the same stem.
pub proof fn lemma_same_path_same_stem(output_dir: Seq<char>, a: Seq<char>, b: Seq<char>)
    ensures
        page_path(output_dir, a) == page_path(output_dir, b) <==> a == b,
{
    let path_a = page_path(output_dir, a);
    let path_b = page_path(output_dir, b);
    if path_a == path_b {
        let skip = output_dir.len() + "/"@.len();
        assert(path_a.len() == skip + a.len() + ".html"@.len());
        assert(path_b.len() == skip + b.len() + ".html"@.len());
        assert forall|i: int| 0 <= i < a.len() implies a[i] == b[i] by {
            assert(a[i] == path_a[skip + i]);
            assert(b[i] == path_b[skip + i]);
        }
        assert(a =~= b);
    }
}

/// Each exported page goes to the path that its stem gives.
pub proof fn lemma_exported_paths(document: Seq<Seq<PageView>>, output_dir: Seq<char>)
    ensures
        forall|i: int|
            0 <= i < exported(document, output_dir).len() ==> (#[trigger] exported(
                document,
                output_dir,
            )[i]).path == page_path(output_dir, exported(document, output_dir)[i].stem),
    decreases document.len(),
{
    if document.len() > 0 {
        let before = exported(document.drop_last(), output_dir);
        let last = exported_series(document.last(), output_dir);
        let pages = exported(document, output_dir);
        lemma_exported_paths(document.drop_last(), output_dir);
        assert forall|i: int| 0 <= i < pages.len() implies (#[trigger] pages[i]).path
            == page_path(output_dir, pages[i].stem) by {
            if i < before.len() {
                assert(pages[i] == before[i]);
            } else {
                assert(pages[i] == last[i - before.len()]);
            }
        }
    }
}

/// Where no two pages of a document have the same stem, exporting gives one
/// HTML file for each page, and no two of them go to the same path.
pub proof fn lemma_one_file_per_page(document: Seq<Seq<PageView>>, output_dir: Seq<char>)
    requires
        forall|i: int, j: int|
            0 <= i < j < exported(document, output_dir).len() ==> exported(
                document,
                output_dir,
            )[i].stem != exported(document, output_dir)[j].stem,
    ensures
        exported(document, output_dir).len() == page_count(document),
        forall|i: int, j: int|
            0 <= i < j < exported(document, output_dir).len() ==> exported(
                document,
                output_dir,
            )[i].path != exported(document, output_dir)[j].path,
{
    let pages = exported(document, output_dir);
    lemma_exported_len(document, output_dir);
    lemma_exported_paths(document, output_dir);
    assert forall|i: int, j: int| 0 <= i < j < pages.len() implies pages[i].path
        != pages[j].path by {
        lemma_same_path_same_stem(output_dir, pages[i].stem, pages[j].stem);
    }
}

/// Two pages without a title, at different positions of one series, have
/// different stems.
pub proof fn lemma_untitled_pages_differ(p: usize, q: usize)
    requires
        p != q,
    ensures
        page_stem(None, p as nat) != page_stem(None, q as nat),
{
    lemma_fallback_stem(p);
    lemma_fallback_stem(q);
    let a = fallback_title(p as nat);
    let b = fallback_title(q as nat);
    if a == b {
        let skip = "page_"@.len() as int;
        assert(a.skip(skip) =~= decimal(p as nat));
        assert(b.skip(skip) =~= decimal(q as nat));
        lemma_decimal_injective(p as nat, q as nat);
    }
}

/// Renders every page of the document, series by series and, within a
/// series, page by page. The position that names a page without a title
/// starts again at zero in each series.
///
/// Two pages with the same stem are given the same path: of two such files
/// written one after the other, the second replaces the first.
pub fn export(document: &Document, output_dir: &str) -> (pages: Vec<RenderedPage>)
    requires
        document_wf(document@),
    ensures
        views(pages@) == exported(document@, output_dir@),
        pages.len() == page_count(document@),
        forall|i: int| 0 <= i < pages.len() ==> is_valid_stem(#[trigger] pages[i]@.stem),
{
    let mut pages: Vec<RenderedPage> = Vec::new();
    let mut s: usize = 0;
    while s < document.series.len()
        invariant
            s <= document.series.len(),
            document_wf(document@),
            views(pages@) == exported(document@.take(s as int), output_dir@),
            forall|i: int| 0 <= i < pages.len() ==> is_valid_stem(#[trigger] pages[i]@.stem),
        decreases document.series.len() - s,
    {
        let series = &document.series[s];
        let ghost before = views(pages@);
        let mut p: usize = 0;
        while p < series.pages.len()
            invariant
                p <= series.pages.len(),
                s < document.series.len(),
                series == document.series[s as int],
                document_wf(document@),
                views(pages@) == before + exported_series(series@, output_dir@).take(p as int),
                forall|i: int| 0 <= i < pages.len() ==> is_valid_stem(#[trigger] pages[i]@.stem),
            decreases series.pages.len() - p,
        {
            assert(document@[s as int][p as int].wf());
            let page = render_page(&series.pages[p], p, output_dir);
            let ghost rendered = views(pages@);
            pages.push(page);
            assert(views(pages@) =~= rendered.push(page@));
            p = p + 1;
        }
        proof {
            let done = document@.take(s as int + 1);
            assert(done.drop_last() =~= document@.take(s as int));
            assert(exported_series(series@, output_dir@).take(p as int) =~= exported_series(
                series@,
                output_dir@,
            ));
        }
        s = s + 1;
    }
    proof {
        assert(document@.take(s as int) =~= document@);
        lemma_exported_len(document@, output_dir@);
    }
    pages
}

} // verus!
