//! The page renderer: names a page, wraps its content in a minimal HTML
//! document and hands back the files that make it up.

use vstd::prelude::*;
use vstd::utf8::encode_utf8;
use crate::escape::{
    escape, escaped, is_escaped, lemma_escape_round_trip, lemma_escaped_is_escaped, unescaped,
};
use crate::model::{Page, PageView};
use crate::output::{
    file_views, lemma_join_part, lemma_occurs_in_concat, lemma_occurs_in_trans, occurs_in,
    OutputFile, OutputFileView,
};
use crate::render::{
    asset_path, asset_prefix, assets_in_place, body_fragment, content_fragments, file_link,
    image_suffix, image_tag, ink_comment, item_fragments, lemma_body_assets_in_place,
    node_fragment, node_fragments, paragraph, RenderContext,
};
use crate::sanitize::{
    is_reserved, lemma_replaced, lemma_truncated, replaced, sanitize, sanitized, MAX_STEM_BYTES,
};
use crate::text::{
    decimal, lemma_decimal_digits, lemma_decimal_len_usize, lemma_utf8_len_concat, push_decimal,
    utf8_len,
};

verus! {

/// The title that a page without one goes by: `page_` and its position in its
/// series, counted from zero.
pub open spec fn fallback_title(index: nat) -> Seq<char> {
    "page_"@ + decimal(index)
}

/// The title of a page: its own, or the fallback for its position.
pub open spec fn title_text(title: Option<Seq<char>>, index: nat) -> Seq<char> {
    match title {
        Some(title) => title,
        None => fallback_title(index),
    }
}

/// The stem of a page's file names.
pub open spec fn page_stem(title: Option<Seq<char>>, index: nat) -> Seq<char> {
    sanitized(title_text(title, index))
}

/// Where the HTML of a page goes: `{output_dir}/{stem}.html`.
pub open spec fn page_path(output_dir: Seq<char>, stem: Seq<char>) -> Seq<char> {
    output_dir + "/"@ + stem + ".html"@
}

/// What the HTML of a page opens with; the title is escaped.
pub open spec fn preamble(title: Seq<char>) -> Seq<char> {
    "<!doctype html><meta charset=\"utf-8\"><title>"@ + escaped(title) + "</title><body>\n"@
}

/// What the HTML of a page closes with.
pub open spec fn closing() -> Seq<char> {
    "</body>"@
}

/// A rendered page: its stem, where its HTML goes, the HTML, and the assets
/// to be written beside it, in the order in which the page refers to them.
#[derive(Debug)]
pub struct RenderedPage {
    pub stem: String,
    pub path: String,
    pub html: String,
    pub assets: Vec<OutputFile>,
}

pub struct RenderedPageView {
    pub stem: Seq<char>,
    pub path: Seq<char>,
    pub html: Seq<char>,
    pub assets: Seq<OutputFileView>,
}

impl View for RenderedPage {
    type V = RenderedPageView;

    open spec fn view(&self) -> RenderedPageView {
        RenderedPageView {
            stem: self.stem@,
            path: self.path@,
            html: self.html@,
            assets: file_views(self.assets@),
        }
    }
}

impl RenderedPageView {
    /// The files that make up the page, in the order in which they are to be
    /// written: the assets, then the HTML, encoded as UTF-8.
    pub open spec fn files(self) -> Seq<OutputFileView> {
        self.assets.push(OutputFileView { path: self.path, data: encode_utf8(self.html) })
    }
}

impl RenderedPage {
    /// The files that make up the page, in the order in which they are to be
    /// written: the assets, then the HTML.
    pub fn into_files(self) -> (files: Vec<OutputFile>)
        ensures
            file_views(files@) == self@.files(),
    {
        let ghost page = self@;
        let mut files = self.assets;
        let html = OutputFile { path: self.path, data: self.html.as_str().as_bytes_vec() };
        files.push(html);
        assert(file_views(files@) =~= page.files());
        files
    }
}

/// What rendering gives for the page at position `index` of its series: the
/// HTML is the preamble, what the content nodes give, in order, and the
/// closing; the assets are those that the content nodes give.
pub open spec fn rendered_page(page: PageView, index: nat, output_dir: Seq<char>)
    -> RenderedPageView {
    let title = title_text(page.title, index);
    let stem = page_stem(page.title, index);
    let body = body_fragment(output_dir, stem, page.contents);
    RenderedPageView {
        stem,
        path: page_path(output_dir, stem),
        html: preamble(title) + body.html + closing(),
        assets: body.assets,
    }
}

/// Whether `stem` can name a file: it is not empty, takes at most
/// `MAX_STEM_BYTES` bytes, and holds no reserved character.
pub open spec fn is_valid_stem(stem: Seq<char>) -> bool {
    &&& stem.len() > 0
    &&& utf8_len(stem) <= MAX_STEM_BYTES
    &&& forall|i: int| 0 <= i < stem.len() ==> !is_reserved(#[trigger] stem[i])
}

/// The fallback title is its own stem: a page without a title, at position
/// `index` of its series, is named `page_` and `index` in decimal.
pub proof fn lemma_fallback_stem(index: usize)
    ensures
        page_stem(None, index as nat) == fallback_title(index as nat),
{
    let title = fallback_title(index as nat);
    let digits = decimal(index as nat);
    reveal_strlit("page_");
    lemma_decimal_digits(index as nat);
    lemma_decimal_len_usize(index);
    assert forall|i: int| 0 <= i < title.len() implies !is_reserved(#[trigger] title[i]) by {
        if i >= 5 {
            assert(title[i] == digits[i - 5]);
        }
    }
    assert(replaced(title) =~= title);
    lemma_utf8_len_concat("page_"@, digits);
    vstd::utf8::is_ascii_chars_encode_utf8("page_"@);
    lemma_truncated(title, MAX_STEM_BYTES as nat);
}

/// The stem of a well-formed page can name a file.
pub proof fn lemma_page_stem_valid(page: PageView, index: nat)
    requires
        page.wf(),
    ensures
        is_valid_stem(page_stem(page.title, index)),
{
    let title = title_text(page.title, index);
    lemma_decimal_digits(index);
    lemma_replaced(title);
    lemma_truncated(replaced(title), MAX_STEM_BYTES as nat);
}

/// The title in the preamble is escaped: between the tags stands no `<`, no
/// `>` and no `&` but at the start of an entity, and reading it back gives the
/// title.
pub proof fn lemma_preamble_is_escaped(title: Seq<char>)
    ensures
        preamble(title) == "<!doctype html><meta charset=\"utf-8\"><title>"@ + escaped(title)
            + "</title><body>\n"@,
        is_escaped(escaped(title)),
        unescaped(escaped(title)) == title,
{
    lemma_escaped_is_escaped(title);
    lemma_escape_round_trip(title);
}

/// Every asset of a rendered page is named by the page's stem: its path starts
/// with `{output_dir}/{stem}_`. The HTML opens with the preamble and closes
/// with the closing tag.
pub proof fn lemma_rendered_page(page: PageView, index: nat, output_dir: Seq<char>)
    ensures
        ({
            let out = rendered_page(page, index, output_dir);
            &&& forall|i: int|
                0 <= i < out.assets.len() ==> asset_prefix(output_dir, out.stem).is_prefix_of(
                    #[trigger] out.assets[i].path,
                )
            &&& preamble(title_text(page.title, index)).is_prefix_of(out.html)
            &&& closing().is_suffix_of(out.html)
        }),
{
    let out = rendered_page(page, index, output_dir);
    lemma_body_assets_in_place(output_dir, out.stem, page.contents);
    let body = body_fragment(output_dir, out.stem, page.contents);
    assert(assets_in_place(output_dir, out.stem, body));
    assert(out.html.subrange(out.html.len() - closing().len(), out.html.len() as int)
        =~= closing());
}

/// What the node at position `k` of a page gives is found in the rendered
/// page: its HTML occurs in the page's HTML, and its assets are among the
/// page's assets.
pub proof fn lemma_node_of_page(page: PageView, index: nat, output_dir: Seq<char>, k: int)
    requires
        0 <= k < page.contents.len(),
    ensures
        ({
            let out = rendered_page(page, index, output_dir);
            let part = node_fragment(output_dir, out.stem, page.contents[k]);
            &&& occurs_in(part.html, out.html)
            &&& forall|i: int|
                0 <= i < part.assets.len() ==> out.assets.contains(#[trigger] part.assets[i])
        }),
{
    let out = rendered_page(page, index, output_dir);
    let parts = node_fragments(output_dir, out.stem, page.contents);
    let body = body_fragment(output_dir, out.stem, page.contents);
    lemma_join_part(parts, k);
    lemma_occurs_in_concat(preamble(title_text(page.title, index)), body.html, closing());
    lemma_occurs_in_trans(parts[k].html, body.html, out.html);
}

/// An image with data, at the top level of a page, is found in the rendered
/// page: its bytes are an asset at `{output_dir}/{stem}_img.{extension}`, and
/// the page's HTML holds a tag that refers to that path.
pub proof fn lemma_image_of_page(page: PageView, index: nat, output_dir: Seq<char>, k: int)
    requires
        0 <= k < page.contents.len(),
        page.contents[k] is Image,
        page.contents[k]->Image_0.data is Some,
    ensures
        ({
            let out = rendered_page(page, index, output_dir);
            let image = page.contents[k]->Image_0;
            let path = asset_path(output_dir, out.stem, image_suffix(image.extension));
            &&& out.assets.contains(OutputFileView { path, data: image.data->0 })
            &&& occurs_in(image_tag(path), out.html)
        }),
{
    let out = rendered_page(page, index, output_dir);
    let part = node_fragment(output_dir, out.stem, page.contents[k]);
    let image = page.contents[k]->Image_0;
    let path = asset_path(output_dir, out.stem, image_suffix(image.extension));
    lemma_node_of_page(page, index, output_dir, k);
    assert(part.html =~= image_tag(path));
    assert(part.assets[0] == OutputFileView { path, data: image.data->0 });
}

/// An embedded file, at the top level of a page, is found in the rendered
/// page: its bytes are an asset at `{output_dir}/{stem}_{filename}`, and the
/// page's HTML holds a link to that path with the file's name as its text.
pub proof fn lemma_file_of_page(page: PageView, index: nat, output_dir: Seq<char>, k: int)
    requires
        0 <= k < page.contents.len(),
        page.contents[k] is EmbeddedFile,
    ensures
        ({
            let out = rendered_page(page, index, output_dir);
            let file = page.contents[k]->EmbeddedFile_0;
            let path = asset_path(output_dir, out.stem, file.filename);
            &&& out.assets.contains(OutputFileView { path, data: file.data })
            &&& occurs_in(file_link(path, file.filename), out.html)
        }),
{
    let out = rendered_page(page, index, output_dir);
    let part = node_fragment(output_dir, out.stem, page.contents[k]);
    let file = page.contents[k]->EmbeddedFile_0;
    let path = asset_path(output_dir, out.stem, file.filename);
    lemma_node_of_page(page, index, output_dir, k);
    assert(part.html =~= file_link(path, file.filename));
    assert(part.assets[0] == OutputFileView { path, data: file.data });
}

/// Ink with a box, at the top level of a page, is found in the rendered page
/// as one comment that records the box.
pub proof fn lemma_ink_of_page(page: PageView, index: nat, output_dir: Seq<char>, k: int)
    requires
        0 <= k < page.contents.len(),
        page.contents[k] is Ink,
        page.contents[k]->Ink_0 is Some,
    ensures
        occurs_in(
            ink_comment(page.contents[k]->Ink_0->0),
            rendered_page(page, index, output_dir).html,
        ),
{
    lemma_node_of_page(page, index, output_dir, k);
}

/// Rich text in an outline of a page is found in the rendered page as a
/// paragraph that holds the text, escaped: the text is the content at
/// position `m` of the element of item `j` of the outline at position `k`.
pub proof fn lemma_text_of_page(
    page: PageView,
    index: nat,
    output_dir: Seq<char>,
    k: int,
    j: int,
    m: int,
)
    requires
        0 <= k < page.contents.len(),
        page.contents[k] is Outline,
        0 <= j < page.contents[k]->Outline_0.len(),
        page.contents[k]->Outline_0[j] is Some,
        0 <= m < page.contents[k]->Outline_0[j]->0.len(),
        page.contents[k]->Outline_0[j]->0[m] is RichText,
    ensures
        occurs_in(
            paragraph(page.contents[k]->Outline_0[j]->0[m]->RichText_0),
            rendered_page(page, index, output_dir).html,
        ),
{
    let out = rendered_page(page, index, output_dir);
    let items = page.contents[k]->Outline_0;
    let contents = items[j]->0;
    let text = contents[m]->RichText_0;
    let in_element = content_fragments(output_dir, out.stem, contents);
    let in_outline = item_fragments(output_dir, out.stem, items);
    let node = node_fragment(output_dir, out.stem, page.contents[k]);
    lemma_join_part(in_element, m);
    lemma_join_part(in_outline, j);
    lemma_occurs_in_trans(paragraph(text), in_outline[j].html, node.html);
    lemma_node_of_page(page, index, output_dir, k);
    lemma_occurs_in_trans(paragraph(text), node.html, out.html);
}

/// The HTML of a page never goes where one of its assets goes: after the
/// stem, the one path goes on with `.` and the other with `_`.
pub proof fn lemma_page_path_is_no_asset_path(
    output_dir: Seq<char>,
    stem: Seq<char>,
    suffix: Seq<char>,
)
    ensures
        page_path(output_dir, stem) != asset_path(output_dir, stem, suffix),
{
    reveal_strlit(".html");
    reveal_strlit("_");
    let at = (output_dir.len() + "/"@.len() + stem.len()) as int;
    assert(page_path(output_dir, stem)[at] == '.');
    assert(asset_path(output_dir, stem, suffix)[at] == '_');
}

/// Renders the page at position `index` of its series: the stem comes from
/// the title, or from the position where the page has no title; the HTML
/// holds the title, escaped, and the content nodes in order.
///
/// A title, where the page has one, must not be empty: it would leave the
/// page's files without a name.
pub fn render_page(page: &Page, index: usize, output_dir: &str) -> (out: RenderedPage)
    requires
        page@.wf(),
    ensures
        out@ == rendered_page(page@, index as nat, output_dir@),
        out@.stem == page_stem(page@.title, index as nat),
        is_valid_stem(out@.stem),
        page@.title is None ==> out@.stem == fallback_title(index as nat),
        forall|i: int|
            0 <= i < out@.assets.len() ==> asset_prefix(output_dir@, out@.stem).is_prefix_of(
                #[trigger] out@.assets[i].path,
            ),
{
    let title = match &page.title {
        Some(title) => title.clone(),
        None => {
            let mut fallback = "page_".to_owned();
            push_decimal(&mut fallback, index);
            fallback
        },
    };
    assert(title@ == title_text(page@.title, index as nat));
    let stem = sanitize(title.as_str());
    let mut ctx = RenderContext::new(output_dir, stem.as_str());
    let escaped_title = escape(title.as_str());
    ctx.html.append("<!doctype html><meta charset=\"utf-8\"><title>");
    ctx.html.append(escaped_title.as_str());
    ctx.html.append("</title><body>\n");
    assert(ctx@.html =~= preamble(title@));
    ctx.render_all(&page.contents);
    ctx.html.append("</body>");
    let mut path = output_dir.to_owned();
    path.append("/");
    path.append(stem.as_str());
    path.append(".html");
    proof {
        lemma_page_stem_valid(page@, index as nat);
        lemma_fallback_stem(index);
        lemma_rendered_page(page@, index as nat, output_dir@);
    }
    assert(path@ =~= page_path(output_dir@, stem@));
    assert(ctx@.assets =~= rendered_page(page@, index as nat, output_dir@).assets);
    RenderedPage { stem, path, html: ctx.html, assets: ctx.assets }
}

} // verus!
