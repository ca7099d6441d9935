//! The content renderer: turns the content nodes of one page into HTML and
//! collects the assets that go beside the page.

use vstd::prelude::*;
use vstd::slice::slice_to_vec;
use crate::escape::{
    escape, escaped, is_escaped, lemma_escape_round_trip, lemma_escaped_is_escaped, unescaped,
};
use crate::model::{
    BoundingBoxView, ContentNode, ContentNodeView, Element, ElementContent, ElementContentView,
    EmbeddedFile, EmbeddedFileView, Image, ImageView, Ink, Outline, RichText,
};
use crate::output::{file_views, lemma_join_assets, Fragment, OutputFile, OutputFileView};

verus! {

/// What every asset path of a page starts with: `{output_dir}/{stem}_`.
pub open spec fn asset_prefix(output_dir: Seq<char>, stem: Seq<char>) -> Seq<char> {
    output_dir + "/"@ + stem + "_"@
}

/// Where an asset of a page goes: `{output_dir}/{stem}_{suffix}`.
pub open spec fn asset_path(output_dir: Seq<char>, stem: Seq<char>, suffix: Seq<char>) -> Seq<
    char,
> {
    asset_prefix(output_dir, stem) + suffix
}

/// The suffix of an image asset: `img.` and the extension, `bin` where none
/// is known.
pub open spec fn image_suffix(extension: Option<Seq<char>>) -> Seq<char> {
    "img."@ + match extension {
        Some(extension) => extension,
        None => "bin"@,
    }
}

/// A paragraph that holds `text`, escaped.
pub open spec fn paragraph(text: Seq<char>) -> Seq<char> {
    "<p>"@ + escaped(text) + "</p>\n"@
}

/// An image tag that refers to `path`.
pub open spec fn image_tag(path: Seq<char>) -> Seq<char> {
    "<img src=\""@ + path + "\" alt=\"image\" />\n"@
}

/// A link to `path` with `name` as its text.
pub open spec fn file_link(path: Seq<char>, name: Seq<char>) -> Seq<char> {
    "<a href=\""@ + path + "\">"@ + name + "</a>\n"@
}

/// The comment that records the box around an ink drawing.
pub open spec fn ink_comment(bounding_box: BoundingBoxView) -> Seq<char> {
    "<!-- Ink bbox: left="@ + bounding_box.y + " top="@ + bounding_box.x + " w="@
        + bounding_box.width + " h="@ + bounding_box.height + " -->\n"@
}

/// One asset, named by the page's stem and `suffix`, and no HTML.
pub open spec fn asset_fragment(
    output_dir: Seq<char>,
    stem: Seq<char>,
    suffix: Seq<char>,
    data: Seq<u8>,
) -> Fragment {
    Fragment {
        html: Seq::empty(),
        assets: seq![OutputFileView { path: asset_path(output_dir, stem, suffix), data }],
    }
}

/// Rich text gives a paragraph.
pub open spec fn text_fragment(text: Seq<char>) -> Fragment {
    Fragment::of_html(paragraph(text))
}

/// An image with data gives an asset and a tag that refers to it; one
/// without data gives nothing.
pub open spec fn image_fragment(output_dir: Seq<char>, stem: Seq<char>, image: ImageView)
    -> Fragment {
    match image.data {
        Some(data) => {
            let suffix = image_suffix(image.extension);
            asset_fragment(output_dir, stem, suffix, data).followed_by(
                Fragment::of_html(image_tag(asset_path(output_dir, stem, suffix))),
            )
        },
        None => Fragment::empty(),
    }
}

/// An embedded file gives an asset under its own name and a link to it.
pub open spec fn file_fragment(output_dir: Seq<char>, stem: Seq<char>, file: EmbeddedFileView)
    -> Fragment {
    asset_fragment(output_dir, stem, file.filename, file.data).followed_by(
        Fragment::of_html(file_link(asset_path(output_dir, stem, file.filename), file.filename)),
    )
}

/// Ink with a box gives one comment; ink without gives nothing.
pub open spec fn ink_fragment(ink: Option<BoundingBoxView>) -> Fragment {
    match ink {
        Some(bounding_box) => Fragment::of_html(ink_comment(bounding_box)),
        None => Fragment::empty(),
    }
}

/// What one piece of content of an outline element gives.
pub open spec fn content_fragment(
    output_dir: Seq<char>,
    stem: Seq<char>,
    content: ElementContentView,
) -> Fragment {
    match content {
        ElementContentView::RichText(text) => text_fragment(text),
        ElementContentView::Image(image) => image_fragment(output_dir, stem, image),
        ElementContentView::EmbeddedFile(file) => file_fragment(output_dir, stem, file),
        ElementContentView::Other => Fragment::empty(),
    }
}

/// What each piece of content of an outline element gives.
pub open spec fn content_fragments(
    output_dir: Seq<char>,
    stem: Seq<char>,
    contents: Seq<ElementContentView>,
) -> Seq<Fragment> {
    contents.map_values(|content: ElementContentView| content_fragment(output_dir, stem, content))
}

/// What an outline element gives: what its content gives, in order.
pub open spec fn element_fragment(
    output_dir: Seq<char>,
    stem: Seq<char>,
    contents: Seq<ElementContentView>,
) -> Fragment {
    Fragment::join(content_fragments(output_dir, stem, contents))
}

/// What an outline item gives: what its element gives, where it has one.
pub open spec fn item_fragment(
    output_dir: Seq<char>,
    stem: Seq<char>,
    item: Option<Seq<ElementContentView>>,
) -> Fragment {
    match item {
        Some(contents) => element_fragment(output_dir, stem, contents),
        None => Fragment::empty(),
    }
}

/// What each item of an outline gives.
pub open spec fn item_fragments(
    output_dir: Seq<char>,
    stem: Seq<char>,
    items: Seq<Option<Seq<ElementContentView>>>,
) -> Seq<Fragment> {
    items.map_values(
        |item: Option<Seq<ElementContentView>>| item_fragment(output_dir, stem, item),
    )
}

/// What an outline gives: what its items give, in order.
pub open spec fn outline_fragment(
    output_dir: Seq<char>,
    stem: Seq<char>,
    items: Seq<Option<Seq<ElementContentView>>>,
) -> Fragment {
    Fragment::join(item_fragments(output_dir, stem, items))
}

/// What one content node of a page gives.
pub open spec fn node_fragment(output_dir: Seq<char>, stem: Seq<char>, node: ContentNodeView)
    -> Fragment {
    match node {
        ContentNodeView::Outline(items) => outline_fragment(output_dir, stem, items),
        ContentNodeView::Image(image) => image_fragment(output_dir, stem, image),
        ContentNodeView::EmbeddedFile(file) => file_fragment(output_dir, stem, file),
        ContentNodeView::Ink(ink) => ink_fragment(ink),
        ContentNodeView::Unknown => Fragment::empty(),
    }
}

/// What each content node of a page gives.
pub open spec fn node_fragments(
    output_dir: Seq<char>,
    stem: Seq<char>,
    nodes: Seq<ContentNodeView>,
) -> Seq<Fragment> {
    nodes.map_values(|node: ContentNodeView| node_fragment(output_dir, stem, node))
}

/// What the content nodes of a page give, in order.
pub open spec fn body_fragment(output_dir: Seq<char>, stem: Seq<char>, nodes: Seq<ContentNodeView>)
    -> Fragment {
    Fragment::join(node_fragments(output_dir, stem, nodes))
}

/// Whether the path of every asset of `fragment` starts with the output
/// directory and the page's stem.
pub open spec fn assets_in_place(output_dir: Seq<char>, stem: Seq<char>, fragment: Fragment)
    -> bool {
    forall|i: int|
        0 <= i < fragment.assets.len() ==> asset_prefix(output_dir, stem).is_prefix_of(
            #[trigger] fragment.assets[i].path,
        )
}

/// Every asset that a piece of content gives is named by the page's stem.
pub proof fn lemma_content_assets_in_place(
    output_dir: Seq<char>,
    stem: Seq<char>,
    content: ElementContentView,
)
    ensures
        assets_in_place(output_dir, stem, content_fragment(output_dir, stem, content)),
{
}

/// Every asset that an outline gives is named by the page's stem.
pub proof fn lemma_outline_assets_in_place(
    output_dir: Seq<char>,
    stem: Seq<char>,
    items: Seq<Option<Seq<ElementContentView>>>,
)
    ensures
        assets_in_place(output_dir, stem, outline_fragment(output_dir, stem, items)),
{
    let in_place = |file: OutputFileView| asset_prefix(output_dir, stem).is_prefix_of(file.path);
    let parts = item_fragments(output_dir, stem, items);
    assert forall|k: int, i: int|
        0 <= k < parts.len() && 0 <= i < parts[k].assets.len() implies in_place(
        #[trigger] parts[k].assets[i],
    ) by {
        if let Some(contents) = items[k] {
            let inner = content_fragments(output_dir, stem, contents);
            assert forall|m: int, j: int|
                0 <= m < inner.len() && 0 <= j < inner[m].assets.len() implies in_place(
                #[trigger] inner[m].assets[j],
            ) by {
                lemma_content_assets_in_place(output_dir, stem, contents[m]);
            }
            lemma_join_assets(inner, in_place);
        }
    }
    lemma_join_assets(parts, in_place);
}

/// Every asset that the content nodes of a page give is named by the page's
/// stem: its path starts with `{output_dir}/{stem}_`.
pub proof fn lemma_body_assets_in_place(
    output_dir: Seq<char>,
    stem: Seq<char>,
    nodes: Seq<ContentNodeView>,
)
    ensures
        assets_in_place(output_dir, stem, body_fragment(output_dir, stem, nodes)),
{
    let in_place = |file: OutputFileView| asset_prefix(output_dir, stem).is_prefix_of(file.path);
    let parts = node_fragments(output_dir, stem, nodes);
    assert forall|k: int, i: int|
        0 <= k < parts.len() && 0 <= i < parts[k].assets.len() implies in_place(
        #[trigger] parts[k].assets[i],
    ) by {
        if let ContentNodeView::Outline(items) = nodes[k] {
            lemma_outline_assets_in_place(output_dir, stem, items);
        }
    }
    lemma_join_assets(parts, in_place);
}

/// The text of a paragraph is escaped: between the tags stands no `<`, no `>`
/// and no `&` but at the start of an entity, and reading it back gives the
/// text.
pub proof fn lemma_paragraph_is_escaped(text: Seq<char>)
    ensures
        paragraph(text) == "<p>"@ + escaped(text) + "</p>\n"@,
        is_escaped(escaped(text)),
        unescaped(escaped(text)) == text,
{
    lemma_escaped_is_escaped(text);
    lemma_escape_round_trip(text);
}

/// Whether the character `c` does not occur in `text`.
pub open spec fn lacks(text: Seq<char>, c: char) -> bool {
    forall|i: int| 0 <= i < text.len() ==> #[trigger] text[i] != c
}

/// Two texts without `c`, joined, are a text without `c`.
pub proof fn lemma_lacks_concat(a: Seq<char>, b: Seq<char>, c: char)
    requires
        lacks(a, c),
        lacks(b, c),
    ensures
        lacks(a + b, c),
{
    assert forall|i: int| 0 <= i < (a + b).len() implies #[trigger] (a + b)[i] != c by {
        if i < a.len() {
            assert((a + b)[i] == a[i]);
        } else {
            assert((a + b)[i] == b[i - a.len()]);
        }
    }
}

/// Where none of the four fields of a box holds a `>`, as is so of every
/// printed number, the comment for it is one comment: it opens with `<!--`,
/// closes with `-->` and a line break, and holds no other `>`.
pub proof fn lemma_ink_comment_is_one_comment(bounding_box: BoundingBoxView)
    requires
        lacks(bounding_box.x, '>'),
        lacks(bounding_box.y, '>'),
        lacks(bounding_box.width, '>'),
        lacks(bounding_box.height, '>'),
    ensures
        "<!--"@.is_prefix_of(ink_comment(bounding_box)),
        "-->\n"@.is_suffix_of(ink_comment(bounding_box)),
        forall|i: int|
            0 <= i < ink_comment(bounding_box).len() - 2 ==> #[trigger] ink_comment(
                bounding_box,
            )[i] != '>',
{
    reveal_strlit("<!-- Ink bbox: left=");
    reveal_strlit(" top=");
    reveal_strlit(" w=");
    reveal_strlit(" h=");
    reveal_strlit(" -->\n");
    reveal_strlit("<!--");
    reveal_strlit("-->\n");
    let comment = ink_comment(bounding_box);
    let a = "<!-- Ink bbox: left="@ + bounding_box.y;
    let b = a + " top="@;
    let c = b + bounding_box.x;
    let d = c + " w="@;
    let e = d + bounding_box.width;
    let f = e + " h="@;
    let g = f + bounding_box.height;
    lemma_lacks_concat("<!-- Ink bbox: left="@, bounding_box.y, '>');
    lemma_lacks_concat(a, " top="@, '>');
    lemma_lacks_concat(b, bounding_box.x, '>');
    lemma_lacks_concat(c, " w="@, '>');
    lemma_lacks_concat(d, bounding_box.width, '>');
    lemma_lacks_concat(e, " h="@, '>');
    lemma_lacks_concat(f, bounding_box.height, '>');
    assert(comment == g + " -->\n"@);
    assert forall|i: int| 0 <= i < comment.len() - 2 implies #[trigger] comment[i] != '>' by {
        if i < g.len() {
            assert(comment[i] == g[i]);
        } else {
            assert(comment[i] == " -->\n"@[i - g.len()]);
        }
    }
    assert(comment.subrange(comment.len() - 4, comment.len() as int) =~= "-->\n"@);
    assert(comment.subrange(0, 4) =~= "<!--"@);
}

/// The state of rendering one page: the view of a `RenderContext`.
pub struct RenderState {
    pub output_dir: Seq<char>,
    pub stem: Seq<char>,
    pub html: Seq<char>,
    pub assets: Seq<OutputFileView>,
}

impl RenderState {
    /// The state before anything is rendered.
    pub open spec fn start(output_dir: Seq<char>, stem: Seq<char>) -> RenderState {
        RenderState { output_dir, stem, html: Seq::empty(), assets: Seq::empty() }
    }

    /// The state with `fragment` after what was rendered before.
    pub open spec fn with(self, fragment: Fragment) -> RenderState {
        RenderState {
            html: self.html + fragment.html,
            assets: self.assets + fragment.assets,
            ..self
        }
    }
}

/// What is kept while one page is rendered: where the output goes, the page's
/// stem, the HTML so far and the assets so far.
#[derive(Debug)]
pub struct RenderContext {
    pub output_dir: String,
    pub stem: String,
    pub html: String,
    pub assets: Vec<OutputFile>,
}

impl View for RenderContext {
    type V = RenderState;

    open spec fn view(&self) -> RenderState {
        RenderState {
            output_dir: self.output_dir@,
            stem: self.stem@,
            html: self.html@,
            assets: file_views(self.assets@),
        }
    }
}

impl RenderContext {
    /// A context for a page with the given stem, with nothing rendered yet.
    pub fn new(output_dir: &str, stem: &str) -> (ctx: RenderContext)
        ensures
            ctx@ == RenderState::start(output_dir@, stem@),
    {
        let ctx = RenderContext {
            output_dir: output_dir.to_owned(),
            stem: stem.to_owned(),
            html: String::new(),
            assets: Vec::new(),
        };
        assert(ctx@.assets =~= Seq::empty());
        ctx
    }

    /// Records a file to be written beside the page, named by the page's stem
    /// and `suffix`, and returns its path. Each call records one file, also
    /// where the same path or the same payload was recorded before.
    pub fn add_asset(&mut self, suffix: &str, payload: &[u8]) -> (path: String)
        ensures
            path@ == asset_path(old(self)@.output_dir, old(self)@.stem, suffix@),
            final(self)@ == old(self)@.with(
                asset_fragment(old(self)@.output_dir, old(self)@.stem, suffix@, payload@),
            ),
    {
        let mut path = self.output_dir.clone();
        path.append("/");
        path.append(self.stem.as_str());
        path.append("_");
        path.append(suffix);
        let asset = OutputFile { path: path.clone(), data: slice_to_vec(payload) };
        self.assets.push(asset);
        assert(self@.assets =~= old(self)@.assets + seq![asset@]);
        assert(self@.html =~= old(self)@.html + Seq::<char>::empty());
        path
    }

    /// Appends a paragraph that holds the text, escaped.
    pub fn render_rich_text(&mut self, text: &RichText)
        ensures
            final(self)@ == old(self)@.with(text_fragment(text@)),
    {
        let escaped = escape(text.text.as_str());
        self.html.append("<p>");
        self.html.append(escaped.as_str());
        self.html.append("</p>\n");
        assert(self@.html =~= old(self)@.html + paragraph(text@));
        assert(self@.assets =~= old(self)@.assets + Seq::<OutputFileView>::empty());
    }

    /// Where the image has data: records it as an asset and appends a tag
    /// that refers to it. Where it has none: does nothing.
    pub fn render_image(&mut self, image: &Image)
        ensures
            final(self)@ == old(self)@.with(
                image_fragment(old(self)@.output_dir, old(self)@.stem, image@),
            ),
    {
        if let Some(data) = &image.data {
            let mut suffix = "img.".to_owned();
            match &image.extension {
                Some(extension) => suffix.append(extension.as_str()),
                None => suffix.append("bin"),
            }
            let path = self.add_asset(suffix.as_str(), data.as_slice());
            self.html.append("<img src=\"");
            self.html.append(path.as_str());
            self.html.append("\" alt=\"image\" />\n");
            proof {
                let added = image_fragment(old(self)@.output_dir, old(self)@.stem, image@);
                assert(self@.html =~= old(self)@.html + added.html);
                assert(self@.assets =~= old(self)@.assets + added.assets);
            }
        } else {
            assert(self@.html =~= old(self)@.html + Seq::<char>::empty());
            assert(self@.assets =~= old(self)@.assets + Seq::<OutputFileView>::empty());
        }
    }

    /// Records the file as an asset under its own name and appends a link to
    /// it.
    pub fn render_embedded_file(&mut self, file: &EmbeddedFile)
        ensures
            final(self)@ == old(self)@.with(
                file_fragment(old(self)@.output_dir, old(self)@.stem, file@),
            ),
    {
        let path = self.add_asset(file.filename.as_str(), file.data.as_slice());
        self.html.append("<a href=\"");
        self.html.append(path.as_str());
        self.html.append("\">");
        self.html.append(file.filename.as_str());
        self.html.append("</a>\n");
        proof {
            let added = file_fragment(old(self)@.output_dir, old(self)@.stem, file@);
            assert(self@.html =~= old(self)@.html + added.html);
            assert(self@.assets =~= old(self)@.assets + added.assets);
        }
    }

    /// Where the ink has a box: appends one comment that records it. Where it
    /// has none: does nothing. Ink gives no asset.
    pub fn render_ink(&mut self, ink: &Ink)
        ensures
            final(self)@ == old(self)@.with(ink_fragment(ink@)),
            final(self)@.assets == old(self)@.assets,
            ink@ matches Some(bounding_box) ==> final(self)@.html == old(self)@.html + ink_comment(
                bounding_box,
            ),
            ink@ is None ==> final(self)@ == old(self)@,
    {
        if let Some(bounding_box) = &ink.bounding_box {
            self.html.append("<!-- Ink bbox: left=");
            self.html.append(bounding_box.y.as_str());
            self.html.append(" top=");
            self.html.append(bounding_box.x.as_str());
            self.html.append(" w=");
            self.html.append(bounding_box.width.as_str());
            self.html.append(" h=");
            self.html.append(bounding_box.height.as_str());
            self.html.append(" -->\n");
            assert(self@.html =~= old(self)@.html + ink_comment(bounding_box@));
        } else {
            assert(self@.html =~= old(self)@.html + Seq::<char>::empty());
        }
        assert(self@.assets =~= old(self)@.assets + Seq::<OutputFileView>::empty());
    }

    /// Renders one piece of content of an outline element: rich text, an
    /// image or an embedded file. Content of any other kind is passed over.
    pub fn render_content(&mut self, content: &ElementContent)
        ensures
            final(self)@ == old(self)@.with(
                content_fragment(old(self)@.output_dir, old(self)@.stem, content@),
            ),
    {
        match content {
            ElementContent::RichText(text) => self.render_rich_text(text),
            ElementContent::Image(image) => self.render_image(image),
            ElementContent::EmbeddedFile(file) => self.render_embedded_file(file),
            ElementContent::Other => {
                assert(self@.html =~= old(self)@.html + Seq::<char>::empty());
                assert(self@.assets =~= old(self)@.assets + Seq::<OutputFileView>::empty());
            },
        }
    }

    /// Renders the content of an outline element, in order.
    pub fn render_element(&mut self, element: &Element)
        ensures
            final(self)@ == old(self)@.with(
                element_fragment(old(self)@.output_dir, old(self)@.stem, element@),
            ),
    {
        let ghost parts = content_fragments(old(self)@.output_dir, old(self)@.stem, element@);
        let mut i: usize = 0;
        proof {
            lemma_with_empty(self@);
        }
        while i < element.contents.len()
            invariant
                i <= element.contents.len(),
                parts == content_fragments(old(self)@.output_dir, old(self)@.stem, element@),
                self@ == old(self)@.with(Fragment::join(parts.take(i as int))),
            decreases element.contents.len() - i,
        {
            self.render_content(&element.contents[i]);
            proof {
                lemma_with_next(old(self)@, parts, i as int);
            }
            i = i + 1;
        }
        assert(parts.take(i as int) =~= parts);
    }

    /// Renders the items of an outline, in order; an item without an element
    /// is passed over.
    pub fn render_outline(&mut self, outline: &Outline)
        ensures
            final(self)@ == old(self)@.with(
                outline_fragment(old(self)@.output_dir, old(self)@.stem, outline@),
            ),
    {
        let ghost parts = item_fragments(old(self)@.output_dir, old(self)@.stem, outline@);
        let mut i: usize = 0;
        proof {
            lemma_with_empty(self@);
        }
        while i < outline.items.len()
            invariant
                i <= outline.items.len(),
                parts == item_fragments(old(self)@.output_dir, old(self)@.stem, outline@),
                self@ == old(self)@.with(Fragment::join(parts.take(i as int))),
            decreases outline.items.len() - i,
        {
            proof {
                lemma_with_empty(self@);
            }
            if let Some(element) = &outline.items[i].element {
                self.render_element(element);
            }
            proof {
                lemma_with_next(old(self)@, parts, i as int);
            }
            i = i + 1;
        }
        assert(parts.take(i as int) =~= parts);
    }

    /// Renders one content node of a page: an outline, an image, an embedded
    /// file or ink. A node of unknown kind is passed over.
    pub fn render(&mut self, node: &ContentNode)
        ensures
            final(self)@ == old(self)@.with(
                node_fragment(old(self)@.output_dir, old(self)@.stem, node@),
            ),
    {
        match node {
            ContentNode::Outline(outline) => self.render_outline(outline),
            ContentNode::Image(image) => self.render_image(image),
            ContentNode::EmbeddedFile(file) => self.render_embedded_file(file),
            ContentNode::Ink(ink) => self.render_ink(ink),
            ContentNode::Unknown => {
                proof {
                    lemma_with_empty(self@);
                }
            },
        }
    }

    /// Renders the content nodes of a page, in order.
    pub fn render_all(&mut self, nodes: &Vec<ContentNode>)
        ensures
            final(self)@ == old(self)@.with(
                body_fragment(
                    old(self)@.output_dir,
                    old(self)@.stem,
                    nodes@.map_values(|node: ContentNode| node@),
                ),
            ),
    {
        let ghost parts = node_fragments(
            old(self)@.output_dir,
            old(self)@.stem,
            nodes@.map_values(|node: ContentNode| node@),
        );
        let mut i: usize = 0;
        proof {
            lemma_with_empty(self@);
        }
        while i < nodes.len()
            invariant
                i <= nodes.len(),
                parts == node_fragments(
                    old(self)@.output_dir,
                    old(self)@.stem,
                    nodes@.map_values(|node: ContentNode| node@),
                ),
                self@ == old(self)@.with(Fragment::join(parts.take(i as int))),
            decreases nodes.len() - i,
        {
            self.render(&nodes[i]);
            proof {
                lemma_with_next(old(self)@, parts, i as int);
            }
            i = i + 1;
        }
        assert(parts.take(i as int) =~= parts);
    }
}

/// A state with nothing added is the state.
proof fn lemma_with_empty(state: RenderState)
    ensures
        state.with(Fragment::empty()) == state,
        state.with(Fragment::join(Seq::empty())) == state,
{
    assert(state.html + Seq::<char>::empty() =~= state.html);
    assert(state.assets + Seq::<OutputFileView>::empty() =~= state.assets);
}

/// Adding the first `k` of some fragments and then the next is adding the
/// first `k + 1` of them.
proof fn lemma_with_next(state: RenderState, parts: Seq<Fragment>, k: int)
    requires
        0 <= k < parts.len(),
    ensures
        state.with(Fragment::join(parts.take(k))).with(parts[k]) == state.with(
            Fragment::join(parts.take(k + 1)),
        ),
{
    let done = Fragment::join(parts.take(k));
    assert(parts.take(k + 1).drop_last() =~= parts.take(k));
    assert(Fragment::join(parts.take(k + 1)) == done.followed_by(parts[k]));
    assert(state.html + done.html + parts[k].html =~= state.html + (done.html + parts[k].html));
    assert(state.assets + done.assets + parts[k].assets =~= state.assets + (done.assets
        + parts[k].assets));
}

} // verus!
