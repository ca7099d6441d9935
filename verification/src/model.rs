//! The parsed document as the renderer reads it: page series, pages and their
//! content nodes. Each type has a view that holds the same data as sequences.

use vstd::prelude::*;

verus! {

/// A block of plain text.
#[derive(Debug)]
pub struct RichText {
    pub text: String,
}

impl View for RichText {
    type V = Seq<char>;

    open spec fn view(&self) -> Seq<char> {
        self.text@
    }
}

/// A picture: its bytes, where they are known, and a hint at the extension of
/// the file that holds them.
#[derive(Debug)]
pub struct Image {
    pub data: Option<Vec<u8>>,
    pub extension: Option<String>,
}

pub struct ImageView {
    pub data: Option<Seq<u8>>,
    pub extension: Option<Seq<char>>,
}

impl View for Image {
    type V = ImageView;

    open spec fn view(&self) -> ImageView {
        ImageView {
            data: match self.data {
                Some(data) => Some(data@),
                None => None,
            },
            extension: match self.extension {
                Some(extension) => Some(extension@),
                None => None,
            },
        }
    }
}

/// A file attached to a page: its name and its bytes.
#[derive(Debug)]
pub struct EmbeddedFile {
    pub filename: String,
    pub data: Vec<u8>,
}

pub struct EmbeddedFileView {
    pub filename: Seq<char>,
    pub data: Seq<u8>,
}

impl View for EmbeddedFile {
    type V = EmbeddedFileView;

    open spec fn view(&self) -> EmbeddedFileView {
        EmbeddedFileView { filename: self.filename@, data: self.data@ }
    }
}

/// The box around an ink drawing. Each field holds a number as it is printed
/// in decimal.
#[derive(Debug)]
pub struct BoundingBox {
    pub x: String,
    pub y: String,
    pub width: String,
    pub height: String,
}

pub struct BoundingBoxView {
    pub x: Seq<char>,
    pub y: Seq<char>,
    pub width: Seq<char>,
    pub height: Seq<char>,
}

impl View for BoundingBox {
    type V = BoundingBoxView;

    open spec fn view(&self) -> BoundingBoxView {
        BoundingBoxView { x: self.x@, y: self.y@, width: self.width@, height: self.height@ }
    }
}

/// Pen strokes, of which only the box around them is kept.
#[derive(Debug)]
pub struct Ink {
    pub bounding_box: Option<BoundingBox>,
}

impl View for Ink {
    type V = Option<BoundingBoxView>;

    open spec fn view(&self) -> Option<BoundingBoxView> {
        match self.bounding_box {
            Some(bounding_box) => Some(bounding_box@),
            None => None,
        }
    }
}

/// One piece of content inside an outline element.
#[derive(Debug)]
pub enum ElementContent {
    RichText(RichText),
    Image(Image),
    EmbeddedFile(EmbeddedFile),
    /// Any other kind of content; it is not rendered.
    Other,
}

pub enum ElementContentView {
    RichText(Seq<char>),
    Image(ImageView),
    EmbeddedFile(EmbeddedFileView),
    Other,
}

impl View for ElementContent {
    type V = ElementContentView;

    open spec fn view(&self) -> ElementContentView {
        match self {
            ElementContent::RichText(text) => ElementContentView::RichText(text@),
            ElementContent::Image(image) => ElementContentView::Image(image@),
            ElementContent::EmbeddedFile(file) => ElementContentView::EmbeddedFile(file@),
            ElementContent::Other => ElementContentView::Other,
        }
    }
}

/// An outline element: a run of content, in order.
#[derive(Debug)]
pub struct Element {
    pub contents: Vec<ElementContent>,
}

impl View for Element {
    type V = Seq<ElementContentView>;

    open spec fn view(&self) -> Seq<ElementContentView> {
        self.contents@.map_values(|content: ElementContent| content@)
    }
}

/// An item of an outline, which may hold an element.
#[derive(Debug)]
pub struct OutlineItem {
    pub element: Option<Element>,
}

impl View for OutlineItem {
    type V = Option<Seq<ElementContentView>>;

    open spec fn view(&self) -> Option<Seq<ElementContentView>> {
        match self.element {
            Some(element) => Some(element@),
            None => None,
        }
    }
}

/// A container of loosely structured items, in order.
#[derive(Debug)]
pub struct Outline {
    pub items: Vec<OutlineItem>,
}

impl View for Outline {
    type V = Seq<Option<Seq<ElementContentView>>>;

    open spec fn view(&self) -> Seq<Option<Seq<ElementContentView>>> {
        self.items@.map_values(|item: OutlineItem| item@)
    }
}

/// One piece of content at the top level of a page.
#[derive(Debug)]
pub enum ContentNode {
    Outline(Outline),
    Image(Image),
    EmbeddedFile(EmbeddedFile),
    Ink(Ink),
    /// Content of a kind that is not known; it is not rendered.
    Unknown,
}

pub enum ContentNodeView {
    Outline(Seq<Option<Seq<ElementContentView>>>),
    Image(ImageView),
    EmbeddedFile(EmbeddedFileView),
    Ink(Option<BoundingBoxView>),
    Unknown,
}

impl View for ContentNode {
    type V = ContentNodeView;

    open spec fn view(&self) -> ContentNodeView {
        match self {
            ContentNode::Outline(outline) => ContentNodeView::Outline(outline@),
            ContentNode::Image(image) => ContentNodeView::Image(image@),
            ContentNode::EmbeddedFile(file) => ContentNodeView::EmbeddedFile(file@),
            ContentNode::Ink(ink) => ContentNodeView::Ink(ink@),
            ContentNode::Unknown => ContentNodeView::Unknown,
        }
    }
}

/// A page: its title, where it has one, and its content, in order.
#[derive(Debug)]
pub struct Page {
    pub title: Option<String>,
    pub contents: Vec<ContentNode>,
}

pub struct PageView {
    pub title: Option<Seq<char>>,
    pub contents: Seq<ContentNodeView>,
}

impl PageView {
    /// A title, where there is one, is not empty.
    pub open spec fn wf(self) -> bool {
        self.title matches Some(title) ==> title.len() > 0
    }
}

impl View for Page {
    type V = PageView;

    open spec fn view(&self) -> PageView {
        PageView {
            title: match self.title {
                Some(title) => Some(title@),
                None => None,
            },
            contents: self.contents@.map_values(|node: ContentNode| node@),
        }
    }
}

impl Page {
    /// Whether the page is well formed: its title, where it has one, is not
    /// empty.
    pub fn is_well_formed(&self) -> (ok: bool)
        ensures
            ok == self@.wf(),
    {
        match &self.title {
            Some(title) => !title.as_str().is_empty(),
            None => true,
        }
    }
}

/// A run of pages, in order.
#[derive(Debug)]
pub struct PageSeries {
    pub pages: Vec<Page>,
}

impl View for PageSeries {
    type V = Seq<PageView>;

    open spec fn view(&self) -> Seq<PageView> {
        self.pages@.map_values(|page: Page| page@)
    }
}

/// A parsed document: its page series, in order.
#[derive(Debug)]
pub struct Document {
    pub series: Vec<PageSeries>,
}

impl View for Document {
    type V = Seq<Seq<PageView>>;

    open spec fn view(&self) -> Seq<Seq<PageView>> {
        self.series@.map_values(|series: PageSeries| series@)
    }
}

/// Whether every page of the document is well formed.
pub open spec fn document_wf(document: Seq<Seq<PageView>>) -> bool {
    forall|s: int, p: int|
        0 <= s < document.len() && 0 <= p < document[s].len() ==> (#[trigger] document[s][p]).wf()
}

impl Document {
    /// Whether every page of the document is well formed.
    pub fn is_well_formed(&self) -> (ok: bool)
        ensures
            ok == document_wf(self@),
    {
        let mut s: usize = 0;
        while s < self.series.len()
            invariant
                s <= self.series.len(),
                document_wf(self@.take(s as int)),
            decreases self.series.len() - s,
        {
            let series = &self.series[s];
            let mut p: usize = 0;
            while p < series.pages.len()
                invariant
                    p <= series.pages.len(),
                    s < self.series.len(),
                    series == self.series[s as int],
                    forall|q: int| 0 <= q < p ==> (#[trigger] series@[q]).wf(),
                decreases series.pages.len() - p,
            {
                if !series.pages[p].is_well_formed() {
                    assert(!self@[s as int][p as int].wf());
                    return false;
                }
                p = p + 1;
            }
            assert forall|t: int, q: int|
                0 <= t < self@.take(s as int + 1).len() && 0 <= q < self@.take(
                    s as int + 1,
                )[t].len() implies (#[trigger] self@.take(s as int + 1)[t][q]).wf() by {
                if t < s {
                    assert(self@.take(s as int + 1)[t] == self@.take(s as int)[t]);
                    assert(self@.take(s as int)[t][q].wf());
                } else {
                    assert(self@.take(s as int + 1)[t] == series@);
                }
            }
            s = s + 1;
        }
        assert(self@.take(s as int) =~= self@);
        true
    }
}

} // verus!
