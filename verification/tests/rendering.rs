use one2html::model::{
    BoundingBox, ContentNode, Element, ElementContent, EmbeddedFile, Image, Ink, Outline,
    OutlineItem, RichText,
};
use one2html::render::RenderContext;

fn text(s: &str) -> ElementContent {
    ElementContent::RichText(RichText { text: s.to_string() })
}

fn image(data: Option<&[u8]>, extension: Option<&str>) -> Image {
    Image { data: data.map(|d| d.to_vec()), extension: extension.map(|e| e.to_string()) }
}

fn file(name: &str, data: &[u8]) -> EmbeddedFile {
    EmbeddedFile { filename: name.to_string(), data: data.to_vec() }
}

fn item(contents: Vec<ElementContent>) -> OutlineItem {
    OutlineItem { element: Some(Element { contents }) }
}

fn bounding_box(x: &str, y: &str, width: &str, height: &str) -> BoundingBox {
    BoundingBox {
        x: x.to_string(),
        y: y.to_string(),
        width: width.to_string(),
        height: height.to_string(),
    }
}

#[test]
fn a_new_context_is_empty() {
    let ctx = RenderContext::new("out", "notes");
    assert_eq!(ctx.output_dir, "out");
    assert_eq!(ctx.stem, "notes");
    assert_eq!(ctx.html, "");
    assert!(ctx.assets.is_empty());
}

#[test]
fn an_asset_is_named_by_directory_stem_and_suffix() {
    let mut ctx = RenderContext::new("out", "notes");
    let path = ctx.add_asset("chart.svg", &[1, 2, 3]);
    assert_eq!(path, "out/notes_chart.svg");
    assert_eq!(ctx.assets.len(), 1);
    assert_eq!(ctx.assets[0].path, "out/notes_chart.svg");
    assert_eq!(ctx.assets[0].data, vec![1, 2, 3]);
    assert_eq!(ctx.html, "");
    assert_eq!(ctx.output_dir, "out");
    assert_eq!(ctx.stem, "notes");
}

#[test]
fn assets_are_kept_in_order_and_not_merged() {
    let mut ctx = RenderContext::new("dir/sub", "p");
    ctx.add_asset("a", &[1]);
    ctx.add_asset("b", &[]);
    ctx.add_asset("a", &[1]);
    let paths: Vec<&str> = ctx.assets.iter().map(|a| a.path.as_str()).collect();
    assert_eq!(paths, ["dir/sub/p_a", "dir/sub/p_b", "dir/sub/p_a"]);
    assert_eq!(ctx.assets[1].data, Vec::<u8>::new());
}

#[test]
fn rich_text_becomes_an_escaped_paragraph() {
    let mut ctx = RenderContext::new("out", "p");
    ctx.render_rich_text(&RichText { text: "A & B <tag>".to_string() });
    assert_eq!(ctx.html, "<p>A &amp; B &lt;tag&gt;</p>\n");
    assert!(ctx.assets.is_empty());
}

#[test]
fn empty_rich_text_becomes_an_empty_paragraph() {
    let mut ctx = RenderContext::new("out", "p");
    ctx.render_rich_text(&RichText { text: String::new() });
    assert_eq!(ctx.html, "<p></p>\n");
}

#[test]
fn an_image_becomes_an_asset_and_a_tag() {
    let payload = [0x89, b'P', b'N', b'G', 0, 255, 7];
    let mut ctx = RenderContext::new("out", "trip");
    ctx.render_image(&image(Some(&payload), Some("png")));
    assert_eq!(ctx.assets.len(), 1);
    assert_eq!(ctx.assets[0].path, "out/trip_img.png");
    assert_eq!(ctx.assets[0].data, payload);
    assert_eq!(ctx.html, "<img src=\"out/trip_img.png\" alt=\"image\" />\n");
}

#[test]
fn an_image_without_extension_is_named_bin() {
    let mut ctx = RenderContext::new("out", "trip");
    ctx.render_image(&image(Some(&[1, 2]), None));
    assert_eq!(ctx.assets[0].path, "out/trip_img.bin");
    assert_eq!(ctx.assets[0].data, vec![1, 2]);
    assert_eq!(ctx.html, "<img src=\"out/trip_img.bin\" alt=\"image\" />\n");
}

#[test]
fn an_image_without_data_leaves_no_trace() {
    let mut ctx = RenderContext::new("out", "trip");
    ctx.render_image(&image(None, Some("png")));
    ctx.render_image(&image(None, None));
    assert_eq!(ctx.html, "");
    assert!(ctx.assets.is_empty());
}

#[test]
fn an_image_with_empty_data_is_still_an_asset() {
    let mut ctx = RenderContext::new("out", "trip");
    ctx.render_image(&image(Some(&[]), Some("gif")));
    assert_eq!(ctx.assets.len(), 1);
    assert_eq!(ctx.assets[0].path, "out/trip_img.gif");
    assert!(ctx.assets[0].data.is_empty());
}

#[test]
fn two_images_of_one_page_share_a_path() {
    let mut ctx = RenderContext::new("out", "trip");
    ctx.render_image(&image(Some(&[1]), Some("png")));
    ctx.render_image(&image(Some(&[2]), Some("png")));
    assert_eq!(ctx.assets.len(), 2);
    assert_eq!(ctx.assets[0].path, "out/trip_img.png");
    assert_eq!(ctx.assets[1].path, "out/trip_img.png");
    assert_eq!(ctx.assets[0].data, vec![1]);
    assert_eq!(ctx.assets[1].data, vec![2]);
    assert_eq!(
        ctx.html,
        "<img src=\"out/trip_img.png\" alt=\"image\" />\n<img src=\"out/trip_img.png\" alt=\"image\" />\n"
    );
}

#[test]
fn an_embedded_file_becomes_an_asset_and_a_link() {
    let mut ctx = RenderContext::new("out", "trip");
    ctx.render_embedded_file(&file("notes.pdf", b"%PDF-1.7"));
    assert_eq!(ctx.assets.len(), 1);
    assert_eq!(ctx.assets[0].path, "out/trip_notes.pdf");
    assert_eq!(ctx.assets[0].data, b"%PDF-1.7");
    assert_eq!(ctx.html, "<a href=\"out/trip_notes.pdf\">notes.pdf</a>\n");
}

#[test]
fn a_file_name_is_not_escaped() {
    let mut ctx = RenderContext::new("out", "p");
    ctx.render_embedded_file(&file("a&b.txt", &[]));
    assert_eq!(ctx.assets[0].path, "out/p_a&b.txt");
    assert_eq!(ctx.html, "<a href=\"out/p_a&b.txt\">a&b.txt</a>\n");
}

#[test]
fn ink_with_a_box_becomes_one_comment() {
    let mut ctx = RenderContext::new("out", "p");
    ctx.render_ink(&Ink { bounding_box: Some(bounding_box("1.5", "2", "30", "4.25")) });
    assert_eq!(ctx.html, "<!-- Ink bbox: left=2 top=1.5 w=30 h=4.25 -->\n");
    assert!(ctx.assets.is_empty());
    assert_eq!(ctx.html.matches("<!--").count(), 1);
    assert_eq!(ctx.html.matches("-->").count(), 1);
}

#[test]
fn ink_without_a_box_leaves_no_trace() {
    let mut ctx = RenderContext::new("out", "p");
    ctx.html.push_str("before");
    ctx.render_ink(&Ink { bounding_box: None });
    assert_eq!(ctx.html, "before");
    assert!(ctx.assets.is_empty());
}

#[test]
fn each_ink_node_gives_its_own_comment() {
    let mut ctx = RenderContext::new("out", "p");
    ctx.render(&ContentNode::Ink(Ink { bounding_box: Some(bounding_box("0", "0", "1", "1")) }));
    ctx.render(&ContentNode::Ink(Ink { bounding_box: None }));
    ctx.render(&ContentNode::Ink(Ink { bounding_box: Some(bounding_box("-3", "7", "2", "NaN")) }));
    assert_eq!(
        ctx.html,
        "<!-- Ink bbox: left=0 top=0 w=1 h=1 -->\n<!-- Ink bbox: left=7 top=-3 w=2 h=NaN -->\n"
    );
    assert_eq!(ctx.html.matches("<!--").count(), 2);
}

#[test]
fn other_content_leaves_no_trace() {
    let mut ctx = RenderContext::new("out", "p");
    ctx.render_content(&ElementContent::Other);
    ctx.render(&ContentNode::Unknown);
    assert_eq!(ctx.html, "");
    assert!(ctx.assets.is_empty());
}

#[test]
fn content_of_an_element_is_rendered_by_kind() {
    let mut ctx = RenderContext::new("out", "p");
    ctx.render_content(&text("x"));
    ctx.render_content(&ElementContent::Image(image(Some(&[9]), Some("jpg"))));
    ctx.render_content(&ElementContent::EmbeddedFile(file("f.bin", &[8])));
    assert_eq!(
        ctx.html,
        "<p>x</p>\n<img src=\"out/p_img.jpg\" alt=\"image\" />\n<a href=\"out/p_f.bin\">f.bin</a>\n"
    );
    assert_eq!(ctx.assets.len(), 2);
    assert_eq!(ctx.assets[0].path, "out/p_img.jpg");
    assert_eq!(ctx.assets[1].path, "out/p_f.bin");
}

#[test]
fn an_element_is_rendered_in_order() {
    let mut ctx = RenderContext::new("out", "p");
    ctx.render_element(&Element { contents: vec![text("one"), ElementContent::Other, text("two")] });
    assert_eq!(ctx.html, "<p>one</p>\n<p>two</p>\n");
    ctx.render_element(&Element { contents: vec![] });
    assert_eq!(ctx.html, "<p>one</p>\n<p>two</p>\n");
}

#[test]
fn an_outline_passes_over_items_without_an_element() {
    let outline = Outline {
        items: vec![
            item(vec![text("first")]),
            OutlineItem { element: None },
            item(vec![]),
            item(vec![text("second"), ElementContent::EmbeddedFile(file("a.txt", b"hi"))]),
        ],
    };
    let mut ctx = RenderContext::new("out", "p");
    ctx.render_outline(&outline);
    assert_eq!(ctx.html, "<p>first</p>\n<p>second</p>\n<a href=\"out/p_a.txt\">a.txt</a>\n");
    assert_eq!(ctx.assets.len(), 1);
    assert_eq!(ctx.assets[0].data, b"hi");
}

#[test]
fn an_empty_outline_leaves_no_trace() {
    let mut ctx = RenderContext::new("out", "p");
    ctx.render(&ContentNode::Outline(Outline { items: vec![] }));
    assert_eq!(ctx.html, "");
    assert!(ctx.assets.is_empty());
}

#[test]
fn nodes_are_rendered_by_kind_and_appended() {
    let mut ctx = RenderContext::new("o", "s");
    ctx.render(&ContentNode::Outline(Outline { items: vec![item(vec![text("t")])] }));
    ctx.render(&ContentNode::Image(image(Some(&[1]), Some("png"))));
    ctx.render(&ContentNode::EmbeddedFile(file("n.pdf", &[2])));
    ctx.render(&ContentNode::Ink(Ink { bounding_box: Some(bounding_box("1", "2", "3", "4")) }));
    ctx.render(&ContentNode::Unknown);
    assert_eq!(
        ctx.html,
        "<p>t</p>\n<img src=\"o/s_img.png\" alt=\"image\" />\n<a href=\"o/s_n.pdf\">n.pdf</a>\n<!-- Ink bbox: left=2 top=1 w=3 h=4 -->\n"
    );
    let paths: Vec<&str> = ctx.assets.iter().map(|a| a.path.as_str()).collect();
    assert_eq!(paths, ["o/s_img.png", "o/s_n.pdf"]);
    assert_eq!(ctx.output_dir, "o");
    assert_eq!(ctx.stem, "s");
}

#[test]
fn all_nodes_of_a_page_are_rendered_in_order() {
    let nodes = vec![
        ContentNode::Outline(Outline { items: vec![item(vec![text("a")]), item(vec![text("b")])] }),
        ContentNode::Unknown,
        ContentNode::EmbeddedFile(file("f", &[1])),
        ContentNode::Outline(Outline { items: vec![item(vec![text("c")])] }),
    ];
    let mut all = RenderContext::new("o", "s");
    all.html.push_str("start\n");
    all.render_all(&nodes);
    assert_eq!(all.html, "start\n<p>a</p>\n<p>b</p>\n<a href=\"o/s_f\">f</a>\n<p>c</p>\n");
    assert_eq!(all.assets.len(), 1);

    let mut one_by_one = RenderContext::new("o", "s");
    one_by_one.html.push_str("start\n");
    for node in &nodes {
        one_by_one.render(node);
    }
    assert_eq!(all.html, one_by_one.html);
    assert_eq!(all.assets.len(), one_by_one.assets.len());

    let mut none = RenderContext::new("o", "s");
    none.render_all(&vec![]);
    assert_eq!(none.html, "");
    assert!(none.assets.is_empty());
}

#[test]
fn every_asset_path_starts_with_directory_and_stem() {
    let mut ctx = RenderContext::new("out", "my page");
    ctx.render(&ContentNode::Image(image(Some(&[1]), None)));
    ctx.render(&ContentNode::Outline(Outline {
        items: vec![item(vec![
            ElementContent::Image(image(Some(&[2]), Some("png"))),
            ElementContent::EmbeddedFile(file("x/y.txt", &[3])),
        ])],
    }));
    assert_eq!(ctx.assets.len(), 3);
    for asset in &ctx.assets {
        assert!(asset.path.starts_with("out/my page_"));
    }
}
