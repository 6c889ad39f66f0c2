use squ1d_renderer::css_parser::CssParser;
use squ1d_renderer::dom::{Document, Element, Node, ParseError, StyleRule};
use squ1d_renderer::html_parser::HtmlParser;
use squ1d_renderer::http_client::{HttpClient, HttpError};
use squ1d_renderer::layout::{LayoutBox, LayoutEngine};
use squ1d_renderer::renderer::{PageRenderer, SimpleImage};

#[test]
fn specificity_mixed_tokens() {
    assert_eq!(CssParser::compute_specificity("#a .b div"), (1, 1, 1));
}

#[test]
fn specificity_two_elements() {
    assert_eq!(CssParser::compute_specificity("div p"), (0, 0, 2));
}

#[test]
fn specificity_empty_selector() {
    assert_eq!(CssParser::compute_specificity(""), (0, 0, 0));
}

#[test]
fn specificity_two_classes() {
    assert_eq!(CssParser::compute_specificity(".a .b"), (0, 2, 0));
}

#[test]
fn parse_simple_paragraph() {
    let doc = HtmlParser::parse("<p>Hello</p>").unwrap();
    assert_eq!(doc.root.tag, "p");
    assert!(doc.root.attributes.is_empty());
    assert!(doc.root.id.is_none());
    assert!(doc.root.classes.is_empty());
    assert_eq!(doc.root.children.len(), 1);
    match &doc.root.children[0] {
        Node::Text(t) => assert_eq!(t, "Hello"),
        other => panic!("expected a text child, got {:?}", other),
    }
}

#[test]
fn parse_id_and_class_attributes() {
    let doc = HtmlParser::parse("<div id=\"x\" class='y'>A</div>").unwrap();
    assert_eq!(doc.root.tag, "div");
    assert_eq!(doc.root.id.as_deref(), Some("x"));
    assert_eq!(doc.root.classes, vec!["y".to_string()]);
    assert_eq!(doc.root.attributes.get("id").unwrap().as_str(), "x");
    assert_eq!(doc.root.attributes.get("class").unwrap().as_str(), "y");
    assert_eq!(doc.root.children.len(), 1);
    match &doc.root.children[0] {
        Node::Text(t) => assert_eq!(t, "A"),
        other => panic!("expected a text child, got {:?}", other),
    }
}

#[test]
fn mismatched_closing_tag_is_fatal() {
    let err = HtmlParser::parse("<div><p>text</div>").unwrap_err();
    match err {
        ParseError::MismatchedClosingTag { expected, found } => {
            assert_eq!(expected, "p");
            assert_eq!(found, "div");
        }
        other => panic!("expected a mismatch error, got {:?}", other),
    }
}

#[test]
fn missing_open_bracket_is_fatal() {
    assert_eq!(HtmlParser::parse("no tags here"), Err(ParseError::ExpectedTagOpen));
}

#[test]
fn stray_closing_tag_is_fatal() {
    assert_eq!(HtmlParser::parse("</div>"), Err(ParseError::UnexpectedClosingTag));
}

#[test]
fn empty_tag_name_is_fatal() {
    assert_eq!(HtmlParser::parse("<>x</>"), Err(ParseError::EmptyTagName));
}

#[test]
fn names_are_lowercased_values_kept() {
    let doc = HtmlParser::parse("<DIV ID=\"Mixed\">t</DIV>").unwrap();
    assert_eq!(doc.root.tag, "div");
    assert_eq!(doc.root.id.as_deref(), Some("Mixed"));
    assert_eq!(doc.root.attributes.get("id").unwrap().as_str(), "Mixed");
}

#[test]
fn duplicate_attribute_last_wins() {
    let doc = HtmlParser::parse("<div a='1' a='2'>t</div>").unwrap();
    assert_eq!(doc.root.attributes.get("a").unwrap().as_str(), "2");
}

#[test]
fn text_runs_are_trimmed() {
    let doc = HtmlParser::parse("<p>   hi   </p>").unwrap();
    match &doc.root.children[0] {
        Node::Text(t) => assert_eq!(t, "hi"),
        other => panic!("expected a text child, got {:?}", other),
    }
}

#[test]
fn doctype_and_comments_are_skipped() {
    let doc = HtmlParser::parse("<!DOCTYPE html><div><!-- note -->body</div>").unwrap();
    assert_eq!(doc.root.tag, "div");
    assert_eq!(doc.root.children.len(), 1);
    match &doc.root.children[0] {
        Node::Text(t) => assert_eq!(t, "body"),
        other => panic!("expected a text child, got {:?}", other),
    }
}

#[test]
fn missing_closing_tag_is_tolerated() {
    let doc = HtmlParser::parse("<div><p>deep").unwrap();
    assert_eq!(doc.root.tag, "div");
    assert_eq!(doc.root.children.len(), 1);
    match &doc.root.children[0] {
        Node::Element(e) => {
            assert_eq!(e.tag, "p");
            assert_eq!(e.children.len(), 1);
        }
        other => panic!("expected an element child, got {:?}", other),
    }
}

#[test]
fn nested_document_order_is_preserved() {
    let doc = HtmlParser::parse("<div>a<p>b</p>c</div>").unwrap();
    assert_eq!(doc.root.children.len(), 3);
    match &doc.root.children[0] {
        Node::Text(t) => assert_eq!(t, "a"),
        other => panic!("unexpected {:?}", other),
    }
    match &doc.root.children[1] {
        Node::Element(e) => assert_eq!(e.tag, "p"),
        other => panic!("unexpected {:?}", other),
    }
    match &doc.root.children[2] {
        Node::Text(t) => assert_eq!(t, "c"),
        other => panic!("unexpected {:?}", other),
    }
}

#[test]
fn parse_is_case_normalizing_and_stable() {
    // names differ only in case; the parsed documents are identical
    let first = HtmlParser::parse("<DIV ID=\"x\"><H1>Title</H1><p>body text</p></DIV>").unwrap();
    let second = HtmlParser::parse("<div id=\"x\"><h1>Title</h1><p>body text</p></div>").unwrap();
    assert_eq!(first, second);
}

#[test]
fn style_rule_with_two_declarations() {
    let rules = CssParser::parse_styles("p { color: Red; margin:1px; }").unwrap();
    assert_eq!(rules.len(), 1);
    assert_eq!(rules[0].selector, "p");
    assert_eq!(rules[0].properties.get("color").unwrap().as_str(), "Red");
    assert_eq!(rules[0].properties.get("margin").unwrap().as_str(), "1px");
}

#[test]
fn style_declaration_without_colon_is_dropped() {
    let rules = CssParser::parse_styles("p { nonsense; color:blue }").unwrap();
    assert_eq!(rules.len(), 1);
    assert!(rules[0].properties.get("nonsense").is_none());
    assert_eq!(rules[0].properties.get("color").unwrap().as_str(), "blue");
}

#[test]
fn style_duplicate_property_last_wins() {
    let rules = CssParser::parse_styles("p { color: red; color: blue }").unwrap();
    assert_eq!(rules[0].properties.get("color").unwrap().as_str(), "blue");
}

#[test]
fn unterminated_style_rule_is_lost() {
    let rules = CssParser::parse_styles("p { color: red").unwrap();
    assert_eq!(rules.len(), 0);
}

#[test]
fn two_style_rules_in_source_order() {
    let rules = CssParser::parse_styles("h1 { a: 1 } p{b:2}").unwrap();
    assert_eq!(rules.len(), 2);
    assert_eq!(rules[0].selector, "h1");
    assert_eq!(rules[1].selector, "p");
}

#[test]
fn style_property_name_lowercased() {
    let rules = CssParser::parse_styles("p { COLOR: Red }").unwrap();
    assert_eq!(rules[0].properties.get("color").unwrap().as_str(), "Red");
}

#[test]
fn layout_stacks_two_paragraphs() {
    let doc = HtmlParser::parse("<div><p>one</p><p>two</p></div>").unwrap();
    let tree = LayoutEngine::layout(&doc, 800, 600);
    assert_eq!(tree.root.width, 800);
    assert_eq!(tree.root.x, 0);
    assert_eq!(tree.root.y, 0);
    assert_eq!(tree.root.children.len(), 2);
    let first = &tree.root.children[0];
    let second = &tree.root.children[1];
    assert_eq!(first.height, 20);
    assert_eq!(second.height, 20);
    assert_eq!(second.y, first.y + 20);
    assert_eq!(tree.root.height, 40);
}

#[test]
fn layout_per_tag_heights() {
    let doc = HtmlParser::parse("<body><h1>a</h1><h2>b</h2><h3>c</h3><br></br><x>d</x></body>")
        .unwrap();
    let tree = LayoutEngine::layout(&doc, 100, 100);
    let hs: Vec<u64> = tree.root.children.iter().map(|b| b.height).collect();
    assert_eq!(hs, vec![32, 28, 24, 8, 20]);
}

#[test]
fn layout_text_box_carries_text() {
    let doc = HtmlParser::parse("<p>words</p>").unwrap();
    let tree = LayoutEngine::layout(&doc, 640, 480);
    let child = &tree.root.children[0];
    assert_eq!(child.text.as_deref(), Some("words"));
    assert!(child.element.is_none());
    assert_eq!(child.width, 640);
    assert_eq!(child.height, 20);
}

#[test]
fn layout_twice_gives_identical_trees() {
    let doc = HtmlParser::parse("<div><h1>t</h1><p>a</p><p>b</p></div>").unwrap();
    let one = LayoutEngine::layout(&doc, 800, 600);
    let two = LayoutEngine::layout(&doc, 800, 600);
    assert_eq!(one, two);
}

#[test]
fn layout_box_new_is_zeroed() {
    let b = LayoutBox::new();
    assert_eq!(b.width, 0);
    assert_eq!(b.height, 0);
    assert_eq!(b.x, 0);
    assert_eq!(b.y, 0);
    assert!(b.element.is_none());
    assert!(b.text.is_none());
    assert!(b.children.is_empty());
}

#[test]
fn render_buffer_size_is_exact() {
    let doc = HtmlParser::parse("<div><p>hello world</p></div>").unwrap();
    let out = PageRenderer::render(&doc, 120, 90);
    assert_eq!(out.width, 120);
    assert_eq!(out.height, 90);
    assert_eq!(out.pixels.len(), 120 * 90 * 4);
}

#[test]
fn render_background_is_white_and_text_drawn() {
    let doc = HtmlParser::parse("<div><p>mm</p></div>").unwrap();
    let out = PageRenderer::render(&doc, 40, 30);
    // the last pixel is untouched background: opaque white
    let n = out.pixels.len();
    assert_eq!(&out.pixels[n - 4..], &[255, 255, 255, 255]);
    // the glyph cell at the text box origin is painted in the default
    // color: a text box carries no element, so no tag color applies
    let idx = 0; // box at (0, 0)
    assert_eq!(&out.pixels[idx..idx + 4], &[100, 100, 100, 255]);
}

#[test]
fn bmp_header_declares_width_and_height() {
    let doc = HtmlParser::parse("<p>x</p>").unwrap();
    let out = PageRenderer::render(&doc, 10, 7);
    let bmp = out.encode_bmp();
    // row: 30 data bytes + 2 padding
    assert_eq!(bmp.len(), 54 + 32 * 7);
    assert_eq!(&bmp[0..2], b"BM");
    assert_eq!(&bmp[18..22], &[10, 0, 0, 0]);
    assert_eq!(&bmp[22..26], &[7, 0, 0, 0]);
    assert_eq!(&bmp[28..30], &[24, 0]);
    let file_size = (54 + 32 * 7) as u32;
    assert_eq!(&bmp[2..6], &file_size.to_le_bytes());
}

#[test]
fn bmp_rows_are_bottom_up() {
    let doc = HtmlParser::parse("<p>g</p>").unwrap();
    let out = PageRenderer::render(&doc, 8, 8);
    let bmp = out.encode_bmp();
    // top-left pixel of the image is the last stored row's first entry
    let row_bytes = 8 * 3; // no padding at width 8
    let last_row_start = bmp.len() - row_bytes;
    let (r, g, b) = (out.pixels[0], out.pixels[1], out.pixels[2]);
    assert_eq!(&bmp[last_row_start..last_row_start + 3], &[b, g, r]);
}

#[test]
fn simple_image_fill_and_put_pixel() {
    let mut img = SimpleImage::new(3, 2);
    assert_eq!(img.pixels.len(), 24);
    img.fill(9, 8, 7, 6);
    assert_eq!(&img.pixels[0..4], &[9, 8, 7, 6]);
    assert_eq!(&img.pixels[20..24], &[9, 8, 7, 6]);
    img.put_pixel(2, 1, 1, 2, 3, 4);
    let idx = ((1 * 3 + 2) * 4) as usize;
    assert_eq!(&img.pixels[idx..idx + 4], &[1, 2, 3, 4]);
    // out-of-bounds writes are ignored
    img.put_pixel(3, 0, 0, 0, 0, 0);
    img.put_pixel(0, 2, 0, 0, 0, 0);
    assert_eq!(&img.pixels[0..4], &[9, 8, 7, 6]);
    let raw = img.into_raw();
    assert_eq!(raw.len(), 24);
}

#[test]
fn element_builders() {
    let mut e = Element::new("p").with_id("main").with_class("a").with_class("b");
    e.add_child(Node::Text("t".to_string()));
    e.set_text("direct");
    assert_eq!(e.tag, "p");
    assert_eq!(e.id.as_deref(), Some("main"));
    assert_eq!(e.classes, vec!["a".to_string(), "b".to_string()]);
    assert_eq!(e.children.len(), 1);
    assert_eq!(e.text_content.as_deref(), Some("direct"));
    let mut doc = Document::new(e);
    assert_eq!(doc.styles.len(), 0);
    let rules = CssParser::parse_styles("p{c:d}").unwrap();
    doc.add_style_rule(rules.into_iter().next().unwrap());
    assert_eq!(doc.styles.len(), 1);
    let copy: StyleRule = doc.styles[0].clone();
    assert_eq!(copy, doc.styles[0]);
}

#[test]
fn url_with_port_and_path() {
    let u = HttpClient::parse_url("http://example.com:8080/a/b").unwrap();
    assert_eq!(u.host, "example.com");
    assert_eq!(u.port, 8080);
    assert_eq!(u.path, "/a/b");
}

#[test]
fn url_defaults_port_and_path() {
    let u = HttpClient::parse_url("  http://example.com  ").unwrap();
    assert_eq!(u.host, "example.com");
    assert_eq!(u.port, 80);
    assert_eq!(u.path, "/");
}

#[test]
fn url_bad_port_falls_back() {
    let u = HttpClient::parse_url("http://example.com:notaport/x").unwrap();
    assert_eq!(u.host, "example.com:notaport");
    assert_eq!(u.port, 80);
    assert_eq!(u.path, "/x");
}

#[test]
fn url_other_scheme_rejected() {
    assert_eq!(HttpClient::parse_url("ftp://example.com"), Err(HttpError::UnsupportedScheme));
}

#[test]
fn response_ok_returns_body() {
    let raw = "HTTP/1.1 200 OK\r\nContent-Type: text/html\r\n\r\n<p>hi</p>";
    assert_eq!(HttpClient::split_response(raw).unwrap(), "<p>hi</p>");
}

#[test]
fn response_error_status_carries_first_line() {
    let raw = "HTTP/1.1 404 Not Found\r\nServer: t\r\n\r\nnope";
    match HttpClient::split_response(raw) {
        Err(HttpError::Status(line)) => assert_eq!(line, "HTTP/1.1 404 Not Found"),
        other => panic!("expected a status error, got {:?}", other),
    }
}

#[test]
fn response_without_blank_line_returned_whole() {
    let raw = "garbage without structure";
    assert_eq!(HttpClient::split_response(raw).unwrap(), raw);
}
