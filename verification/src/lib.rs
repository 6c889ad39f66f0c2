//! A miniature page-rendering pipeline: a markup parser that builds a
//! document tree, a style-sheet parser, a block layout engine, and a
//! paint stage that rasterizes the layout tree into an RGBA buffer and
//! encodes it as a bitmap image.
pub mod text;
pub mod dom;
pub mod css_parser;
pub mod html_parser;
pub mod layout;
pub mod renderer;
pub mod http_client;

pub use dom::Document;
pub use layout::LayoutTree;
pub use renderer::PageRenderer;
