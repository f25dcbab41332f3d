//! The content of PDF pages: text with its place, rectangles, lines and images.
//!
//! A page is read in steps. `streams` puts its content together, `comments` takes
//! the comments out, and `content` parses it. `page` is the state that the operations
//! of a page change one after the other, with `paths`, `shows` and `images` for the
//! parts of it, and `replies` for what they need from outside the page. `extraction`
//! walks over the operations and finishes the page.
//!
//! Coordinates are single-precision floats, which `single` computes on integers.
//! The modules whose names end in `laws` state what holds across functions.

pub mod arithmetic_laws;
pub mod ascii_filter_laws;
pub mod ascii_filters;
pub mod bytes;
pub mod comment_laws;
pub mod comments;
pub mod content;
pub mod document;
pub mod document_laws;
pub mod extraction;
pub mod extraction_laws;
pub mod filter_laws;
pub mod filters;
pub mod finish_laws;
pub mod font_laws;
pub mod fonts;
pub mod geometry;
pub mod geometry_laws;
pub mod grid;
pub mod image_laws;
pub mod images;
pub mod inline_image_laws;
pub mod inline_images;
pub mod mark_laws;
pub mod object;
pub mod operator_laws;
pub mod operators;
pub mod page;
pub mod page_laws;
pub mod path_laws;
pub mod paths;
pub mod png_laws;
pub mod png_rows;
pub mod rect_laws;
pub mod rects;
pub mod replies;
pub mod reply_laws;
pub mod rounding;
pub mod services;
pub mod show_laws;
pub mod shows;
pub mod single;
pub mod single_laws;
pub mod stream_laws;
pub mod streams;
pub mod string_laws;
pub mod text_laws;
pub mod text_map;
pub mod texts;
