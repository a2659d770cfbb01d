//! Core of a document viewer: a session that caches parsed documents under
//! caller-supplied ids and hands out share-counted handles (document, page
//! collection, single page) whose existence keeps the whole ownership chain
//! alive. The parsing/rasterizing engine itself is an outside collaborator;
//! this crate verifies the cache, the share accounting, the index checks and
//! the pixel-format normalization that surround it.

pub mod config;
pub mod raster;
pub mod utils;
pub mod viewer;

pub use config::Rotation;
pub use utils::ImageData;
pub use utils::Orientation;
pub use utils::PageSize;
pub use utils::Rect;
pub use viewer::Document;
pub use viewer::DocView;
pub use viewer::Page;
pub use viewer::Pages;
pub use viewer::PdfError;
pub use viewer::Viewer;
