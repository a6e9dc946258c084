//! Watermark compositing library.
//!
//! Overlays a watermark image onto base images: a pure pixel blender, a
//! compositor with bottom-right placement, a batch orchestrator that applies
//! the compositor across many images against one shared watermark, and a
//! packager that frames the per-image outputs into a single byte stream.
//!
//! Opacity and alpha are exact integer fractions; the final channel value is
//! the truncated (floor) quotient of the blend formula.

pub mod pixel;
pub mod raster;
pub mod compose;
pub mod codec;
pub mod batch;
pub mod dispatch;
pub mod package;
