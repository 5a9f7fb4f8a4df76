//! Static file serving engine: path routing with traversal defense, HTTP cache
//! and range negotiation, chunked body planning and directory index rendering.
//!
//! Every decision the server takes is made by the functions of this crate, over
//! plain values; the surrounding program performs the file system and network
//! work they call for.
pub mod config;
pub mod error;
pub mod file;
pub mod index;
pub mod range;
pub mod router;
pub mod stream;
pub mod text;

pub use config::Config;
pub use error::{error_handler, Error, Exception, ExceptionHandler, IoKind};
pub use file::{
    etag, file_response, gate, BodyPlan, EntityTag, EntryKind, FileMeta, FileRequest, Headers,
    IfRange, Method, Reply, Target,
};
pub use index::{
    index_cached, index_page, index_probed, index_request, is_hidden, render_html, Entry,
    IndexStep,
};
pub use range::{clamp_ranges, content_range, ByteRange};
pub use router::{route_request, router, Resolved};
pub use stream::{ChunkStream, Delivery, Pump, PumpStep};
