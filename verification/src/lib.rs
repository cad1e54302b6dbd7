//! Client-side protocol layer for a content-discovery tracker: peers
//! announce which content addresses they hold, and ask a tracker which
//! hosts claim given content.
//!
//! The crate covers the message model, its binary encoding, the
//! normalization of user-supplied content specifiers, and the verified
//! steps of the request/response exchange; the connection-oriented
//! transport itself is an external collaborator.
pub mod args;
pub mod codec;
pub mod exchange;
pub mod model;
pub mod protocol;

pub use args::ContentArg;
pub use exchange::{TrackerError, REQUEST_SIZE_LIMIT, TRACKER_ALPN};
pub use model::{BlobFormat, ContentHash, HashAndFormat, NodeId, Ticket, ID_LEN};
pub use protocol::{
    insert_addr, Announce, AnnounceKind, Query, QueryFlags, QueryResponse, Request, Response,
};
