//! Shared domain model, replication rules, wire format, server and client
//! logic of the Weavedraw collaborative whiteboard.

pub mod app;
pub mod args;
pub mod board;
pub mod board_laws;
pub mod canvas;
pub mod codec;
pub mod config;
pub mod crdt;
pub mod crdt_laws;
pub mod document;
pub mod draw_laws;
pub mod geom;
pub mod geom_laws;
pub mod gpu;
pub mod ids;
pub mod layout;
pub mod link_laws;
pub mod net;
pub mod order_laws;
pub mod ordmap;
pub mod palette;
pub mod panel;
pub mod presence_laws;
pub mod protocol;
pub mod registry;
pub mod room;
pub mod server_laws;
pub mod session_laws;
pub mod shape_laws;
pub mod state_laws;
pub mod text;
pub mod text_laws;
pub mod tool;
pub mod types;
pub mod view_laws;
pub mod wire;
pub mod wire_laws;
pub mod ws;

pub use crate::app::WeavedrawApp;
pub use crate::codec::{decode, decode_client, decode_server, encode, CodecError};
pub use crate::config::Config;
pub use crate::crdt::{LamportClock, StrokeEntry, StrokeOp, StrokeSet, Timestamp};
pub use crate::protocol::{ClientMessage, ServerMessage, StrokeDelta, PROTOCOL_VERSION};
pub use crate::registry::Registry;
pub use crate::types::{
    ClientId, CursorState, Point, Rgba, RoomId, Stroke, StrokeId, StrokeKind,
};
