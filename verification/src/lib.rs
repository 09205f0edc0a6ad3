//! Building blocks for peer-to-peer and client-server networked games.

pub mod buffer;
pub mod channel;
pub mod client_server;
pub mod codec;
pub mod delivery;
pub mod diagnostics;
pub mod endian;
pub mod engine;
pub mod error;
pub mod event;
pub mod fixed;
pub mod keys;
pub mod label;
pub mod leb;
pub mod meeting;
pub mod mock;
pub mod number;
pub mod ordered_map;
pub mod outgoing;
pub mod packet;
pub mod peer;
pub mod primitive;
pub mod protocol;
pub mod replica;
pub mod replication;
pub mod rpc;
pub mod session;
pub mod std_maps;
pub mod text;
pub mod timeline;
pub mod user_data;
pub mod wire;
pub mod wiring;
