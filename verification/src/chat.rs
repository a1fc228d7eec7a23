//! The decisions of the chat transport that carries the ratchet's messages:
//! what a request must hold, what becomes of a reply, and how a closed
//! channel is reported. The transport itself is the caller's.

pub mod http;

pub use self::http::{
    ChannelEvent, ChatNetworkError, ChatOverHttp2, ChatOverHttp2ServiceConnector, Connecting,
    HttpReply, MessageProto, NetError, RequestProto, ResponseProto,
};
