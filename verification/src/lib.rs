//! A message bus supporting publish/subscribe and request/response: the
//! verified core of topic parsing, topic matching, the subscription
//! directory, message framing and payload handling.

pub mod text;
pub mod err;
pub mod topic;
pub mod matching;
pub mod directory;
pub mod payload;
pub mod protocol;
pub mod codec;
pub mod debug;
pub mod client_core;
pub mod cli;
