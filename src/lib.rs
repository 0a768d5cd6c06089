pub mod coin;
pub mod msg_send;
pub mod token_msg;
pub mod varint;
pub mod wire;

pub use coin::Coin;
pub use msg_send::{Any, MsgSend};
pub use token_msg::FungibleTokenMsg;
pub use wire::DecodeError;
