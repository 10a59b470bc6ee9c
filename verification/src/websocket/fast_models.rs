//! Replies of the streaming API that carry no prices.
use vstd::prelude::*;

verus! {

/// The answer to a command (`subscribe`, `auth`, ...).
#[derive(Debug, Clone, PartialEq)]
pub struct CommandResponse {
    pub op: String,
    pub ret_code: Option<i32>,
    pub ret_msg: Option<String>,
    pub success: Option<bool>,
    pub conn_id: Option<String>,
}

/// The answer to an order sent over a trade socket.
#[derive(Debug, Clone, PartialEq)]
pub struct ExecutionResponse {
    pub success: bool,
    pub msg_type: String,
    pub conn_id: Option<String>,
}

} // verus!
