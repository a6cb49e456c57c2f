//! The decisions of the RPC client: when to authenticate, and how a node's reply
//! becomes a result or an error.

use vstd::prelude::*;

use crate::text::concat;
use crate::types::KaspaError;

verus! {

/// The error part of a JSON-RPC reply.
#[derive(Debug, Clone)]
pub struct RpcErrorBody {
    pub code: i32,
    pub message: String,
}

/// The user name and password to send as basic authentication: both, when both
/// are set; otherwise none.
pub fn basic_auth_credentials(username: &Option<String>, password: &Option<String>) -> (r: Option<(String, String)>)
    ensures
        (username.is_some() && password.is_some()) <==> r.is_some(),
        r matches Some((u, p)) ==> u@ == username.unwrap()@ && p@ == password.unwrap()@,
{
    match (username, password) {
        (Some(u), Some(p)) => Some((u.clone(), p.clone())),
        _ => None,
    }
}

/// The outcome of the HTTP exchange before its body is read: a status that is not
/// a success is a connection error that quotes the status.
pub fn check_http_status(success: bool, status: &str) -> (r: Result<(), KaspaError>)
    ensures
        success ==> r is Ok,
        !success ==> (r matches Err(KaspaError::ConnectionError(m)) && m@ == "HTTP error: "@ + status@),
{
    if success {
        Ok(())
    } else {
        Err(KaspaError::ConnectionError(concat("HTTP error: ", status)))
    }
}

/// The outcome of a JSON-RPC reply: its error, if it carries one; else its result;
/// a reply with neither is an invalid response.
pub fn rpc_outcome<T>(error: Option<RpcErrorBody>, result: Option<T>) -> (r: Result<T, KaspaError>)
    ensures
        error matches Some(e) ==> (r matches Err(KaspaError::RpcError { code, message }) && code == e.code
            && message@ == e.message@),
        error is None && result is Some ==> r == Ok::<T, KaspaError>(result.unwrap()),
        error is None && result is None ==> (r matches Err(KaspaError::InvalidResponse(m)) && m@
            == "Missing result in RPC response"@),
{
    match error {
        Some(e) => Err(KaspaError::RpcError { code: e.code, message: e.message }),
        None => match result {
            Some(v) => Ok(v),
            None => Err(KaspaError::InvalidResponse(String::from_str("Missing result in RPC response"))),
        },
    }
}

} // verus!
