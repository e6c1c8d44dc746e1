//! The editor's end of the workspace protocol: what it makes of the answers.

use vstd::prelude::*;
use crate::proto::{DirEntry, Request, Response, StatInfo, PROTOCOL_VERSION};

verus! {

/// Why there is no result.
#[derive(Debug, PartialEq)]
pub enum RemoteError {
    /// The workspace refused, with its message.
    Refused(String),
    /// The answer is none to the request.
    Unexpected(Response),
}

/// The request that a connection begins with.
pub fn hello() -> (r: Request)
    ensures
        r == (Request::Hello { version: PROTOCOL_VERSION }),
{
    Request::Hello { version: PROTOCOL_VERSION }
}

/// What an answer that should be something else is.
pub open spec fn failed(resp: Response) -> RemoteError {
    match resp {
        Response::Error { kind: _, message } => RemoteError::Refused(message),
        other => RemoteError::Unexpected(other),
    }
}

fn fail(resp: Response) -> (r: RemoteError)
    ensures
        r == failed(resp),
{
    match resp {
        Response::Error { kind: _, message } => RemoteError::Refused(message),
        other => RemoteError::Unexpected(other),
    }
}

/// The workspace's directory, from the answer to [`hello`].
pub fn hello_reply(resp: Response) -> (r: Result<String, RemoteError>)
    ensures
        match resp {
            Response::Hello { version: _, cwd } => r == Ok::<String, RemoteError>(cwd),
            other => r == Err::<String, RemoteError>(failed(other)),
        },
{
    match resp {
        Response::Hello { version: _, cwd } => Ok(cwd),
        other => Err(fail(other)),
    }
}

/// The text of a file, from the answer to a request for it.
pub fn file_reply(resp: Response) -> (r: Result<String, RemoteError>)
    ensures
        match resp {
            Response::File { contents } => r == Ok::<String, RemoteError>(contents),
            other => r == Err::<String, RemoteError>(failed(other)),
        },
{
    match resp {
        Response::File { contents } => Ok(contents),
        other => Err(fail(other)),
    }
}

/// The number of bytes written, from the answer to a request to write them.
pub fn write_reply(resp: Response) -> (r: Result<usize, RemoteError>)
    ensures
        match resp {
            Response::Written { bytes } => r == Ok::<usize, RemoteError>(bytes),
            other => r == Err::<usize, RemoteError>(failed(other)),
        },
{
    match resp {
        Response::Written { bytes } => Ok(bytes),
        other => Err(fail(other)),
    }
}

/// What is in a directory, from the answer to a request for it.
pub fn dir_reply(resp: Response) -> (r: Result<Vec<DirEntry>, RemoteError>)
    ensures
        match resp {
            Response::Dir { entries } => r == Ok::<Vec<DirEntry>, RemoteError>(entries),
            other => r == Err::<Vec<DirEntry>, RemoteError>(failed(other)),
        },
{
    match resp {
        Response::Dir { entries } => Ok(entries),
        other => Err(fail(other)),
    }
}

/// What a path is, from the answer to a request for it.
pub fn stat_reply(resp: Response) -> (r: Result<StatInfo, RemoteError>)
    ensures
        match resp {
            Response::Stat(info) => r == Ok::<StatInfo, RemoteError>(info),
            other => r == Err::<StatInfo, RemoteError>(failed(other)),
        },
{
    match resp {
        Response::Stat(info) => Ok(info),
        other => Err(fail(other)),
    }
}

/// Only an error counts as a refusal, and its message is told; any other answer is none to the request.
pub proof fn refusals_are_told(resp: Response)
    ensures
        failed(resp) is Refused <==> resp is Error,
        resp matches Response::Error { kind: _, message } ==> failed(resp) == RemoteError::Refused(message),
        !(resp is Error) ==> failed(resp) == RemoteError::Unexpected(resp),
{
}

} // verus!
