//! Interpretation of the remote file service's replies.
//!
//! The HTTP calls themselves are input/output and live outside the library;
//! the functions here are handed the reply (status code, body, headers
//! already reduced to plain values) and decide, exactly, what it means: a
//! create is accepted with status 201 and carries the new id in its
//! `location` header, content uploads and deletes answer 202, fetches and
//! patch requests answer 200.

use vstd::prelude::*;

use crate::model::ChangePatch;
use crate::model::FileDefinition;
use crate::model::SyncError;
use crate::model::opt_view;
use crate::state_manager::with_id;

verus! {

pub struct SyncService;

impl SyncService {
    /// Interpret the reply to registering a record remotely: on status 201
    /// the record comes back carrying the id the server assigned (from the
    /// reply's location header); any other status is a transport failure,
    /// and a 201 without a location is a malformed reply.
    pub fn create_empty(fd: &FileDefinition, status: u16, location: Option<String>) -> (r: Result<
        FileDefinition,
        SyncError,
    >)
        ensures
            match r {
                Ok(out) => status == 201 && location is Some && out@ == with_id(
                    fd@,
                    opt_view(location),
                ),
                Err(e) => (status != 201 && e == SyncError::TransportError) || (status == 201
                    && location is None && e == SyncError::SerializationError),
            },
    {
        if status == 201 {
            match location {
                Some(id) => {
                    let mut out = fd.clone();
                    out.id = Some(id);
                    Ok(out)
                },
                None => Err(SyncError::SerializationError),
            }
        } else {
            Err(SyncError::TransportError)
        }
    }

    /// Interpret the reply to a content upload: accepted exactly on status
    /// 202.
    pub fn update_file_fd(status: u16) -> (r: Result<bool, SyncError>)
        ensures
            r == (if status == 202 {
                Ok::<bool, SyncError>(true)
            } else {
                Err::<bool, SyncError>(SyncError::TransportError)
            }),
    {
        if status == 202 {
            Ok(true)
        } else {
            Err(SyncError::TransportError)
        }
    }

    /// Interpret the reply to a content fetch: on status 200 the body is the
    /// file's bytes; anything else is a transport failure.
    pub fn get_file(status: u16, body: Vec<u8>) -> (r: Result<Vec<u8>, SyncError>)
        ensures
            match r {
                Ok(b) => status == 200 && b@ == body@,
                Err(e) => status != 200 && e == SyncError::TransportError,
            },
    {
        if status == 200 {
            Ok(body)
        } else {
            Err(SyncError::TransportError)
        }
    }

    /// Interpret the reply to a remote delete: accepted exactly on status
    /// 202.
    pub fn delete_file(status: u16) -> (r: Result<bool, SyncError>)
        ensures
            r == (if status == 202 {
                Ok::<bool, SyncError>(true)
            } else {
                Err::<bool, SyncError>(SyncError::TransportError)
            }),
    {
        if status == 202 {
            Ok(true)
        } else {
            Err(SyncError::TransportError)
        }
    }

    /// Interpret the reply to a patch request: on status 200 the body must
    /// decode to a patch (`parsed` is that decoding of `body`, `None` when
    /// malformed); any other status is a transport failure. A failed request
    /// carries the reply's body text as error detail.
    pub fn get_patch(status: u16, parsed: Option<ChangePatch>, body: String) -> (r: Result<
        ChangePatch,
        (SyncError, String),
    >)
        ensures
            match r {
                Ok(p) => status == 200 && parsed is Some && p@ == parsed->Some_0@,
                Err((e, detail)) => detail@ == body@ && ((status != 200 && e
                    == SyncError::TransportError) || (status == 200 && parsed is None && e
                    == SyncError::SerializationError)),
            },
    {
        if status == 200 {
            match parsed {
                Some(p) => Ok(p),
                None => Err((SyncError::SerializationError, body)),
            }
        } else {
            Err((SyncError::TransportError, body))
        }
    }
}

} // verus!
