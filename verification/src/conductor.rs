//! What the host decides around its storage and its workspace. The
//! storage, the tasks and the workspace themselves are the caller's.

use vstd::prelude::*;
use std::sync::Arc;
use crate::capability::{FunctionName, ZomeName};

verus! {

/// The host that serves the transport from the databases of its spaces.
pub struct KitsuneHostImpl<S> {
    spaces: S,
}

impl<S> KitsuneHostImpl<S> {
    /// The databases that the host serves from.
    pub closed spec fn databases(&self) -> S {
        self.spaces
    }

    /// The host over the databases `spaces`, to be shared with the transport.
    pub fn new(spaces: S) -> (r: Arc<KitsuneHostImpl<S>>)
        ensures
            r.databases() == spaces,
    {
        Arc::new(KitsuneHostImpl { spaces })
    }

    /// The databases that the host serves from.
    pub fn spaces(&self) -> (r: &S)
        ensures
            *r == self.databases(),
    {
        &self.spaces
    }
}

/// Why a request to the host failed.
#[derive(Clone, Debug)]
pub enum HostError {
    /// The task that served the request was cancelled or panicked. Holds what it said.
    Task(String),
    /// The storage could not be reached or refused. Holds what it said.
    Storage(String),
}

/// What became of a request that a task served from storage. A failure of
/// the task and a failure of the storage stay apart, and neither is taken
/// for an answer.
pub fn settle<T>(outcome: Result<Result<T, String>, String>) -> (r: Result<T, HostError>)
    ensures
        match outcome {
            Ok(Ok(answer)) => r == Ok::<T, HostError>(answer),
            Ok(Err(said)) => r == Err::<T, HostError>(HostError::Storage(said)),
            Err(said) => r == Err::<T, HostError>(HostError::Task(said)),
        },
{
    match outcome {
        Ok(Ok(answer)) => Ok(answer),
        Ok(Err(said)) => Err(HostError::Storage(said)),
        Err(said) => Err(HostError::Task(said)),
    }
}

/// Whether a zome function may use a part of the host.
#[derive(Clone, Copy, Debug, PartialEq, Eq, Structural)]
pub enum Permission {
    /// It may.
    Allow,
    /// It may not.
    Deny,
}

/// A host function that a zome function called without the right to.
#[derive(Clone, Debug)]
pub struct HostFnRefusal {
    /// The zome of the calling function.
    pub zome: ZomeName,
    /// The calling function.
    pub function: FunctionName,
    /// The host function that it called.
    pub host_fn: String,
}

/// Whether a zome function may create a link: it may where it may write
/// to the workspace. The refusal names the caller and `create_link`.
pub fn check_create_link(write_workspace: Permission, zome: ZomeName, function: FunctionName) -> (r:
    Result<(), HostFnRefusal>)
    ensures
        r.is_ok() <==> write_workspace == Permission::Allow,
        r matches Err(refusal) ==> refusal.zome == zome && refusal.function == function
            && refusal.host_fn@ == "create_link"@,
{
    match write_workspace {
        Permission::Allow => Ok(()),
        Permission::Deny => Err(
            HostFnRefusal { zome, function, host_fn: "create_link".to_owned() },
        ),
    }
}

} // verus!
