use vstd::prelude::*;
use vstd::string::StringExecFns;

verus! {

/// Errors of the overlay.
#[derive(Debug)]
pub enum OverlayTxtError {
    /// The render thread could not be created; the message says why.
    ThreadSpawn(String),
    /// The render thread panicked (reported when waiting for it).
    ThreadPanic,
    /// Setting up the render pipeline failed (window, D3D, D2D or
    /// composition); the message says why.
    InitFailed(String),
    /// The render thread has ended and its command channel is closed.
    RendererNotRunning,
}

/// The human-readable text of an error.
pub open spec fn error_message(e: OverlayTxtError) -> Seq<char> {
    match e {
        OverlayTxtError::ThreadSpawn(msg) => "failed to spawn render thread: "@ + msg@,
        OverlayTxtError::ThreadPanic => "render thread panicked"@,
        OverlayTxtError::InitFailed(msg) => "render pipeline init failed: "@ + msg@,
        OverlayTxtError::RendererNotRunning => "renderer is not running"@,
    }
}

impl OverlayTxtError {
    /// The human-readable text of the error.
    pub fn message(&self) -> (text: String)
        ensures
            text@ == error_message(*self),
    {
        match self {
            OverlayTxtError::ThreadSpawn(msg) => {
                let mut text = String::from_str("failed to spawn render thread: ");
                text.append(msg.as_str());
                text
            },
            OverlayTxtError::ThreadPanic => String::from_str("render thread panicked"),
            OverlayTxtError::InitFailed(msg) => {
                let mut text = String::from_str("render pipeline init failed: ");
                text.append(msg.as_str());
                text
            },
            OverlayTxtError::RendererNotRunning => String::from_str("renderer is not running"),
        }
    }
}

/// How joining the render thread went.
pub enum ThreadJoin {
    /// There was no render thread to join (never started, or already joined).
    NoThread,
    /// The render thread returned.
    Returned,
    /// The render thread panicked.
    Panicked,
}

/// What waiting for the overlay reports: a panicked render thread first,
/// then a failure that the render thread recorded, else success.
pub fn wait_outcome(join: ThreadJoin, init_result: Option<Result<(), OverlayTxtError>>) -> (res:
    Result<(), OverlayTxtError>)
    ensures
        join is Panicked ==> res == Err::<(), OverlayTxtError>(OverlayTxtError::ThreadPanic),
        !(join is Panicked) ==> res == match init_result {
            Some(Err(e)) => Err(e),
            _ => Ok(()),
        },
{
    if let ThreadJoin::Panicked = join {
        return Err(OverlayTxtError::ThreadPanic);
    }
    match init_result {
        Some(Err(e)) => Err(e),
        _ => Ok(()),
    }
}

} // verus!
