use overlaytxt::{wait_outcome, OverlayTxtError, ThreadJoin};

#[test]
fn error_messages() {
    assert_eq!(
        OverlayTxtError::ThreadSpawn("no memory".to_string()).message(),
        "failed to spawn render thread: no memory"
    );
    assert_eq!(OverlayTxtError::ThreadPanic.message(), "render thread panicked");
    assert_eq!(
        OverlayTxtError::InitFailed("D3D11 device failed".to_string()).message(),
        "render pipeline init failed: D3D11 device failed"
    );
    assert_eq!(OverlayTxtError::RendererNotRunning.message(), "renderer is not running");
}

#[test]
fn panicked_render_thread_is_reported_first() {
    let r = wait_outcome(ThreadJoin::Panicked, Some(Err(OverlayTxtError::InitFailed("x".to_string()))));
    assert!(matches!(r, Err(OverlayTxtError::ThreadPanic)));
}

#[test]
fn recorded_init_failure_is_reported() {
    let r = wait_outcome(ThreadJoin::Returned, Some(Err(OverlayTxtError::InitFailed("no window".to_string()))));
    match r {
        Err(OverlayTxtError::InitFailed(msg)) => assert_eq!(msg, "no window"),
        other => panic!("unexpected {:?}", other),
    }
    let r = wait_outcome(ThreadJoin::NoThread, Some(Err(OverlayTxtError::RendererNotRunning)));
    assert!(matches!(r, Err(OverlayTxtError::RendererNotRunning)));
}

#[test]
fn clean_exit_is_ok() {
    assert!(wait_outcome(ThreadJoin::Returned, Some(Ok(()))).is_ok());
    assert!(wait_outcome(ThreadJoin::Returned, None).is_ok());
    assert!(wait_outcome(ThreadJoin::NoThread, None).is_ok());
}
