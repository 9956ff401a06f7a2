use overlaytxt::{classify_message, LoopAction, WindowEvent};

#[test]
fn destroy_and_quit_end_the_loop() {
    assert!(matches!(classify_message(&WindowEvent::Destroy, 1), LoopAction::Exit));
    assert!(matches!(classify_message(&WindowEvent::Quit, 1), LoopAction::Exit));
}

#[test]
fn only_the_frame_timer_drives_frames() {
    assert!(matches!(classify_message(&WindowEvent::Timer(1), 1), LoopAction::Frame));
    assert!(matches!(classify_message(&WindowEvent::Timer(2), 1), LoopAction::Dispatch));
    assert!(matches!(classify_message(&WindowEvent::Other, 1), LoopAction::Dispatch));
}
