use vstd::prelude::*;

verus! {

/// A window message as the render loop sees it.
pub enum WindowEvent {
    /// The window is being destroyed.
    Destroy,
    /// The thread's message queue was told to quit.
    Quit,
    /// A timer fired; the value is the timer's id.
    Timer(usize),
    /// Any other message.
    Other,
}

/// What the render loop does with a message.
pub enum LoopAction {
    /// Leave the loop and tear the window down.
    Exit,
    /// Run one frame: take the queued commands, advance and draw.
    Frame,
    /// Hand the message to the default window procedure.
    Dispatch,
}

/// Decides what the render loop does with `event`, where `frame_timer` is
/// the id of the timer that paces the frames.
pub fn classify_message(event: &WindowEvent, frame_timer: usize) -> (action: LoopAction)
    ensures
        (*event is Destroy || *event is Quit) <==> action is Exit,
        action is Frame <==> (*event matches WindowEvent::Timer(id) && id == frame_timer),
{
    match event {
        WindowEvent::Destroy => LoopAction::Exit,
        WindowEvent::Quit => LoopAction::Exit,
        WindowEvent::Timer(id) => if *id == frame_timer {
            LoopAction::Frame
        } else {
            LoopAction::Dispatch
        },
        WindowEvent::Other => LoopAction::Dispatch,
    }
}

} // verus!
