use vstd::prelude::*;
use crate::scene::InteractState;

verus! {

/// The intents a client sends for one frame of input: `Pickup` when the
/// interaction button went down, then `LetGo` when it came up.
pub open spec fn frame_intents(pressed: bool, released: bool) -> Seq<InteractState> {
    let a = if pressed {
        seq![InteractState::Pickup]
    } else {
        Seq::empty()
    };
    let b = if released {
        seq![InteractState::LetGo]
    } else {
        Seq::empty()
    };
    a + b
}

/// The intents to send for a frame in which the interaction button went
/// down (`pressed`) and/or came up (`released`). Nothing is sent while the
/// game window is not focused.
pub fn intents_for_frame(focused: bool, pressed: bool, released: bool) -> (r: Vec<InteractState>)
    ensures
        !focused ==> r@ == Seq::<InteractState>::empty(),
        focused ==> r@ == frame_intents(pressed, released),
{
    let mut out: Vec<InteractState> = Vec::new();
    if !focused {
        return out;
    }
    if pressed {
        out.push(InteractState::Pickup);
    }
    if released {
        out.push(InteractState::LetGo);
    }
    proof {
        assert(out@ =~= frame_intents(pressed, released));
    }
    out
}

} // verus!
