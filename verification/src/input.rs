//! Which movement keys of the fly camera are held down.
use vstd::prelude::*;
use crate::text::same_text;

verus! {

/// The six movement directions of the fly camera, each held or not.
#[derive(Debug, Clone, Copy, PartialEq, Eq)]
pub struct MoveKeys {
    pub forward: bool,
    pub back: bool,
    pub left: bool,
    pub right: bool,
    pub up: bool,
    pub down: bool,
}

/// The keys after `key` (a physical key code such as `KeyW`) went down or
/// up: W, S, A, D move forward, back, left and right, Space moves up and
/// either Shift moves down; any other key changes nothing.
pub open spec fn on_key_spec(k: MoveKeys, key: Seq<char>, pressed: bool) -> MoveKeys {
    if key == "KeyW"@ {
        MoveKeys { forward: pressed, ..k }
    } else if key == "KeyS"@ {
        MoveKeys { back: pressed, ..k }
    } else if key == "KeyA"@ {
        MoveKeys { left: pressed, ..k }
    } else if key == "KeyD"@ {
        MoveKeys { right: pressed, ..k }
    } else if key == "Space"@ {
        MoveKeys { up: pressed, ..k }
    } else if key == "ShiftLeft"@ || key == "ShiftRight"@ {
        MoveKeys { down: pressed, ..k }
    } else {
        k
    }
}

impl MoveKeys {
    /// No key held.
    pub fn new() -> (k: Self)
        ensures
            !k.forward && !k.back && !k.left && !k.right && !k.up && !k.down,
    {
        MoveKeys { forward: false, back: false, left: false, right: false, up: false, down: false }
    }

    /// Records that `key` went down (`pressed`) or up.
    pub fn on_key(&mut self, key: &str, pressed: bool)
        ensures
            *final(self) == on_key_spec(*old(self), key@, pressed),
    {
        if same_text(key, "KeyW") {
            self.forward = pressed;
        } else if same_text(key, "KeyS") {
            self.back = pressed;
        } else if same_text(key, "KeyA") {
            self.left = pressed;
        } else if same_text(key, "KeyD") {
            self.right = pressed;
        } else if same_text(key, "Space") {
            self.up = pressed;
        } else if same_text(key, "ShiftLeft") || same_text(key, "ShiftRight") {
            self.down = pressed;
        }
    }
}

/// For each key only its latest event counts: a second event of the same
/// key overrides the first.
pub proof fn lemma_latest_event_wins(k: MoveKeys, key: Seq<char>, first: bool, second: bool)
    ensures
        on_key_spec(on_key_spec(k, key, first), key, second) == on_key_spec(k, key, second),
{
}

/// Events of different keys commute: the held keys do not depend on the
/// order in which two different keys changed.
pub proof fn lemma_other_keys_commute(
    k: MoveKeys,
    a: Seq<char>,
    b: Seq<char>,
    pa: bool,
    pb: bool,
)
    requires
        a != b,
        !((a == "ShiftLeft"@ || a == "ShiftRight"@) && (b == "ShiftLeft"@ || b == "ShiftRight"@)),
    ensures
        on_key_spec(on_key_spec(k, a, pa), b, pb) == on_key_spec(on_key_spec(k, b, pb), a, pa),
{
    reveal_strlit("KeyW");
    reveal_strlit("KeyS");
    reveal_strlit("KeyA");
    reveal_strlit("KeyD");
    reveal_strlit("Space");
    reveal_strlit("ShiftLeft");
    reveal_strlit("ShiftRight");
}

} // verus!
