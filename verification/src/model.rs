//! Sticker colours and the six-face cube state.

use vstd::prelude::*;

verus! {

/// One of the six sticker colours (standard Western scheme: white up, green front).
#[derive(Clone, Copy, PartialEq, Eq, Structural, Debug, Hash)]
pub enum StickerColor {
    W,
    Y,
    R,
    O,
    B,
    G,
}

/// A full cube given face by face (order U R F D L B), nine stickers per face in
/// row-major order.
#[allow(non_snake_case)]
#[derive(Clone, Copy, PartialEq, Eq, Debug)]
pub struct CubeState {
    pub U: [StickerColor; 9],
    pub R: [StickerColor; 9],
    pub F: [StickerColor; 9],
    pub D: [StickerColor; 9],
    pub L: [StickerColor; 9],
    pub B: [StickerColor; 9],
}

/// The colour of face `f` (order U R F D L B) on a solved cube.
pub open spec fn solved_face_color(f: int) -> StickerColor {
    if f == 0 {
        StickerColor::W
    } else if f == 1 {
        StickerColor::R
    } else if f == 2 {
        StickerColor::G
    } else if f == 3 {
        StickerColor::Y
    } else if f == 4 {
        StickerColor::O
    } else {
        StickerColor::B
    }
}

impl CubeState {
    /// The face with index `f` (order U R F D L B) as a sequence of nine stickers.
    pub open spec fn face_spec(self, f: int) -> Seq<StickerColor> {
        if f == 0 {
            self.U@
        } else if f == 1 {
            self.R@
        } else if f == 2 {
            self.F@
        } else if f == 3 {
            self.D@
        } else if f == 4 {
            self.L@
        } else {
            self.B@
        }
    }

    /// Every face uniformly in its own solved colour.
    pub fn solved() -> (s: CubeState)
        ensures
            forall|f: int, i: int|
                0 <= f < 6 && 0 <= i < 9 ==> #[trigger] s.face_spec(f)[i] == solved_face_color(f),
    {
        let s = CubeState {
            U: [StickerColor::W; 9],
            R: [StickerColor::R; 9],
            F: [StickerColor::G; 9],
            D: [StickerColor::Y; 9],
            L: [StickerColor::O; 9],
            B: [StickerColor::B; 9],
        };
        assert forall|f: int, i: int|
            0 <= f < 6 && 0 <= i < 9 implies #[trigger] s.face_spec(f)[i] == solved_face_color(f) by {
            if f == 0 {
                assert(s.U@[i] == StickerColor::W);
            } else if f == 1 {
                assert(s.R@[i] == StickerColor::R);
            } else if f == 2 {
                assert(s.F@[i] == StickerColor::G);
            } else if f == 3 {
                assert(s.D@[i] == StickerColor::Y);
            } else if f == 4 {
                assert(s.L@[i] == StickerColor::O);
            } else {
                assert(s.B@[i] == StickerColor::B);
            }
        }
        s
    }
}

} // verus!
