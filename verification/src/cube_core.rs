//! Face turns: the six faces as integer directions, the eighteen moves, and a cube
//! whose stickers ride along when a layer turns.
//!
//! Coordinates: x to R, y to U, z to F, each in {-1, 0, 1}. A sticker sits on the
//! piece at some grid position and faces outward along its face's normal; a turn
//! of face `m` rotates every piece whose position lies in that face's layer, and
//! the stickers with it.

use vstd::prelude::*;
use vstd::string::StrSliceExecFns;
use crate::model::{solved_face_color, CubeState, StickerColor};
use crate::text::{push_str, text};

verus! {

/// A vector with integer coordinates.
pub type Vec3 = (int, int, int);

/// Dot product.
pub open spec fn dot(a: Vec3, v: Vec3) -> int {
    a.0 * v.0 + a.1 * v.1 + a.2 * v.2
}

/// One clockwise quarter turn (seen from outside) about the outward unit normal `a`:
/// `(a·v) a - a × v`.
pub open spec fn rot(a: Vec3, v: Vec3) -> Vec3 {
    let d = dot(a, v);
    (a.0 * d - (a.1 * v.2 - a.2 * v.1), a.1 * d - (a.2 * v.0 - a.0 * v.2), a.2 * d - (a.0 * v.1 - a.1 * v.0))
}

/// `k` quarter turns (`k` from 0 to 3) about `a`.
pub open spec fn rot_by(a: Vec3, v: Vec3, k: int) -> Vec3 {
    if k == 1 {
        rot(a, v)
    } else if k == 2 {
        rot(a, rot(a, v))
    } else if k == 3 {
        rot(a, rot(a, rot(a, v)))
    } else {
        v
    }
}

/// Outward normal of board face `b` (order U R F D L B).
pub open spec fn normal_spec(b: int) -> Vec3 {
    if b == 0 {
        (0, 1, 0)
    } else if b == 1 {
        (1, 0, 0)
    } else if b == 2 {
        (0, 0, 1)
    } else if b == 3 {
        (0, -1, 0)
    } else if b == 4 {
        (-1, 0, 0)
    } else {
        (0, 0, -1)
    }
}

/// The board face whose outward normal is `n` (6 when there is none).
pub open spec fn face_of_normal(n: Vec3) -> int {
    if n == (0int, 1int, 0int) {
        0
    } else if n == (1int, 0int, 0int) {
        1
    } else if n == (0int, 0int, 1int) {
        2
    } else if n == (0int, -1int, 0int) {
        3
    } else if n == (-1int, 0int, 0int) {
        4
    } else if n == (0int, 0int, -1int) {
        5
    } else {
        6
    }
}

/// Grid position of the piece that carries sticker `i` (row-major) of face `b`,
/// each face seen from outside with U's top row towards B, D's towards F, and the
/// side faces upright.
pub open spec fn pos_spec(b: int, i: int) -> Vec3 {
    let r = i / 3;
    let c = i % 3;
    if b == 0 {
        (c - 1, 1, r - 1)
    } else if b == 1 {
        (1, 1 - r, 1 - c)
    } else if b == 2 {
        (c - 1, 1 - r, 1)
    } else if b == 3 {
        (c - 1, -1, 1 - r)
    } else if b == 4 {
        (-1, 1 - r, c - 1)
    } else {
        (1 - c, 1 - r, -1)
    }
}

/// Which sticker of face `b` the piece at grid position `p` carries.
pub open spec fn index_spec(b: int, p: Vec3) -> int {
    let rc: (int, int) = if b == 0 {
        (p.2 + 1, p.0 + 1)
    } else if b == 1 {
        (1 - p.1, 1 - p.2)
    } else if b == 2 {
        (1 - p.1, p.0 + 1)
    } else if b == 3 {
        (1 - p.2, p.0 + 1)
    } else if b == 4 {
        (1 - p.1, p.2 + 1)
    } else {
        (1 - p.1, 1 - p.0)
    };
    rc.0 * 3 + rc.1
}

/// Every coordinate is -1, 0 or 1.
pub open spec fn in_cube(p: Vec3) -> bool {
    &&& -1 <= p.0 <= 1
    &&& -1 <= p.1 <= 1
    &&& -1 <= p.2 <= 1
}

/// `p` is a grid position on face `b`.
pub open spec fn on_face(b: int, p: Vec3) -> bool {
    in_cube(p) && dot(normal_spec(b), p) == 1
}

/// The quarter turn about face `c`'s normal, written out per face.
pub open spec fn rot_case(c: int, v: Vec3) -> Vec3 {
    if c == 0 {
        (-v.2, v.1, v.0)
    } else if c == 1 {
        (v.0, v.2, -v.1)
    } else if c == 2 {
        (v.1, -v.0, v.2)
    } else if c == 3 {
        (v.2, v.1, -v.0)
    } else if c == 4 {
        (v.0, -v.2, v.1)
    } else {
        (-v.1, v.0, v.2)
    }
}

/// The coordinate of `p` along face `b`'s normal, written out per face.
pub open spec fn dot_case(b: int, p: Vec3) -> int {
    if b == 0 {
        p.1
    } else if b == 1 {
        p.0
    } else if b == 2 {
        p.2
    } else if b == 3 {
        -p.1
    } else if b == 4 {
        -p.0
    } else {
        -p.2
    }
}

pub(crate) proof fn lemma_rot_cases(c: int, v: Vec3)
    requires
        0 <= c < 6,
    ensures
        rot(normal_spec(c), v) == rot_case(c, v),
{
    if c == 0 {
        assert(rot((0int, 1int, 0int), v) == rot_case(c, v));
    } else if c == 1 {
        assert(rot((1int, 0int, 0int), v) == rot_case(c, v));
    } else if c == 2 {
        assert(rot((0int, 0int, 1int), v) == rot_case(c, v));
    } else if c == 3 {
        assert(rot((0int, -1int, 0int), v) == rot_case(c, v));
    } else if c == 4 {
        assert(rot((-1int, 0int, 0int), v) == rot_case(c, v));
    } else {
        assert(rot((0int, 0int, -1int), v) == rot_case(c, v));
    }
}

pub(crate) proof fn lemma_dot_cases(b: int, p: Vec3)
    requires
        0 <= b < 6,
    ensures
        dot(normal_spec(b), p) == dot_case(b, p),
{
    if b == 0 {
        assert(dot((0int, 1int, 0int), p) == dot_case(b, p));
    } else if b == 1 {
        assert(dot((1int, 0int, 0int), p) == dot_case(b, p));
    } else if b == 2 {
        assert(dot((0int, 0int, 1int), p) == dot_case(b, p));
    } else if b == 3 {
        assert(dot((0int, -1int, 0int), p) == dot_case(b, p));
    } else if b == 4 {
        assert(dot((-1int, 0int, 0int), p) == dot_case(b, p));
    } else {
        assert(dot((0int, 0int, -1int), p) == dot_case(b, p));
    }
}

proof fn lemma_face_grid(b: int, i: int)
    requires
        0 <= b < 6,
        0 <= i < 9,
    ensures
        on_face(b, pos_spec(b, i)),
        index_spec(b, pos_spec(b, i)) == i,
        face_of_normal(normal_spec(b)) == b,
{
    lemma_dot_cases(b, pos_spec(b, i));
    assert(0 <= i / 3 < 3 && 0 <= i % 3 < 3 && i == 3 * (i / 3) + i % 3);
}

proof fn lemma_grid_face(b: int, p: Vec3)
    requires
        0 <= b < 6,
        on_face(b, p),
    ensures
        0 <= index_spec(b, p) < 9,
        pos_spec(b, index_spec(b, p)) == p,
{
    lemma_dot_cases(b, p);
    let i = index_spec(b, p);
    assert(0 <= i < 9);
    assert(i / 3 == (i - i % 3) / 3);
    if b == 0 {
        assert(i / 3 == p.2 + 1 && i % 3 == p.0 + 1);
    } else if b == 1 {
        assert(i / 3 == 1 - p.1 && i % 3 == 1 - p.2);
    } else if b == 2 {
        assert(i / 3 == 1 - p.1 && i % 3 == p.0 + 1);
    } else if b == 3 {
        assert(i / 3 == 1 - p.2 && i % 3 == p.0 + 1);
    } else if b == 4 {
        assert(i / 3 == 1 - p.1 && i % 3 == p.2 + 1);
    } else {
        assert(i / 3 == 1 - p.1 && i % 3 == 1 - p.0);
    }
}

proof fn lemma_rot_face(c: int, b: int, p: Vec3)
    requires
        0 <= c < 6,
        0 <= b < 6,
        on_face(b, p),
    ensures
        0 <= face_of_normal(rot(normal_spec(c), normal_spec(b))) < 6,
        normal_spec(face_of_normal(rot(normal_spec(c), normal_spec(b)))) == rot(normal_spec(c), normal_spec(b)),
        on_face(face_of_normal(rot(normal_spec(c), normal_spec(b))), rot(normal_spec(c), p)),
        dot(normal_spec(c), rot(normal_spec(c), p)) == dot(normal_spec(c), p),
{
    lemma_rot_cases(c, normal_spec(b));
    lemma_rot_cases(c, p);
    lemma_dot_cases(b, p);
    lemma_dot_cases(c, p);
    lemma_dot_cases(c, rot(normal_spec(c), p));
    let b2 = face_of_normal(rot(normal_spec(c), normal_spec(b)));
    assert(0 <= b2 < 6);
    lemma_dot_cases(b2, rot(normal_spec(c), p));
}

proof fn lemma_rot_four(c: int, v: Vec3)
    requires
        0 <= c < 6,
    ensures
        rot(normal_spec(c), rot(normal_spec(c), rot(normal_spec(c), rot(normal_spec(c), v)))) == v,
{
    let a = normal_spec(c);
    lemma_rot_cases(c, v);
    lemma_rot_cases(c, rot(a, v));
    lemma_rot_cases(c, rot(a, rot(a, v)));
    lemma_rot_cases(c, rot(a, rot(a, rot(a, v))));
}

proof fn lemma_rot_by(c: int, b: int, p: Vec3, k: int)
    requires
        0 <= c < 6,
        0 <= b < 6,
        0 <= k <= 3,
        on_face(b, p),
    ensures
        0 <= face_of_normal(rot_by(normal_spec(c), normal_spec(b), k)) < 6,
        normal_spec(face_of_normal(rot_by(normal_spec(c), normal_spec(b), k))) == rot_by(normal_spec(c), normal_spec(b), k),
        on_face(face_of_normal(rot_by(normal_spec(c), normal_spec(b), k)), rot_by(normal_spec(c), p, k)),
        dot(normal_spec(c), rot_by(normal_spec(c), p, k)) == dot(normal_spec(c), p),
{
    let a = normal_spec(c);
    lemma_face_grid(b, 0);
    if k >= 1 {
        lemma_rot_face(c, b, p);
        let b1 = face_of_normal(rot(a, normal_spec(b)));
        if k >= 2 {
            lemma_rot_face(c, b1, rot(a, p));
            let b2 = face_of_normal(rot(a, normal_spec(b1)));
            if k >= 3 {
                lemma_rot_face(c, b2, rot(a, rot(a, p)));
            }
        }
    }
}

proof fn lemma_rot_undo(c: int, v: Vec3, k: int, k2: int)
    requires
        0 <= c < 6,
        1 <= k <= 3,
        k + k2 == 4,
    ensures
        rot_by(normal_spec(c), rot_by(normal_spec(c), v, k), k2) == v,
{
    lemma_rot_four(c, v);
}

/// One of the six faces.
#[derive(Clone, Copy, PartialEq, Eq, Structural, Debug, Hash)]
pub enum Face {
    U,
    D,
    L,
    R,
    F,
    B,
}

/// How far a face turns: a clockwise quarter (seen from outside), an
/// anticlockwise quarter, or a half turn.
#[derive(Clone, Copy, PartialEq, Eq, Structural, Debug, Hash)]
pub enum Turn {
    Cw,
    Ccw,
    Double,
}

/// A face turn.
#[derive(Clone, Copy, PartialEq, Eq, Structural, Debug, Hash)]
pub struct Move {
    pub face: Face,
    pub turn: Turn,
}

/// Index of face `f` on the board (order U R F D L B).
pub open spec fn board_face(f: Face) -> int {
    match f {
        Face::U => 0,
        Face::R => 1,
        Face::F => 2,
        Face::D => 3,
        Face::L => 4,
        Face::B => 5,
    }
}

/// Clockwise quarter turns in a turn.
pub open spec fn quarters(t: Turn) -> int {
    match t {
        Turn::Cw => 1,
        Turn::Ccw => 3,
        Turn::Double => 2,
    }
}

/// The turn that undoes `t`.
pub open spec fn undo_turn(t: Turn) -> Turn {
    match t {
        Turn::Cw => Turn::Ccw,
        Turn::Ccw => Turn::Cw,
        Turn::Double => Turn::Double,
    }
}

/// The move that undoes `m`.
pub open spec fn undo(m: Move) -> Move {
    Move { face: m.face, turn: undo_turn(m.turn) }
}

/// The axis of a move: its face's outward normal.
pub open spec fn axis_spec(m: Move) -> Vec3 {
    normal_spec(board_face(m.face))
}

/// Where move `m` carries the sticker at board index `g`.
#[verifier::opaque]
pub open spec fn dest(m: Move, g: int) -> int {
    let b = g / 9;
    let p = pos_spec(b, g % 9);
    let a = axis_spec(m);
    let k = quarters(m.turn);
    if dot(a, p) == 1 {
        let b2 = face_of_normal(rot_by(a, normal_spec(b), k));
        b2 * 9 + index_spec(b2, rot_by(a, p, k))
    } else {
        g
    }
}

/// A move sends every sticker to a sticker, and the undoing move sends it back.
#[verifier::spinoff_prover]
#[verifier::rlimit(50)]
pub proof fn lemma_dest_undo(m: Move, g: int)
    requires
        0 <= g < 54,
    ensures
        0 <= dest(m, g) < 54,
        dest(undo(m), dest(m, g)) == g,
{
    reveal(dest);
    let b = g / 9;
    let i = g % 9;
    let p = pos_spec(b, i);
    let c = board_face(m.face);
    let a = normal_spec(c);
    let k = quarters(m.turn);
    let k2 = quarters(undo(m).turn);
    lemma_face_grid(b, i);
    if dot(a, p) == 1 {
        lemma_rot_by(c, b, p, k);
        let b2 = face_of_normal(rot_by(a, normal_spec(b), k));
        let p2 = rot_by(a, p, k);
        lemma_grid_face(b2, p2);
        let i2 = index_spec(b2, p2);
        let h = b2 * 9 + i2;
        assert(h / 9 == b2 && h % 9 == i2);
        lemma_rot_by(c, b2, p2, k2);
        lemma_rot_undo(c, p, k, k2);
        lemma_rot_undo(c, normal_spec(b), k, k2);
        assert(g == b * 9 + i);
    }
}

/// What [`dest`] says of one sticker.
pub(crate) proof fn lemma_dest_def(m: Move, g: int)
    ensures
        dest(m, g) == if dot(axis_spec(m), pos_spec(g / 9, g % 9)) == 1 {
            face_of_normal(rot_by(axis_spec(m), normal_spec(g / 9), quarters(m.turn))) * 9
                + index_spec(
                face_of_normal(rot_by(axis_spec(m), normal_spec(g / 9), quarters(m.turn))),
                rot_by(axis_spec(m), pos_spec(g / 9, g % 9), quarters(m.turn)),
            )
        } else {
            g
        },
{
    reveal(dest);
}

/// The half turn of a move's face.
pub open spec fn half(m: Move) -> Move {
    Move { face: m.face, turn: Turn::Double }
}

/// Two quarter turns of a face the same way make its half turn.
#[verifier::spinoff_prover]
#[verifier::rlimit(50)]
pub(crate) proof fn lemma_dest_twice(m: Move, g: int)
    requires
        0 <= g < 54,
        m.turn != Turn::Double,
    ensures
        dest(m, dest(m, g)) == dest(half(m), g),
{
    reveal(dest);
    let b = g / 9;
    let i = g % 9;
    let p = pos_spec(b, i);
    let c = board_face(m.face);
    let a = normal_spec(c);
    let k = quarters(m.turn);
    lemma_face_grid(b, i);
    if dot(a, p) == 1 {
        lemma_rot_by(c, b, p, k);
        let b2 = face_of_normal(rot_by(a, normal_spec(b), k));
        let p2 = rot_by(a, p, k);
        lemma_grid_face(b2, p2);
        let i2 = index_spec(b2, p2);
        let h = b2 * 9 + i2;
        assert(h / 9 == b2 && h % 9 == i2);
        lemma_rot_four(c, p);
        lemma_rot_four(c, normal_spec(b));
        lemma_rot_four(c, rot(a, rot(a, p)));
        lemma_rot_four(c, rot(a, rot(a, normal_spec(b))));
        assert(rot_by(a, p2, k) == rot_by(a, p, 2));
        assert(rot_by(a, normal_spec(b2), k) == rot_by(a, normal_spec(b), 2));
    }
}

/// A half turn of a face followed by its clockwise quarter turn is its anticlockwise
/// quarter turn.
#[verifier::spinoff_prover]
#[verifier::rlimit(50)]
pub(crate) proof fn lemma_dest_half_then_quarter(m: Move, g: int)
    requires
        0 <= g < 54,
        m.turn == Turn::Cw,
    ensures
        dest(m, dest(half(m), g)) == dest(undo(m), g),
{
    reveal(dest);
    let b = g / 9;
    let i = g % 9;
    let p = pos_spec(b, i);
    let c = board_face(m.face);
    let a = normal_spec(c);
    lemma_face_grid(b, i);
    if dot(a, p) == 1 {
        lemma_rot_by(c, b, p, 2);
        let b2 = face_of_normal(rot_by(a, normal_spec(b), 2));
        let p2 = rot_by(a, p, 2);
        lemma_grid_face(b2, p2);
        let i2 = index_spec(b2, p2);
        let h = b2 * 9 + i2;
        assert(h / 9 == b2 && h % 9 == i2);
        assert(rot_by(a, p2, 1) == rot_by(a, p, 3));
        assert(rot_by(a, normal_spec(b2), 1) == rot_by(a, normal_spec(b), 3));
    }
}

proof fn lemma_board_ext(x: [[StickerColor; 9]; 6], y: [[StickerColor; 9]; 6])
    requires
        forall|h: int| 0 <= h < 54 ==> #[trigger] sticker(x, h) == sticker(y, h),
    ensures
        x == y,
{
    broadcast use vstd::array::group_array_axioms;
    assert forall|f: int| 0 <= f < 6 implies #[trigger] x[f] == y[f] by {
        assert forall|i: int| 0 <= i < 9 implies #[trigger] x[f][i] == y[f][i] by {
            assert(sticker(x, f * 9 + i) == sticker(y, f * 9 + i));
        }
        assert(x[f] =~= y[f]);
    }
    assert(x =~= y);
}

/// A move followed by the move that undoes it leaves the cube as it was.
pub proof fn lemma_turn_then_undo(
    x: [[StickerColor; 9]; 6],
    y: [[StickerColor; 9]; 6],
    z: [[StickerColor; 9]; 6],
    m: Move,
)
    requires
        turned(x, y, m),
        turned(y, z, undo(m)),
    ensures
        z == x,
{
    lemma_undo_undo(m);
    assert forall|h: int| 0 <= h < 54 implies #[trigger] sticker(z, h) == sticker(x, h) by {
        lemma_dest_undo(m, h);
        assert(sticker(y, dest(m, h)) == sticker(x, dest(undo(m), dest(m, h))));
    }
    lemma_board_ext(z, x);
}

/// Two quarter turns of a face the same way are its half turn.
pub proof fn lemma_quarter_twice(
    x: [[StickerColor; 9]; 6],
    y: [[StickerColor; 9]; 6],
    z: [[StickerColor; 9]; 6],
    m: Move,
)
    requires
        m.turn != Turn::Double,
        turned(x, y, m),
        turned(y, z, m),
    ensures
        turned(x, z, half(m)),
{
    assert(undo(half(m)) == half(m));
    assert forall|h: int| 0 <= h < 54 implies #[trigger] sticker(z, h) == sticker(x, dest(undo(half(m)), h)) by {
        lemma_dest_undo(undo(m), h);
        lemma_dest_twice(undo(m), h);
        assert(half(undo(m)) == half(m));
    }
}

/// A half turn made twice, or a quarter turn made four times, leaves the cube as it
/// was.
pub proof fn lemma_move_order(
    x: [[StickerColor; 9]; 6],
    y: [[StickerColor; 9]; 6],
    z: [[StickerColor; 9]; 6],
    w: [[StickerColor; 9]; 6],
    v: [[StickerColor; 9]; 6],
    m: Move,
)
    requires
        turned(x, y, m),
        turned(y, z, m),
        m.turn != Turn::Double ==> turned(z, w, m) && turned(w, v, m),
    ensures
        m.turn == Turn::Double ==> z == x,
        m.turn != Turn::Double ==> v == x,
{
    if m.turn == Turn::Double {
        assert(undo(m) == m);
        lemma_turn_then_undo(x, y, z, m);
    } else {
        lemma_quarter_twice(x, y, z, m);
        lemma_quarter_twice(z, w, v, m);
        assert(undo(half(m)) == half(m));
        lemma_turn_then_undo(x, z, v, half(m));
    }
}

/// A vector of small machine integers.
pub type IVec3 = (i32, i32, i32);

/// The mathematical vector a machine vector stands for.
pub open spec fn v3(t: IVec3) -> Vec3 {
    (t.0 as int, t.1 as int, t.2 as int)
}

fn mul_small(x: i32, y: i32) -> (r: i32)
    requires
        -3 <= x <= 3,
        -3 <= y <= 3,
    ensures
        r == x * y,
        -9 <= r <= 9,
{
    proof {
        assert(-9 <= x * y <= 9) by (nonlinear_arith)
            requires
                -3 <= x <= 3,
                -3 <= y <= 3,
        ;
    }
    x * y
}

fn mul_unit(x: i32, y: i32) -> (r: i32)
    requires
        -1 <= x <= 1,
        -1 <= y <= 1,
    ensures
        r == x * y,
        -1 <= r <= 1,
{
    proof {
        assert(-1 <= x * y <= 1) by (nonlinear_arith)
            requires
                -1 <= x <= 1,
                -1 <= y <= 1,
        ;
    }
    x * y
}

fn dot3(a: IVec3, v: IVec3) -> (r: i32)
    requires
        in_cube(v3(a)),
        in_cube(v3(v)),
    ensures
        r == dot(v3(a), v3(v)),
        -3 <= r <= 3,
{
    mul_unit(a.0, v.0) + mul_unit(a.1, v.1) + mul_unit(a.2, v.2)
}

/// One clockwise quarter turn of `v` about the face normal `a`.
fn rot3(a: IVec3, v: IVec3, Ghost(c): Ghost<int>) -> (r: IVec3)
    requires
        0 <= c < 6,
        v3(a) == normal_spec(c),
        in_cube(v3(v)),
    ensures
        v3(r) == rot(v3(a), v3(v)),
        in_cube(v3(r)),
{
    proof {
        lemma_rot_cases(c, v3(v));
    }
    let d = dot3(a, v);
    (
        mul_small(a.0, d) - (mul_small(a.1, v.2) - mul_small(a.2, v.1)),
        mul_small(a.1, d) - (mul_small(a.2, v.0) - mul_small(a.0, v.2)),
        mul_small(a.2, d) - (mul_small(a.0, v.1) - mul_small(a.1, v.0)),
    )
}

/// Outward normal of board face `b` (order U R F D L B).
fn normal_of(b: usize) -> (r: IVec3)
    requires
        b < 6,
    ensures
        v3(r) == normal_spec(b as int),
{
    if b == 0 {
        (0, 1, 0)
    } else if b == 1 {
        (1, 0, 0)
    } else if b == 2 {
        (0, 0, 1)
    } else if b == 3 {
        (0, -1, 0)
    } else if b == 4 {
        (-1, 0, 0)
    } else {
        (0, 0, -1)
    }
}

/// The board face whose outward normal is `n`.
fn face_of(n: IVec3) -> (r: usize)
    requires
        0 <= face_of_normal(v3(n)) < 6,
    ensures
        r == face_of_normal(v3(n)),
{
    if n.0 == 0 && n.1 == 1 && n.2 == 0 {
        0
    } else if n.0 == 1 && n.1 == 0 && n.2 == 0 {
        1
    } else if n.0 == 0 && n.1 == 0 && n.2 == 1 {
        2
    } else if n.0 == 0 && n.1 == -1 && n.2 == 0 {
        3
    } else if n.0 == -1 && n.1 == 0 && n.2 == 0 {
        4
    } else {
        5
    }
}

/// Grid position of sticker `i` of board face `b`.
fn pos_of(b: usize, i: usize) -> (r: IVec3)
    requires
        b < 6,
        i < 9,
    ensures
        v3(r) == pos_spec(b as int, i as int),
{
    let r = (i / 3) as i32;
    let c = (i % 3) as i32;
    if b == 0 {
        (c - 1, 1, r - 1)
    } else if b == 1 {
        (1, 1 - r, 1 - c)
    } else if b == 2 {
        (c - 1, 1 - r, 1)
    } else if b == 3 {
        (c - 1, -1, 1 - r)
    } else if b == 4 {
        (-1, 1 - r, c - 1)
    } else {
        (1 - c, 1 - r, -1)
    }
}

/// Which sticker of board face `b` the piece at `p` carries.
fn index_on(b: usize, p: IVec3) -> (r: usize)
    requires
        b < 6,
        on_face(b as int, v3(p)),
    ensures
        r == index_spec(b as int, v3(p)),
{
    proof {
        lemma_grid_face(b as int, v3(p));
    }
    let rc: (i32, i32) = if b == 0 {
        (p.2 + 1, p.0 + 1)
    } else if b == 1 {
        (1 - p.1, 1 - p.2)
    } else if b == 2 {
        (1 - p.1, p.0 + 1)
    } else if b == 3 {
        (1 - p.2, p.0 + 1)
    } else if b == 4 {
        (1 - p.1, p.2 + 1)
    } else {
        (1 - p.1, 1 - p.0)
    };
    (rc.0 * 3 + rc.1) as usize
}

/// The sticker at board index `g` of a full board.
pub open spec fn sticker(bd: [[StickerColor; 9]; 6], g: int) -> StickerColor {
    bd[g / 9][g % 9]
}

/// `after` is `before` with move `m` made: every sticker has gone where the move
/// carries it.
pub open spec fn turned(before: [[StickerColor; 9]; 6], after: [[StickerColor; 9]; 6], m: Move) -> bool {
    forall|h: int| 0 <= h < 54 ==> #[trigger] sticker(after, h) == sticker(before, dest(undo(m), h))
}

impl Face {
    /// Outward normal: U=+y, D=-y, R=+x, L=-x, F=+z, B=-z.
    pub fn normal(self) -> (r: IVec3)
        ensures
            v3(r) == normal_spec(board_face(self)),
    {
        match self {
            Face::U => (0, 1, 0),
            Face::D => (0, -1, 0),
            Face::R => (1, 0, 0),
            Face::L => (-1, 0, 0),
            Face::F => (0, 0, 1),
            Face::B => (0, 0, -1),
        }
    }

    /// The face's colour on a solved cube.
    pub fn solved_color(self) -> (r: StickerColor)
        ensures
            r == solved_face_color(board_face(self)),
    {
        match self {
            Face::U => StickerColor::W,
            Face::D => StickerColor::Y,
            Face::F => StickerColor::G,
            Face::B => StickerColor::B,
            Face::R => StickerColor::R,
            Face::L => StickerColor::O,
        }
    }

    /// The face's letter.
    pub fn letter(self) -> (r: &'static str)
        ensures
            r@ == face_letter_text(self),
    {
        match self {
            Face::U => "U",
            Face::D => "D",
            Face::L => "L",
            Face::R => "R",
            Face::F => "F",
            Face::B => "B",
        }
    }
}

/// The letter of a face.
pub open spec fn face_letter_text(f: Face) -> Seq<char> {
    match f {
        Face::U => "U"@,
        Face::D => "D"@,
        Face::L => "L"@,
        Face::R => "R"@,
        Face::F => "F"@,
        Face::B => "B"@,
    }
}

/// The face a letter names.
pub open spec fn face_of_letter(ch: char) -> Option<Face> {
    if ch == 'U' {
        Some(Face::U)
    } else if ch == 'D' {
        Some(Face::D)
    } else if ch == 'L' {
        Some(Face::L)
    } else if ch == 'R' {
        Some(Face::R)
    } else if ch == 'F' {
        Some(Face::F)
    } else if ch == 'B' {
        Some(Face::B)
    } else {
        None
    }
}

/// The move a notation string names: a face letter, then nothing (clockwise), `'`
/// (anticlockwise) or `2` (half turn).
pub open spec fn parse_spec(s: Seq<char>) -> Option<Move> {
    if s.len() == 0 {
        None
    } else {
        match face_of_letter(s[0]) {
            None => None,
            Some(face) => if s.len() == 1 {
                Some(Move { face, turn: Turn::Cw })
            } else if s.len() == 2 && s[1] == '\'' {
                Some(Move { face, turn: Turn::Ccw })
            } else if s.len() == 2 && s[1] == '2' {
                Some(Move { face, turn: Turn::Double })
            } else {
                None
            },
        }
    }
}

/// The notation of a move: its face's letter, then `'` or `2` for the other turns.
pub open spec fn notation_spec(m: Move) -> Seq<char> {
    face_letter_text(m.face) + match m.turn {
        Turn::Cw => ""@,
        Turn::Ccw => "'"@,
        Turn::Double => "2"@,
    }
}

/// Move number `k` of the eighteen, in the order U U' U2 D D' D2 L L' L2 R R' R2
/// F F' F2 B B' B2.
pub open spec fn move_spec(k: int) -> Move {
    let face = if k / 3 == 0 {
        Face::U
    } else if k / 3 == 1 {
        Face::D
    } else if k / 3 == 2 {
        Face::L
    } else if k / 3 == 3 {
        Face::R
    } else if k / 3 == 4 {
        Face::F
    } else {
        Face::B
    };
    let turn = if k % 3 == 0 {
        Turn::Cw
    } else if k % 3 == 1 {
        Turn::Ccw
    } else {
        Turn::Double
    };
    Move { face, turn }
}

impl Move {
    /// Move number `k` of the eighteen (see [`move_spec`]).
    pub fn nth(k: usize) -> (m: Move)
        requires
            k < 18,
        ensures
            m == move_spec(k as int),
    {
        let face = if k / 3 == 0 {
            Face::U
        } else if k / 3 == 1 {
            Face::D
        } else if k / 3 == 2 {
            Face::L
        } else if k / 3 == 3 {
            Face::R
        } else if k / 3 == 4 {
            Face::F
        } else {
            Face::B
        };
        let turn = if k % 3 == 0 {
            Turn::Cw
        } else if k % 3 == 1 {
            Turn::Ccw
        } else {
            Turn::Double
        };
        Move { face, turn }
    }

    /// Parse one of the eighteen notation strings; `None` for anything else.
    pub fn parse(s: &str) -> (r: Option<Move>)
        ensures
            r == parse_spec(s@),
    {
        let n = s.unicode_len();
        if n == 0 {
            return None;
        }
        let ch = s.get_char(0);
        let face = if ch == 'U' {
            Face::U
        } else if ch == 'D' {
            Face::D
        } else if ch == 'L' {
            Face::L
        } else if ch == 'R' {
            Face::R
        } else if ch == 'F' {
            Face::F
        } else if ch == 'B' {
            Face::B
        } else {
            return None;
        };
        if n == 1 {
            return Some(Move { face, turn: Turn::Cw });
        }
        if n == 2 {
            let t = s.get_char(1);
            if t == '\'' {
                return Some(Move { face, turn: Turn::Ccw });
            }
            if t == '2' {
                return Some(Move { face, turn: Turn::Double });
            }
        }
        None
    }

    /// The notation string, e.g. `R`, `R'`, `R2`.
    pub fn notation(self) -> (r: String)
        ensures
            r@ == notation_spec(self),
    {
        let mut out = text(self.face.letter());
        match self.turn {
            Turn::Cw => {},
            Turn::Ccw => push_str(&mut out, "'"),
            Turn::Double => push_str(&mut out, "2"),
        }
        proof {
            reveal_strlit("");
            if self.turn == Turn::Cw {
                assert(out@ =~= notation_spec(self));
            }
        }
        out
    }

    /// The rotation axis: the face's outward normal.
    pub fn axis(self) -> (r: IVec3)
        ensures
            v3(r) == axis_spec(self),
    {
        self.face.normal()
    }

    /// Clockwise quarter turns (seen from outside the face): 1, 3 or 2.
    pub fn quarter_turns_cw(self) -> (r: u8)
        ensures
            r == quarters(self.turn),
    {
        match self.turn {
            Turn::Cw => 1,
            Turn::Ccw => 3,
            Turn::Double => 2,
        }
    }

    /// The move that undoes this one: same face, the other quarter direction; a half
    /// turn undoes itself.
    pub fn inverse(self) -> (r: Move)
        ensures
            r == undo(self),
    {
        let turn = match self.turn {
            Turn::Cw => Turn::Ccw,
            Turn::Ccw => Turn::Cw,
            Turn::Double => Turn::Double,
        };
        Move { face: self.face, turn }
    }
}

pub(crate) proof fn lemma_undo_undo(m: Move)
    ensures
        undo(undo(m)) == m,
{
}

/// One step of making a move writes the sticker of `g` where the move carries it.
proof fn lemma_step(
    m: Move,
    before: [[StickerColor; 9]; 6],
    prev: [[StickerColor; 9]; 6],
    out: [[StickerColor; 9]; 6],
    g: int,
    d: int,
)
    requires
        0 <= g < 54,
        d == dest(m, g),
        sticker(out, d) == sticker(before, g),
        forall|h: int| 0 <= h < 54 && h != d ==> #[trigger] sticker(out, h) == sticker(prev, h),
        forall|h: int| 0 <= h < 54 ==> #[trigger] sticker(prev, h)
            == if dest(undo(m), h) < g { sticker(before, dest(undo(m), h)) } else { sticker(before, h) },
    ensures
        forall|h: int| 0 <= h < 54 ==> #[trigger] sticker(out, h)
            == if dest(undo(m), h) < g + 1 { sticker(before, dest(undo(m), h)) } else { sticker(before, h) },
{
    lemma_undo_undo(m);
    lemma_dest_undo(m, g);
    assert forall|h: int| 0 <= h < 54 implies #[trigger] sticker(out, h)
        == if dest(undo(m), h) < g + 1 { sticker(before, dest(undo(m), h)) } else { sticker(before, h) } by {
        lemma_dest_undo(undo(m), h);
        if h != d {
            assert(dest(undo(m), h) != g);
        }
    }
}

/// Where move `m` (given by its axis `a` and quarter turns `k`) carries sticker `g`.
fn dest_exec(a: IVec3, k: u8, g: usize, Ghost(m): Ghost<Move>) -> (d: usize)
    requires
        v3(a) == axis_spec(m),
        k == quarters(m.turn),
        g < 54,
    ensures
        d == dest(m, g as int),
        d < 54,
{
    let ghost c = board_face(m.face);
    let b = g / 9;
    let i = g % 9;
    let p = pos_of(b, i);
    proof {
        lemma_face_grid(b as int, i as int);
        lemma_dest_undo(m, g as int);
        lemma_dest_def(m, g as int);
    }
    if dot3(a, p) != 1 {
        return g;
    }
    let mut pp = p;
    let mut nn = normal_of(b);
    let mut t: u8 = 0;
    while t < k
        invariant
            t <= k <= 3,
            0 <= c < 6,
            v3(a) == normal_spec(c),
            in_cube(v3(pp)),
            in_cube(v3(nn)),
            v3(pp) == rot_by(normal_spec(c), v3(p), t as int),
            v3(nn) == rot_by(normal_spec(c), normal_spec(b as int), t as int),
        decreases k - t,
    {
        pp = rot3(a, pp, Ghost(c));
        nn = rot3(a, nn, Ghost(c));
        t += 1;
    }
    proof {
        lemma_rot_by(c, b as int, v3(p), k as int);
    }
    let b2 = face_of(nn);
    let i2 = index_on(b2, pp);
    b2 * 9 + i2
}

/// The board `bd` with move `m` made.
pub open spec fn turn_spec(bd: [[StickerColor; 9]; 6], m: Move) -> [[StickerColor; 9]; 6] {
    choose|out: [[StickerColor; 9]; 6]| turned(bd, out, m)
}

/// The board `bd` with the moves made one after another.
pub open spec fn apply_all(bd: [[StickerColor; 9]; 6], moves: Seq<Move>) -> [[StickerColor; 9]; 6]
    decreases moves.len(),
{
    if moves.len() == 0 {
        bd
    } else {
        turn_spec(apply_all(bd, moves.drop_last()), moves.last())
    }
}

/// A move leaves one board only.
proof fn lemma_turned_unique(bd: [[StickerColor; 9]; 6], x: [[StickerColor; 9]; 6], m: Move)
    requires
        turned(bd, x, m),
    ensures
        x == turn_spec(bd, m),
{
    let y = turn_spec(bd, m);
    assert(turned(bd, y, m));
    assert forall|h: int| 0 <= h < 54 implies #[trigger] sticker(x, h) == sticker(y, h) by {}
    lemma_board_ext(x, y);
}

/// The board `before` with move `m` made.
fn turn_board(before: &[[StickerColor; 9]; 6], m: Move) -> (out: [[StickerColor; 9]; 6])
    ensures
        turned(*before, out, m),
{
    let a = m.axis();
    let k = m.quarter_turns_cw();
    let mut out = *before;
    proof {
        lemma_turn_start(m, *before, out);
    }
    let mut g: usize = 0;
    while g < 54
        invariant
            g <= 54,
            v3(a) == axis_spec(m),
            k == quarters(m.turn),
            forall|h: int| 0 <= h < 54 ==> #[trigger] sticker(out, h)
                == if dest(undo(m), h) < g { sticker(*before, dest(undo(m), h)) } else { sticker(*before, h) },
        decreases 54 - g,
    {
        let d = dest_exec(a, k, g, Ghost(m));
        let f2 = d / 9;
        let i2 = d % 9;
        let f = g / 9;
        let i = g % 9;
        let ghost prev = out;
        out[f2][i2] = before[f][i];
        proof {
            broadcast use vstd::array::group_array_axioms;
            assert(out =~= vstd::array::spec_array_update(prev, f2 as int, vstd::array::spec_array_update(prev[f2 as int], i2 as int, before[f as int][i as int])));
            lemma_write(prev, out, d as int, before[f as int][i as int]);
            lemma_step(m, *before, prev, out, g as int, d as int);
        }
        g += 1;
    }
    proof {
        lemma_turn_end(m, *before, out);
    }
    out
}

proof fn lemma_write(prev: [[StickerColor; 9]; 6], out: [[StickerColor; 9]; 6], d: int, x: StickerColor)
    requires
        0 <= d < 54,
        out == vstd::array::spec_array_update(prev, d / 9, vstd::array::spec_array_update(prev[d / 9], d % 9, x)),
    ensures
        sticker(out, d) == x,
        forall|h: int| 0 <= h < 54 && h != d ==> #[trigger] sticker(out, h) == sticker(prev, h),
{
    broadcast use vstd::array::group_array_axioms;
    assert forall|h: int| 0 <= h < 54 && h != d implies #[trigger] sticker(out, h) == sticker(prev, h) by {
        assert(h == 9 * (h / 9) + h % 9);
        assert(d == 9 * (d / 9) + d % 9);
    }
}

proof fn lemma_turn_start(m: Move, before: [[StickerColor; 9]; 6], out: [[StickerColor; 9]; 6])
    requires
        out == before,
    ensures
        forall|h: int| 0 <= h < 54 ==> #[trigger] sticker(out, h)
            == if dest(undo(m), h) < 0 { sticker(before, dest(undo(m), h)) } else { sticker(before, h) },
{
    assert forall|h: int| 0 <= h < 54 implies #[trigger] sticker(out, h)
        == if dest(undo(m), h) < 0 { sticker(before, dest(undo(m), h)) } else { sticker(before, h) } by {
        lemma_dest_undo(undo(m), h);
    }
}

proof fn lemma_turn_end(m: Move, before: [[StickerColor; 9]; 6], out: [[StickerColor; 9]; 6])
    requires
        forall|h: int| 0 <= h < 54 ==> #[trigger] sticker(out, h)
            == if dest(undo(m), h) < 54 { sticker(before, dest(undo(m), h)) } else { sticker(before, h) },
    ensures
        turned(before, out, m),
{
    assert forall|h: int| 0 <= h < 54 implies #[trigger] sticker(out, h) == sticker(before, dest(undo(m), h)) by {
        lemma_dest_undo(undo(m), h);
    }
}

/// Every face uniformly in its own solved colour.
pub open spec fn is_solved_board(bd: [[StickerColor; 9]; 6]) -> bool {
    forall|f: int, i: int| 0 <= f < 6 && 0 <= i < 9 ==> #[trigger] bd[f][i] == solved_face_color(f)
}

/// The solved board.
pub open spec fn solved_board() -> [[StickerColor; 9]; 6] {
    choose|bd: [[StickerColor; 9]; 6]| is_solved_board(bd)
}

/// A cube whose stickers ride along with its turns.
pub struct CubeCore {
    /// The stickers, board order (faces U R F D L B, nine per face, row-major).
    pub stickers: [[StickerColor; 9]; 6],
}

impl CubeCore {
    /// The solved cube.
    pub fn solved() -> (r: CubeCore)
        ensures
            forall|f: int, i: int| 0 <= f < 6 && 0 <= i < 9 ==> #[trigger] r.stickers[f][i] == solved_face_color(f),
            r.stickers == solved_board(),
    {
        let row_w = [StickerColor::W; 9];
        let row_r = [StickerColor::R; 9];
        let row_g = [StickerColor::G; 9];
        let row_y = [StickerColor::Y; 9];
        let row_o = [StickerColor::O; 9];
        let row_b = [StickerColor::B; 9];
        let r = CubeCore { stickers: [row_w, row_r, row_g, row_y, row_o, row_b] };
        proof {
            assert(is_solved_board(r.stickers));
            let s0 = solved_board();
            assert(is_solved_board(s0));
            assert forall|h: int| 0 <= h < 54 implies #[trigger] sticker(r.stickers, h) == sticker(s0, h) by {
                assert(r.stickers[h / 9][h % 9] == solved_face_color(h / 9));
            }
            lemma_board_ext(r.stickers, s0);
        }
        r
    }

    /// Make move `m`: the layer of `m`'s face turns, the stickers with it.
    pub fn apply(&mut self, m: Move)
        ensures
            turned(old(self).stickers, final(self).stickers, m),
            final(self).stickers == turn_spec(old(self).stickers, m),
    {
        self.stickers = turn_board(&self.stickers, m);
        proof {
            lemma_turned_unique(old(self).stickers, self.stickers, m);
        }
    }

    /// Set every sticker from a cube state.
    pub fn paint(&mut self, state: &CubeState)
        ensures
            forall|f: int, i: int| 0 <= f < 6 && 0 <= i < 9 ==> #[trigger] final(self).stickers[f][i] == state.face_spec(f)[i],
    {
        self.stickers = [state.U, state.R, state.F, state.D, state.L, state.B];
    }

    /// The stickers as a cube state.
    pub fn to_state(&self) -> (s: CubeState)
        ensures
            forall|f: int, i: int| 0 <= f < 6 && 0 <= i < 9 ==> #[trigger] s.face_spec(f)[i] == self.stickers[f][i],
    {
        CubeState {
            U: self.stickers[0],
            R: self.stickers[1],
            F: self.stickers[2],
            D: self.stickers[3],
            L: self.stickers[4],
            B: self.stickers[5],
        }
    }
}

} // verus!
