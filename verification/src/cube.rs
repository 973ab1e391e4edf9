use crate::bits::Bit;
use vstd::arithmetic::div_mod::{lemma_fundamental_div_mod, lemma_fundamental_div_mod_converse};
use vstd::prelude::*;

verus! {

/// Where the bit at `(x, y, z)` of a cube of lane depth `w` lies in the
/// linear state: lane `(x, y)` is the `5y + x`-th run of `w` bits.
#[verifier::opaque]
pub open spec fn lane_index(w: int, x: int, y: int, z: int) -> int {
    w * (5 * y + x) + z
}

/// `(x, y, z)` names a bit of the cube of lane depth `w`.
pub open spec fn in_cube(w: int, x: int, y: int, z: int) -> bool {
    0 <= x < 5 && 0 <= y < 5 && 0 <= z < w
}

/// The `x` coordinate of the bit at linear offset `i`.
pub open spec fn cube_x(w: int, i: int) -> int {
    (i / w) % 5
}

/// The `y` coordinate of the bit at linear offset `i`.
pub open spec fn cube_y(w: int, i: int) -> int {
    (i / w) / 5
}

/// The `z` coordinate of the bit at linear offset `i`.
pub open spec fn cube_z(w: int, i: int) -> int {
    i % w
}

/// `s` is the state of a cube of lane depth `w`: `25 * w` bits, each 0 or 1.
pub open spec fn valid_state(s: Seq<Bit>, w: int) -> bool {
    &&& 0 <= w
    &&& s.len() == 25 * w
    &&& forall|i: int| 0 <= i < s.len() ==> #[trigger] s[i] <= 1
}

/// The bit of `s` at `(x, y, z)`.
pub open spec fn cube_bit(s: Seq<Bit>, w: int, x: int, y: int, z: int) -> Bit {
    s[lane_index(w, x, y, z)]
}

/// The state whose bit at every `(x, y, z)` is `f(x, y, z)`.
pub open spec fn cube_map(w: int, f: spec_fn(int, int, int) -> Bit) -> Seq<Bit> {
    Seq::new((25 * w) as nat, |i: int| f(cube_x(w, i), cube_y(w, i), cube_z(w, i)))
}

/// A coordinate of the cube has its offset inside the state, and the
/// offset gives the coordinate back.
pub proof fn lemma_lane_index(w: int, x: int, y: int, z: int)
    requires
        in_cube(w, x, y, z),
    ensures
        0 <= lane_index(w, x, y, z) < 25 * w,
        lane_index(w, x, y, z) == w * (5 * y + x) + z,
        cube_x(w, lane_index(w, x, y, z)) == x,
        cube_y(w, lane_index(w, x, y, z)) == y,
        cube_z(w, lane_index(w, x, y, z)) == z,
{
    reveal(lane_index);
    let q = 5 * y + x;
    assert(0 <= w * q && w * q + w <= 25 * w) by (nonlinear_arith)
        requires
            0 <= q <= 24,
            0 < w,
    ;
    assert(lane_index(w, x, y, z) == q * w + z) by (nonlinear_arith)
        requires
            lane_index(w, x, y, z) == w * q + z,
    ;
    lemma_fundamental_div_mod_converse(lane_index(w, x, y, z), w, q, z);
}

/// Lane `(0, 0)` is the first run of bits of the state.
pub proof fn lemma_first_lane(w: int, z: int)
    ensures
        lane_index(w, 0, 0, z) == z,
{
    reveal(lane_index);
    assert(w * (5 * 0 + 0) == 0) by (nonlinear_arith);
}

/// An offset inside the state is the offset of its own coordinate, which
/// lies in the cube.
pub proof fn lemma_cube_coordinates(w: int, i: int)
    requires
        0 <= i < 25 * w,
    ensures
        in_cube(w, cube_x(w, i), cube_y(w, i), cube_z(w, i)),
        lane_index(w, cube_x(w, i), cube_y(w, i), cube_z(w, i)) == i,
{
    reveal(lane_index);
    let q = i / w;
    lemma_fundamental_div_mod(i, w);
    assert(0 <= i % w < w);
    assert(0 <= q < 25) by (nonlinear_arith)
        requires
            0 <= i < 25 * w,
            i == w * q + i % w,
            0 <= i % w < w,
    ;
    assert(5 * (q / 5) + q % 5 == q);
}

/// Two coordinates of the cube with one offset are one coordinate.
pub proof fn lemma_lane_index_injective(
    w: int,
    x1: int,
    y1: int,
    z1: int,
    x2: int,
    y2: int,
    z2: int,
)
    requires
        in_cube(w, x1, y1, z1),
        in_cube(w, x2, y2, z2),
        lane_index(w, x1, y1, z1) == lane_index(w, x2, y2, z2),
    ensures
        x1 == x2,
        y1 == y2,
        z1 == z2,
{
    lemma_lane_index(w, x1, y1, z1);
    lemma_lane_index(w, x2, y2, z2);
}

/// The bit of `cube_map(w, f)` at a coordinate of the cube is what `f`
/// gives for it: so the result of a step is read coordinate by coordinate.
pub proof fn lemma_cube_map(w: int, f: spec_fn(int, int, int) -> Bit, x: int, y: int, z: int)
    requires
        in_cube(w, x, y, z),
    ensures
        cube_map(w, f).len() == 25 * w,
        cube_bit(cube_map(w, f), w, x, y, z) == f(x, y, z),
{
    lemma_lane_index(w, x, y, z);
}

/// A state that holds `f(x, y, z)` at every coordinate of the cube is
/// `cube_map(w, f)`.
pub proof fn lemma_cube_map_is(a: Seq<Bit>, w: int, f: spec_fn(int, int, int) -> Bit)
    requires
        0 <= w,
        a.len() == 25 * w,
        forall|x: int, y: int, z: int|
            in_cube(w, x, y, z) ==> a[#[trigger] lane_index(w, x, y, z)] == f(x, y, z),
    ensures
        a == cube_map(w, f),
{
    assert forall|i: int| 0 <= i < a.len() implies a[i] == cube_map(w, f)[i] by {
        lemma_cube_coordinates(w, i);
        let _ = lane_index(w, cube_x(w, i), cube_y(w, i), cube_z(w, i));
    }
    assert(a =~= cube_map(w, f));
}

/// `a` holds `f(x, y, z)` at every coordinate of the cube that `done`
/// names: how far a step has got with writing its result.
#[verifier::opaque]
pub open spec fn filled(
    a: Seq<Bit>,
    w: int,
    f: spec_fn(int, int, int) -> Bit,
    done: spec_fn(int, int, int) -> bool,
) -> bool {
    forall|x: int, y: int, z: int|
        in_cube(w, x, y, z) && done(x, y, z) ==> a[#[trigger] lane_index(w, x, y, z)] == f(
            x,
            y,
            z,
        )
}

/// Where nothing is done yet, any state will do.
pub proof fn lemma_filled_none(
    a: Seq<Bit>,
    w: int,
    f: spec_fn(int, int, int) -> Bit,
    done: spec_fn(int, int, int) -> bool,
)
    requires
        forall|x: int, y: int, z: int| in_cube(w, x, y, z) ==> !#[trigger] done(x, y, z),
    ensures
        filled(a, w, f, done),
{
    reveal(filled);
}

/// Writing `f(x, y, z)` at `(x, y, z)` adds that coordinate to those that
/// are done.
pub proof fn lemma_filled_step(
    before: Seq<Bit>,
    after: Seq<Bit>,
    w: int,
    f: spec_fn(int, int, int) -> Bit,
    done: spec_fn(int, int, int) -> bool,
    next: spec_fn(int, int, int) -> bool,
    x: int,
    y: int,
    z: int,
)
    requires
        before.len() == 25 * w,
        in_cube(w, x, y, z),
        filled(before, w, f, done),
        after == before.update(lane_index(w, x, y, z), f(x, y, z)),
        forall|a: int, b: int, c: int|
            in_cube(w, a, b, c) && #[trigger] next(a, b, c) ==> done(a, b, c) || (a == x && b == y
                && c == z),
    ensures
        filled(after, w, f, next),
{
    reveal(filled);
    assert forall|a: int, b: int, c: int| in_cube(w, a, b, c) && next(a, b, c) implies after[
    #[trigger] lane_index(w, a, b, c)] == f(a, b, c) by {
        lemma_lane_index(w, a, b, c);
        lemma_lane_index(w, x, y, z);
        if lane_index(w, a, b, c) == lane_index(w, x, y, z) {
            lemma_lane_index_injective(w, a, b, c, x, y, z);
        }
    }
}

/// What is filled for some coordinates is filled for fewer.
pub proof fn lemma_filled_fewer(
    a: Seq<Bit>,
    w: int,
    f: spec_fn(int, int, int) -> Bit,
    done: spec_fn(int, int, int) -> bool,
    fewer: spec_fn(int, int, int) -> bool,
)
    requires
        filled(a, w, f, done),
        forall|x: int, y: int, z: int|
            in_cube(w, x, y, z) && #[trigger] fewer(x, y, z) ==> done(x, y, z),
    ensures
        filled(a, w, f, fewer),
{
    reveal(filled);
}

/// A state that is filled for every coordinate of the cube is
/// `cube_map(w, f)`.
pub proof fn lemma_filled_all(
    a: Seq<Bit>,
    w: int,
    f: spec_fn(int, int, int) -> Bit,
    done: spec_fn(int, int, int) -> bool,
)
    requires
        0 <= w,
        a.len() == 25 * w,
        filled(a, w, f, done),
        forall|x: int, y: int, z: int| in_cube(w, x, y, z) ==> #[trigger] done(x, y, z),
    ensures
        a == cube_map(w, f),
{
    reveal(filled);
    lemma_cube_map_is(a, w, f);
}

} // verus!
