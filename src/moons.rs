//! Four moons pulling on each other, one axis at a time: each step every
//! pair of moons draws one unit of velocity towards each other per axis,
//! then every moon moves by its velocity.
use vstd::prelude::*;
use crate::helper::point2d::fits;
use num::integer::Integer;

verus! {

/// Where the four moons start.
pub struct Data(pub [(isize, isize, isize); 4]);

#[derive(Debug, Clone, Copy)]
pub struct Moon {
    pub pos: (isize, isize, isize),
    pub vel: (isize, isize, isize),
}

/// Coordinate `a` (0, 1 or 2) of a triple.
pub open spec fn coord(p: (isize, isize, isize), a: int) -> int {
    if a == 0 {
        p.0 as int
    } else if a == 1 {
        p.1 as int
    } else {
        p.2 as int
    }
}

/// A moon as three positions and three velocities.
pub struct Body {
    pub pos: Seq<int>,
    pub vel: Seq<int>,
}

pub open spec fn body_of(m: Moon) -> Body {
    Body { pos: Seq::new(3, |a: int| coord(m.pos, a)), vel: Seq::new(3, |a: int| coord(m.vel, a)) }
}

pub open spec fn bodies_of(ms: [Moon; 4]) -> Seq<Body> {
    Seq::new(4, |i: int| body_of(ms@[i]))
}

/// The moons of a starting position, at rest.
pub open spec fn start_of(d: Data) -> Seq<Body> {
    Seq::new(
        4,
        |i: int| Body { pos: Seq::new(3, |a: int| coord(d.0@[i], a)), vel: Seq::new(3, |a: int| 0) },
    )
}

/// The velocity change that a moon at `p` gets from one at `q` on one axis.
pub open spec fn gravity(p: int, q: int) -> int {
    if p < q {
        1
    } else if p > q {
        -1
    } else {
        0
    }
}

/// The pull on moon `i` along axis `a` from moons `0 .. n` other than itself.
pub open spec fn pull_upto(bs: Seq<Body>, i: int, a: int, n: int) -> int
    decreases n,
{
    if n <= 0 {
        0
    } else {
        pull_upto(bs, i, a, n - 1) + if n - 1 != i {
            gravity(bs[i].pos[a], bs[n - 1].pos[a])
        } else {
            0
        }
    }
}

/// Every velocity changed by the pull of the other moons.
pub open spec fn with_gravity(bs: Seq<Body>) -> Seq<Body> {
    Seq::new(4, |i: int| Body { pos: bs[i].pos, vel: Seq::new(3, |a: int| bs[i].vel[a] + pull_upto(bs, i, a, 4)) })
}

/// Every moon moved by its velocity.
pub open spec fn with_motion(bs: Seq<Body>) -> Seq<Body> {
    Seq::new(4, |i: int| Body { pos: Seq::new(3, |a: int| bs[i].pos[a] + bs[i].vel[a]), vel: bs[i].vel })
}

/// The moons after `k` steps.
pub open spec fn sim(bs: Seq<Body>, k: nat) -> Seq<Body>
    decreases k,
{
    if k == 0 {
        bs
    } else {
        with_motion(with_gravity(sim(bs, (k - 1) as nat)))
    }
}

pub open spec fn abs(x: int) -> int {
    if x < 0 {
        -x
    } else {
        x
    }
}

pub open spec fn abs_sum_spec(s: Seq<int>) -> int {
    abs(s[0]) + abs(s[1]) + abs(s[2])
}

/// Total energy: per moon, the sum of absolute positions times the sum of
/// absolute velocities.
pub open spec fn energy(bs: Seq<Body>) -> int {
    abs_sum_spec(bs[0].pos) * abs_sum_spec(bs[0].vel) + abs_sum_spec(bs[1].pos) * abs_sum_spec(bs[1].vel)
        + abs_sum_spec(bs[2].pos) * abs_sum_spec(bs[2].vel) + abs_sum_spec(bs[3].pos) * abs_sum_spec(
        bs[3].vel,
    )
}

/// Every coordinate is small enough that no step or energy term overflows on the way.
pub open spec fn small(bs: Seq<Body>) -> bool {
    forall|i: int, a: int|
        0 <= i < 4 && 0 <= a < 3 ==> abs(#[trigger] bs[i].pos[a]) <= isize::MAX / 4 && abs(
            bs[i].vel[a],
        ) <= isize::MAX / 4
}

proof fn lemma_pull_bound(bs: Seq<Body>, i: int, a: int, n: int)
    ensures
        abs(pull_upto(bs, i, a, n)) <= if n < 0 { 0 } else { n },
    decreases n,
{
    if n > 0 {
        lemma_pull_bound(bs, i, a, n - 1);
    }
}

fn abs_val(x: isize) -> (r: isize)
    requires
        x > isize::MIN,
    ensures
        r == abs(x as int),
{
    if x < 0 {
        -x
    } else {
        x
    }
}

fn abs_sum(p: (isize, isize, isize)) -> (r: isize)
    requires
        abs(p.0 as int) <= isize::MAX / 4,
        abs(p.1 as int) <= isize::MAX / 4,
        abs(p.2 as int) <= isize::MAX / 4,
    ensures
        r == abs(p.0 as int) + abs(p.1 as int) + abs(p.2 as int),
{
    abs_val(p.0) + abs_val(p.1) + abs_val(p.2)
}

fn add(p: (isize, isize, isize), off: (isize, isize, isize)) -> (r: (isize, isize, isize))
    requires
        fits(p.0 + off.0),
        fits(p.1 + off.1),
        fits(p.2 + off.2),
    ensures
        r.0 == p.0 + off.0,
        r.1 == p.1 + off.1,
        r.2 == p.2 + off.2,
{
    (p.0 + off.0, p.1 + off.1, p.2 + off.2)
}

fn calc_single_vel_offset(moon_pos: isize, other_pos: isize) -> (r: isize)
    ensures
        r == gravity(moon_pos as int, other_pos as int),
{
    if moon_pos == other_pos {
        0
    } else if moon_pos > other_pos {
        -1
    } else {
        1
    }
}

fn calc_vel_offset(vel: (isize, isize, isize), moon: &Moon, other: &Moon) -> (r: (isize, isize, isize))
    requires
        abs(vel.0 as int) < isize::MAX,
        abs(vel.1 as int) < isize::MAX,
        abs(vel.2 as int) < isize::MAX,
    ensures
        r.0 == vel.0 + gravity(moon.pos.0 as int, other.pos.0 as int),
        r.1 == vel.1 + gravity(moon.pos.1 as int, other.pos.1 as int),
        r.2 == vel.2 + gravity(moon.pos.2 as int, other.pos.2 as int),
{
    (
        vel.0 + calc_single_vel_offset(moon.pos.0, other.pos.0),
        vel.1 + calc_single_vel_offset(moon.pos.1, other.pos.1),
        vel.2 + calc_single_vel_offset(moon.pos.2, other.pos.2),
    )
}

/// The velocity of moon `i` after the pull of the others.
fn pulled_vel(moons: &[Moon; 4], i: usize) -> (r: (isize, isize, isize))
    requires
        i < 4,
        small(bodies_of(*moons)),
    ensures
        forall|a: int| 0 <= a < 3 ==> #[trigger] coord(r, a) == bodies_of(*moons)[i as int].vel[a] + pull_upto(bodies_of(*moons), i as int, a, 4),
{
    let ghost bs = bodies_of(*moons);
    let mut vel = moons[i].vel;
    let mut j: usize = 0;
    while j < 4
        invariant
            j <= 4,
            i < 4,
            bs == bodies_of(*moons),
            small(bs),
            forall|a: int| 0 <= a < 3 ==> #[trigger] coord(vel, a) == bs[i as int].vel[a] + pull_upto(bs, i as int, a, j as int),
        decreases 4 - j,
    {
        proof {
            assert forall|a: int| 0 <= a < 3 implies abs(#[trigger] coord(vel, a)) < isize::MAX by {
                lemma_pull_bound(bs, i as int, a, j as int);
                assert(abs(bs[i as int].vel[a]) <= isize::MAX / 4);
            }
            assert(abs(coord(vel, 0)) < isize::MAX);
            assert(abs(coord(vel, 1)) < isize::MAX);
            assert(abs(coord(vel, 2)) < isize::MAX);
        }
        if j != i {
            vel = calc_vel_offset(vel, &moons[i], &moons[j]);
        }
        j += 1;
    }
    vel
}

proof fn lemma_bodies_eq(a: Seq<Body>, b: Seq<Body>)
    requires
        a.len() == 4,
        b.len() == 4,
        forall|i: int, k: int| 0 <= i < 4 && 0 <= k < 3 ==> #[trigger] a[i].pos[k] == b[i].pos[k],
        forall|i: int, k: int| 0 <= i < 4 && 0 <= k < 3 ==> #[trigger] a[i].vel[k] == b[i].vel[k],
        forall|i: int| 0 <= i < 4 ==> #[trigger] a[i].pos.len() == 3 && a[i].vel.len() == 3 && b[i].pos.len() == 3 && b[i].vel.len() == 3,
    ensures
        a == b,
{
    assert forall|i: int| 0 <= i < 4 implies #[trigger] a[i] == b[i] by {
        assert(a[i].pos =~= b[i].pos);
        assert(a[i].vel =~= b[i].vel);
    }
    assert(a =~= b);
}

/// Applies the pull of every moon on every other to the velocities.
fn update_vel(moons: &mut [Moon; 4])
    requires
        small(bodies_of(*old(moons))),
    ensures
        bodies_of(*final(moons)) == with_gravity(bodies_of(*old(moons))),
{
    let ghost bs = bodies_of(*moons);
    let v0 = pulled_vel(moons, 0);
    let v1 = pulled_vel(moons, 1);
    let v2 = pulled_vel(moons, 2);
    let v3 = pulled_vel(moons, 3);
    *moons = [
        Moon { pos: moons[0].pos, vel: v0 },
        Moon { pos: moons[1].pos, vel: v1 },
        Moon { pos: moons[2].pos, vel: v2 },
        Moon { pos: moons[3].pos, vel: v3 },
    ];
    proof {
        let nb = bodies_of(*moons);
        let g = with_gravity(bs);
        assert forall|i: int, k: int| 0 <= i < 4 && 0 <= k < 3 implies #[trigger] nb[i].vel[k] == g[i].vel[k] by {
            if i == 0 {
                assert(coord(v0, k) == g[i].vel[k]);
            } else if i == 1 {
                assert(coord(v1, k) == g[i].vel[k]);
            } else if i == 2 {
                assert(coord(v2, k) == g[i].vel[k]);
            } else {
                assert(coord(v3, k) == g[i].vel[k]);
            }
        }
        lemma_bodies_eq(nb, g);
    }
}

/// Moves every moon by its velocity.
fn update_pos(moons: &mut [Moon; 4])
    requires
        forall|i: int, a: int| 0 <= i < 4 && 0 <= a < 3 ==> fits(#[trigger] bodies_of(*old(moons))[i].pos[a] + bodies_of(*old(moons))[i].vel[a]),
    ensures
        bodies_of(*final(moons)) == with_motion(bodies_of(*old(moons))),
{
    let ghost bs = bodies_of(*moons);
    proof {
        assert forall|i: int| 0 <= i < 4 implies fits(#[trigger] moons@[i].pos.0 + moons@[i].vel.0)
            && fits(moons@[i].pos.1 + moons@[i].vel.1) && fits(moons@[i].pos.2 + moons@[i].vel.2) by {
            assert(fits(bs[i].pos[0] + bs[i].vel[0]));
            assert(fits(bs[i].pos[1] + bs[i].vel[1]));
            assert(fits(bs[i].pos[2] + bs[i].vel[2]));
        }
        assert(fits(moons@[0].pos.0 + moons@[0].vel.0));
        assert(fits(moons@[1].pos.0 + moons@[1].vel.0));
        assert(fits(moons@[2].pos.0 + moons@[2].vel.0));
        assert(fits(moons@[3].pos.0 + moons@[3].vel.0));
    }
    *moons = [
        Moon { pos: self::add(moons[0].pos, moons[0].vel), vel: moons[0].vel },
        Moon { pos: self::add(moons[1].pos, moons[1].vel), vel: moons[1].vel },
        Moon { pos: self::add(moons[2].pos, moons[2].vel), vel: moons[2].vel },
        Moon { pos: self::add(moons[3].pos, moons[3].vel), vel: moons[3].vel },
    ];
    proof {
        let nb = bodies_of(*moons);
        let m = with_motion(bs);
        assert forall|i: int, k: int| 0 <= i < 4 && 0 <= k < 3 implies #[trigger] nb[i].pos[k] == m[i].pos[k] by {
        }
        lemma_bodies_eq(nb, m);
    }
}

/// The moons at their starting positions, at rest.
fn create_moons(data: Data) -> (r: [Moon; 4])
    ensures
        bodies_of(r) == start_of(data),
{
    let d = data.0;
    let zero: (isize, isize, isize) = (0, 0, 0);
    let r = [
        Moon { pos: d[0], vel: zero },
        Moon { pos: d[1], vel: zero },
        Moon { pos: d[2], vel: zero },
        Moon { pos: d[3], vel: zero },
    ];
    proof {
        lemma_bodies_eq(bodies_of(r), start_of(data));
    }
    r
}

/// One step: gravity, then motion.
fn step_moons(moons: &mut [Moon; 4])
    requires
        small(bodies_of(*old(moons))),
        small(with_motion(with_gravity(bodies_of(*old(moons))))),
    ensures
        bodies_of(*final(moons)) == with_motion(with_gravity(bodies_of(*old(moons)))),
{
    let ghost bs = bodies_of(*moons);
    update_vel(moons);
    proof {
        let g = with_gravity(bs);
        let next = with_motion(g);
        assert forall|i: int, a: int| 0 <= i < 4 && 0 <= a < 3 implies fits(#[trigger] g[i].pos[a] + g[i].vel[a]) by {
            assert(next[i].pos[a] == g[i].pos[a] + g[i].vel[a]);
            assert(abs(next[i].pos[a]) <= isize::MAX / 4);
        }
    }
    update_pos(moons);
}

/// The energy of one moon.
fn moon_energy(m: &Moon) -> (r: isize)
    requires
        forall|a: int| 0 <= a < 3 ==> abs(#[trigger] coord(m.pos, a)) <= isize::MAX / 4 && abs(coord(m.vel, a)) <= isize::MAX / 4,
        fits(abs_sum_spec(body_of(*m).pos) * abs_sum_spec(body_of(*m).vel)),
    ensures
        r == abs_sum_spec(body_of(*m).pos) * abs_sum_spec(body_of(*m).vel),
        r >= 0,
{
    assert(abs(coord(m.pos, 0)) <= isize::MAX / 4 && abs(coord(m.vel, 0)) <= isize::MAX / 4);
    assert(abs(coord(m.pos, 1)) <= isize::MAX / 4 && abs(coord(m.vel, 1)) <= isize::MAX / 4);
    assert(abs(coord(m.pos, 2)) <= isize::MAX / 4 && abs(coord(m.vel, 2)) <= isize::MAX / 4);
    let pot = abs_sum(m.pos);
    let kin = abs_sum(m.vel);
    assert(pot * kin >= 0) by (nonlinear_arith)
        requires
            pot >= 0,
            kin >= 0,
    ;
    pot * kin
}

/// The total energy after `steps` steps.
pub fn calc_energy(data: Data, steps: usize) -> (r: isize)
    requires
        forall|k: nat| k <= steps ==> small(#[trigger] sim(start_of(data), k)),
        fits(energy(sim(start_of(data), steps as nat))),
    ensures
        r == energy(sim(start_of(data), steps as nat)),
{
    let ghost init = start_of(data);
    let mut moons = create_moons(data);
    let mut i: usize = 0;
    while i < steps
        invariant
            i <= steps,
            bodies_of(moons) == sim(init, i as nat),
            forall|k: nat| k <= steps ==> small(#[trigger] sim(init, k)),
        decreases steps - i,
    {
        assert(small(sim(init, i as nat)));
        assert(small(sim(init, (i + 1) as nat)));
        step_moons(&mut moons);
        i += 1;
    }
    let ghost bs = bodies_of(moons);
    assert(small(bs));
    proof {
        assert forall|j: int| 0 <= j < 4 implies abs_sum_spec(#[trigger] bs[j].pos) * abs_sum_spec(bs[j].vel) >= 0 by {
            let p = abs_sum_spec(bs[j].pos);
            let v = abs_sum_spec(bs[j].vel);
            assert(p >= 0 && v >= 0);
            assert(p * v >= 0) by (nonlinear_arith)
                requires
                    p >= 0,
                    v >= 0,
            ;
        }
    }
    let mut total: isize = 0;
    let mut j: usize = 0;
    while j < 4
        invariant
            j <= 4,
            bs == bodies_of(moons),
            small(bs),
            fits(energy(bs)),
            forall|t: int| 0 <= t < 4 ==> abs_sum_spec(#[trigger] bs[t].pos) * abs_sum_spec(bs[t].vel) >= 0,
            total == partial_energy(bs, j as int),
        decreases 4 - j,
    {
        assert(body_of(moons[j as int]) == bs[j as int]);
        assert forall|a: int| 0 <= a < 3 implies abs(#[trigger] coord(moons[j as int].pos, a)) <= isize::MAX / 4 && abs(coord(moons[j as int].vel, a)) <= isize::MAX / 4 by {
            assert(bs[j as int].pos[a] == coord(moons[j as int].pos, a));
            assert(bs[j as int].vel[a] == coord(moons[j as int].vel, a));
        }
        proof {
            lemma_partial_energy(bs, j + 1);
        }
        let e = moon_energy(&moons[j]);
        total = total + e;
        j += 1;
    }
    proof {
        lemma_partial_energy(bs, 4);
        reveal_with_fuel(partial_energy, 5);
    }
    total
}

proof fn lemma_partial_energy(bs: Seq<Body>, n: int)
    requires
        0 <= n <= 4,
        forall|t: int| 0 <= t < 4 ==> abs_sum_spec(#[trigger] bs[t].pos) * abs_sum_spec(bs[t].vel) >= 0,
    ensures
        0 <= partial_energy(bs, n) <= energy(bs),
{
    reveal_with_fuel(partial_energy, 5);
    assert(abs_sum_spec(bs[0].pos) * abs_sum_spec(bs[0].vel) >= 0);
    assert(abs_sum_spec(bs[1].pos) * abs_sum_spec(bs[1].vel) >= 0);
    assert(abs_sum_spec(bs[2].pos) * abs_sum_spec(bs[2].vel) >= 0);
    assert(abs_sum_spec(bs[3].pos) * abs_sum_spec(bs[3].vel) >= 0);
}

/// The energy of moons `0 .. n`.
pub open spec fn partial_energy(bs: Seq<Body>, n: int) -> int
    decreases n,
{
    if n <= 0 {
        0
    } else {
        partial_energy(bs, n - 1) + abs_sum_spec(bs[n - 1].pos) * abs_sum_spec(bs[n - 1].vel)
    }
}

/// Along axis `a`, every moon is back at its starting coordinate and at rest.
pub open spec fn axis_repeated(bs: Seq<Body>, init: Seq<Body>, a: int) -> bool {
    forall|i: int| 0 <= i < 4 ==> #[trigger] bs[i].pos[a] == init[i].pos[a] && bs[i].vel[a] == 0
}

/// Step `n` is the first (from step 1 on) at which axis `a` is back where it started.
pub open spec fn first_repeat(init: Seq<Body>, a: int, n: int) -> bool {
    &&& n >= 1
    &&& axis_repeated(sim(init, n as nat), init, a)
    &&& forall|k: int| 1 <= k < n ==> !axis_repeated(#[trigger] sim(init, k as nat), init, a)
}

/// `m` is the least positive common multiple of `a` and `b`.
pub open spec fn is_lcm(a: int, b: int, m: int) -> bool {
    &&& m > 0
    &&& m % a == 0
    &&& m % b == 0
    &&& forall|k: int| 0 < k < m ==> !(#[trigger] (k % a) == 0 && k % b == 0)
}

/// Relies on num's `Integer::lcm` for `usize`: the least common multiple,
/// computed as `a * (b / gcd(a, b))`, which fits when `a * b` does.
#[verifier::external_body]
fn lcm_of(a: usize, b: usize) -> (r: usize)
    requires
        a > 0,
        b > 0,
        a * b <= usize::MAX,
    ensures
        is_lcm(a as int, b as int, r as int),
{
    a.lcm(&b)
}

proof fn lemma_lcm_le_product(a: int, b: int, m: int)
    requires
        a > 0,
        b > 0,
        is_lcm(a, b, m),
    ensures
        m <= a * b,
{
    let p = a * b;
    assert(p > 0) by (nonlinear_arith)
        requires
            p == a * b,
            a > 0,
            b > 0,
    ;
    assert(p % a == 0 && p % b == 0) by (nonlinear_arith)
        requires
            p == a * b,
            a > 0,
            b > 0,
    ;
    if p < m {
        assert(!((p % a) == 0 && p % b == 0));
    }
}

pub open spec fn moon_at_start(bs: Seq<Body>, init: Seq<Body>, i: int, a: int) -> bool {
    bs[i].pos[a] == init[i].pos[a] && bs[i].vel[a] == 0
}

/// Whether every moon is at its starting coordinate on `axis` and at rest there.
fn check_axis_repeat(moons: &[Moon; 4], start: [(isize, isize, isize); 4], axis: usize) -> (r: bool)
    requires
        axis < 3,
    ensures
        r == axis_repeated(bodies_of(*moons), start_of(Data(start)), axis as int),
{
    let ghost bs = bodies_of(*moons);
    let ghost init = start_of(Data(start));
    let mut i: usize = 0;
    while i < 4
        invariant
            i <= 4,
            axis < 3,
            bs == bodies_of(*moons),
            init == start_of(Data(start)),
            forall|j: int| 0 <= j < i ==> #[trigger] moon_at_start(bs, init, j, axis as int),
        decreases 4 - i,
    {
        let m = &moons[i];
        let (p, v, s) = if axis == 0 {
            (m.pos.0, m.vel.0, start[i].0)
        } else if axis == 1 {
            (m.pos.1, m.vel.1, start[i].1)
        } else {
            (m.pos.2, m.vel.2, start[i].2)
        };
        assert(p == bs[i as int].pos[axis as int] && v == bs[i as int].vel[axis as int] && s == init[i as int].pos[axis as int]);
        if !(p == s && v == 0) {
            assert(!moon_at_start(bs, init, i as int, axis as int));
            return false;
        }
        assert(moon_at_start(bs, init, i as int, axis as int));
        i += 1;
    }
    assert forall|j: int| 0 <= j < 4 implies #[trigger] bs[j].pos[axis as int] == init[j].pos[axis as int] && bs[j].vel[axis as int] == 0 by {
        assert(moon_at_start(bs, init, j, axis as int));
    }
    true
}

/// The number of steps until the moons first return to a state they were
/// in: the least common multiple of each axis's first return to its start.
pub fn find_prev(data: Data) -> (r: usize)
    requires
        exists|px: int, py: int, pz: int|
            #![trigger first_repeat(start_of(data), 0, px), first_repeat(start_of(data), 1, py), first_repeat(start_of(data), 2, pz)]
            first_repeat(start_of(data), 0, px) && first_repeat(start_of(data), 1, py) && first_repeat(start_of(data), 2, pz)
            && px * py * pz <= usize::MAX
            && forall|k: nat| k <= px + py + pz ==> small(#[trigger] sim(start_of(data), k)),
    ensures
        forall|px: int, py: int, pz: int|
            #![trigger first_repeat(start_of(data), 0, px), first_repeat(start_of(data), 1, py), first_repeat(start_of(data), 2, pz)]
            first_repeat(start_of(data), 0, px) && first_repeat(start_of(data), 1, py) && first_repeat(start_of(data), 2, pz)
            ==> exists|l: int| is_lcm(py, pz, l) && #[trigger] is_lcm(px, l, r as int),
{
    let ghost init = start_of(data);
    let ghost (px, py, pz) = choose|px: int, py: int, pz: int|
        #![trigger first_repeat(init, 0, px), first_repeat(init, 1, py), first_repeat(init, 2, pz)]
        first_repeat(init, 0, px) && first_repeat(init, 1, py) && first_repeat(init, 2, pz)
        && px * py * pz <= usize::MAX
        && forall|k: nat| k <= px + py + pz ==> small(#[trigger] sim(init, k));
    let ghost bound = px + py + pz;
    assert(px <= usize::MAX && py <= usize::MAX && pz <= usize::MAX) by (nonlinear_arith)
        requires
            px >= 1,
            py >= 1,
            pz >= 1,
            px * py * pz <= usize::MAX,
    ;
    let points = data.0;
    assert(start_of(Data(points)) == init);
    let mut moons = create_moons(data);
    let mut ix: Option<usize> = None;
    let mut iy: Option<usize> = None;
    let mut iz: Option<usize> = None;
    let mut i: usize = 0;
    loop
        invariant
            i <= bound,
            init == start_of(Data(points)),
            init == start_of(data),
            first_repeat(init, 0, px),
            first_repeat(init, 1, py),
            first_repeat(init, 2, pz),
            px * py * pz <= usize::MAX,
            px <= usize::MAX && py <= usize::MAX && pz <= usize::MAX,
            bound == px + py + pz,
            forall|k: nat| k <= bound ==> small(#[trigger] sim(init, k)),
            bodies_of(moons) == sim(init, i as nat),
            ix == (if px <= i { Some(px as usize) } else { None::<usize> }),
            iy == (if py <= i { Some(py as usize) } else { None::<usize> }),
            iz == (if pz <= i { Some(pz as usize) } else { None::<usize> }),
            !(px <= i && py <= i && pz <= i),
        decreases bound - i,
    {
        assert(small(sim(init, i as nat)));
        assert(small(sim(init, (i + 1) as nat)));
        step_moons(&mut moons);
        i += 1;
        if ix.is_none() && check_axis_repeat(&moons, points, 0) {
            ix = Some(i);
        }
        if iy.is_none() && check_axis_repeat(&moons, points, 1) {
            iy = Some(i);
        }
        if iz.is_none() && check_axis_repeat(&moons, points, 2) {
            iz = Some(i);
        }
        proof {
            if px > i {
                assert(!axis_repeated(sim(init, i as nat), init, 0));
            }
            if py > i {
                assert(!axis_repeated(sim(init, i as nat), init, 1));
            }
            if pz > i {
                assert(!axis_repeated(sim(init, i as nat), init, 2));
            }
        }
        if let (Some(x), Some(y), Some(z)) = (ix, iy, iz) {
            proof {
                assert(y * z <= x * (y * z)) by (nonlinear_arith)
                    requires
                        x >= 1,
                        y >= 1,
                        z >= 1,
                ;
                assert(x * (y * z) == px * py * pz) by (nonlinear_arith)
                    requires
                        x == px,
                        y == py,
                        z == pz,
                ;
            }
            let yz = lcm_of(y, z);
            proof {
                lemma_lcm_le_product(y as int, z as int, yz as int);
                assert(x * yz <= x * (y * z)) by (nonlinear_arith)
                    requires
                        x >= 1,
                        yz <= y * z,
                ;
            }
            let r = lcm_of(x, yz);
            proof {
                assert forall|qx: int, qy: int, qz: int|
                    #![trigger first_repeat(init, 0, qx), first_repeat(init, 1, qy), first_repeat(init, 2, qz)]
                    first_repeat(init, 0, qx) && first_repeat(init, 1, qy) && first_repeat(init, 2, qz)
                    implies exists|l: int| is_lcm(qy, qz, l) && #[trigger] is_lcm(qx, l, r as int) by {
                    lemma_first_repeat_unique(init, 0, qx, px);
                    lemma_first_repeat_unique(init, 1, qy, py);
                    lemma_first_repeat_unique(init, 2, qz, pz);
                    assert(is_lcm(qy, qz, yz as int));
                    assert(is_lcm(qx, yz as int, r as int));
                }
            }
            return r;
        }
    }
}

proof fn lemma_first_repeat_unique(init: Seq<Body>, a: int, n: int, m: int)
    requires
        first_repeat(init, a, n),
        first_repeat(init, a, m),
    ensures
        n == m,
{
    if n < m {
        assert(!axis_repeated(sim(init, n as nat), init, a));
    } else if m < n {
        assert(!axis_repeated(sim(init, m as nat), init, a));
    }
}

} // verus!
