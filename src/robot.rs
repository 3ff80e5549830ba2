//! A hull-painting robot driven by an Intcode program: the program sees the
//! colour under the robot, answers with a colour to paint and a turn, and the
//! robot paints, turns and moves one panel forward.
use vstd::prelude::*;
use crate::error::{custom_error, AocErr, AocResult};
use crate::intcode::{Context, Data, FILL_UP_LEN};
use crate::machine::{initial_state, lemma_resume_one_output, padded, resume_spec, MachineState, MAX_STEPS};

verus! {

/// Panels along each side of the hull.
pub const SIDE: usize = 128;

/// Where the robot starts, on both axes.
pub const CENTER: usize = 64;

#[derive(Clone, Copy, Debug, PartialEq, Eq)]
pub enum Dir {
    North,
    South,
    West,
    East,
}

#[derive(Clone, Copy, Debug, PartialEq, Eq)]
pub enum Color {
    Black,
    White,
}

pub open spec fn color_num(c: Color) -> int {
    match c {
        Color::Black => 0,
        Color::White => 1,
    }
}

impl Color {
    /// The colour with number 0 (black) or 1 (white).
    pub fn try_from(value: u8) -> (r: AocResult<Color>)
        ensures
            value == 0 ==> r == Ok::<Color, AocErr>(Color::Black),
            value == 1 ==> r == Ok::<Color, AocErr>(Color::White),
            value > 1 ==> r matches Err(AocErr::Custom(_)),
    {
        match value {
            0 => Ok(Color::Black),
            1 => Ok(Color::White),
            _ => Err(custom_error("Invalid color")),
        }
    }

    /// The colour's number: 0 for black, 1 for white.
    pub fn to_u8(self) -> (r: u8)
        ensures
            r == color_num(self),
    {
        match self {
            Color::Black => 0,
            Color::White => 1,
        }
    }
}

pub open spec fn right_of(d: Dir) -> Dir {
    match d {
        Dir::North => Dir::East,
        Dir::East => Dir::South,
        Dir::South => Dir::West,
        Dir::West => Dir::North,
    }
}

pub open spec fn left_of(d: Dir) -> Dir {
    match d {
        Dir::South => Dir::East,
        Dir::West => Dir::South,
        Dir::North => Dir::West,
        Dir::East => Dir::North,
    }
}

/// The panel one step from `pos` in direction `d`; `y` grows southwards.
pub open spec fn step_from(pos: (int, int), d: Dir) -> (int, int) {
    match d {
        Dir::North => (pos.0, pos.1 - 1),
        Dir::East => (pos.0 + 1, pos.1),
        Dir::West => (pos.0 - 1, pos.1),
        Dir::South => (pos.0, pos.1 + 1),
    }
}

impl Dir {
    /// The direction after a quarter turn clockwise.
    pub fn next_right(&self) -> (r: Dir)
        ensures
            r == right_of(*self),
    {
        match *self {
            Dir::North => Dir::East,
            Dir::East => Dir::South,
            Dir::South => Dir::West,
            Dir::West => Dir::North,
        }
    }

    /// The direction after a quarter turn anticlockwise.
    pub fn next_left(&self) -> (r: Dir)
        ensures
            r == left_of(*self),
    {
        match *self {
            Dir::South => Dir::East,
            Dir::West => Dir::South,
            Dir::North => Dir::West,
            Dir::East => Dir::North,
        }
    }

    /// The neighbouring panel in this direction.
    pub fn next_pos(&self, pos: (usize, usize)) -> (r: (usize, usize))
        requires
            0 <= step_from((pos.0 as int, pos.1 as int), *self).0 <= usize::MAX,
            0 <= step_from((pos.0 as int, pos.1 as int), *self).1 <= usize::MAX,
        ensures
            (r.0 as int, r.1 as int) == step_from((pos.0 as int, pos.1 as int), *self),
    {
        match self {
            Dir::North => (pos.0, pos.1 - 1),
            Dir::East => (pos.0 + 1, pos.1),
            Dir::West => (pos.0 - 1, pos.1),
            Dir::South => (pos.0, pos.1 + 1),
        }
    }
}

/// How a run of the robot ends.
pub enum RobotEnd {
    /// The program halted; the hull as painted.
    Done(Seq<(Color, nat)>),
    /// The machine faulted, or the run went on too long.
    Failed(AocErr),
    /// The program asked for a colour or turn that does not exist, or drove
    /// the robot off the hull.
    BadMove,
}

pub open spec fn on_hull(p: (int, int)) -> bool {
    0 <= p.0 < SIDE && 0 <= p.1 < SIDE
}

pub open spec fn panel(p: (int, int)) -> int {
    p.1 * SIDE + p.0
}

/// The robot's run from machine state `s`, with the hull's panels (row by
/// row: colour and times painted), its position and heading; at most `fuel`
/// more rounds.
pub open spec fn robot_spec(s: MachineState, hull: Seq<(Color, nat)>, pos: (int, int), dir: Dir, fuel: nat) -> RobotEnd
    decreases fuel,
{
    if fuel == 0 {
        RobotEnd::Failed(AocErr::ExceededMaxSteps)
    } else {
        let here = hull[panel(pos)];
        let s1 = MachineState { input: s.input.push(color_num(here.0) as i64), ..s };
        let (r1, s2) = resume_spec(s1);
        let (r2, s3) = resume_spec(s2);
        if r1 is Err {
            RobotEnd::Failed(r1->Err_0)
        } else if r2 is Err {
            RobotEnd::Failed(r2->Err_0)
        } else if s3.halted {
            RobotEnd::Done(hull)
        } else {
            let turn = s3.output.last();
            let color = s3.output[s3.output.len() - 2];
            if !(color == 0 || color == 1) || !(turn == 0 || turn == 1) {
                RobotEnd::BadMove
            } else {
                let painted = (if color == 0 { Color::Black } else { Color::White }, here.1 + 1);
                let d2 = if turn == 0 { left_of(dir) } else { right_of(dir) };
                let p2 = step_from(pos, d2);
                if !on_hull(p2) {
                    RobotEnd::BadMove
                } else {
                    robot_spec(s3, hull.update(panel(pos), painted), p2, d2, (fuel - 1) as nat)
                }
            }
        }
    }
}

pub open spec fn hull_view(v: Seq<(Color, usize)>) -> Seq<(Color, nat)> {
    v.map_values(|p: (Color, usize)| (p.0, p.1 as nat))
}

/// The robot's run from the start: the program's memory padded to
/// `FILL_UP_LEN`, every panel of colour `start` and unpainted, the robot at
/// the centre facing north; at most `MAX_STEPS` rounds.
pub open spec fn paint_spec(image: Seq<i64>, start: Color) -> RobotEnd {
    robot_spec(
        initial_state(padded(image, FILL_UP_LEN as int), Seq::empty()),
        Seq::new((SIDE * SIDE) as nat, |i: int| (start, 0nat)),
        (CENTER as int, CENTER as int),
        Dir::North,
        MAX_STEPS as nat,
    )
}

/// Runs the robot and returns the painted hull, row by row.
#[verifier::loop_isolation(false)]
pub fn paint(data: Data, start: Color) -> (r: AocResult<Vec<(Color, usize)>>)
    ensures
        match paint_spec(data.0@, start) {
            RobotEnd::Done(h) => r matches Ok(v) && hull_view(v@) == h,
            RobotEnd::Failed(e) => r == Err::<Vec<(Color, usize)>, AocErr>(e),
            RobotEnd::BadMove => r matches Err(AocErr::Custom(_)),
        },
{
    let ghost image = data.0@;
    let no_inputs: Vec<i64> = Vec::new();
    let mut ctx = Context::from_data_fill_up(data, no_inputs.as_slice());
    let mut hull: Vec<(Color, usize)> = Vec::new();
    let mut k: usize = 0;
    while k < SIDE * SIDE
        invariant
            k <= SIDE * SIDE,
            hull@.len() == k,
            forall|j: int| 0 <= j < k ==> #[trigger] hull@[j] == (start, 0usize),
        decreases SIDE * SIDE - k,
    {
        hull.push((start, 0));
        k += 1;
    }
    assert(hull_view(hull@) =~= Seq::new((SIDE * SIDE) as nat, |i: int| (start, 0nat)));
    let mut pos: (usize, usize) = (CENTER, CENTER);
    let mut dir = Dir::North;
    let mut round: usize = 0;
    while round < MAX_STEPS
        invariant
            round <= MAX_STEPS,
            hull@.len() == SIDE * SIDE,
            on_hull((pos.0 as int, pos.1 as int)),
            forall|j: int| 0 <= j < hull@.len() ==> (#[trigger] hull@[j]).1 <= round,
            robot_spec(ctx@, hull_view(hull@), (pos.0 as int, pos.1 as int), dir, (MAX_STEPS - round) as nat)
                == paint_spec(image, start),
        decreases MAX_STEPS - round,
    {
        let ghost s = ctx@;
        let ghost hv = hull_view(hull@);
        let idx = pos.1 * SIDE + pos.0;
        let here = hull[idx];
        assert(hv[idx as int] == (here.0, here.1 as nat));
        ctx.push_input(here.0.to_u8() as i64);
        let ghost s1 = ctx@;
        let r1 = ctx.resume();
        let ghost s2 = ctx@;
        if let Err(e) = r1 {
            return Err(e);
        }
        let r2 = ctx.resume();
        let ghost s3 = ctx@;
        if let Err(e) = r2 {
            return Err(e);
        }
        if ctx.halted() {
            return Ok(hull);
        }
        proof {
            lemma_resume_one_output(s1);
            lemma_resume_one_output(s2);
        }
        let outs = ctx.outputs();
        let n = outs.len();
        let turn = outs[n - 1];
        let color = outs[n - 2];
        let new_color = if color == 0 {
            Color::Black
        } else if color == 1 {
            Color::White
        } else {
            return Err(custom_error("Invalid color"));
        };
        let new_dir = if turn == 0 {
            dir.next_left()
        } else if turn == 1 {
            dir.next_right()
        } else {
            return Err(custom_error("Invalid turn"));
        };
        let off_hull = match new_dir {
            Dir::North => pos.1 == 0,
            Dir::West => pos.0 == 0,
            Dir::East => pos.0 + 1 == SIDE,
            Dir::South => pos.1 + 1 == SIDE,
        };
        if off_hull {
            return Err(custom_error("Robot left the hull"));
        }
        hull.set(idx, (new_color, here.1 + 1));
        proof {
            assert(hull_view(hull@) =~= hv.update(idx as int, (new_color, (here.1 + 1) as nat)));
        }
        pos = new_dir.next_pos(pos);
        dir = new_dir;
        round += 1;
    }
    Err(AocErr::ExceededMaxSteps)
}

/// How many panels were painted at least once.
pub open spec fn painted_count(h: Seq<(Color, nat)>) -> nat
    decreases h.len(),
{
    if h.len() == 0 {
        0
    } else {
        painted_count(h.drop_last()) + if h.last().1 > 0 { 1nat } else { 0nat }
    }
}

/// Runs the robot and counts the panels it painted at least once.
pub fn run(data: Data, start: Color) -> (r: AocResult<usize>)
    ensures
        match paint_spec(data.0@, start) {
            RobotEnd::Done(h) => r == Ok::<usize, AocErr>(painted_count(h) as usize),
            RobotEnd::Failed(e) => r == Err::<usize, AocErr>(e),
            RobotEnd::BadMove => r matches Err(AocErr::Custom(_)),
        },
{
    let hull = paint(data, start)?;
    let ghost hv = hull_view(hull@);
    let mut count: usize = 0;
    let mut i: usize = 0;
    while i < hull.len()
        invariant
            i <= hull@.len(),
            hv == hull_view(hull@),
            count == painted_count(hv.subrange(0, i as int)),
            count <= i,
        decreases hull.len() - i,
    {
        assert(hv.subrange(0, i + 1).drop_last() =~= hv.subrange(0, i as int));
        if hull[i].1 > 0 {
            count += 1;
        }
        i += 1;
    }
    assert(hv.subrange(0, hull@.len() as int) =~= hv);
    Ok(count)
}

} // verus!
