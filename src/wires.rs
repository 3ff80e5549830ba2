//! Two wires laid out from a common origin on a grid: where they cross, the
//! crossing nearest the origin, and the crossing the wires reach soonest.
use vstd::prelude::*;
use std::collections::HashMap;
use crate::error::{custom_error, AocErr, AocResult};
use crate::parse::{
    chars_of, lemma_split_nonempty, lemma_split_prefix, lines_of, lines_spec, parse_u64, parse_u64_spec,
    split_on,
};

verus! {

broadcast use vstd::std_specs::hash::group_hash_axioms;

/// One straight run of a wire: a direction and a number of unit steps.
#[derive(Debug, Clone, Copy)]
pub enum Dir {
    Up(usize),
    Down(usize),
    Right(usize),
    Left(usize),
}

/// A wire as its runs, in order.
pub struct Wire(pub Vec<Dir>);

/// A grid point; `y` grows downwards.
#[derive(Debug, Clone, Copy, PartialEq, Eq, Hash)]
pub struct Point2(pub isize, pub isize);

pub open spec fn run_len(d: Dir) -> nat {
    match d {
        Dir::Up(n) => n as nat,
        Dir::Down(n) => n as nat,
        Dir::Right(n) => n as nat,
        Dir::Left(n) => n as nat,
    }
}

pub open spec fn delta(d: Dir) -> (int, int) {
    match d {
        Dir::Down(_) => (0, 1),
        Dir::Up(_) => (0, -1),
        Dir::Left(_) => (-1, 0),
        Dir::Right(_) => (1, 0),
    }
}

/// The number of unit steps of a wire.
pub open spec fn total_len(ds: Seq<Dir>) -> nat
    decreases ds.len(),
{
    if ds.len() == 0 {
        0
    } else {
        total_len(ds.drop_last()) + run_len(ds.last())
    }
}

/// Where a walk ends (the origin for an empty one).
pub open spec fn end_of(w: Seq<(int, int)>) -> (int, int) {
    if w.len() == 0 {
        (0, 0)
    } else {
        w.last()
    }
}

/// The `n` points that a run from `s` passes through, in order.
pub open spec fn run_points(s: (int, int), d: Dir, n: nat) -> Seq<(int, int)> {
    Seq::new(n, |k: int| (s.0 + (k + 1) * delta(d).0, s.1 + (k + 1) * delta(d).1))
}

/// Every point a wire passes through after leaving the origin, step by step.
pub open spec fn walk(ds: Seq<Dir>) -> Seq<(int, int)>
    decreases ds.len(),
{
    if ds.len() == 0 {
        Seq::empty()
    } else {
        let w = walk(ds.drop_last());
        w + run_points(end_of(w), ds.last(), run_len(ds.last()))
    }
}

pub open spec fn pt(p: Point2) -> (int, int) {
    (p.0 as int, p.1 as int)
}

pub open spec fn pts(v: Seq<Point2>) -> Seq<(int, int)> {
    v.map_values(|p: Point2| pt(p))
}

pub open spec fn manhattan(q: (int, int)) -> int {
    (if q.0 < 0 { -q.0 } else { q.0 }) + (if q.1 < 0 { -q.1 } else { q.1 })
}

proof fn lemma_walk(ds: Seq<Dir>)
    ensures
        walk(ds).len() == total_len(ds),
        forall|j: int| 0 <= j < walk(ds).len() ==> manhattan(#[trigger] walk(ds)[j]) <= total_len(ds),
        manhattan(end_of(walk(ds))) <= total_len(ds),
    decreases ds.len(),
{
    if ds.len() > 0 {
        let init = ds.drop_last();
        lemma_walk(init);
        let w = walk(init);
        let d = ds.last();
        let s = end_of(w);
        let seg = run_points(s, d, run_len(d));
        assert forall|k: int| 0 <= k < seg.len() implies manhattan(#[trigger] seg[k]) <= manhattan(s) + k + 1 by {
            let dx = delta(d).0;
            let dy = delta(d).1;
            assert((k + 1) * dx == if dx == 1 { k + 1 } else if dx == -1 { -(k + 1) } else { 0 }) by (nonlinear_arith)
                requires
                    dx == 1 || dx == -1 || dx == 0,
            ;
            assert((k + 1) * dy == if dy == 1 { k + 1 } else if dy == -1 { -(k + 1) } else { 0 }) by (nonlinear_arith)
                requires
                    dy == 1 || dy == -1 || dy == 0,
            ;
        }
        assert forall|j: int| 0 <= j < walk(ds).len() implies manhattan(#[trigger] walk(ds)[j]) <= total_len(ds) by {
            if j >= w.len() {
                assert(walk(ds)[j] == seg[j - w.len()]);
            }
        }
        if run_len(d) > 0 {
            assert(end_of(walk(ds)) == seg[run_len(d) - 1]);
        }
    }
}

/// The points a wire passes through after leaving the origin, in order.
fn wire_path(wire: &Wire) -> (r: Vec<Point2>)
    requires
        total_len(wire.0@) <= isize::MAX,
    ensures
        pts(r@) == walk(wire.0@),
{
    let ghost ds = wire.0@;
    let mut path: Vec<Point2> = Vec::new();
    let mut p = Point2(0, 0);
    let mut i: usize = 0;
    proof {
        lemma_walk(ds);
    }
    while i < wire.0.len()
        invariant
            i <= ds.len(),
            ds == wire.0@,
            total_len(ds) <= isize::MAX,
            pts(path@) == walk(ds.subrange(0, i as int)),
            pt(p) == end_of(walk(ds.subrange(0, i as int))),
            total_len(ds.subrange(0, i as int)) <= total_len(ds),
        decreases ds.len() - i,
    {
        let ghost pre = ds.subrange(0, i as int);
        let ghost ext = ds.subrange(0, i + 1);
        assert(ext.drop_last() =~= pre);
        proof {
            lemma_walk(pre);
            lemma_total_len_prefix(ds, i + 1);
        }
        let ghost w = walk(pre);
        let ghost s = pt(p);
        let (dx, dy, steps): (isize, isize, usize) = match wire.0[i] {
            Dir::Down(n) => (0, 1, n),
            Dir::Up(n) => (0, -1, n),
            Dir::Left(n) => (-1, 0, n),
            Dir::Right(n) => (1, 0, n),
        };
        let mut k: usize = 0;
        while k < steps
            invariant
                k <= steps,
                steps == run_len(ds[i as int]),
                (dx as int, dy as int) == delta(ds[i as int]),
                manhattan(s) <= total_len(pre),
                total_len(pre) + steps <= total_len(ds),
                total_len(ds) <= isize::MAX,
                pt(p) == (s.0 + k * dx, s.1 + k * dy),
                pts(path@) == w + run_points(s, ds[i as int], k as nat),
            decreases steps - k,
        {
            assert(pt(p) == (s.0 + k * dx, s.1 + k * dy));
            assert((k + 1) * dx == k * dx + dx && (k + 1) * dy == k * dy + dy) by (nonlinear_arith);
            proof {
                let kk = k as int;
                assert((kk + 1) * dx == if dx == 1 { kk + 1 } else if dx == -1 { -(kk + 1) } else { 0 }) by (nonlinear_arith)
                    requires
                        dx == 1 || dx == -1 || dx == 0,
                ;
                assert((kk + 1) * dy == if dy == 1 { kk + 1 } else if dy == -1 { -(kk + 1) } else { 0 }) by (nonlinear_arith)
                    requires
                        dy == 1 || dy == -1 || dy == 0,
                ;
                assert(dx == 0 || dy == 0);
                assert(manhattan((s.0 + (kk + 1) * dx, s.1 + (kk + 1) * dy)) <= manhattan(s) + kk + 1);
            }
            p = p.add(dx, dy);
            proof {
                lemma_pts_push(path@, p);
            }
            path.push(p);
            k += 1;
            assert(pts(path@) =~= w + run_points(s, ds[i as int], k as nat));
        }
        i += 1;
        proof {
            assert(walk(ext) == w + run_points(s, ds[i - 1], run_len(ds[i - 1])));
            if steps > 0 {
                assert(end_of(walk(ext)) == run_points(s, ds[i - 1], steps as nat)[steps - 1]);
            } else {
                assert(walk(ext) =~= w);
            }
        }
    }
    assert(ds.subrange(0, ds.len() as int) =~= ds);
    path
}

proof fn lemma_pts_push(v: Seq<Point2>, p: Point2)
    ensures
        pts(v.push(p)) == pts(v).push(pt(p)),
{
    assert(pts(v.push(p)) =~= pts(v).push(pt(p)));
}

proof fn lemma_total_len_prefix(ds: Seq<Dir>, i: int)
    requires
        0 <= i <= ds.len(),
    ensures
        total_len(ds.subrange(0, i)) <= total_len(ds),
    decreases ds.len(),
{
    if i == ds.len() {
        assert(ds.subrange(0, i) =~= ds);
    } else {
        let init = ds.drop_last();
        assert(init.subrange(0, i) =~= ds.subrange(0, i));
        lemma_total_len_prefix(init, i);
    }
}

/// Both wires, as read from the puzzle input.
pub struct Data {
    pub wire1: Wire,
    pub wire2: Wire,
}

/// A point as one integer: `x * 2^64 + y`.
pub open spec fn key_int(q: (int, int)) -> int {
    q.0 * 0x1_0000_0000_0000_0000 + q.1
}

/// A point as a map key (exact for points in range).
pub open spec fn key_spec(q: (int, int)) -> i128 {
    key_int(q) as i128
}

proof fn lemma_key_fits(q: (int, int))
    requires
        in_range(q),
    ensures
        i128::MIN <= key_int(q) <= i128::MAX,
        key_spec(q) as int == key_int(q),
{
    assert(isize::MAX < 0x8000_0000_0000_0000int);
    let x = q.0;
    assert(-0x8000_0000_0000_0000 < x < 0x8000_0000_0000_0000);
    assert(-0x8000_0000_0000_0000_0000_0000_0000_0000 + 0x1_0000_0000_0000_0000 <= x * 0x1_0000_0000_0000_0000
        <= 0x7fff_ffff_ffff_ffff_0000_0000_0000_0000) by (nonlinear_arith)
        requires
            -0x8000_0000_0000_0000 < x < 0x8000_0000_0000_0000,
    ;
}

pub open spec fn in_range(q: (int, int)) -> bool {
    manhattan(q) <= isize::MAX
}

proof fn lemma_key_injective(p: (int, int), q: (int, int))
    requires
        in_range(p),
        in_range(q),
        key_spec(p) == key_spec(q),
    ensures
        p == q,
{
    lemma_key_fits(p);
    lemma_key_fits(q);
    let b = 0x1_0000_0000_0000_0000int;
    assert(isize::MAX < 0x8000_0000_0000_0000int);
    assert(-b < q.1 - p.1 < b);
    assert((p.0 - q.0) * b == q.1 - p.1) by (nonlinear_arith)
        requires
            p.0 * b + p.1 == q.0 * b + q.1,
            b == 0x1_0000_0000_0000_0000int,
    ;
    assert(p.0 == q.0) by (nonlinear_arith)
        requires
            (p.0 - q.0) * b == q.1 - p.1,
            -b < q.1 - p.1 < b,
            b > 0,
    ;
}

fn key_of(p: Point2) -> (r: i128)
    requires
        in_range(pt(p)),
    ensures
        r == key_spec(pt(p)),
{
    proof {
        lemma_key_fits(pt(p));
    }
    let x = p.0 as i128;
    x * 0x1_0000_0000_0000_0000 + p.1 as i128
}

/// Index `j` is where the point `s[j]` first occurs in `s`.
pub open spec fn is_first(s: Seq<(int, int)>, j: int) -> bool {
    forall|k: int| 0 <= k < j ==> #[trigger] s[k] != s[j]
}

/// For each point of the path, one more than the index of its first occurrence.
fn first_steps(path: &Vec<Point2>) -> (r: HashMap<i128, usize>)
    requires
        forall|j: int| 0 <= j < path@.len() ==> in_range(#[trigger] pts(path@)[j]),
    ensures
        forall|j: int| 0 <= j < path@.len() ==> #[trigger] r@.contains_key(key_spec(pts(path@)[j])),
        forall|j: int| 0 <= j < path@.len() ==> ({
            let v = #[trigger] r@[key_spec(pts(path@)[j])] as int;
            1 <= v <= j + 1 && pts(path@)[v - 1] == pts(path@)[j] && is_first(pts(path@), v - 1)
        }),
        forall|k: i128| #[trigger] r@.contains_key(k) ==> exists|j: int| 0 <= j < path@.len() && key_spec(#[trigger] pts(path@)[j]) == k,
{
    let ghost ps = pts(path@);
    let mut m: HashMap<i128, usize> = HashMap::new();
    let mut i: usize = 0;
    while i < path.len()
        invariant
            i <= path@.len(),
            ps == pts(path@),
            forall|j: int| 0 <= j < path@.len() ==> in_range(#[trigger] ps[j]),
            forall|j: int| 0 <= j < i ==> #[trigger] m@.contains_key(key_spec(ps[j])),
            forall|j: int| 0 <= j < i ==> ({
                let v = #[trigger] m@[key_spec(ps[j])] as int;
                1 <= v <= j + 1 && ps[v - 1] == ps[j] && is_first(ps, v - 1)
            }),
            forall|k: i128| #[trigger] m@.contains_key(k) ==> exists|j: int| 0 <= j < i && key_spec(#[trigger] ps[j]) == k,
        decreases path.len() - i,
    {
        assert(ps[i as int] == pt(path@[i as int]));
        let k = key_of(path[i]);
        if !m.contains_key(&k) {
            proof {
                assert(is_first(ps, i as int)) by {
                    assert forall|j: int| 0 <= j < i implies #[trigger] ps[j] != ps[i as int] by {
                        if ps[j] == ps[i as int] {
                            assert(m@.contains_key(key_spec(ps[j])));
                        }
                    }
                }
            }
            m.insert(k, i + 1);
            proof {
                assert forall|j: int| 0 <= j <= i implies ({
                    let v = #[trigger] m@[key_spec(ps[j])] as int;
                    1 <= v <= j + 1 && ps[v - 1] == ps[j] && is_first(ps, v - 1)
                }) by {
                    if j < i && key_spec(ps[j]) == k {
                        lemma_key_injective(ps[j], ps[i as int]);
                        assert(m@.contains_key(key_spec(ps[j])));
                    }
                }
                assert forall|kk: i128| #[trigger] m@.contains_key(kk) implies exists|j: int| 0 <= j < i + 1 && key_spec(#[trigger] ps[j]) == kk by {
                    if kk == k {
                        assert(key_spec(ps[i as int]) == kk);
                    }
                }
            }
        } else {
            proof {
                let j0 = choose|j: int| 0 <= j < i && key_spec(#[trigger] ps[j]) == k;
                lemma_key_injective(ps[j0], ps[i as int]);
            }
        }
        i += 1;
    }
    m
}

impl Point2 {
    /// The Manhattan distance between two points.
    pub fn dist(&self, other: &Point2) -> (r: usize)
        requires
            manhattan((self.0 - other.0, self.1 - other.1)) <= isize::MAX,
        ensures
            r == manhattan((self.0 - other.0, self.1 - other.1)),
    {
        let dx = self.0 as i128 - other.0 as i128;
        let dy = self.1 as i128 - other.1 as i128;
        let ax = if dx < 0 { -dx } else { dx };
        let ay = if dy < 0 { -dy } else { dy };
        (ax + ay) as usize
    }

    /// The point moved by `x` and `y`.
    pub fn add(&self, x: isize, y: isize) -> (r: Point2)
        requires
            isize::MIN <= self.0 + x <= isize::MAX,
            isize::MIN <= self.1 + y <= isize::MAX,
        ensures
            pt(r) == (self.0 + x, self.1 + y),
    {
        Point2(self.0 + x, self.1 + y)
    }
}

/// The two wires, each as the points it passes through.
pub struct Circuit {
    path1: Vec<Point2>,
    path2: Vec<Point2>,
}

/// The wires cross at step `i` of the first and step `j` of the second.
pub open spec fn crossing(w1: Seq<(int, int)>, w2: Seq<(int, int)>, i: int, j: int) -> bool {
    0 <= i < w1.len() && 0 <= j < w2.len() && w1[i] == w2[j]
}

impl Circuit {
    /// The points of the first wire, in order.
    pub closed spec fn walk1(&self) -> Seq<(int, int)> {
        pts(self.path1@)
    }

    /// The points of the second wire, in order.
    pub closed spec fn walk2(&self) -> Seq<(int, int)> {
        pts(self.path2@)
    }

    pub closed spec fn wf(&self) -> bool {
        &&& self.path1@.len() + self.path2@.len() <= isize::MAX
        &&& forall|j: int| 0 <= j < self.path1@.len() ==> in_range(#[trigger] pts(self.path1@)[j])
        &&& forall|j: int| 0 <= j < self.path2@.len() ==> in_range(#[trigger] pts(self.path2@)[j])
    }

    /// Lays both wires out from the origin.
    pub fn from_data(data: &Data) -> (r: Circuit)
        requires
            total_len(data.wire1.0@) + total_len(data.wire2.0@) <= isize::MAX,
        ensures
            r.wf(),
            r.walk1() == walk(data.wire1.0@),
            r.walk2() == walk(data.wire2.0@),
    {
        proof {
            lemma_walk(data.wire1.0@);
            lemma_walk(data.wire2.0@);
        }
        let path1 = wire_path(&data.wire1);
        let path2 = wire_path(&data.wire2);
        Circuit { path1, path2 }
    }

    /// Where both wires start.
    pub fn center(&self) -> (r: Point2)
        ensures
            pt(r) == (0int, 0int),
    {
        Point2(0, 0)
    }

    /// The Manhattan distance from the origin of the crossing nearest to it.
    pub fn shortest_dist_intersection(&self) -> (r: usize)
        requires
            self.wf(),
            exists|i: int, j: int| crossing(self.walk1(), self.walk2(), i, j),
        ensures
            exists|i: int, j: int| crossing(self.walk1(), self.walk2(), i, j) && r == manhattan(self.walk1()[i]),
            forall|i: int, j: int| crossing(self.walk1(), self.walk2(), i, j) ==> r <= manhattan(self.walk1()[i]),
    {
        let ghost w1 = self.walk1();
        let ghost w2 = self.walk2();
        let m2 = first_steps(&self.path2);
        let center = self.center();
        let mut best: Option<usize> = None;
        let mut i: usize = 0;
        while i < self.path1.len()
            invariant
                i <= self.path1@.len(),
                self.wf(),
                w1 == self.walk1(),
                w2 == self.walk2(),
                pt(center) == (0int, 0int),
                forall|j: int| 0 <= j < self.path2@.len() ==> #[trigger] m2@.contains_key(key_spec(w2[j])),
                forall|k: i128| #[trigger] m2@.contains_key(k) ==> exists|j: int| 0 <= j < self.path2@.len() && key_spec(#[trigger] w2[j]) == k,
                best matches Some(b) ==> exists|a: int, j: int| a < i && crossing(w1, w2, a, j) && b == manhattan(w1[a]),
                forall|a: int, j: int| a < i && crossing(w1, w2, a, j) ==> (best matches Some(b) && b <= manhattan(w1[a])),
            decreases self.path1.len() - i,
        {
            let p = self.path1[i];
            assert(w1[i as int] == pt(p));
            let k = key_of(p);
            if m2.contains_key(&k) {
                let ghost j = choose|j: int| 0 <= j < self.path2@.len() && key_spec(#[trigger] w2[j]) == k;
                proof {
                    lemma_key_injective(w2[j], w1[i as int]);
                    assert(crossing(w1, w2, i as int, j));
                }
                let d = p.dist(&center);
                best = match best {
                    Some(b) => if d < b { Some(d) } else { Some(b) },
                    None => Some(d),
                };
            } else {
                proof {
                    assert forall|a: int, j: int| a < i + 1 && crossing(w1, w2, a, j) implies (best matches Some(b) && b <= manhattan(w1[a])) by {
                        if a == i {
                            assert(m2@.contains_key(key_spec(w2[j])));
                        }
                    }
                }
            }
            i += 1;
        }
        proof {
            let (a, j) = choose|a: int, j: int| crossing(w1, w2, a, j);
        }
        best.unwrap()
    }

    /// The fewest combined steps the wires take to reach a crossing, each
    /// counted up to the first time that wire reaches it.
    pub fn find_shortest_int_steps(&self) -> (r: usize)
        requires
            self.wf(),
            exists|i: int, j: int| crossing(self.walk1(), self.walk2(), i, j),
        ensures
            exists|i: int, j: int| crossing(self.walk1(), self.walk2(), i, j) && r == i + j + 2,
            forall|i: int, j: int| crossing(self.walk1(), self.walk2(), i, j) ==> r <= i + j + 2,
    {
        let ghost w1 = self.walk1();
        let ghost w2 = self.walk2();
        let m2 = first_steps(&self.path2);
        let mut best: Option<usize> = None;
        let mut i: usize = 0;
        while i < self.path1.len()
            invariant
                i <= self.path1@.len(),
                self.wf(),
                w1 == self.walk1(),
                w2 == self.walk2(),
                forall|j: int| 0 <= j < self.path2@.len() ==> #[trigger] m2@.contains_key(key_spec(w2[j])),
                forall|j: int| 0 <= j < self.path2@.len() ==> ({
                    let v = #[trigger] m2@[key_spec(w2[j])] as int;
                    1 <= v <= j + 1 && w2[v - 1] == w2[j] && is_first(w2, v - 1)
                }),
                forall|k: i128| #[trigger] m2@.contains_key(k) ==> exists|j: int| 0 <= j < self.path2@.len() && key_spec(#[trigger] w2[j]) == k,
                best matches Some(b) ==> exists|a: int, j: int| a < i && crossing(w1, w2, a, j) && b == a + j + 2,
                forall|a: int, j: int| a < i && crossing(w1, w2, a, j) ==> (best matches Some(b) && b <= a + j + 2),
            decreases self.path1.len() - i,
        {
            let p = self.path1[i];
            assert(w1[i as int] == pt(p));
            let k = key_of(p);
            match m2.get(&k) {
                Some(v) => {
                    let ghost j = choose|j: int| 0 <= j < self.path2@.len() && key_spec(#[trigger] w2[j]) == k;
                    proof {
                        lemma_key_injective(w2[j], w1[i as int]);
                        assert(m2@[key_spec(w2[j])] == *v);
                        assert(crossing(w1, w2, i as int, *v - 1));
                    }
                    let steps = i + 1 + *v;
                    proof {
                        assert forall|a: int, jj: int| a == i && crossing(w1, w2, a, jj) implies steps <= a + jj + 2 by {
                            assert(m2@[key_spec(w2[jj])] == *v);
                            if jj < *v - 1 {
                                assert(w2[jj] != w2[*v - 1]);
                            }
                        }
                    }
                    best = match best {
                        Some(b) => if steps < b { Some(steps) } else { Some(b) },
                        None => Some(steps),
                    };
                },
                None => {
                    proof {
                        assert forall|a: int, j: int| a < i + 1 && crossing(w1, w2, a, j) implies (best matches Some(b) && b <= a + j + 2) by {
                            if a == i {
                                assert(m2@.contains_key(key_spec(w2[j])));
                            }
                        }
                    }
                },
            }
            i += 1;
        }
        proof {
            let (a, j) = choose|a: int, j: int| crossing(w1, w2, a, j);
        }
        best.unwrap()
    }
}

/// The run that a field writes: `U`, `D`, `R` or `L`, then a step count.
pub open spec fn dir_spec(f: Seq<char>) -> Option<Dir> {
    if f.len() == 0 {
        None
    } else {
        match parse_u64_spec(f.drop_first()) {
            Some(n) => if n > usize::MAX {
                None
            } else if f[0] == 'U' {
                Some(Dir::Up(n as usize))
            } else if f[0] == 'D' {
                Some(Dir::Down(n as usize))
            } else if f[0] == 'R' {
                Some(Dir::Right(n as usize))
            } else if f[0] == 'L' {
                Some(Dir::Left(n as usize))
            } else {
                None
            },
            None => None,
        }
    }
}

/// Reads one run, such as `R75`.
pub fn parse_dir(f: &[char]) -> (r: AocResult<Dir>)
    ensures
        dir_spec(f@) matches Some(d) ==> r == Ok::<Dir, AocErr>(d),
        dir_spec(f@) is None ==> r is Err,
        f@.len() == 0 ==> r matches Err(AocErr::Custom(_)),
        f@.len() > 0 && !(parse_u64_spec(f@.drop_first()) matches Some(n) && n <= usize::MAX)
            ==> r == Err::<Dir, AocErr>(AocErr::ParseIntError),
{
    if f.len() == 0 {
        return Err(custom_error("Empty dir"));
    }
    let mut tail: Vec<char> = Vec::new();
    let mut i: usize = 1;
    while i < f.len()
        invariant
            1 <= i <= f@.len(),
            tail@ == f@.subrange(1, i as int),
        decreases f.len() - i,
    {
        tail.push(f[i]);
        i += 1;
        assert(tail@ =~= f@.subrange(1, i as int));
    }
    assert(tail@ =~= f@.drop_first());
    let num = match parse_u64(tail.as_slice()) {
        Some(n) => {
            if n > usize::MAX as u64 {
                return Err(AocErr::ParseIntError);
            }
            n as usize
        },
        None => {
            return Err(AocErr::ParseIntError);
        },
    };
    match f[0] {
        'U' => Ok(Dir::Up(num)),
        'D' => Ok(Dir::Down(num)),
        'R' => Ok(Dir::Right(num)),
        'L' => Ok(Dir::Left(num)),
        _ => Err(custom_error("Invalid dir")),
    }
}

/// Whether every comma-separated field of `t` is a run.
pub open spec fn wire_ok(t: Seq<char>) -> bool {
    forall|k: int| 0 <= k < split_on(t, ',').len() ==> (#[trigger] dir_spec(split_on(t, ',')[k])) is Some
}

/// The runs that the comma-separated fields of `t` write.
pub open spec fn wire_spec(t: Seq<char>) -> Seq<Dir> {
    Seq::new(split_on(t, ',').len(), |k: int| dir_spec(split_on(t, ',')[k])->Some_0)
}

/// Reads a wire: runs separated by commas.
pub fn parse_wire(t: &[char]) -> (r: AocResult<Wire>)
    ensures
        wire_ok(t@) ==> (r matches Ok(w) && w.0@ == wire_spec(t@)),
        !wire_ok(t@) ==> r is Err,
{
    let n = t.len();
    let ghost fs = split_on(t@, ',');
    proof {
        lemma_split_nonempty(t@, ',');
    }
    let mut out: Vec<Dir> = Vec::new();
    let mut cur: Vec<char> = Vec::new();
    let mut i: usize = 0;
    while i < n
        invariant
            i <= n,
            n == t@.len(),
            fs == split_on(t@, ','),
            fs.len() >= 1,
            ({
                let gs = split_on(t@.subrange(0, i as int), ',');
                &&& cur@ == gs.last()
                &&& out@.len() == gs.len() - 1
                &&& gs.len() <= fs.len()
            }),
            forall|k: int| 0 <= k < out@.len() ==> dir_spec(#[trigger] fs[k]) == Some(out@[k]),
        decreases n - i,
    {
        let ghost pre = t@.subrange(0, i as int);
        let ghost ext = t@.subrange(0, i + 1);
        assert(ext.drop_last() =~= pre);
        proof {
            lemma_split_nonempty(pre, ',');
            lemma_split_nonempty(ext, ',');
            lemma_split_prefix(t@, ',', i + 1);
        }
        let c = t[i];
        if c == ',' {
            let ghost k = out@.len() as int;
            assert(split_on(ext, ',')[k] == cur@);
            assert(fs[k] == cur@);
            match parse_dir(cur.as_slice()) {
                Ok(d) => {
                    out.push(d);
                },
                Err(e) => {
                    assert(dir_spec(fs[k]) is None);
                    return Err(e);
                },
            }
            cur = Vec::new();
        } else {
            cur.push(c);
        }
        i += 1;
        proof {
            let gs2 = split_on(ext, ',');
            assert(cur@ =~= gs2.last());
        }
    }
    assert(t@.subrange(0, n as int) =~= t@);
    let ghost k = out@.len() as int;
    assert(fs[k] == cur@);
    match parse_dir(cur.as_slice()) {
        Ok(d) => {
            out.push(d);
        },
        Err(e) => {
            assert(dir_spec(fs[k]) is None);
            return Err(e);
        },
    }
    assert(out@ =~= wire_spec(t@));
    Ok(Wire(out))
}

impl std::str::FromStr for Wire {
    type Err = AocErr;

    fn from_str(s: &str) -> Result<Wire, AocErr> {
        let t = chars_of(s);
        parse_wire(t.as_slice())
    }
}

/// Reads the two wires, one per line.
pub fn parse_wires(s: &str) -> (r: AocResult<Data>)
    ensures
        (forall|k: int| 0 <= k < lines_spec(s@).len() ==> #[trigger] wire_ok(lines_spec(s@)[k])) ==> (
            if lines_spec(s@).len() == 2 {
                r matches Ok(d) && d.wire1.0@ == wire_spec(lines_spec(s@)[0]) && d.wire2.0@ == wire_spec(lines_spec(s@)[1])
            } else {
                r matches Err(AocErr::Custom(_))
            }),
        !(forall|k: int| 0 <= k < lines_spec(s@).len() ==> #[trigger] wire_ok(lines_spec(s@)[k])) ==> r is Err,
{
    let lines = lines_of(s);
    let ghost ls = lines_spec(s@);
    let mut wires: Vec<Wire> = Vec::new();
    let mut k: usize = 0;
    while k < lines.len()
        invariant
            k <= lines@.len(),
            lines@.len() == ls.len(),
            ls == lines_spec(s@),
            forall|j: int| 0 <= j < lines@.len() ==> (#[trigger] lines@[j])@ == ls[j],
            wires@.len() == k,
            forall|j: int| 0 <= j < k ==> wire_ok(#[trigger] ls[j]) && wires@[j].0@ == wire_spec(ls[j]),
        decreases lines.len() - k,
    {
        assert(lines@[k as int]@ == ls[k as int]);
        let w = parse_wire(lines[k].as_slice())?;
        wires.push(w);
        k += 1;
    }
    if wires.len() != 2 {
        return Err(custom_error("Not 2 wires"));
    }
    let wire2 = wires.pop().unwrap();
    let wire1 = wires.pop().unwrap();
    Ok(Data { wire1, wire2 })
}

impl std::str::FromStr for Data {
    type Err = AocErr;

    fn from_str(s: &str) -> Result<Data, AocErr> {
        parse_wires(s)
    }
}

} // verus!
