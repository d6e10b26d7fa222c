//! Edge routing for the text diagram: a shortest-path search over the free
//! cells around the boxes, where turns, crossings and hugging a box cost
//! extra.
use vstd::prelude::*;
use vstd::multiset::Multiset;
use crate::emit::unicode::{
    Dir, Point, Port, RoutedEdge, adjacent, dir_between, direction, lemma_dir_between, spec_axis,
    spec_bit, spec_delta, step,
};
use crate::layout::{EdgeRoute, Layout, NodeBox, line_row, spec_line_row};
use crate::text::str_eq;

verus! {

/// The rectangle of cells that routes may use.
#[derive(Debug, Copy, Clone)]
pub struct Bounds {
    pub min_x: i64,
    pub min_y: i64,
    pub max_x: i64,
    pub max_y: i64,
}

/// A point as a pair of integers.
pub open spec fn pt(p: Point) -> (int, int) {
    (p.0 as int, p.1 as int)
}

/// The neighbour of `q` in direction `d`.
pub open spec fn shift(q: (int, int), d: Dir) -> (int, int) {
    (q.0 + spec_delta(d).0, q.1 + spec_delta(d).1)
}

impl Bounds {
    pub open spec fn has(self, q: (int, int)) -> bool {
        self.min_x <= q.0 <= self.max_x && self.min_y <= q.1 <= self.max_y
    }

    pub open spec fn width(self) -> int {
        self.max_x - self.min_x + 1
    }

    pub open spec fn height(self) -> int {
        self.max_y - self.min_y + 1
    }

    /// The row-major index of a cell.
    pub open spec fn cell(self, q: (int, int)) -> int {
        (q.1 - self.min_y) * self.width() + (q.0 - self.min_x)
    }

    /// A rectangle whose corners and area stay within the arithmetic that
    /// the search is proved for.
    pub open spec fn sane(self) -> bool {
        &&& -0x4_0000_0000_0000 <= self.min_x <= self.max_x <= 0x4_0000_0000_0000
        &&& -0x4_0000_0000_0000 <= self.min_y <= self.max_y <= 0x4_0000_0000_0000
        &&& 125 * (self.width() * self.height()) + self.width() + self.height() + 100 <= usize::MAX
    }

    pub fn contains(self, p: Point) -> (r: bool)
        ensures
            r == self.has(pt(p)),
    {
        p.0 >= self.min_x && p.0 <= self.max_x && p.1 >= self.min_y && p.1 <= self.max_y
    }
}

/// What a search runs over: the rectangle of the grid, which of its cells
/// a box covers, the line ends already drawn in each cell, the two ends,
/// and the rectangle that routes keep to.
pub struct Field {
    pub b: Bounds,
    pub blocked: Seq<bool>,
    pub used: Seq<u8>,
    pub start: Point,
    pub goal: Point,
    pub inner: Bounds,
}

/// A field the search is proved for: a sane rectangle, a covered flag and
/// a line-end mask per cell, and both ends inside.
pub open spec fn field_ok(f: Field) -> bool {
    &&& f.b.sane()
    &&& f.blocked.len() == f.b.width() * f.b.height()
    &&& f.used.len() == f.b.width() * f.b.height()
    &&& f.b.has(pt(f.start))
    &&& f.b.has(pt(f.goal))
}

/// A box covers this cell.
pub open spec fn blocked_in(b: Bounds, blocked: Seq<bool>, q: (int, int)) -> bool {
    b.has(q) && blocked[b.cell(q)]
}

/// The cell touches a box.
pub open spec fn near_in(b: Bounds, blocked: Seq<bool>, q: (int, int)) -> bool {
    blocked_in(b, blocked, shift(q, Dir::R)) || blocked_in(b, blocked, shift(q, Dir::D)) || blocked_in(
        b,
        blocked,
        shift(q, Dir::L),
    ) || blocked_in(b, blocked, shift(q, Dir::U))
}

/// A route may pass through this cell.
pub open spec fn open_cell(f: Field, q: (int, int)) -> bool {
    f.inner.has(q) && f.b.has(q) && !f.blocked[f.b.cell(q)]
}

/// The cell touches a box of the field.
pub open spec fn near_blocked(f: Field, q: (int, int)) -> bool {
    near_in(f.b, f.blocked, q)
}

/// The field of a search whose routes keep to `inner`.
pub open spec fn field_in(b: Bounds, blocked: Seq<bool>, used: Seq<u8>, start: Point, goal: Point, inner: Bounds) -> Field {
    Field { b, blocked, used, start, goal, inner }
}

/// The field of a search.
pub open spec fn field(b: Bounds, blocked: Seq<bool>, used: Seq<u8>, start: Point, goal: Point) -> Field {
    Field { b, blocked, used, start, goal, inner: b }
}

/// The price of stepping into `q` in direction `d`, having arrived at the
/// cell before in direction `prev`: one, four more for a turn, fifteen to
/// run along a line already drawn there, four to cross one, and one to
/// hug a box (but at either end).
pub open spec fn step_cost(f: Field, prev: Option<Dir>, q: (int, int), d: Dir) -> int {
    let m = f.used[f.b.cell(q)];
    1 + (if prev is Some && prev->0 != d {
        4int
    } else {
        0int
    }) + (if m & spec_axis(d) != 0 {
        15int
    } else {
        0int
    }) + (if m & !spec_axis(d) & 15u8 != 0 {
        4int
    } else {
        0int
    }) + (if q != pt(f.goal) && q != pt(f.start) && near_blocked(f, q) {
        1int
    } else {
        0int
    })
}

/// The taxicab distance between two cells.
pub open spec fn spec_manhattan(a: (int, int), b: (int, int)) -> int {
    (if a.0 >= b.0 {
        a.0 - b.0
    } else {
        b.0 - a.0
    }) + (if a.1 >= b.1 {
        a.1 - b.1
    } else {
        b.1 - a.1
    })
}

/// A walk from the start: each step to a neighbouring free cell.
pub open spec fn walk(f: Field, pts: Seq<Point>) -> bool {
    &&& pts.len() >= 1
    &&& pts[0] == f.start
    &&& forall|i: int|
        1 <= i < pts.len() ==> adjacent(#[trigger] pts[i - 1], pts[i]) && open_cell(f, pt(pts[i]))
}

/// The direction of a walk's last step; none for a walk that has not moved.
pub open spec fn last_dir(pts: Seq<Point>) -> Option<Dir> {
    if pts.len() <= 1 {
        None
    } else {
        Some(dir_between(pts[pts.len() - 2], pts[pts.len() - 1]))
    }
}

/// The price of a walk: the sum of its steps.
pub open spec fn walk_cost(f: Field, pts: Seq<Point>) -> int
    decreases pts.len(),
{
    if pts.len() <= 1 {
        0
    } else {
        walk_cost(f, pts.drop_last()) + step_cost(
            f,
            last_dir(pts.drop_last()),
            pt(pts.last()),
            dir_between(pts[pts.len() - 2], pts.last()),
        )
    }
}

/// A route: a walk from the start that ends at the goal.
pub open spec fn path_ok(f: Field, pts: Seq<Point>) -> bool {
    walk(f, pts) && pts.last() == f.goal
}

/// The number of a direction among the search states; none is 0.
pub open spec fn code(d: Option<Dir>) -> int {
    match d {
        None => 0,
        Some(Dir::R) => 1,
        Some(Dir::D) => 2,
        Some(Dir::L) => 3,
        Some(Dir::U) => 4,
    }
}

/// The direction numbered `c` among the search states.
pub open spec fn dir_of(c: int) -> Option<Dir> {
    if c == 1 {
        Some(Dir::R)
    } else if c == 2 {
        Some(Dir::D)
    } else if c == 3 {
        Some(Dir::L)
    } else if c == 4 {
        Some(Dir::U)
    } else {
        None
    }
}

/// The index of the search state "at `q`, arrived going `c`".
pub open spec fn enc(b: Bounds, q: (int, int), c: int) -> int {
    b.cell(q) * 5 + c
}

/// The number of search states.
pub open spec fn nstates(b: Bounds) -> int {
    b.width() * b.height() * 5
}

pub proof fn lemma_code_dir(c: int)
    requires
        0 <= c < 5,
    ensures
        code(dir_of(c)) == c,
        c == 0 <==> dir_of(c) is None,
{
}

pub proof fn lemma_cell_range(b: Bounds, q: (int, int))
    requires
        b.sane(),
        b.has(q),
    ensures
        0 <= b.cell(q) < b.width() * b.height(),
{
    let x = q.0 - b.min_x;
    let y = q.1 - b.min_y;
    let w = b.width();
    let h = b.height();
    assert(0 <= y * w + x < w * h) by (nonlinear_arith)
        requires
            0 <= x < w,
            0 <= y < h,
    ;
}

pub proof fn lemma_enc_range(b: Bounds, q: (int, int), c: int)
    requires
        b.sane(),
        b.has(q),
        0 <= c < 5,
    ensures
        0 <= enc(b, q, c) < nstates(b),
{
    lemma_cell_range(b, q);
    assert(b.cell(q) * 5 + c < b.width() * b.height() * 5) by (nonlinear_arith)
        requires
            0 <= b.cell(q) < b.width() * b.height(),
            0 <= c < 5,
    ;
}

pub proof fn lemma_cell_inj(b: Bounds, q1: (int, int), q2: (int, int))
    requires
        b.sane(),
        b.has(q1),
        b.has(q2),
        b.cell(q1) == b.cell(q2),
    ensures
        q1 == q2,
{
    let x1 = q1.0 - b.min_x;
    let y1 = q1.1 - b.min_y;
    let x2 = q2.0 - b.min_x;
    let y2 = q2.1 - b.min_y;
    let w = b.width();
    assert(y1 == y2 && x1 == x2) by (nonlinear_arith)
        requires
            0 <= x1 < w,
            0 <= x2 < w,
            0 <= y1,
            0 <= y2,
            y1 * w + x1 == y2 * w + x2,
    {
        if y1 < y2 {
            assert(y1 * w + x1 < (y1 + 1) * w);
            assert((y1 + 1) * w <= y2 * w);
        } else if y2 < y1 {
            assert(y2 * w + x2 < (y2 + 1) * w);
            assert((y2 + 1) * w <= y1 * w);
        }
    }
}

pub proof fn lemma_enc_inj(b: Bounds, q1: (int, int), c1: int, q2: (int, int), c2: int)
    requires
        b.sane(),
        b.has(q1),
        b.has(q2),
        0 <= c1 < 5,
        0 <= c2 < 5,
        enc(b, q1, c1) == enc(b, q2, c2),
    ensures
        q1 == q2,
        c1 == c2,
{
    lemma_cell_range(b, q1);
    lemma_cell_range(b, q2);
    assert(b.cell(q1) == b.cell(q2));
    lemma_cell_inj(b, q1, q2);
}

/// The taxicab distance between two cells.
pub fn manhattan(a: Point, b: Point) -> (r: usize)
    requires
        -0x4_0000_0000_0000 <= a.0 <= 0x4_0000_0000_0000,
        -0x4_0000_0000_0000 <= a.1 <= 0x4_0000_0000_0000,
        -0x4_0000_0000_0000 <= b.0 <= 0x4_0000_0000_0000,
        -0x4_0000_0000_0000 <= b.1 <= 0x4_0000_0000_0000,
        spec_manhattan(pt(a), pt(b)) <= usize::MAX,
    ensures
        r == spec_manhattan(pt(a), pt(b)),
{
    let dx: u64 = if a.0 >= b.0 {
        (a.0 - b.0) as u64
    } else {
        (b.0 - a.0) as u64
    };
    let dy: u64 = if a.1 >= b.1 {
        (a.1 - b.1) as u64
    } else {
        (b.1 - a.1) as u64
    };
    (dx + dy) as usize
}

/// A search entry: estimate, score, sequence number, cell and direction.
pub type Entry = (usize, usize, usize, Point, u8);

/// The state has a score.
pub open spec fn fin(scores: Seq<usize>, i: int) -> bool {
    scores[i] != usize::MAX
}

/// The state's neighbour in direction `d` scores no more than the way
/// through the state.
pub open spec fn relaxed(f: Field, scores: Seq<usize>, q: (int, int), c: int, d: Dir) -> bool {
    open_cell(f, shift(q, d)) ==> scores[enc(f.b, shift(q, d), code(Some(d)))] <= scores[enc(f.b, q, c)]
        + step_cost(f, dir_of(c), shift(q, d), d)
}

/// The state is relaxed in the directions numbered up to `lim`.
pub open spec fn relaxed_upto(f: Field, scores: Seq<usize>, q: (int, int), c: int, lim: int) -> bool {
    forall|d: Dir| code(Some(d)) <= lim ==> #[trigger] relaxed(f, scores, q, c, d)
}

/// The walk ends in the state "at `q`, arrived going `c`".
pub open spec fn ends_at(pts: Seq<Point>, q: (int, int), c: int) -> bool {
    pt(pts.last()) == q && code(last_dir(pts)) == c
}

/// No walk to the state costs less than its score.
pub open spec fn settled_opt(f: Field, scores: Seq<usize>, q: (int, int), c: int) -> bool {
    forall|pts: Seq<Point>|
        #![trigger walk_cost(f, pts), ends_at(pts, q, c)]
        walk(f, pts) && ends_at(pts, q, c) ==> scores[enc(f.b, q, c)] <= walk_cost(f, pts)
}

/// Some walk to the state costs exactly its score.
pub open spec fn reached(f: Field, scores: Seq<usize>, q: (int, int), c: int) -> bool {
    exists|pts: Seq<Point>|
        #![trigger walk_cost(f, pts), ends_at(pts, q, c)]
        walk(f, pts) && ends_at(pts, q, c) && walk_cost(f, pts) == scores[enc(f.b, q, c)]
}

/// The state's recorded predecessor is settled and one step back.
pub open spec fn prev_ok(
    f: Field,
    scores: Seq<usize>,
    prev: Seq<(Point, u8)>,
    closed: Set<int>,
    q: (int, int),
    c: int,
) -> bool {
    let pp = prev[enc(f.b, q, c)].0;
    let pc = prev[enc(f.b, q, c)].1 as int;
    &&& 1 <= c <= 4
    &&& open_cell(f, q)
    &&& f.b.has(pt(pp))
    &&& pc < 5
    &&& closed.contains(enc(f.b, pt(pp), pc))
    &&& q == shift(pt(pp), dir_of(c)->0)
    &&& scores[enc(f.b, q, c)] == scores[enc(f.b, pt(pp), pc)] + step_cost(f, dir_of(pc), q, dir_of(c)->0)
}

/// The entry is for the state and carries its score.
pub open spec fn entry_for(e: Entry, b: Bounds, scores: Seq<usize>, q: (int, int), c: int) -> bool {
    e.1 == scores[enc(b, q, c)] && pt(e.3) == q && e.4 == c
}

/// Some entry still waiting carries the state's score.
pub open spec fn witness(f: Field, open: Seq<Entry>, scores: Seq<usize>, q: (int, int), c: int) -> bool {
    exists|k: int| 0 <= k < open.len() && #[trigger] entry_for(open[k], f.b, scores, q, c)
}

/// A waiting entry: a state of the field, its estimate the score plus the
/// distance to the goal, its score at most `cap`.
pub open spec fn entry_ok(f: Field, e: Entry, cap: int) -> bool {
    &&& f.b.has(pt(e.3))
    &&& e.4 < 5
    &&& e.0 == e.1 + spec_manhattan(pt(e.3), pt(f.goal))
    &&& e.1 <= cap
}

/// What holds of one state during the search.
pub open spec fn state_ok(
    f: Field,
    scores: Seq<usize>,
    prev: Seq<(Point, u8)>,
    open: Seq<Entry>,
    closed: Set<int>,
    ex: int,
    lim: int,
    q: (int, int),
    c: int,
) -> bool {
    let i = enc(f.b, q, c);
    &&& fin(scores, i) ==> {
        &&& scores[i] <= 25 * closed.len()
        &&& reached(f, scores, q, c)
        &&& !(q == pt(f.start) && c == 0) ==> prev_ok(f, scores, prev, closed, q, c)
        &&& !closed.contains(i) ==> witness(f, open, scores, q, c)
    }
    &&& closed.contains(i) ==> {
        &&& fin(scores, i)
        &&& q != pt(f.goal)
        &&& settled_opt(f, scores, q, c)
        &&& relaxed_upto(f, scores, q, c, if i == ex { lim } else { 4 })
        &&& scores[i] + 25 <= 25 * closed.len()
    }
}

/// What holds throughout the search.
pub open spec fn search_inv(
    f: Field,
    scores: Seq<usize>,
    prev: Seq<(Point, u8)>,
    open: Seq<Entry>,
    closed: Set<int>,
    seqn: int,
    ex: int,
    lim: int,
) -> bool {
    &&& field_ok(f)
    &&& scores.len() == nstates(f.b)
    &&& prev.len() == nstates(f.b)
    &&& closed.finite()
    &&& forall|i: int| #[trigger] closed.contains(i) ==> 0 <= i < nstates(f.b)
    &&& closed.len() <= nstates(f.b)
    &&& scores[enc(f.b, pt(f.start), 0)] == 0
    &&& 0 <= seqn <= 4 * closed.len()
    &&& forall|k: int| 0 <= k < open.len() ==> entry_ok(f, #[trigger] open[k], 25 * closed.len() as int)
    &&& forall|q: (int, int), c: int|
        f.b.has(q) && 0 <= c < 5 ==> #[trigger] state_ok(f, scores, prev, open, closed, ex, lim, q, c)
}

pub proof fn lemma_code(d: Option<Dir>)
    ensures
        0 <= code(d) < 5,
        dir_of(code(d)) == d,
        d is Some ==> 1 <= code(d),
{
}

pub proof fn lemma_shift_step(p: Point, d: Dir)
    ensures
        shift(pt(p), d) == step(p, d),
{
}

pub proof fn lemma_manhattan_step(q: (int, int), d: Dir, g: (int, int))
    ensures
        spec_manhattan(q, g) <= spec_manhattan(shift(q, d), g) + 1,
{
}

/// The walk's last cell is in the field.
pub proof fn lemma_walk_last(f: Field, pts: Seq<Point>)
    requires
        field_ok(f),
        walk(f, pts),
    ensures
        f.b.has(pt(pts.last())),
        0 <= code(last_dir(pts)) < 5,
{
    lemma_code(last_dir(pts));
    if pts.len() > 1 {
        assert(adjacent(pts[pts.len() - 1 - 1], pts[pts.len() - 1]) && open_cell(f, pt(pts[pts.len() - 1])));
    }
}

pub proof fn lemma_step_cost_bound(f: Field, prev: Option<Dir>, q: (int, int), d: Dir)
    ensures
        1 <= step_cost(f, prev, q, d) <= 25,
{
}

/// A walk without its last step is a walk, and the step costs what the
/// price of the walk adds.
pub proof fn lemma_walk_drop(f: Field, pts: Seq<Point>)
    requires
        walk(f, pts),
        pts.len() >= 2,
    ensures
        walk(f, pts.drop_last()),
        pts.drop_last().last() == pts[pts.len() - 2],
        adjacent(pts[pts.len() - 2], pts.last()),
        open_cell(f, pt(pts.last())),
        last_dir(pts) == Some(dir_between(pts[pts.len() - 2], pts.last())),
        walk_cost(f, pts) == walk_cost(f, pts.drop_last()) + step_cost(
            f,
            last_dir(pts.drop_last()),
            pt(pts.last()),
            dir_between(pts[pts.len() - 2], pts.last()),
        ),
{
    let w = pts.drop_last();
    assert forall|i: int| 1 <= i < w.len() implies adjacent(#[trigger] w[i - 1], w[i]) && open_cell(f, pt(w[i])) by {
        assert(pts[i - 1] == w[i - 1]);
    }
    assert(adjacent(pts[pts.len() - 1 - 1], pts[pts.len() - 1]));
}

/// One more step makes a longer walk, and adds its price.
pub proof fn lemma_walk_push(f: Field, pw: Seq<Point>, b: Point)
    requires
        walk(f, pw),
        adjacent(pw.last(), b),
        open_cell(f, pt(b)),
    ensures
        walk(f, pw.push(b)),
        pw.push(b).drop_last() == pw,
        pw.push(b).last() == b,
        last_dir(pw.push(b)) == Some(dir_between(pw.last(), b)),
        walk_cost(f, pw.push(b)) == walk_cost(f, pw) + step_cost(f, last_dir(pw), pt(b), dir_between(pw.last(), b)),
{
    let w = pw.push(b);
    assert(w.drop_last() =~= pw);
    assert forall|i: int| 1 <= i < w.len() implies adjacent(#[trigger] w[i - 1], w[i]) && open_cell(f, pt(w[i])) by {
        if i < pw.len() {
            assert(pw[i - 1] == w[i - 1]);
        }
    }
}

/// The step that leaves a state in direction `d` and the step that a walk
/// takes there are the same step.
pub proof fn lemma_step_dir(a: Point, b: Point)
    requires
        adjacent(a, b),
    ensures
        shift(pt(a), dir_between(a, b)) == pt(b),
{
    let d = choose|d: Dir| #[trigger] step(a, d) == (b.0 as int, b.1 as int);
    lemma_dir_between(a, d, b);
}

/// Every waiting estimate bounds the price of reaching any unsettled
/// state, plus the distance from it to the goal.
pub proof fn lemma_key_bound(
    f: Field,
    scores: Seq<usize>,
    prev: Seq<(Point, u8)>,
    open: Seq<Entry>,
    closed: Set<int>,
    seqn: int,
    key: int,
    pts: Seq<Point>,
)
    requires
        search_inv(f, scores, prev, open, closed, seqn, -1, 4),
        forall|k: int| 0 <= k < open.len() ==> key <= (#[trigger] open[k]).0,
        walk(f, pts),
        !closed.contains(enc(f.b, pt(pts.last()), code(last_dir(pts)))),
    ensures
        key <= walk_cost(f, pts) + spec_manhattan(pt(pts.last()), pt(f.goal)),
    decreases pts.len(),
{
    let q = pt(pts.last());
    let c = code(last_dir(pts));
    lemma_walk_last(f, pts);
    assert(state_ok(f, scores, prev, open, closed, -1, 4, q, c));
    if pts.len() == 1 {
        assert(q == pt(f.start) && c == 0);
        let k = choose|k: int| 0 <= k < open.len() && #[trigger] entry_for(open[k], f.b, scores, q, c);
        assert(key <= open[k].0);
    } else {
        let pw = pts.drop_last();
        lemma_walk_drop(f, pts);
        let a = pts[pts.len() - 2];
        let d = dir_between(a, pts.last());
        lemma_step_dir(a, pts.last());
        lemma_walk_last(f, pw);
        let q0 = pt(pw.last());
        let c0 = code(last_dir(pw));
        lemma_code(last_dir(pw));
        lemma_code(Some(d));
        lemma_manhattan_step(q0, d, pt(f.goal));
        if closed.contains(enc(f.b, q0, c0)) {
            assert(state_ok(f, scores, prev, open, closed, -1, 4, q0, c0));
            lemma_enc_range(f.b, q0, c0);
            assert(relaxed(f, scores, q0, c0, d));
            assert(ends_at(pw, q0, c0));
            assert(scores[enc(f.b, q0, c0)] <= walk_cost(f, pw));
            lemma_step_cost_bound(f, dir_of(c0), q, d);
            assert(25 * closed.len() <= 125 * (f.b.width() * f.b.height()));
            let k = choose|k: int| 0 <= k < open.len() && #[trigger] entry_for(open[k], f.b, scores, q, c);
            assert(key <= open[k].0);
        } else {
            lemma_key_bound(f, scores, prev, open, closed, seqn, key, pw);
        }
    }
}

/// The search begins with only the start scored and waiting.
pub proof fn lemma_init(f: Field, scores: Seq<usize>, prev: Seq<(Point, u8)>, open: Seq<Entry>)
    requires
        field_ok(f),
        scores.len() == nstates(f.b),
        prev.len() == nstates(f.b),
        scores[enc(f.b, pt(f.start), 0)] == 0,
        forall|i: int| 0 <= i < nstates(f.b) && i != enc(f.b, pt(f.start), 0) ==> #[trigger] scores[i] == usize::MAX,
        open.len() == 1,
        open[0] == (spec_manhattan(pt(f.start), pt(f.goal)) as usize, 0usize, 0usize, f.start, 0u8),
    ensures
        search_inv(f, scores, prev, open, Set::empty(), 0, -1, 4),
{
    let st = seq![f.start];
    assert(walk(f, st));
    assert(walk_cost(f, st) == 0);
    assert(ends_at(st, pt(f.start), 0));
    assert(entry_for(open[0], f.b, scores, pt(f.start), 0));
    assert forall|q: (int, int), c: int| f.b.has(q) && 0 <= c < 5 implies #[trigger] state_ok(
        f,
        scores,
        prev,
        open,
        Set::empty(),
        -1,
        4,
        q,
        c,
    ) by {
        lemma_enc_range(f.b, q, c);
        if fin(scores, enc(f.b, q, c)) {
            lemma_enc_inj(f.b, q, c, pt(f.start), 0);
        }
    }
}

/// A waiting entry whose score is out of date is dropped.
pub proof fn lemma_stale(
    f: Field,
    scores: Seq<usize>,
    prev: Seq<(Point, u8)>,
    open: Seq<Entry>,
    closed: Set<int>,
    seqn: int,
    i: int,
)
    requires
        search_inv(f, scores, prev, open, closed, seqn, -1, 4),
        0 <= i < open.len(),
        open[i].1 != scores[enc(f.b, pt(open[i].3), open[i].4 as int)],
    ensures
        search_inv(f, scores, prev, open.update(i, open.last()).drop_last(), closed, seqn, -1, 4),
{
    let open1 = open.update(i, open.last()).drop_last();
    assert forall|k: int| 0 <= k < open1.len() implies entry_ok(f, #[trigger] open1[k], 25 * closed.len() as int) by {
        if k == i {
            assert(entry_ok(f, open[open.len() - 1], 25 * closed.len() as int));
        } else {
            assert(entry_ok(f, open[k], 25 * closed.len() as int));
        }
    }
    assert forall|q: (int, int), c: int| f.b.has(q) && 0 <= c < 5 implies #[trigger] state_ok(
        f,
        scores,
        prev,
        open1,
        closed,
        -1,
        4,
        q,
        c,
    ) by {
        assert(state_ok(f, scores, prev, open, closed, -1, 4, q, c));
        if fin(scores, enc(f.b, q, c)) && !closed.contains(enc(f.b, q, c)) {
            let k = choose|k: int| 0 <= k < open.len() && #[trigger] entry_for(open[k], f.b, scores, q, c);
            assert(k != i);
            if k == open.len() - 1 {
                assert(entry_for(open1[i], f.b, scores, q, c));
            } else {
                assert(entry_for(open1[k], f.b, scores, q, c));
            }
        }
    }
}

/// The cheapest waiting entry, when its score is current, settles its
/// state: no walk reaches the state for less.
pub proof fn lemma_settle(
    f: Field,
    scores: Seq<usize>,
    prev: Seq<(Point, u8)>,
    open: Seq<Entry>,
    closed: Set<int>,
    seqn: int,
    i: int,
)
    requires
        search_inv(f, scores, prev, open, closed, seqn, -1, 4),
        0 <= i < open.len(),
        forall|k: int| 0 <= k < open.len() ==> open[i].0 <= (#[trigger] open[k]).0,
        open[i].1 == scores[enc(f.b, pt(open[i].3), open[i].4 as int)],
        open[i].3 != f.goal,
    ensures
        search_inv(
            f,
            scores,
            prev,
            open.update(i, open.last()).drop_last(),
            closed.insert(enc(f.b, pt(open[i].3), open[i].4 as int)),
            seqn,
            enc(f.b, pt(open[i].3), open[i].4 as int),
            0,
        ),
        closed.contains(enc(f.b, pt(open[i].3), open[i].4 as int)) ==> closed.insert(
            enc(f.b, pt(open[i].3), open[i].4 as int),
        ) == closed,
        !closed.contains(enc(f.b, pt(open[i].3), open[i].4 as int)) ==> closed.insert(
            enc(f.b, pt(open[i].3), open[i].4 as int),
        ).len() == closed.len() + 1,
{
    let e = open[i];
    let q = pt(e.3);
    let c = e.4 as int;
    let s = enc(f.b, q, c);
    let open1 = open.update(i, open.last()).drop_last();
    let closed1 = closed.insert(s);
    assert(entry_ok(f, e, 25 * closed.len() as int));
    lemma_enc_range(f.b, q, c);
    assert(state_ok(f, scores, prev, open, closed, -1, 4, q, c));
    if closed.contains(s) {
        assert(closed1 =~= closed);
    } else {
        assert forall|pts: Seq<Point>|
            #![trigger walk_cost(f, pts), ends_at(pts, q, c)]
            walk(f, pts) && ends_at(pts, q, c) implies scores[s] <= walk_cost(f, pts) by {
            lemma_key_bound(f, scores, prev, open, closed, seqn, e.0 as int, pts);
        }
        assert(settled_opt(f, scores, q, c));
    }
    assert forall|j: int| #[trigger] closed1.contains(j) implies 0 <= j < nstates(f.b) by {
        if j != s {
            assert(closed.contains(j));
        }
    }
    vstd::set_lib::lemma_int_range(0, nstates(f.b));
    assert(closed1.subset_of(vstd::set_lib::set_int_range(0, nstates(f.b))));
    vstd::set_lib::lemma_len_subset(closed1, vstd::set_lib::set_int_range(0, nstates(f.b)));
    assert forall|k: int| 0 <= k < open1.len() implies entry_ok(f, #[trigger] open1[k], 25 * closed1.len() as int) by {
        if k == i {
            assert(entry_ok(f, open[open.len() - 1], 25 * closed.len() as int));
        } else {
            assert(entry_ok(f, open[k], 25 * closed.len() as int));
        }
    }
    assert forall|q2: (int, int), c2: int| f.b.has(q2) && 0 <= c2 < 5 implies #[trigger] state_ok(
        f,
        scores,
        prev,
        open1,
        closed1,
        s,
        0,
        q2,
        c2,
    ) by {
        let i2 = enc(f.b, q2, c2);
        assert(state_ok(f, scores, prev, open, closed, -1, 4, q2, c2));
        lemma_enc_range(f.b, q2, c2);
        if i2 == s {
            lemma_enc_inj(f.b, q2, c2, q, c);
        }
        if fin(scores, i2) {
            if !(q2 == pt(f.start) && c2 == 0) {
                assert(prev_ok(f, scores, prev, closed, q2, c2));
                let pp = prev[i2].0;
                let pc = prev[i2].1 as int;
                assert(closed1.contains(enc(f.b, pt(pp), pc)));
            }
            if !closed1.contains(i2) {
                let k = choose|k: int| 0 <= k < open.len() && #[trigger] entry_for(open[k], f.b, scores, q2, c2);
                if k == i {
                    lemma_enc_inj(f.b, q2, c2, q, c);
                }
                assert(k != i);
                if k == open.len() - 1 {
                    assert(entry_for(open1[i], f.b, scores, q2, c2));
                } else {
                    assert(entry_for(open1[k], f.b, scores, q2, c2));
                }
            }
        }
        if closed1.contains(i2) && i2 != s {
            assert(closed.contains(i2));
        }
    }
}

pub proof fn lemma_code_inj(d1: Dir, d2: Dir)
    requires
        code(Some(d1)) == code(Some(d2)),
    ensures
        d1 == d2,
{
}

/// A neighbour already scored no higher than the way through the settled
/// state is left as it is.
pub proof fn lemma_relax_skip(
    f: Field,
    scores: Seq<usize>,
    prev: Seq<(Point, u8)>,
    open: Seq<Entry>,
    closed: Set<int>,
    seqn: int,
    q: (int, int),
    c: int,
    d: Dir,
)
    requires
        search_inv(f, scores, prev, open, closed, seqn, enc(f.b, q, c), code(Some(d)) - 1),
        f.b.has(q),
        0 <= c < 5,
        relaxed(f, scores, q, c, d),
    ensures
        search_inv(f, scores, prev, open, closed, seqn, enc(f.b, q, c), code(Some(d))),
{
    let s = enc(f.b, q, c);
    assert forall|q2: (int, int), c2: int| f.b.has(q2) && 0 <= c2 < 5 implies #[trigger] state_ok(
        f,
        scores,
        prev,
        open,
        closed,
        s,
        code(Some(d)),
        q2,
        c2,
    ) by {
        assert(state_ok(f, scores, prev, open, closed, s, code(Some(d)) - 1, q2, c2));
        let i2 = enc(f.b, q2, c2);
        if closed.contains(i2) && i2 == s {
            assert forall|d2: Dir| code(Some(d2)) <= code(Some(d)) implies #[trigger] relaxed(f, scores, q2, c2, d2) by {
                if code(Some(d2)) == code(Some(d)) {
                    lemma_code_inj(d2, d);
                    lemma_enc_inj(f.b, q2, c2, q, c);
                }
            }
        }
    }
}

/// A cheaper way to a neighbour through the settled state is recorded:
/// its new score, the state it came from, and a new waiting entry.
#[verifier::rlimit(60)]
pub proof fn lemma_relax_update(
    f: Field,
    scores: Seq<usize>,
    prev: Seq<(Point, u8)>,
    open: Seq<Entry>,
    closed: Set<int>,
    seqn: int,
    p: Point,
    c: int,
    d: Dir,
    np: Point,
    sq: usize,
)
    requires
        search_inv(f, scores, prev, open, closed, seqn, enc(f.b, pt(p), c), code(Some(d)) - 1),
        f.b.has(pt(p)),
        0 <= c < 5,
        closed.contains(enc(f.b, pt(p), c)),
        pt(np) == shift(pt(p), d),
        open_cell(f, pt(np)),
        scores[enc(f.b, pt(p), c)] + step_cost(f, dir_of(c), pt(np), d) < scores[enc(f.b, pt(np), code(Some(d)))],
        seqn + 1 <= 4 * closed.len(),
    ensures
        ({
            let ns = scores[enc(f.b, pt(p), c)] + step_cost(f, dir_of(c), pt(np), d);
            let t = enc(f.b, pt(np), code(Some(d)));
            search_inv(
                f,
                scores.update(t, ns as usize),
                prev.update(t, (p, c as u8)),
                open.push(((ns + spec_manhattan(pt(np), pt(f.goal))) as usize, ns as usize, sq, np, code(Some(d)) as u8)),
                closed,
                seqn + 1,
                enc(f.b, pt(p), c),
                code(Some(d)),
            )
        }),
{
    let q = pt(p);
    let s = enc(f.b, q, c);
    let nq = pt(np);
    let nc = code(Some(d));
    lemma_code(Some(d));
    let w = step_cost(f, dir_of(c), nq, d);
    lemma_step_cost_bound(f, dir_of(c), nq, d);
    let ns = scores[s] + w;
    let t = enc(f.b, nq, nc);
    let scores1 = scores.update(t, ns as usize);
    let prev1 = prev.update(t, (p, c as u8));
    let e = ((ns + spec_manhattan(nq, pt(f.goal))) as usize, ns as usize, sq, np, nc as u8);
    let open1 = open.push(e);
    lemma_enc_range(f.b, q, c);
    lemma_enc_range(f.b, nq, nc);
    assert(state_ok(f, scores, prev, open, closed, s, nc - 1, q, c));
    assert(state_ok(f, scores, prev, open, closed, s, nc - 1, nq, nc));
    // a walk to the settled state, one step longer, reaches the neighbour
    let pw = choose|pts: Seq<Point>|
        #![trigger walk_cost(f, pts), ends_at(pts, q, c)]
        walk(f, pts) && ends_at(pts, q, c) && walk_cost(f, pts) == scores[s];
    assert(adjacent(pw.last(), np)) by {
        assert(step(pw.last(), d) == (np.0 as int, np.1 as int));
    }
    lemma_dir_between(pw.last(), d, np);
    lemma_walk_push(f, pw, np);
    lemma_code(last_dir(pw));
    let pw1 = pw.push(np);
    assert(ends_at(pw1, nq, nc));
    assert(walk_cost(f, pw1) == ns);
    // so the neighbour cannot be settled
    assert(!closed.contains(t)) by {
        if closed.contains(t) {
            assert(settled_opt(f, scores, nq, nc));
            assert(scores[t] <= walk_cost(f, pw1));
        }
    }
    assert(t != s);
    assert(t != enc(f.b, pt(f.start), 0)) by {
        if t == enc(f.b, pt(f.start), 0) {
            lemma_enc_inj(f.b, nq, nc, pt(f.start), 0);
        }
    }
    assert(ns <= 25 * closed.len());
    assert(25 * closed.len() <= 125 * (f.b.width() * f.b.height()));
    assert(spec_manhattan(nq, pt(f.goal)) <= f.b.width() + f.b.height());
    assert forall|k: int| 0 <= k < open1.len() implies entry_ok(f, #[trigger] open1[k], 25 * closed.len() as int) by {
        if k < open.len() {
            assert(entry_ok(f, open[k], 25 * closed.len() as int));
        }
    }
    assert forall|q2: (int, int), c2: int| f.b.has(q2) && 0 <= c2 < 5 implies #[trigger] state_ok(
        f,
        scores1,
        prev1,
        open1,
        closed,
        s,
        nc,
        q2,
        c2,
    ) by {
        let i2 = enc(f.b, q2, c2);
        assert(state_ok(f, scores, prev, open, closed, s, nc - 1, q2, c2));
        lemma_enc_range(f.b, q2, c2);
        if i2 == t {
            lemma_enc_inj(f.b, q2, c2, nq, nc);
            assert(reached(f, scores1, q2, c2)) by {
                assert(walk(f, pw1) && ends_at(pw1, q2, c2) && walk_cost(f, pw1) == scores1[enc(f.b, q2, c2)]);
            }
            assert(prev_ok(f, scores1, prev1, closed, q2, c2)) by {
                assert(dir_of(nc) == Some(d));
            }
            assert(entry_for(open1[open.len() as int], f.b, scores1, q2, c2));
        } else {
            if fin(scores1, i2) {
                assert(reached(f, scores1, q2, c2)) by {
                    let w2 = choose|pts: Seq<Point>|
                        #![trigger walk_cost(f, pts), ends_at(pts, q2, c2)]
                        walk(f, pts) && ends_at(pts, q2, c2) && walk_cost(f, pts) == scores[i2];
                    assert(walk(f, w2) && ends_at(w2, q2, c2) && walk_cost(f, w2) == scores1[i2]);
                }
                if !(q2 == pt(f.start) && c2 == 0) {
                    assert(prev_ok(f, scores, prev, closed, q2, c2));
                    let pp = prev[i2].0;
                    let pc = prev[i2].1 as int;
                    assert(enc(f.b, pt(pp), pc) != t);
                    assert(prev_ok(f, scores1, prev1, closed, q2, c2));
                }
                if !closed.contains(i2) {
                    let k = choose|k: int| 0 <= k < open.len() && #[trigger] entry_for(open[k], f.b, scores, q2, c2);
                    assert(entry_for(open1[k], f.b, scores1, q2, c2));
                }
            }
            if closed.contains(i2) {
                assert(settled_opt(f, scores1, q2, c2)) by {
                    assert forall|pts: Seq<Point>|
                        #![trigger walk_cost(f, pts), ends_at(pts, q2, c2)]
                        walk(f, pts) && ends_at(pts, q2, c2) implies scores1[i2] <= walk_cost(f, pts) by {
                        assert(settled_opt(f, scores, q2, c2));
                    }
                }
                let lim2: int = if i2 == s { nc } else { 4 };
                assert forall|d2: Dir| code(Some(d2)) <= lim2 implies #[trigger] relaxed(f, scores1, q2, c2, d2) by {
                    if i2 == s && code(Some(d2)) == nc {
                        lemma_code_inj(d2, d);
                        lemma_enc_inj(f.b, q2, c2, q, c);
                        assert(shift(q2, d2) == nq);
                        assert(scores1[enc(f.b, shift(q2, d2), code(Some(d2)))] == ns);
                        assert(scores1[i2] == scores[s]);
                    } else {
                        assert(relaxed(f, scores, q2, c2, d2));
                        assert(scores1[i2] == scores[i2]);
                        if open_cell(f, shift(q2, d2)) {
                            lemma_code(Some(d2));
                            lemma_enc_range(f.b, shift(q2, d2), code(Some(d2)));
                            let u = enc(f.b, shift(q2, d2), code(Some(d2)));
                            assert(scores1[u] <= scores[u]);
                        }
                    }
                }
            }
        }
    }
    assert(scores1.len() == nstates(f.b));
    assert(prev1.len() == nstates(f.b));
    lemma_enc_range(f.b, pt(f.start), 0);
}

/// Once the settled state has been relaxed in every direction, it is
/// settled like every other.
pub proof fn lemma_unmark(
    f: Field,
    scores: Seq<usize>,
    prev: Seq<(Point, u8)>,
    open: Seq<Entry>,
    closed: Set<int>,
    seqn: int,
    ex: int,
)
    requires
        search_inv(f, scores, prev, open, closed, seqn, ex, 4),
    ensures
        search_inv(f, scores, prev, open, closed, seqn, -1, 4),
{
    assert forall|q: (int, int), c: int| f.b.has(q) && 0 <= c < 5 implies #[trigger] state_ok(
        f,
        scores,
        prev,
        open,
        closed,
        -1,
        4,
        q,
        c,
    ) by {
        assert(state_ok(f, scores, prev, open, closed, ex, 4, q, c));
    }
}

/// When nothing waits any more, every state a walk reaches is settled.
pub proof fn lemma_all_closed(
    f: Field,
    scores: Seq<usize>,
    prev: Seq<(Point, u8)>,
    open: Seq<Entry>,
    closed: Set<int>,
    seqn: int,
    pts: Seq<Point>,
)
    requires
        search_inv(f, scores, prev, open, closed, seqn, -1, 4),
        open.len() == 0,
        walk(f, pts),
    ensures
        closed.contains(enc(f.b, pt(pts.last()), code(last_dir(pts)))),
    decreases pts.len(),
{
    let q = pt(pts.last());
    let c = code(last_dir(pts));
    lemma_walk_last(f, pts);
    assert(state_ok(f, scores, prev, open, closed, -1, 4, q, c));
    if pts.len() > 1 {
        let pw = pts.drop_last();
        lemma_walk_drop(f, pts);
        let a = pts[pts.len() - 2];
        let d = dir_between(a, pts.last());
        lemma_step_dir(a, pts.last());
        lemma_walk_last(f, pw);
        let q0 = pt(pw.last());
        let c0 = code(last_dir(pw));
        lemma_code(last_dir(pw));
        lemma_code(Some(d));
        lemma_all_closed(f, scores, prev, open, closed, seqn, pw);
        assert(state_ok(f, scores, prev, open, closed, -1, 4, q0, c0));
        lemma_enc_range(f.b, q0, c0);
        assert(relaxed(f, scores, q0, c0, d));
        lemma_step_cost_bound(f, dir_of(c0), q, d);
        assert(25 * closed.len() <= 125 * (f.b.width() * f.b.height()));
    }
}

/// When nothing waits any more, no route reaches the goal.
pub proof fn lemma_exhausted(
    f: Field,
    scores: Seq<usize>,
    prev: Seq<(Point, u8)>,
    open: Seq<Entry>,
    closed: Set<int>,
    seqn: int,
)
    requires
        search_inv(f, scores, prev, open, closed, seqn, -1, 4),
        open.len() == 0,
    ensures
        forall|pts: Seq<Point>| !#[trigger] path_ok(f, pts),
{
    assert forall|pts: Seq<Point>| !#[trigger] path_ok(f, pts) by {
        if path_ok(f, pts) {
            lemma_all_closed(f, scores, prev, open, closed, seqn, pts);
            lemma_walk_last(f, pts);
            assert(state_ok(f, scores, prev, open, closed, -1, 4, pt(pts.last()), code(last_dir(pts))));
        }
    }
}

/// The first current entry taken at the goal is no dearer than any route.
pub proof fn lemma_goal(
    f: Field,
    scores: Seq<usize>,
    prev: Seq<(Point, u8)>,
    open: Seq<Entry>,
    closed: Set<int>,
    seqn: int,
    i: int,
)
    requires
        search_inv(f, scores, prev, open, closed, seqn, -1, 4),
        0 <= i < open.len(),
        forall|k: int| 0 <= k < open.len() ==> open[i].0 <= (#[trigger] open[k]).0,
        open[i].3 == f.goal,
    ensures
        forall|pts: Seq<Point>| #[trigger] path_ok(f, pts) ==> open[i].1 <= walk_cost(f, pts),
{
    let e = open[i];
    assert(entry_ok(f, e, 25 * closed.len() as int));
    assert forall|pts: Seq<Point>| #[trigger] path_ok(f, pts) implies e.1 <= walk_cost(f, pts) by {
        lemma_walk_last(f, pts);
        let c = code(last_dir(pts));
        assert(state_ok(f, scores, prev, open, closed, -1, 4, pt(f.goal), c));
        lemma_key_bound(f, scores, prev, open, closed, seqn, e.0 as int, pts);
    }
}

/// A sequence read from its end.
pub open spec fn rev(s: Seq<Point>) -> Seq<Point> {
    Seq::new(s.len(), |i: int| s[s.len() - 1 - i])
}

/// While tracing a route back from the goal: any walk to the current state,
/// followed by the cells traced so far, is a walk to the goal state that
/// costs what the walk did plus the rest of the goal's score.
pub open spec fn tail_ok(
    f: Field,
    scores: Seq<usize>,
    back: Seq<Point>,
    q: (int, int),
    c: int,
    gq: (int, int),
    gc: int,
    g: int,
) -> bool {
    forall|pw: Seq<Point>|
        #![trigger ends_at(pw, q, c)]
        walk(f, pw) && ends_at(pw, q, c) ==> joins(f, scores, back, pw, q, c, gq, gc, g)
}

/// The walk `pw`, followed by the traced cells, is a walk to the goal state
/// that costs what `pw` did plus the rest of the goal's score.
pub open spec fn joins(
    f: Field,
    scores: Seq<usize>,
    back: Seq<Point>,
    pw: Seq<Point>,
    q: (int, int),
    c: int,
    gq: (int, int),
    gc: int,
    g: int,
) -> bool {
    let full = pw + rev(back).skip(1);
    &&& walk(f, full)
    &&& ends_at(full, gq, gc)
    &&& walk_cost(f, full) == walk_cost(f, pw) + g - scores[enc(f.b, q, c)]
}

pub proof fn lemma_back_init(f: Field, scores: Seq<usize>, goal: Point, gc: int)
    ensures
        tail_ok(f, scores, seq![goal], pt(goal), gc, pt(goal), gc, scores[enc(f.b, pt(goal), gc)] as int),
{
    let g = scores[enc(f.b, pt(goal), gc)] as int;
    assert forall|pw: Seq<Point>|
        #![trigger ends_at(pw, pt(goal), gc)]
        walk(f, pw) && ends_at(pw, pt(goal), gc) implies joins(f, scores, seq![goal], pw, pt(goal), gc, pt(goal), gc, g) by {
        assert(pw + rev(seq![goal]).skip(1) =~= pw);
    }
}

/// One step further back along the recorded predecessors.
pub proof fn lemma_back_step(
    f: Field,
    scores: Seq<usize>,
    prev: Seq<(Point, u8)>,
    closed: Set<int>,
    back: Seq<Point>,
    q: (int, int),
    c: int,
    gq: (int, int),
    gc: int,
    g: int,
    pp: Point,
    pc: int,
)
    requires
        tail_ok(f, scores, back, q, c, gq, gc, g),
        prev_ok(f, scores, prev, closed, q, c),
        back.len() >= 1,
        pt(back.last()) == q,
        pp == prev[enc(f.b, q, c)].0,
        pc == prev[enc(f.b, q, c)].1 as int,
    ensures
        tail_ok(f, scores, back.push(pp), pt(pp), pc, gq, gc, g),
{
    let cur = back.last();
    let d = dir_of(c)->0;
    let back1 = back.push(pp);
    assert(rev(back1).skip(1) =~= rev(back));
    assert(rev(back) =~= seq![cur] + rev(back).skip(1));
    assert forall|pw: Seq<Point>|
        #![trigger ends_at(pw, pt(pp), pc)]
        walk(f, pw) && ends_at(pw, pt(pp), pc) implies joins(f, scores, back1, pw, pt(pp), pc, gq, gc, g) by {
        assert(step(pw.last(), d) == (cur.0 as int, cur.1 as int));
        assert(adjacent(pw.last(), cur));
        lemma_dir_between(pw.last(), d, cur);
        lemma_walk_push(f, pw, cur);
        lemma_code(last_dir(pw));
        let pw1 = pw.push(cur);
        assert(ends_at(pw1, q, c));
        assert(pw1 + rev(back).skip(1) =~= pw + rev(back1).skip(1));
        assert(joins(f, scores, back, pw1, q, c, gq, gc, g));
        assert(joins(f, scores, back1, pw, pt(pp), pc, gq, gc, g));
    }
    assert(tail_ok(f, scores, back1, pt(pp), pc, gq, gc, g));
}

/// Traced back to the start, the traced cells are a route to the goal
/// state that costs its score.
pub proof fn lemma_back_done(f: Field, scores: Seq<usize>, back: Seq<Point>, gq: (int, int), gc: int, g: int)
    requires
        field_ok(f),
        tail_ok(f, scores, back, pt(f.start), 0, gq, gc, g),
        back.len() >= 1,
        back.last() == f.start,
        scores[enc(f.b, pt(f.start), 0)] == 0,
    ensures
        walk(f, rev(back)),
        ends_at(rev(back), gq, gc),
        walk_cost(f, rev(back)) == g,
{
    let st = seq![f.start];
    assert(walk(f, st));
    assert(walk_cost(f, st) == 0);
    assert(ends_at(st, pt(f.start), 0));
    assert(st + rev(back).skip(1) =~= rev(back));
    assert(joins(f, scores, back, st, pt(f.start), 0, gq, gc, g));
}

/// `a` comes no later than `b` among the waiting entries: by estimate,
/// then score, then sequence number.
pub open spec fn entry_le(a: Entry, b: Entry) -> bool {
    a.0 < b.0 || (a.0 == b.0 && (a.1 < b.1 || (a.1 == b.1 && a.2 <= b.2)))
}

/// The waiting entries as a heap: no entry comes before its parent.
pub open spec fn heap_ok(s: Seq<Entry>) -> bool {
    forall|i: int| 0 < i < s.len() ==> entry_le(s[(i - 1) / 2], #[trigger] s[i])
}

pub proof fn lemma_entry_le_trans(a: Entry, b: Entry, c: Entry)
    requires
        entry_le(a, b),
        entry_le(b, c),
    ensures
        entry_le(a, c),
{
}

/// The root of a heap comes first.
pub proof fn lemma_heap_root(s: Seq<Entry>, k: int)
    requires
        heap_ok(s),
        0 <= k < s.len(),
    ensures
        entry_le(s[0], s[k]),
    decreases k,
{
    if k > 0 {
        let p = (k - 1) / 2;
        lemma_heap_root(s, p);
        assert(entry_le(s[p], s[k]));
        lemma_entry_le_trans(s[0], s[p], s[k]);
    }
}

/// Swapping two entries keeps what the list holds.
pub proof fn lemma_swap_multiset(s: Seq<Entry>, i: int, j: int)
    requires
        0 <= i < s.len(),
        0 <= j < s.len(),
    ensures
        s.update(i, s[j]).update(j, s[i]).to_multiset() =~= s.to_multiset(),
{
    broadcast use vstd::seq_lib::group_to_multiset_ensures, vstd::multiset::group_multiset_axioms;

    let t = s.update(i, s[j]);
    assert(t.to_multiset() == s.to_multiset().insert(s[j]).remove(s[i]));
    assert(t.update(j, s[i]).to_multiset() == t.to_multiset().insert(s[i]).remove(t[j]));
    assert(s.to_multiset().count(s[i]) > 0);
    assert(s.to_multiset().count(s[j]) > 0);
}

/// Swaps two waiting entries.
fn swap_entries(v: &mut Vec<Entry>, i: usize, j: usize)
    requires
        i < old(v).len(),
        j < old(v).len(),
    ensures
        final(v)@ == old(v)@.update(i as int, old(v)@[j as int]).update(j as int, old(v)@[i as int]),
        final(v)@.to_multiset() =~= old(v)@.to_multiset(),
{
    proof {
        lemma_swap_multiset(v@, i as int, j as int);
    }
    let a = v[i];
    let b = v[j];
    v.set(i, b);
    v.set(j, a);
}

/// Adds an entry to the heap.
fn heap_push(v: &mut Vec<Entry>, e: Entry)
    requires
        heap_ok(old(v)@),
    ensures
        heap_ok(final(v)@),
        final(v)@.len() == old(v)@.len() + 1,
        final(v)@.to_multiset() =~= old(v)@.to_multiset().insert(e),
{
    broadcast use vstd::seq_lib::group_to_multiset_ensures;

    let ghost m = v@.push(e).to_multiset();
    let ghost n = v@.len() + 1;
    v.push(e);
    let mut i: usize = v.len() - 1;
    while i > 0
        invariant
            i < v.len(),
            v@.len() == n,
            v@.to_multiset() =~= m,
            forall|j: int| 0 < j < v@.len() && j != i ==> entry_le(v@[(j - 1) / 2], #[trigger] v@[j]),
            i > 0 ==> forall|c: int|
                0 < c < v@.len() && (c - 1) / 2 == i ==> entry_le(v@[(i - 1) / 2], #[trigger] v@[c]),
        ensures
            heap_ok(v@),
        decreases i,
    {
        let p = (i - 1) / 2;
        let a = v[i];
        let b = v[p];
        if !(a.0 < b.0 || (a.0 == b.0 && (a.1 < b.1 || (a.1 == b.1 && a.2 < b.2)))) {
            proof {
                assert(entry_le(v@[p as int], v@[i as int]));
            }
            break;
        }
        let ghost old_v = v@;
        swap_entries(v, i, p);
        proof {
            assert forall|j: int| 0 < j < v@.len() && j != p implies entry_le(v@[(j - 1) / 2], #[trigger] v@[j]) by {
                if j == i {
                } else if (j - 1) / 2 == i {
                    assert(entry_le(old_v[(i - 1) / 2], old_v[j]));
                } else if (j - 1) / 2 == p as int {
                    assert(entry_le(old_v[p as int], old_v[j]));
                    lemma_entry_le_trans(old_v[i as int], old_v[p as int], old_v[j]);
                } else {
                    assert(entry_le(old_v[(j - 1) / 2], old_v[j]));
                }
            }
            if p > 0 {
                assert forall|c: int| 0 < c < v@.len() && (c - 1) / 2 == p implies entry_le(
                    v@[(p - 1) / 2],
                    #[trigger] v@[c],
                ) by {
                    assert(entry_le(old_v[(p - 1) / 2], old_v[p as int]));
                    if c != i {
                        assert(entry_le(old_v[p as int], old_v[c]));
                        lemma_entry_le_trans(old_v[(p - 1) / 2], old_v[p as int], old_v[c]);
                    }
                }
            }
        }
        i = p;
    }
}

/// Takes the first-coming entry out of the heap.
fn heap_pop(v: &mut Vec<Entry>) -> (e: Entry)
    requires
        heap_ok(old(v)@),
        old(v)@.len() > 0,
    ensures
        e == old(v)@[0],
        forall|k: int| 0 <= k < old(v)@.len() ==> entry_le(e, #[trigger] old(v)@[k]),
        heap_ok(final(v)@),
        final(v)@.len() == old(v)@.len() - 1,
        final(v)@.to_multiset() =~= old(v)@.to_multiset().remove(old(v)@[0]),
{
    broadcast use vstd::seq_lib::group_to_multiset_ensures;

    proof {
        assert forall|k: int| 0 <= k < old(v)@.len() implies entry_le(old(v)@[0], #[trigger] old(v)@[k]) by {
            lemma_heap_root(old(v)@, k);
        }
    }
    let ghost s0 = v@;
    let n = v.len();
    swap_entries(v, 0, n - 1);
    let ghost s1 = v@;
    let e = v.pop().unwrap();
    proof {
        assert(s1.remove(s1.len() - 1) =~= v@);
        assert(v@.to_multiset() =~= s1.to_multiset().remove(s1[s1.len() - 1]));
        assert(e == s0[0]);
    }
    let ghost m = v@.to_multiset();
    let ghost n1 = v@.len();
    let mut i: usize = 0;
    while i < v.len() / 2
        invariant
            i < v.len() || v.len() == 0,
            v@.len() == n1,
            v@.to_multiset() =~= m,
            forall|j: int| 0 < j < v@.len() && (j - 1) / 2 != i ==> entry_le(v@[(j - 1) / 2], #[trigger] v@[j]),
            i > 0 ==> forall|c: int|
                0 < c < v@.len() && (c - 1) / 2 == i ==> entry_le(v@[(i - 1) / 2], #[trigger] v@[c]),
        ensures
            heap_ok(v@),
        decreases v.len() - i,
    {
        let l = 2 * i + 1;
        let r = l + 1;
        let mut c = l;
        if r < v.len() {
            let x = v[r];
            let y = v[l];
            if x.0 < y.0 || (x.0 == y.0 && (x.1 < y.1 || (x.1 == y.1 && x.2 < y.2))) {
                c = r;
            }
        }
        let a = v[c];
        let b = v[i];
        if !(a.0 < b.0 || (a.0 == b.0 && (a.1 < b.1 || (a.1 == b.1 && a.2 < b.2)))) {
            proof {
                assert forall|j: int| 0 < j < v@.len() implies entry_le(v@[(j - 1) / 2], #[trigger] v@[j]) by {
                    if (j - 1) / 2 == i {
                        assert(j == l || j == r);
                    }
                }
            }
            break;
        }
        let ghost old_v = v@;
        swap_entries(v, i, c);
        proof {
            assert(entry_le(old_v[c as int], old_v[l as int]));
            if r < old_v.len() {
                assert(entry_le(old_v[c as int], old_v[r as int]));
            }
            assert forall|j: int| 0 < j < v@.len() && (j - 1) / 2 != c implies entry_le(
                v@[(j - 1) / 2],
                #[trigger] v@[j],
            ) by {
                if j == c {
                } else if (j - 1) / 2 == i {
                    assert(j == l || j == r);
                } else if j == i {
                    assert(entry_le(old_v[(i - 1) / 2], old_v[c as int]));
                } else {
                    assert(entry_le(old_v[(j - 1) / 2], old_v[j]));
                }
            }
            assert forall|cc: int| 0 < cc < v@.len() && (cc - 1) / 2 == c implies entry_le(
                v@[(c - 1) / 2],
                #[trigger] v@[cc],
            ) by {
                assert(entry_le(old_v[c as int], old_v[cc]));
            }
        }
        i = c;
    }
    e
}

/// The search holds whatever the order of the waiting entries.
pub proof fn lemma_inv_perm(
    f: Field,
    scores: Seq<usize>,
    prev: Seq<(Point, u8)>,
    a: Seq<Entry>,
    b: Seq<Entry>,
    closed: Set<int>,
    seqn: int,
    ex: int,
    lim: int,
)
    requires
        search_inv(f, scores, prev, a, closed, seqn, ex, lim),
        a.to_multiset() =~= b.to_multiset(),
    ensures
        search_inv(f, scores, prev, b, closed, seqn, ex, lim),
{
    broadcast use vstd::seq_lib::group_to_multiset_ensures;

    assert forall|k: int| 0 <= k < b.len() implies entry_ok(f, #[trigger] b[k], 25 * closed.len() as int) by {
        assert(b.contains(b[k]));
        assert(b.to_multiset().count(b[k]) > 0);
        assert(a.contains(b[k]));
        let j = choose|j: int| 0 <= j < a.len() && a[j] == b[k];
        assert(entry_ok(f, a[j], 25 * closed.len() as int));
    }
    assert forall|q: (int, int), c: int| f.b.has(q) && 0 <= c < 5 implies #[trigger] state_ok(
        f,
        scores,
        prev,
        b,
        closed,
        ex,
        lim,
        q,
        c,
    ) by {
        assert(state_ok(f, scores, prev, a, closed, ex, lim, q, c));
        if witness(f, a, scores, q, c) {
            let k = choose|k: int| 0 <= k < a.len() && #[trigger] entry_for(a[k], f.b, scores, q, c);
            assert(a.contains(a[k]));
            assert(a.to_multiset().count(a[k]) > 0);
            assert(b.contains(a[k]));
            let j = choose|j: int| 0 <= j < b.len() && b[j] == a[k];
            assert(entry_for(b[j], f.b, scores, q, c));
        }
    }
}

/// Moving the last entry to the front and dropping the last place takes
/// the first entry out.
pub proof fn lemma_pop_multiset(s: Seq<Entry>)
    requires
        s.len() > 0,
    ensures
        s.update(0, s.last()).drop_last().to_multiset() =~= s.to_multiset().remove(s[0]),
{
    broadcast use vstd::seq_lib::group_to_multiset_ensures;

    let n = s.len() - 1;
    let t = s.update(0, s[n]).update(n, s[0]);
    lemma_swap_multiset(s, 0, n);
    assert(t.remove(n) =~= s.update(0, s.last()).drop_last());
    assert(t.remove(n).to_multiset() == t.to_multiset().remove(t[n]));
}

/// The row-major index of a cell of the rectangle.
fn cell_index(b: Bounds, w: usize, p: Point) -> (r: usize)
    requires
        b.sane(),
        b.has(pt(p)),
        w == b.width(),
    ensures
        r == b.cell(pt(p)),
        r < b.width() * b.height(),
{
    proof {
        lemma_cell_range(b, pt(p));
    }
    let x = (p.0 - b.min_x) as usize;
    let y = (p.1 - b.min_y) as usize;
    proof {
        assert(y * w <= y * w + x) by (nonlinear_arith)
            requires
                0 <= x,
                0 <= y,
                0 <= w,
        ;
    }
    y * w + x
}

/// The index of a search state.
fn state_index(b: Bounds, w: usize, p: Point, c: u8) -> (r: usize)
    requires
        b.sane(),
        b.has(pt(p)),
        w == b.width(),
        c < 5,
    ensures
        r == enc(b, pt(p), c as int),
        r < nstates(b),
{
    let i = cell_index(b, w, p);
    proof {
        lemma_enc_range(b, pt(p), c as int);
    }
    i * 5 + c as usize
}

/// A box covers the cell.
fn blocked_at(b: Bounds, w: usize, blocked: &Vec<bool>, p: Point) -> (r: bool)
    requires
        b.sane(),
        w == b.width(),
        blocked.len() == b.width() * b.height(),
    ensures
        r == blocked_in(b, blocked@, pt(p)),
{
    if b.contains(p) {
        let i = cell_index(b, w, p);
        blocked[i]
    } else {
        false
    }
}

/// The cell touches a box.
fn adjacent_to_blocked(b: Bounds, w: usize, blocked: &Vec<bool>, p: Point) -> (r: bool)
    requires
        b.sane(),
        b.has(pt(p)),
        w == b.width(),
        blocked.len() == b.width() * b.height(),
    ensures
        r == near_in(b, blocked@, pt(p)),
{
    blocked_at(b, w, blocked, (p.0 + 1, p.1)) || blocked_at(b, w, blocked, (p.0, p.1 + 1)) || blocked_at(
        b,
        w,
        blocked,
        (p.0 - 1, p.1),
    ) || blocked_at(b, w, blocked, (p.0, p.1 - 1))
}

/// The directions in the order the search tries them.
fn dir_at(k: usize) -> (d: Dir)
    requires
        k < 4,
    ensures
        code(Some(d)) == k + 1,
{
    if k == 0 {
        Dir::R
    } else if k == 1 {
        Dir::D
    } else if k == 2 {
        Dir::L
    } else {
        Dir::U
    }
}

/// The number of a direction among the search states.
fn dir_code(d: Dir) -> (c: u8)
    ensures
        c == code(Some(d)),
{
    match d {
        Dir::R => 1,
        Dir::D => 2,
        Dir::L => 3,
        Dir::U => 4,
    }
}

/// The price of stepping into `np` in direction `d`, having arrived in
/// direction `dc`.
fn step_price(
    b: Bounds,
    w: usize,
    blocked: &Vec<bool>,
    used: &Vec<u8>,
    start: Point,
    goal: Point,
    dc: u8,
    np: Point,
    d: Dir,
) -> (r: usize)
    requires
        field_ok(field(b, blocked@, used@, start, goal)),
        w == b.width(),
        b.has(pt(np)),
        dc < 5,
    ensures
        r == step_cost(field(b, blocked@, used@, start, goal), dir_of(dc as int), pt(np), d),
{
    let ghost f = field(b, blocked@, used@, start, goal);
    let dcn = dir_code(d);
    let mut stp: usize = 1;
    if dc != 0 && dc != dcn {
        stp = stp + 4;
    }
    let ci = cell_index(b, w, np);
    let mask = used[ci];
    if mask & d.axis() != 0 {
        stp = stp + 15;
    }
    if mask & !d.axis() & 0b1111 != 0 {
        stp = stp + 4;
    }
    if (np.0 != goal.0 || np.1 != goal.1) && (np.0 != start.0 || np.1 != start.1) && adjacent_to_blocked(
        b,
        w,
        blocked,
        np,
    ) {
        stp = stp + 1;
    }
    proof {
        lemma_code(Some(d));
        lemma_code(dir_of(dc as int));
        if dc != 0 {
            lemma_code_dir(dc as int);
            if dir_of(dc as int)->0 == d {
                assert(dc == dcn);
            }
        }
    }
    stp
}

/// Work space for a search: every score unseen.
pub open spec fn buffers_ready(b: Bounds, scores: Seq<usize>, prev: Seq<(Point, u8)>) -> bool {
    &&& scores.len() == nstates(b)
    &&& prev.len() == nstates(b)
    &&& forall|i: int| 0 <= i < scores.len() ==> #[trigger] scores[i] == usize::MAX
    &&& forall|i: int| 0 <= i < prev.len() ==> #[trigger] prev[i] == no_prev()
}

/// Every scored state is on the list of touched ones.
pub open spec fn all_touched(scores: Seq<usize>, touched: Seq<usize>) -> bool {
    &&& forall|i: int| 0 <= i < scores.len() && #[trigger] scores[i] != usize::MAX ==> touched.contains(i as usize)
    &&& forall|t: int| 0 <= t < touched.len() ==> #[trigger] touched[t] < scores.len()
}

pub proof fn lemma_touched_push(scores: Seq<usize>, touched: Seq<usize>, i: usize, v: usize)
    requires
        all_touched(scores, touched),
        i < scores.len(),
    ensures
        all_touched(scores.update(i as int, v), touched.push(i)),
{
    let s2 = scores.update(i as int, v);
    let t2 = touched.push(i);
    assert forall|j: int| 0 <= j < s2.len() && #[trigger] s2[j] != usize::MAX implies t2.contains(j as usize) by {
        if j == i {
            assert(t2[touched.len() as int] == i);
        } else {
            assert(touched.contains(j as usize));
            let u = choose|u: int| 0 <= u < touched.len() && touched[u] == j as usize;
            assert(t2[u] == j as usize);
        }
    }
    assert forall|t: int| 0 <= t < t2.len() implies #[trigger] t2[t] < s2.len() by {
        if t < touched.len() {
            assert(t2[t] == touched[t]);
        }
    }
}

/// Sets every touched score back to unseen and its predecessor back to
/// unwritten.
fn clear_buffers(scores: &mut Vec<usize>, previous: &mut Vec<(Point, u8)>, touched: &Vec<usize>)
    requires
        all_touched(old(scores)@, touched@),
        old(previous)@.len() == old(scores)@.len(),
        forall|i: int| 0 <= i < old(previous)@.len() && #[trigger] old(previous)@[i] != no_prev() ==> old(scores)@[i] != usize::MAX,
    ensures
        final(scores)@.len() == old(scores)@.len(),
        final(previous)@.len() == old(previous)@.len(),
        forall|i: int| 0 <= i < final(scores)@.len() ==> #[trigger] final(scores)@[i] == usize::MAX,
        forall|i: int| 0 <= i < final(previous)@.len() ==> #[trigger] final(previous)@[i] == no_prev(),
{
    let n = scores.len();
    proof {
        assert forall|i: int| 0 <= i < scores@.len() && #[trigger] scores@[i] != usize::MAX implies exists|u: int|
            0 <= u < touched.len() && touched@[u] == i by {
            assert(touched@.contains(i as usize));
            let u = choose|u: int| 0 <= u < touched.len() && touched@[u] == i as usize;
            assert(touched@[u] == i);
        }
    }
    let mut t: usize = 0;
    while t < touched.len()
        invariant
            scores@.len() == old(scores)@.len(),
            previous@.len() == scores@.len(),
            forall|u: int| 0 <= u < touched.len() ==> #[trigger] touched@[u] < scores@.len(),
            t <= touched.len(),
            forall|i: int|
                0 <= i < scores@.len() && #[trigger] scores@[i] != usize::MAX ==> exists|u: int|
                    t <= u < touched.len() && touched@[u] == i,
            forall|i: int| 0 <= i < previous@.len() && #[trigger] previous@[i] != no_prev() ==> scores@[i] != usize::MAX,
        decreases touched.len() - t,
    {
        let i = touched[t];
        scores.set(i, usize::MAX);
        previous.set(i, ((0, 0), 0));
        proof {
            assert forall|x: int| 0 <= x < scores@.len() && #[trigger] scores@[x] != usize::MAX implies exists|u: int|
                t + 1 <= u < touched.len() && touched@[u] == x by {
                let u = choose|u: int| t <= u < touched.len() && touched@[u] == x;
                assert(u != t);
            }
        }
        t = t + 1;
    }
}

/// What a search answers: a cheapest route from start to goal, with its
/// price, when there is a route at all.
pub open spec fn astar_ok(f: Field, r: Option<(usize, Vec<Point>)>) -> bool {
    match r {
        Some((c, path)) => {
            &&& path_ok(f, path@)
            &&& c == walk_cost(f, path@)
            &&& forall|q: Seq<Point>| #[trigger] path_ok(f, q) ==> c <= walk_cost(f, q)
        },
        None => forall|q: Seq<Point>| !#[trigger] path_ok(f, q),
    }
}

/// The state of a search: the waiting entries, the best score found for
/// each state, the state each was last reached from, and the last sequence
/// number handed out.
pub struct Search {
    pub open: Multiset<Entry>,
    pub scores: Seq<usize>,
    pub prev: Seq<(Point, u8)>,
    pub seqn: int,
}

/// A predecessor slot that has not been written.
pub open spec fn no_prev() -> (Point, u8) {
    ((0i64, 0i64), 0u8)
}

/// The entry that comes first among the waiting ones: by estimate, then
/// score, then sequence number.
pub open spec fn first_entry(m: Multiset<Entry>) -> Entry {
    choose|e: Entry| m.contains(e) && forall|e2: Entry| #[trigger] m.contains(e2) ==> entry_le(e, e2)
}

/// Every waiting entry has a sequence number of its own, none past `seqn`.
pub open spec fn seq_fresh(m: Multiset<Entry>, seqn: int) -> bool {
    &&& forall|a: Entry| #[trigger] m.contains(a) ==> a.2 <= seqn
    &&& forall|a: Entry, b: Entry| #[trigger] m.contains(a) && #[trigger] m.contains(b) && a.2 == b.2 ==> a == b
}

/// The search after trying the step from `p` (arrived going `dc`, with
/// `score`) in direction `d`: a cheaper way to the neighbour is recorded
/// and queued under the next sequence number.
pub open spec fn relax_dir(f: Field, s: Search, p: Point, dc: int, score: int, d: Dir) -> Search {
    let nq = shift(pt(p), d);
    let ni = enc(f.b, nq, code(Some(d)));
    let ns = score + step_cost(f, dir_of(dc), nq, d);
    if !open_cell(f, nq) || ns >= s.scores[ni] {
        s
    } else {
        Search {
            open: s.open.insert(
                (
                    (ns + spec_manhattan(nq, pt(f.goal))) as usize,
                    ns as usize,
                    (s.seqn + 1) as usize,
                    (nq.0 as i64, nq.1 as i64),
                    code(Some(d)) as u8,
                ),
            ),
            scores: s.scores.update(ni, ns as usize),
            prev: s.prev.update(ni, (p, dc as u8)),
            seqn: s.seqn + 1,
        }
    }
}

/// The search after trying the first `k` directions, right, down, left, up.
pub open spec fn relax_upto(f: Field, s: Search, p: Point, dc: int, score: int, k: nat) -> Search
    decreases k,
{
    if k == 0 {
        s
    } else {
        relax_dir(f, relax_upto(f, s, p, dc, score, (k - 1) as nat), p, dc, score, dir_of(k as int)->0)
    }
}

/// The cells from the start to the state "at `q`, arrived going `c`",
/// following the recorded predecessors (at most `fuel` steps back).
pub open spec fn trace_path(f: Field, prev: Seq<(Point, u8)>, q: Point, c: int, fuel: nat) -> Seq<Point>
    decreases fuel,
{
    if fuel == 0 || (q == f.start && c == 0) {
        seq![q]
    } else {
        let pp = prev[enc(f.b, pt(q), c)];
        trace_path(f, prev, pp.0, pp.1 as int, (fuel - 1) as nat).push(q)
    }
}

/// One round of a search: it goes on, or it has its answer.
pub enum Outcome {
    Running(Search),
    Done(Option<(usize, Seq<Point>)>),
}

/// One round: take the first waiting entry; skip it if its state has
/// since scored better; stop at the goal; else try the four directions.
pub open spec fn search_step(f: Field, s: Search) -> Outcome {
    if s.open.len() == 0 {
        Outcome::Done(None)
    } else {
        let e = first_entry(s.open);
        let s1 = Search { open: s.open.remove(e), scores: s.scores, prev: s.prev, seqn: s.seqn };
        if s.scores[enc(f.b, pt(e.3), e.4 as int)] != e.1 {
            Outcome::Running(s1)
        } else if e.3 == f.goal {
            Outcome::Done(Some((e.1, trace_path(f, s.prev, e.3, e.4 as int, (e.1 + 1) as nat))))
        } else {
            Outcome::Running(relax_upto(f, s1, e.3, e.4 as int, e.1 as int, 4))
        }
    }
}

/// The answer of a search after at most `fuel` rounds.
pub open spec fn run_search(f: Field, s: Search, fuel: nat) -> Option<(usize, Seq<Point>)>
    decreases fuel,
{
    if fuel == 0 {
        None
    } else {
        match search_step(f, s) {
            Outcome::Done(r) => r,
            Outcome::Running(s2) => run_search(f, s2, (fuel - 1) as nat),
        }
    }
}

/// A search before its first round: the start queued with score 0.
pub open spec fn search_start(f: Field) -> Search {
    Search {
        open: Multiset::empty().insert(
            (spec_manhattan(pt(f.start), pt(f.goal)) as usize, 0usize, 0usize, f.start, 0u8),
        ),
        scores: Seq::new(
            nstates(f.b) as nat,
            |i: int|
                if i == enc(f.b, pt(f.start), 0) {
                    0usize
                } else {
                    usize::MAX
                },
        ),
        prev: Seq::new(nstates(f.b) as nat, |i: int| no_prev()),
        seqn: 0,
    }
}

/// The rounds a search takes at most: one per queued entry.
pub open spec fn search_fuel(f: Field) -> nat {
    (4 * nstates(f.b) + 1) as nat
}

/// What the search answers: the route and price it arrives at when entries
/// are taken by estimate, then score, then the order they were queued in,
/// and directions are tried right, down, left, up.
pub open spec fn spec_astar(f: Field) -> Option<(usize, Seq<Point>)> {
    run_search(f, search_start(f), search_fuel(f))
}

/// A search answer with its route as a sequence.
pub open spec fn answer_view(r: Option<(usize, Vec<Point>)>) -> Option<(usize, Seq<Point>)> {
    match r {
        Some((c, p)) => Some((c, p@)),
        None => None,
    }
}

/// The search as it stands in the working buffers.
pub open spec fn search_now(open: Seq<Entry>, scores: Seq<usize>, prev: Seq<(Point, u8)>, seqn: int) -> Search {
    Search { open: open.to_multiset(), scores, prev, seqn }
}

/// The first entry of a heap is the first entry of its contents.
pub proof fn lemma_first_entry(s: Seq<Entry>, seqn: int)
    requires
        s.len() > 0,
        forall|k: int| 0 <= k < s.len() ==> entry_le(s[0], #[trigger] s[k]),
        seq_fresh(s.to_multiset(), seqn),
    ensures
        first_entry(s.to_multiset()) == s[0],
{
    broadcast use vstd::seq_lib::group_to_multiset_ensures;

    let m = s.to_multiset();
    assert(s.contains(s[0]));
    assert forall|e2: Entry| #[trigger] m.contains(e2) implies entry_le(s[0], e2) by {
        assert(s.contains(e2));
        let k = choose|k: int| 0 <= k < s.len() && s[k] == e2;
        assert(entry_le(s[0], s[k]));
    }
    assert(m.contains(s[0]));
    assert(m.contains(s[0]) && forall|e2: Entry| #[trigger] m.contains(e2) ==> entry_le(s[0], e2));
    let e = first_entry(m);
    assert(m.contains(e) && forall|e2: Entry| #[trigger] m.contains(e2) ==> entry_le(e, e2));
    assert(entry_le(e, s[0]));
    assert(entry_le(s[0], e));
    assert(e.2 == s[0].2);
}

/// One step back along the predecessors: the traced cells grow by one at
/// the front.
pub proof fn lemma_trace_step(f: Field, prev: Seq<(Point, u8)>, back: Seq<Point>, full: Seq<Point>, q: Point, c: int, n: nat)
    requires
        n >= 1,
        !(q == f.start && c == 0),
        back.len() >= 1,
        back.last() == q,
        full == trace_path(f, prev, q, c, n) + rev(back).skip(1),
    ensures
        full == trace_path(f, prev, prev[enc(f.b, pt(q), c)].0, prev[enc(f.b, pt(q), c)].1 as int, (n - 1) as nat)
            + rev(back.push(prev[enc(f.b, pt(q), c)].0)).skip(1),
{
    let pp = prev[enc(f.b, pt(q), c)];
    let t = trace_path(f, prev, pp.0, pp.1 as int, (n - 1) as nat);
    assert(rev(back.push(pp.0)).skip(1) =~= rev(back));
    assert(rev(back) =~= seq![q] + rev(back).skip(1));
    assert(trace_path(f, prev, q, c, n) == t.push(q));
    assert(t.push(q) + rev(back).skip(1) =~= t + rev(back.push(pp.0)).skip(1));
}

/// At the start the traced cells are the whole route.
pub proof fn lemma_trace_done(f: Field, prev: Seq<(Point, u8)>, back: Seq<Point>, full: Seq<Point>, q: Point, n: nat)
    requires
        q == f.start,
        back.len() >= 1,
        back.last() == q,
        full == trace_path(f, prev, q, 0, n) + rev(back).skip(1),
    ensures
        full == rev(back),
{
    assert(trace_path(f, prev, q, 0, n) == seq![q]);
    assert(rev(back) =~= seq![q] + rev(back).skip(1));
}

/// Every written predecessor belongs to a scored state.
pub open spec fn prev_clean(scores: Seq<usize>, prev: Seq<(Point, u8)>) -> bool {
    &&& prev.len() == scores.len()
    &&& forall|i: int| 0 <= i < prev.len() && #[trigger] prev[i] != no_prev() ==> scores[i] != usize::MAX
}

pub proof fn lemma_fresh_start(e: Entry)
    requires
        e.2 == 0,
    ensures
        seq_fresh(Multiset::empty().insert(e), 0),
{
    broadcast use vstd::multiset::group_multiset_axioms;

}

pub proof fn lemma_fresh_remove(m: Multiset<Entry>, seqn: int, e: Entry)
    requires
        seq_fresh(m, seqn),
    ensures
        seq_fresh(m.remove(e), seqn),
{
    broadcast use vstd::multiset::group_multiset_axioms;

    assert forall|a: Entry| #[trigger] m.remove(e).contains(a) implies m.contains(a) by {
        assert(m.remove(e).count(a) <= m.count(a));
    }
}

pub proof fn lemma_fresh_insert(m: Multiset<Entry>, seqn: int, e: Entry)
    requires
        seq_fresh(m, seqn),
        e.2 == seqn + 1,
    ensures
        seq_fresh(m.insert(e), seqn + 1),
{
    broadcast use vstd::multiset::group_multiset_axioms;

    assert forall|a: Entry| #[trigger] m.insert(e).contains(a) implies m.contains(a) || a == e by {
        if a != e {
            assert(m.insert(e).count(a) == m.count(a));
        }
    }
}

/// Follows the recorded predecessors from a settled state back to the
/// start, and gives the cells in walking order.
fn trace_back(
    b: Bounds,
    w: usize,
    scores: &Vec<usize>,
    previous: &Vec<(Point, u8)>,
    start: Point,
    goal_p: Point,
    gc: u8,
    Ghost(f): Ghost<Field>,
    Ghost(open): Ghost<Seq<Entry>>,
    Ghost(closed): Ghost<Set<int>>,
    Ghost(seqn): Ghost<int>,
) -> (path: Vec<Point>)
    requires
        search_inv(f, scores@, previous@, open, closed, seqn, -1, 4),
        f.b == b,
        f.start == start,
        w == b.width(),
        b.has(pt(goal_p)),
        gc < 5,
        fin(scores@, enc(b, pt(goal_p), gc as int)),
    ensures
        walk(f, path@),
        ends_at(path@, pt(goal_p), gc as int),
        walk_cost(f, path@) == scores@[enc(b, pt(goal_p), gc as int)],
        path@ == trace_path(f, previous@, goal_p, gc as int, (scores@[enc(b, pt(goal_p), gc as int)] + 1) as nat),
{
    let ghost g = scores@[enc(b, pt(goal_p), gc as int)] as int;
    let mut back: Vec<Point> = Vec::new();
    back.push(goal_p);
    let mut cp = goal_p;
    let mut cc = gc;
    let ghost full = trace_path(f, previous@, goal_p, gc as int, (g + 1) as nat);
    let ghost mut n: nat = (g + 1) as nat;
    proof {
        lemma_back_init(f, scores@, goal_p, gc as int);
        assert(back@ =~= seq![goal_p]);
        assert(rev(back@).skip(1) =~= Seq::<Point>::empty());
        assert(full =~= trace_path(f, previous@, cp, cc as int, n) + rev(back@).skip(1));
    }
    while !(cp.0 == start.0 && cp.1 == start.1 && cc == 0)
        invariant
            search_inv(f, scores@, previous@, open, closed, seqn, -1, 4),
            f.b == b,
            f.start == start,
            w == b.width(),
            b.has(pt(cp)),
            cc < 5,
            fin(scores@, enc(b, pt(cp), cc as int)),
            back@.len() >= 1,
            back@.last() == cp,
            tail_ok(f, scores@, back@, pt(cp), cc as int, pt(goal_p), gc as int, g),
            full == trace_path(f, previous@, goal_p, gc as int, (g + 1) as nat),
            full == trace_path(f, previous@, cp, cc as int, n) + rev(back@).skip(1),
            n >= scores@[enc(b, pt(cp), cc as int)] + 1,
        decreases scores@[enc(b, pt(cp), cc as int)],
    {
        let si = state_index(b, w, cp, cc);
        proof {
            assert(state_ok(f, scores@, previous@, open, closed, -1, 4, pt(cp), cc as int));
        }
        let (pp, pc) = previous[si];
        proof {
            lemma_back_step(f, scores@, previous@, closed, back@, pt(cp), cc as int, pt(goal_p), gc as int, g, pp, pc as int);
            assert(state_ok(f, scores@, previous@, open, closed, -1, 4, pt(pp), pc as int));
            lemma_step_cost_bound(f, dir_of(pc as int), pt(cp), dir_of(cc as int)->0);
        }
        proof {
            lemma_trace_step(f, previous@, back@, full, cp, cc as int, n);
            n = (n - 1) as nat;
        }
        back.push(pp);
        cp = pp;
        cc = pc;
    }
    proof {
        lemma_back_done(f, scores@, back@, pt(goal_p), gc as int, g);
        assert(cp == start);
        lemma_trace_done(f, previous@, back@, full, cp, n);
    }
    let mut path: Vec<Point> = Vec::new();
    let mut k: usize = back.len();
    while k > 0
        invariant
            k <= back.len(),
            path@ == rev(back@).take(back.len() - k),
        decreases k,
    {
        k = k - 1;
        path.push(back[k]);
        proof {
            assert(path@ =~= rev(back@).take(back.len() - k));
        }
    }
    proof {
        assert(path@ =~= rev(back@));
    }
    path
}

/// The search proper, for a start and a goal inside the rectangle.
#[verifier::rlimit(40)]
fn search_core(
    start: Point,
    goal: Point,
    bounds: Bounds,
    inner: Bounds,
    blocked: &Vec<bool>,
    used: &Vec<u8>,
    scores: &mut Vec<usize>,
    previous: &mut Vec<(Point, u8)>,
) -> (r: Option<(usize, Vec<Point>)>)
    requires
        field_ok(field_in(bounds, blocked@, used@, start, goal, inner)),
        buffers_ready(bounds, old(scores)@, old(previous)@),
    ensures
        astar_ok(field_in(bounds, blocked@, used@, start, goal, inner), r),
        answer_view(r) == spec_astar(field_in(bounds, blocked@, used@, start, goal, inner)),
        r matches Some((c, _)) ==> c <= 25 * nstates(bounds),
        buffers_ready(bounds, final(scores)@, final(previous)@),
{
    let ghost f = field_in(bounds, blocked@, used@, start, goal, inner);
    let w = (bounds.max_x - bounds.min_x + 1) as usize;
    let h = (bounds.max_y - bounds.min_y + 1) as usize;
    proof {
        assert(w * h * 5 <= 125 * (w * h)) by (nonlinear_arith)
            requires
                0 <= w,
                0 <= h,
        ;
    }
    let s0 = state_index(bounds, w, start, 0);
    scores.set(s0, 0);
    let mut touched: Vec<usize> = Vec::new();
    touched.push(s0);
    proof {
        assert forall|j: int| 0 <= j < scores@.len() && #[trigger] scores@[j] != usize::MAX implies touched@.contains(
            j as usize,
        ) by {
            assert(j == s0);
            assert(touched@[0] == s0);
        }
    }
    let mut open: Vec<Entry> = Vec::new();
    open.push((manhattan(start, goal), 0, 0, start, 0));
    let mut sequence: usize = 0;
    let ghost mut closed: Set<int> = Set::empty();
    let ghost mut iter: int = 0;
    proof {
        lemma_init(f, scores@, previous@, open@);
        broadcast use vstd::seq_lib::group_to_multiset_ensures;

        assert(open@ =~= Seq::<Entry>::empty().push(open@[0]));
        assert(open@.to_multiset() =~= search_start(f).open);
        assert(scores@ =~= search_start(f).scores);
        assert(previous@ =~= search_start(f).prev);
        assert(search_now(open@, scores@, previous@, 0) == search_start(f));
        lemma_fresh_start(open@[0]);
    }
    while open.len() > 0
        invariant
            f == field_in(bounds, blocked@, used@, start, goal, inner),
            w == bounds.width(),
            h == bounds.height(),
            search_inv(f, scores@, previous@, open@, closed, sequence as int, -1, 4),
            heap_ok(open@),
            all_touched(scores@, touched@),
            prev_clean(scores@, previous@),
            seq_fresh(open@.to_multiset(), sequence as int),
            iter >= 0,
            iter + open@.len() == sequence + 1,
            run_search(f, search_now(open@, scores@, previous@, sequence as int), (search_fuel(f) - iter) as nat)
                == spec_astar(f),
        decreases nstates(bounds) - closed.len(), open.len(),
    {
        let ghost open0 = open@;
        let ghost st = search_now(open0, scores@, previous@, sequence as int);
        let ghost fuel = (search_fuel(f) - iter) as nat;
        let e = heap_pop(&mut open);
        let i: usize = 0;
        proof {
            lemma_pop_multiset(open0);
            lemma_first_entry(open0, sequence as int);
            broadcast use vstd::seq_lib::group_to_multiset_ensures;

            assert(st.open.len() == open0.len());
            assert(first_entry(st.open) == e);
            lemma_fresh_remove(open0.to_multiset(), sequence as int, e);
            assert(fuel >= 1);
            iter = iter + 1;
        }
        let ghost s1 = search_now(open@, scores@, previous@, sequence as int);
        assert(s1 == Search { open: st.open.remove(e), scores: st.scores, prev: st.prev, seqn: st.seqn });
        let score = e.1;
        let p = e.3;
        let dc = e.4;
        proof {
            assert(entry_ok(f, open0[i as int], 25 * closed.len() as int));
        }
        let si = state_index(bounds, w, p, dc);
        if scores[si] != score {
            proof {
                assert(search_step(f, st) == Outcome::Running(s1));
                lemma_stale(f, scores@, previous@, open0, closed, sequence as int, i as int);
                lemma_inv_perm(
                    f,
                    scores@,
                    previous@,
                    open0.update(0, open0.last()).drop_last(),
                    open@,
                    closed,
                    sequence as int,
                    -1,
                    4,
                );
            }
            continue;
        }
        if p.0 == goal.0 && p.1 == goal.1 {
            proof {
                lemma_goal(f, scores@, previous@, open0, closed, sequence as int, i as int);
                assert(state_ok(f, scores@, previous@, open0, closed, -1, 4, pt(p), dc as int));
            }
            let path = trace_back(
                bounds,
                w,
                scores,
                previous,
                start,
                p,
                dc,
                Ghost(f),
                Ghost(open0),
                Ghost(closed),
                Ghost(sequence as int),
            );
            proof {
                assert(search_step(f, st) == Outcome::Done(Some((score, path@))));
            }
            clear_buffers(scores, previous, &touched);
            return Some((score, path));
        }
        let ghost was_closed = closed.contains(si as int);
        let ghost closed0 = closed;
        let ghost scores0 = scores@;
        let ghost len0 = open.len();
        proof {
            assert(state_ok(f, scores@, previous@, open0, closed, -1, 4, pt(p), dc as int));
            lemma_settle(f, scores@, previous@, open0, closed, sequence as int, i as int);
            lemma_inv_perm(
                f,
                scores@,
                previous@,
                open0.update(0, open0.last()).drop_last(),
                open@,
                closed.insert(si as int),
                sequence as int,
                si as int,
                0,
            );
            closed = closed.insert(si as int);
        }
        let mut kk: usize = 0;
        while kk < 4
            invariant
                f == field_in(bounds, blocked@, used@, start, goal, inner),
                w == bounds.width(),
                h == bounds.height(),
                kk <= 4,
                bounds.has(pt(p)),
                dc < 5,
                si == enc(bounds, pt(p), dc as int),
                closed.contains(si as int),
                scores@[si as int] == score,
                search_inv(f, scores@, previous@, open@, closed, sequence as int, si as int, kk as int),
                heap_ok(open@),
                all_touched(scores@, touched@),
                was_closed ==> closed == closed0 && scores@ == scores0 && open.len() == len0 && relaxed_upto(
                    f,
                    scores@,
                    pt(p),
                    dc as int,
                    4,
                ),
                !was_closed ==> closed.len() == closed0.len() + 1 && sequence <= 4 * closed0.len() + kk,
                prev_clean(scores@, previous@),
                seq_fresh(open@.to_multiset(), sequence as int),
                iter + open@.len() == sequence + 1,
                p == e.3,
                dc == e.4,
                score == e.1,
                search_now(open@, scores@, previous@, sequence as int) == relax_upto(f, s1, p, dc as int, score as int, kk as nat),
            decreases 4 - kk,
        {
            let d = dir_at(kk);
            let dl = d.delta();
            let np = (p.0 + dl.0, p.1 + dl.1);
            let ghost cur = search_now(open@, scores@, previous@, sequence as int);
            proof {
                lemma_code(Some(d));
                lemma_shift_step(p, d);
                assert(dir_of((kk + 1) as int) == Some(d));
                assert(relax_upto(f, s1, p, dc as int, score as int, (kk + 1) as nat)
                    == relax_dir(f, cur, p, dc as int, score as int, d));
            }
            if !inner.contains(np) || !bounds.contains(np) || blocked_at(bounds, w, blocked, np) {
                proof {
                    assert(relaxed(f, scores@, pt(p), dc as int, d));
                    lemma_relax_skip(f, scores@, previous@, open@, closed, sequence as int, pt(p), dc as int, d);
                }
            } else {
                let dcn = dir_code(d);
                let stp = step_price(bounds, w, blocked, used, start, goal, dc, np, d);
                proof {
                    assert(state_ok(f, scores@, previous@, open@, closed, si as int, kk as int, pt(p), dc as int));
                    assert(25 * closed.len() <= 125 * (bounds.width() * bounds.height()));
                }
                let ni = state_index(bounds, w, np, dcn);
                let next_score = score + stp;
                if next_score >= scores[ni] {
                    proof {
                        assert(relaxed(f, scores@, pt(p), dc as int, d));
                        lemma_relax_skip(f, scores@, previous@, open@, closed, sequence as int, pt(p), dc as int, d);
                    }
                } else {
                    proof {
                        if was_closed {
                            assert(relaxed(f, scores@, pt(p), dc as int, d));
                        }
                        lemma_relax_update(
                            f,
                            scores@,
                            previous@,
                            open@,
                            closed,
                            sequence as int,
                            p,
                            dc as int,
                            d,
                            np,
                            (sequence + 1) as usize,
                        );
                    }
                    let est = next_score + manhattan(np, goal);
                    proof {
                        lemma_touched_push(scores@, touched@, ni, next_score);
                    }
                    scores.set(ni, next_score);
                    touched.push(ni);
                    previous.set(ni, (p, dc));
                    sequence = sequence + 1;
                    let ghost pushed = open@.push((est, next_score, sequence, np, dcn));
                    heap_push(&mut open, (est, next_score, sequence, np, dcn));
                    proof {
                        lemma_fresh_insert(cur.open, (sequence - 1) as int, (est, next_score, sequence, np, dcn));
                        assert(search_now(open@, scores@, previous@, sequence as int) == relax_dir(f, cur, p, dc as int, score as int, d));
                        broadcast use vstd::seq_lib::group_to_multiset_ensures;

                        lemma_inv_perm(
                            f,
                            scores@,
                            previous@,
                            pushed,
                            open@,
                            closed,
                            sequence as int,
                            si as int,
                            kk + 1,
                        );
                    }
                }
            }
            kk = kk + 1;
        }
        proof {
            lemma_unmark(f, scores@, previous@, open@, closed, sequence as int, si as int);
        }
    }
    proof {
        lemma_exhausted(f, scores@, previous@, open@, closed, sequence as int);
    }
    clear_buffers(scores, previous, &touched);
    None
}

/// What a search may be asked: a sane rectangle, a covered flag and a
/// line-end mask per cell, and a start inside the rectangle, or next to no
/// free cell of it, or such that the rectangle widened to take it in is
/// still sane (the grid of the search must fit in memory).
pub open spec fn search_ok(f: Field) -> bool {
    &&& f.b.sane()
    &&& f.blocked.len() == f.b.width() * f.b.height()
    &&& f.used.len() == f.b.width() * f.b.height()
    &&& f.b.has(pt(f.start)) || (forall|d: Dir| !open_cell(f, #[trigger] shift(pt(f.start), d))) || hull(
        f.b,
        f.start,
    ).sane()
}

/// What a search answers: the one-cell route when the start is the goal
/// outside the rectangle, and no route when the goal is outside it
/// otherwise; from a start outside the rectangle, no route when it is next
/// to no free cell, and else the search over the rectangle widened to take
/// the start in (routes still keep to the rectangle); else the search
/// proper.
pub open spec fn spec_search(f: Field) -> Option<(usize, Seq<Point>)> {
    if !f.b.has(pt(f.goal)) {
        if f.start == f.goal {
            Some((0usize, seq![f.start]))
        } else {
            None
        }
    } else if !f.b.has(pt(f.start)) {
        if exists|d: Dir| open_cell(f, #[trigger] shift(pt(f.start), d)) {
            spec_astar(widened(f))
        } else {
            None
        }
    } else {
        spec_astar(f)
    }
}

pub proof fn lemma_walk_cost_nonneg(f: Field, pts: Seq<Point>)
    ensures
        walk_cost(f, pts) >= 0,
    decreases pts.len(),
{
    if pts.len() > 1 {
        lemma_walk_cost_nonneg(f, pts.drop_last());
        lemma_step_cost_bound(f, last_dir(pts.drop_last()), pt(pts.last()), dir_between(pts[pts.len() - 2], pts.last()));
    }
}

/// With an end outside the rectangle the answers of `spec_search` are right.
proof fn lemma_outside_ends(f: Field)
    requires
        search_ok(f),
        !f.b.has(pt(f.goal)) || (!f.b.has(pt(f.start)) && forall|d: Dir| !open_cell(f, #[trigger] shift(pt(f.start), d))),
    ensures
        spec_search(f) is None ==> forall|q: Seq<Point>| !#[trigger] path_ok(f, q),
        spec_search(f) is Some ==> f.start == f.goal,
{
    if spec_search(f) is None {
        assert forall|q: Seq<Point>| !#[trigger] path_ok(f, q) by {
            if path_ok(f, q) {
                if q.len() == 1 {
                    assert(q[0] == f.start);
                } else {
                    lemma_walk_open(f, q, 1);
                    let last = q.len() - 1;
                    lemma_walk_open(f, q, last);
                    if f.b.has(pt(f.goal)) {
                        let d = choose|d: Dir| #[trigger] step(q[0], d) == (q[1].0 as int, q[1].1 as int);
                        lemma_shift_step(q[0], d);
                        assert(!open_cell(f, shift(pt(f.start), d)));
                    }
                }
            }
        }
    }
}

/// The rectangle widened to take in `p`.
pub open spec fn hull(b: Bounds, p: Point) -> Bounds {
    Bounds {
        min_x: if p.0 < b.min_x { p.0 } else { b.min_x },
        min_y: if p.1 < b.min_y { p.1 } else { b.min_y },
        max_x: if p.0 > b.max_x { p.0 } else { b.max_x },
        max_y: if p.1 > b.max_y { p.1 } else { b.max_y },
    }
}

/// The field over the rectangle widened to take in the start: the new
/// cells hold no box and no line, and routes keep to the old rectangle.
pub open spec fn widened(f: Field) -> Field {
    let b2 = hull(f.b, f.start);
    Field {
        b: b2,
        blocked: Seq::new(
            (b2.width() * b2.height()) as nat,
            |i: int| f.b.has(decode(b2, i)) && f.blocked[f.b.cell(decode(b2, i))],
        ),
        used: Seq::new(
            (b2.width() * b2.height()) as nat,
            |i: int|
                if f.b.has(decode(b2, i)) {
                    f.used[f.b.cell(decode(b2, i))]
                } else {
                    0u8
                },
        ),
        start: f.start,
        goal: f.goal,
        inner: f.b,
    }
}

/// The index of a cell names the cell.
pub proof fn lemma_decode_cell(b: Bounds, q: (int, int))
    requires
        b.sane(),
        b.has(q),
    ensures
        decode(b, b.cell(q)) == q,
{
    lemma_cell_range(b, q);
    lemma_decode(b, b.cell(q));
    lemma_cell_inj(b, decode(b, b.cell(q)), q);
}

/// The widened field has the free cells, boxes and line ends of the field.
pub proof fn lemma_widened_cells(f: Field, q: (int, int))
    requires
        f.inner == f.b,
        f.b.sane(),
        hull(f.b, f.start).sane(),
    ensures
        open_cell(widened(f), q) == open_cell(f, q),
        blocked_in(widened(f).b, widened(f).blocked, q) == blocked_in(f.b, f.blocked, q),
        f.b.has(q) ==> widened(f).used[widened(f).b.cell(q)] == f.used[f.b.cell(q)],
{
    let w = widened(f);
    let b2 = w.b;
    if b2.has(q) {
        lemma_decode_cell(b2, q);
        lemma_cell_range(b2, q);
    }
}

/// Stepping costs the same in the widened field.
pub proof fn lemma_widened_step(f: Field, prev: Option<Dir>, q: (int, int), d: Dir)
    requires
        f.inner == f.b,
        f.b.sane(),
        hull(f.b, f.start).sane(),
        f.b.has(q),
    ensures
        step_cost(widened(f), prev, q, d) == step_cost(f, prev, q, d),
{
    lemma_widened_cells(f, q);
    lemma_widened_cells(f, shift(q, Dir::R));
    lemma_widened_cells(f, shift(q, Dir::D));
    lemma_widened_cells(f, shift(q, Dir::L));
    lemma_widened_cells(f, shift(q, Dir::U));
}

/// A walk of the field is a walk of the widened field, at the same price.
pub proof fn lemma_widened_walk(f: Field, pts: Seq<Point>)
    requires
        f.inner == f.b,
        f.b.sane(),
        hull(f.b, f.start).sane(),
    ensures
        walk(widened(f), pts) == walk(f, pts),
        walk(f, pts) ==> walk_cost(widened(f), pts) == walk_cost(f, pts),
    decreases pts.len(),
{
    let w = widened(f);
    if pts.len() >= 1 {
        assert forall|i: int| 1 <= i < pts.len() implies open_cell(w, pt(#[trigger] pts[i])) == open_cell(f, pt(pts[i])) by {
            lemma_widened_cells(f, pt(pts[i]));
        }
        assert(walk(w, pts) == walk(f, pts));
    }
    if pts.len() >= 2 && walk(f, pts) {
        lemma_walk_drop(f, pts);
        lemma_widened_walk(f, pts.drop_last());
        lemma_widened_step(f, last_dir(pts.drop_last()), pt(pts.last()), dir_between(pts[pts.len() - 2], pts.last()));
    }
}

/// What holds of the widened field holds of the field.
pub proof fn lemma_widened_answer(f: Field, r: Option<(usize, Vec<Point>)>)
    requires
        f.inner == f.b,
        f.b.sane(),
        hull(f.b, f.start).sane(),
        astar_ok(widened(f), r),
    ensures
        astar_ok(f, r),
{
    assert forall|q: Seq<Point>| path_ok(widened(f), q) == path_ok(f, q) by {
        lemma_widened_walk(f, q);
    }
    match r {
        Some((c, path)) => {
            lemma_widened_walk(f, path@);
            assert forall|q: Seq<Point>| #[trigger] path_ok(f, q) implies c <= walk_cost(f, q) by {
                lemma_widened_walk(f, q);
                assert(path_ok(widened(f), q));
            }
        },
        None => {
            assert forall|q: Seq<Point>| !#[trigger] path_ok(f, q) by {
                lemma_widened_walk(f, q);
                assert(!path_ok(widened(f), q));
            }
        },
    }
}

/// The search from a start outside the rectangle, over the rectangle
/// widened to take it in.
fn search_widened(start: Point, goal: Point, bounds: Bounds, blocked: &Vec<bool>, used: &Vec<u8>) -> (r: Option<
    (usize, Vec<Point>),
>)
    requires
        bounds.sane(),
        hull(bounds, start).sane(),
        blocked.len() == bounds.width() * bounds.height(),
        used.len() == bounds.width() * bounds.height(),
        bounds.has(pt(goal)),
    ensures
        astar_ok(widened(field(bounds, blocked@, used@, start, goal)), r),
        answer_view(r) == spec_astar(widened(field(bounds, blocked@, used@, start, goal))),
        r matches Some((c, _)) ==> c <= 25 * nstates(hull(bounds, start)),
{
    let ghost f = field(bounds, blocked@, used@, start, goal);
    let ghost wf = widened(f);
    let b2 = Bounds {
        min_x: if start.0 < bounds.min_x { start.0 } else { bounds.min_x },
        min_y: if start.1 < bounds.min_y { start.1 } else { bounds.min_y },
        max_x: if start.0 > bounds.max_x { start.0 } else { bounds.max_x },
        max_y: if start.1 > bounds.max_y { start.1 } else { bounds.max_y },
    };
    assert(b2 == hull(bounds, start));
    let w = (bounds.max_x - bounds.min_x + 1) as usize;
    let w2 = (b2.max_x - b2.min_x + 1) as usize;
    let h2 = (b2.max_y - b2.min_y + 1) as usize;
    proof {
        assert(w2 * h2 * 5 <= 125 * (w2 * h2)) by (nonlinear_arith)
            requires
                0 <= w2,
                0 <= h2,
        ;
        assert(0 <= w2 * h2) by (nonlinear_arith)
            requires
                0 <= w2,
                0 <= h2,
        ;
    }
    let n2 = w2 * h2;
    let mut blocked2: Vec<bool> = Vec::new();
    let mut used2: Vec<u8> = Vec::new();
    let mut i: usize = 0;
    while i < n2
        invariant
            b2 == hull(bounds, start),
            b2.sane(),
            bounds.sane(),
            w == bounds.width(),
            w2 == b2.width(),
            n2 == b2.width() * b2.height(),
            blocked.len() == bounds.width() * bounds.height(),
            used.len() == bounds.width() * bounds.height(),
            wf == widened(f),
            f == field(bounds, blocked@, used@, start, goal),
            i <= n2,
            blocked2.len() == i,
            used2.len() == i,
            forall|j: int| 0 <= j < i ==> #[trigger] blocked2@[j] == wf.blocked[j],
            forall|j: int| 0 <= j < i ==> #[trigger] used2@[j] == wf.used[j],
        decreases n2 - i,
    {
        proof {
            lemma_decode(b2, i as int);
        }
        let x = b2.min_x + (i % w2) as i64;
        let y = b2.min_y + (i / w2) as i64;
        assert(decode(b2, i as int) == (x as int, y as int));
        if bounds.contains((x, y)) {
            let ci = cell_index(bounds, w, (x, y));
            blocked2.push(blocked[ci]);
            used2.push(used[ci]);
        } else {
            blocked2.push(false);
            used2.push(0);
        }
        i = i + 1;
    }
    let mut scores2: Vec<usize> = Vec::new();
    let mut previous2: Vec<(Point, u8)> = Vec::new();
    let ns = n2 * 5;
    let mut k: usize = 0;
    while k < ns
        invariant
            k <= ns,
            scores2.len() == k,
            previous2.len() == k,
            forall|j: int| 0 <= j < k ==> #[trigger] scores2@[j] == usize::MAX,
            forall|j: int| 0 <= j < k ==> #[trigger] previous2@[j] == no_prev(),
        decreases ns - k,
    {
        scores2.push(usize::MAX);
        previous2.push(((0, 0), 0));
        k = k + 1;
    }
    proof {
        assert(blocked2@ =~= wf.blocked);
        assert(used2@ =~= wf.used);
        assert(field_in(b2, blocked2@, used2@, start, goal, bounds) == wf);
    }
    search_core(start, goal, b2, bounds, &blocked2, &used2, &mut scores2, &mut previous2)
}

/// The cheapest route from `start` to `goal` over the free cells of
/// `bounds`, with its price, where `blocked` marks the cells under boxes
/// and `used` the line ends already drawn. A goal outside the rectangle is
/// reached only by standing on it.
pub fn astar(
    start: Point,
    goal: Point,
    bounds: Bounds,
    blocked: &Vec<bool>,
    used: &Vec<u8>,
    scores: &mut Vec<usize>,
    previous: &mut Vec<(Point, u8)>,
) -> (r: Option<(usize, Vec<Point>)>)
    requires
        search_ok(field(bounds, blocked@, used@, start, goal)),
        buffers_ready(bounds, old(scores)@, old(previous)@),
    ensures
        astar_ok(field(bounds, blocked@, used@, start, goal), r),
        answer_view(r) == spec_search(field(bounds, blocked@, used@, start, goal)),
        r matches Some((c, _)) ==> c <= 25 * nstates(hull(bounds, start)),
        buffers_ready(bounds, final(scores)@, final(previous)@),
{
    let ghost f = field(bounds, blocked@, used@, start, goal);
    if !bounds.contains(goal) {
        proof {
            lemma_outside_ends(f);
        }
        if start.0 == goal.0 && start.1 == goal.1 {
            let mut path: Vec<Point> = Vec::new();
            path.push(start);
            proof {
                assert(path@ =~= seq![start]);
                assert(path_ok(f, path@));
                assert forall|q: Seq<Point>| #[trigger] path_ok(f, q) implies 0 <= walk_cost(f, q) by {
                    lemma_walk_cost_nonneg(f, q);
                }
            }
            return Some((0, path));
        }
        return None;
    }
    if !bounds.contains(start) {
        let near = start.0 >= bounds.min_x - 1 && start.0 <= bounds.max_x + 1 && start.1 >= bounds.min_y - 1
            && start.1 <= bounds.max_y + 1;
        let mut free = false;
        if near {
            let w = (bounds.max_x - bounds.min_x + 1) as usize;
            let mut kk: usize = 0;
            while kk < 4
                invariant
                    kk <= 4,
                    bounds.min_x - 1 <= start.0 <= bounds.max_x + 1,
                    bounds.min_y - 1 <= start.1 <= bounds.max_y + 1,
                    bounds.sane(),
                    w == bounds.width(),
                    blocked.len() == bounds.width() * bounds.height(),
                    f == field(bounds, blocked@, used@, start, goal),
                    free <==> exists|d: Dir| code(Some(d)) <= kk && open_cell(f, #[trigger] shift(pt(start), d)),
                decreases 4 - kk,
            {
                let d = dir_at(kk);
                let dl = d.delta();
                let np = (start.0 + dl.0, start.1 + dl.1);
                proof {
                    lemma_code(Some(d));
                    lemma_shift_step(start, d);
                }
                if bounds.contains(np) && !blocked_at(bounds, w, blocked, np) {
                    free = true;
                }
                proof {
                    assert(pt(np) == shift(pt(start), d));
                    if free {
                        if open_cell(f, shift(pt(start), d)) {
                            assert(code(Some(d)) <= kk + 1);
                        }
                    }
                    assert forall|d2: Dir| code(Some(d2)) <= kk + 1 && open_cell(f, #[trigger] shift(pt(start), d2)) implies free by {
                        if code(Some(d2)) == kk + 1 {
                            lemma_code(Some(d2));
                            assert(d2 == d);
                        }
                    }
                }
                kk = kk + 1;
            }
            proof {
                assert forall|d2: Dir| open_cell(f, #[trigger] shift(pt(start), d2)) implies free by {
                    lemma_code(Some(d2));
                }
            }
        } else {
            proof {
                assert forall|d2: Dir| !open_cell(f, #[trigger] shift(pt(start), d2)) by {
                    match d2 {
                        Dir::R => {},
                        Dir::D => {},
                        Dir::L => {},
                        Dir::U => {},
                    }
                }
            }
        }
        if !free {
            proof {
                lemma_outside_ends(f);
            }
            return None;
        }
        let r = search_widened(start, goal, bounds, blocked, used);
        proof {
            lemma_widened_answer(f, r);
        }
        return r;
    }
    search_core(start, goal, bounds, bounds, blocked, used, scores, previous)
}

/// Which side of a box a line leaves or enters by.
#[derive(Debug, Copy, Clone, PartialEq, Eq, Structural)]
pub enum Side {
    Left,
    Right,
}

/// The port on a side of a box at a row: the border cell and the cell
/// just outside it.
pub open spec fn spec_port(n: NodeBox, row: int, side: Side) -> Port {
    match side {
        Side::Left => Port { border: (n.x, row as i64), outside: ((n.x - 1) as i64, row as i64) },
        Side::Right => Port {
            border: ((n.x + n.w - 1) as i64, row as i64),
            outside: ((n.x + n.w) as i64, row as i64),
        },
    }
}

/// What a routed edge is: its two ports, its cells, and whether it has
/// arrows at both ends.
pub type RouteView = (Port, Port, Seq<Point>, bool);

/// What a routed edge is.
pub open spec fn route_view(r: RoutedEdge) -> RouteView {
    (r.source, r.target, r.path@, r.bidirectional)
}

/// What the routed edges are.
pub open spec fn route_views(rs: Seq<RoutedEdge>) -> Seq<RouteView> {
    rs.map_values(|r: RoutedEdge| route_view(r))
}

/// The line ends of a route's `i`-th cell: towards the cell before it (the
/// source's border for the first) and the cell after it (the target's
/// border for the last).
pub open spec fn spec_route_mask(path: Seq<Point>, i: int, s: Port, t: Port) -> u8 {
    let before = if i == 0 {
        s.border
    } else {
        path[i - 1]
    };
    let after = if i + 1 == path.len() {
        t.border
    } else {
        path[i + 1]
    };
    spec_bit(dir_between(path[i], before)) | spec_bit(dir_between(path[i], after))
}

/// The line ends in each cell after marking the first `k` cells of a route.
pub open spec fn mark(b: Bounds, u: Seq<u8>, path: Seq<Point>, s: Port, t: Port, k: nat) -> Seq<u8>
    decreases k,
{
    if k == 0 {
        u
    } else {
        let u1 = mark(b, u, path, s, t, (k - 1) as nat);
        let i = b.cell(pt(path[k - 1]));
        u1.update(i, u1[i] | spec_route_mask(path, k - 1, s, t))
    }
}

/// The line ends in each cell once the routes are drawn.
pub open spec fn usage(b: Bounds, rs: Seq<RouteView>) -> Seq<u8>
    decreases rs.len(),
{
    if rs.len() == 0 {
        Seq::new((b.width() * b.height()) as nat, |i: int| 0u8)
    } else {
        let r = rs.last();
        mark(b, usage(b, rs.drop_last()), r.2, r.0, r.1, r.2.len())
    }
}

/// How many route ends leave from or arrive at a border cell.
pub open spec fn port_count(rs: Seq<RouteView>, q: Point) -> nat
    decreases rs.len(),
{
    if rs.len() == 0 {
        0
    } else {
        port_count(rs.drop_last(), q) + (if rs.last().0.border == q {
            1nat
        } else {
            0nat
        }) + (if rs.last().1.border == q {
            1nat
        } else {
            0nat
        })
    }
}

/// The box covers the cell.
pub open spec fn node_has(n: NodeBox, q: (int, int)) -> bool {
    n.x <= q.0 <= n.x + n.w - 1 && n.y <= q.1 <= n.y + n.h - 1
}

/// Some box covers the cell.
pub open spec fn in_boxes(nodes: Seq<NodeBox>, q: (int, int)) -> bool {
    exists|k: int| 0 <= k < nodes.len() && #[trigger] node_has(nodes[k], q)
}

/// The cell with a row-major index.
pub open spec fn decode(b: Bounds, i: int) -> (int, int) {
    (b.min_x + i % b.width(), b.min_y + i / b.width())
}

/// Which cells of the rectangle the boxes cover.
pub open spec fn blocked_grid(b: Bounds, nodes: Seq<NodeBox>) -> Seq<bool> {
    Seq::new((b.width() * b.height()) as nat, |i: int| in_boxes(nodes, decode(b, i)))
}

/// The leftmost column of the boxes.
pub open spec fn lo_x(nodes: Seq<NodeBox>) -> int
    decreases nodes.len(),
{
    if nodes.len() == 0 {
        i64::MAX as int
    } else {
        let m = lo_x(nodes.drop_last());
        if nodes.last().x < m {
            nodes.last().x as int
        } else {
            m
        }
    }
}

/// The top row of the boxes.
pub open spec fn lo_y(nodes: Seq<NodeBox>) -> int
    decreases nodes.len(),
{
    if nodes.len() == 0 {
        i64::MAX as int
    } else {
        let m = lo_y(nodes.drop_last());
        if nodes.last().y < m {
            nodes.last().y as int
        } else {
            m
        }
    }
}

/// The rightmost column of the boxes.
pub open spec fn hi_x(nodes: Seq<NodeBox>) -> int
    decreases nodes.len(),
{
    if nodes.len() == 0 {
        i64::MIN as int
    } else {
        let m = hi_x(nodes.drop_last());
        let r = nodes.last().x + nodes.last().w - 1;
        if r > m {
            r
        } else {
            m
        }
    }
}

/// The bottom row of the boxes.
pub open spec fn hi_y(nodes: Seq<NodeBox>) -> int
    decreases nodes.len(),
{
    if nodes.len() == 0 {
        i64::MIN as int
    } else {
        let m = hi_y(nodes.drop_last());
        let r = nodes.last().y + nodes.last().h - 1;
        if r > m {
            r
        } else {
            m
        }
    }
}

/// The rectangle routes may use: the boxes' extent, widened on every side
/// by six cells and one more per edge.
pub open spec fn route_bounds(l: Layout) -> Bounds {
    let m = 6 + l.edges.len();
    Bounds {
        min_x: (lo_x(l.nodes@) - m) as i64,
        min_y: (lo_y(l.nodes@) - m) as i64,
        max_x: (hi_x(l.nodes@) + m) as i64,
        max_y: (hi_y(l.nodes@) + m) as i64,
    }
}

/// The first box with a name, or -1.
pub open spec fn find_node(nodes: Seq<NodeBox>, name: Seq<char>) -> int
    decreases nodes.len(),
{
    if nodes.len() == 0 {
        -1
    } else {
        let k = find_node(nodes.drop_last(), name);
        if k >= 0 {
            k
        } else if nodes.last().name@ == name {
            nodes.len() - 1
        } else {
            -1
        }
    }
}

/// The edges in the order they are routed: those with arrows at both ends
/// first, each group in its own order.
pub open spec fn pending_edges(es: Seq<EdgeRoute>) -> Seq<EdgeRoute> {
    edges_with(es, true) + edges_with(es, false)
}

/// The edges whose arrows-at-both-ends flag is `flag`, in order.
pub open spec fn edges_with(es: Seq<EdgeRoute>, flag: bool) -> Seq<EdgeRoute>
    decreases es.len(),
{
    if es.len() == 0 {
        seq![]
    } else if es.last().bidirectional == flag {
        edges_with(es.drop_last(), flag).push(es.last())
    } else {
        edges_with(es.drop_last(), flag)
    }
}

/// The `j`-th of the four ways to join the boxes of an edge, in the order
/// they are tried: sides facing each other first.
pub open spec fn combo_ports(sn: NodeBox, tn: NodeBox, e: EdgeRoute, j: int) -> (Port, Port) {
    let srow = spec_line_row(sn.y as int, e.from_line as int);
    let trow = spec_line_row(tn.y as int, e.to_line as int);
    let sc = sn.x + sn.w / 2;
    let tc = tn.x + tn.w / 2;
    let fwd = tc >= sc;
    (spec_port(sn, srow, combo_side_s(fwd, j)), spec_port(tn, trow, combo_side_t(fwd, j)))
}

/// The source's side in the `j`-th way: the side facing the target first.
pub open spec fn combo_side_s(fwd: bool, j: int) -> Side {
    if (j < 2) == fwd {
        Side::Right
    } else {
        Side::Left
    }
}

/// The target's side in the `j`-th way: the side facing the source first.
pub open spec fn combo_side_t(fwd: bool, j: int) -> Side {
    if (j % 2 == 0) == fwd {
        Side::Left
    } else {
        Side::Right
    }
}

/// The search for a way between two ports, after the routes `rs`.
pub open spec fn combo_field(l: Layout, rs: Seq<RouteView>, src: Port, tgt: Port) -> Field {
    let b = route_bounds(l);
    Field {
        b: b,
        blocked: blocked_grid(b, l.nodes@),
        used: usage(b, rs),
        start: src.outside,
        goal: tgt.outside,
        inner: b,
    }
}

/// The two outside cells differ and neither is under a box.
pub open spec fn combo_open(l: Layout, src: Port, tgt: Port) -> bool {
    let b = route_bounds(l);
    &&& src.outside != tgt.outside
    &&& !in_boxes(l.nodes@, pt(src.outside))
    &&& !in_boxes(l.nodes@, pt(tgt.outside))
}

/// What reusing the two border cells adds to a route's price.
pub open spec fn penalty(rs: Seq<RouteView>, src: Port, tgt: Port) -> int {
    (port_count(rs, src.border) * 20 + port_count(rs, tgt.border) * 25) as int
}

/// The search over the field arrives at this route.
pub open spec fn searched(f: Field, path: Seq<Point>) -> bool {
    match spec_astar(f) {
        Some((_, found)) => found == path,
        None => false,
    }
}

/// The way `j` is taken, by `r`: it is open, `r` is the route the search
/// finds for it (a cheapest one), and no other way scores less (nor as
/// little, for one tried before).
pub open spec fn chosen(l: Layout, rs: Seq<RouteView>, sn: NodeBox, tn: NodeBox, e: EdgeRoute, j: int, r: RouteView) -> bool {
    let (src, tgt) = combo_ports(sn, tn, e, j);
    let f = combo_field(l, rs, src, tgt);
    let score = walk_cost(f, r.2) + penalty(rs, src, tgt);
    &&& 0 <= j < 4
    &&& r.0 == src
    &&& r.1 == tgt
    &&& r.3 == e.bidirectional
    &&& combo_open(l, src, tgt)
    &&& path_ok(f, r.2)
    &&& searched(f, r.2)
    &&& forall|q: Seq<Point>| #[trigger] path_ok(f, q) ==> walk_cost(f, r.2) <= walk_cost(f, q)
    &&& forall|j2: int, q: Seq<Point>|
        0 <= j2 < 4 && j2 != j && combo_open(l, combo_ports(sn, tn, e, j2).0, combo_ports(sn, tn, e, j2).1)
            && #[trigger] path_ok(combo_field(l, rs, combo_ports(sn, tn, e, j2).0, combo_ports(sn, tn, e, j2).1), q)
            ==> {
            let s2 = walk_cost(combo_field(l, rs, combo_ports(sn, tn, e, j2).0, combo_ports(sn, tn, e, j2).1), q)
                + penalty(rs, combo_ports(sn, tn, e, j2).0, combo_ports(sn, tn, e, j2).1);
            if j2 < j {
                s2 > score
            } else {
                s2 >= score
            }
        }
}

/// No way of joining the boxes is open and has a route.
pub open spec fn no_way(l: Layout, rs: Seq<RouteView>, sn: NodeBox, tn: NodeBox, e: EdgeRoute) -> bool {
    forall|j: int, q: Seq<Point>|
        0 <= j < 4 && combo_open(l, combo_ports(sn, tn, e, j).0, combo_ports(sn, tn, e, j).1) ==> !#[trigger] path_ok(
            combo_field(l, rs, combo_ports(sn, tn, e, j).0, combo_ports(sn, tn, e, j).1),
            q,
        )
}

/// The edge gets no route: a box is missing, or no way has one.
pub open spec fn edge_skipped(l: Layout, rs: Seq<RouteView>, e: EdgeRoute) -> bool {
    let ks = find_node(l.nodes@, e.from@);
    let kt = find_node(l.nodes@, e.to@);
    ks < 0 || kt < 0 || no_way(l, rs, l.nodes@[ks], l.nodes@[kt], e)
}

/// The edge gets the route `r`.
pub open spec fn edge_routed(l: Layout, rs: Seq<RouteView>, e: EdgeRoute, r: RouteView) -> bool {
    let ks = find_node(l.nodes@, e.from@);
    let kt = find_node(l.nodes@, e.to@);
    &&& ks >= 0
    &&& kt >= 0
    &&& exists|j: int| chosen(l, rs, l.nodes@[ks], l.nodes@[kt], e, j, r)
}

/// The routes of the first edges of `pending`, in order.
pub open spec fn routes_ok(l: Layout, pending: Seq<EdgeRoute>, rs: Seq<RouteView>) -> bool
    decreases pending.len(),
{
    if pending.len() == 0 {
        rs.len() == 0
    } else {
        let e = pending.last();
        ||| (edge_skipped(l, rs, e) && routes_ok(l, pending.drop_last(), rs))
        ||| (rs.len() > 0 && edge_routed(l, rs.drop_last(), e, rs.last()) && routes_ok(
            l,
            pending.drop_last(),
            rs.drop_last(),
        ))
    }
}

/// The routes of a layout: those that `routes_ok` allows, which are one.
pub open spec fn spec_routes(l: Layout) -> Seq<RouteView> {
    choose|rs: Seq<RouteView>| routes_ok(l, pending_edges(l.edges@), rs)
}

/// At most one way, and one route for it, is taken for an edge.
pub proof fn lemma_chosen_unique(
    l: Layout,
    rs: Seq<RouteView>,
    sn: NodeBox,
    tn: NodeBox,
    e: EdgeRoute,
    j1: int,
    r1: RouteView,
    j2: int,
    r2: RouteView,
)
    requires
        chosen(l, rs, sn, tn, e, j1, r1),
        chosen(l, rs, sn, tn, e, j2, r2),
    ensures
        j1 == j2,
        r1 == r2,
{
    let f1 = combo_field(l, rs, combo_ports(sn, tn, e, j1).0, combo_ports(sn, tn, e, j1).1);
    let f2 = combo_field(l, rs, combo_ports(sn, tn, e, j2).0, combo_ports(sn, tn, e, j2).1);
    assert(path_ok(f1, r1.2));
    assert(path_ok(f2, r2.2));
    if j1 != j2 {
        assert(path_ok(
            combo_field(l, rs, combo_ports(sn, tn, e, j1).0, combo_ports(sn, tn, e, j1).1),
            r1.2,
        ));
        assert(path_ok(
            combo_field(l, rs, combo_ports(sn, tn, e, j2).0, combo_ports(sn, tn, e, j2).1),
            r2.2,
        ));
        assert(false);
    }
    assert(searched(f1, r1.2));
    assert(searched(f1, r2.2));
}

/// The routes of a layout are determined: two route lists that both meet
/// `routes_ok` for the same edges are the same.
pub proof fn lemma_routes_unique(l: Layout, pending: Seq<EdgeRoute>, rs1: Seq<RouteView>, rs2: Seq<RouteView>)
    requires
        routes_ok(l, pending, rs1),
        routes_ok(l, pending, rs2),
    ensures
        rs1 == rs2,
    decreases pending.len(),
{
    if pending.len() == 0 {
        assert(rs1 =~= rs2);
    } else {
        let e = pending.last();
        let pd = pending.drop_last();
        let ks = find_node(l.nodes@, e.from@);
        let kt = find_node(l.nodes@, e.to@);
        let skip1 = edge_skipped(l, rs1, e) && routes_ok(l, pd, rs1);
        let skip2 = edge_skipped(l, rs2, e) && routes_ok(l, pd, rs2);
        if skip1 && skip2 {
            lemma_routes_unique(l, pd, rs1, rs2);
        } else if skip1 {
            lemma_routes_unique(l, pd, rs1, rs2.drop_last());
            lemma_skip_not_routed(l, rs1, e, rs2.last());
        } else if skip2 {
            lemma_routes_unique(l, pd, rs1.drop_last(), rs2);
            lemma_skip_not_routed(l, rs2, e, rs1.last());
        } else {
            lemma_routes_unique(l, pd, rs1.drop_last(), rs2.drop_last());
            let rs = rs1.drop_last();
            let j1 = choose|j: int| chosen(l, rs, l.nodes@[ks], l.nodes@[kt], e, j, rs1.last());
            let j2 = choose|j: int| chosen(l, rs, l.nodes@[ks], l.nodes@[kt], e, j, rs2.last());
            lemma_chosen_unique(l, rs, l.nodes@[ks], l.nodes@[kt], e, j1, rs1.last(), j2, rs2.last());
            assert(rs1 =~= rs.push(rs1.last()));
            assert(rs2 =~= rs.push(rs2.last()));
        }
    }
}

/// An edge is not both skipped and routed after the same routes.
proof fn lemma_skip_not_routed(l: Layout, rs: Seq<RouteView>, e: EdgeRoute, r: RouteView)
    requires
        edge_skipped(l, rs, e),
    ensures
        !edge_routed(l, rs, e, r),
{
    let ks = find_node(l.nodes@, e.from@);
    let kt = find_node(l.nodes@, e.to@);
    if edge_routed(l, rs, e, r) {
        let sn = l.nodes@[ks];
        let tn = l.nodes@[kt];
        let j = choose|j: int| chosen(l, rs, sn, tn, e, j, r);
        assert(chosen(l, rs, sn, tn, e, j, r));
        assert(path_ok(combo_field(l, rs, combo_ports(sn, tn, e, j).0, combo_ports(sn, tn, e, j).1), r.2));
        assert(combo_open(l, combo_ports(sn, tn, e, j).0, combo_ports(sn, tn, e, j).1));
    }
}

/// A route's cells lie in the rectangle, each next to the one before, the
/// first next to the source's border and the last next to the target's.
pub open spec fn route_shape(b: Bounds, path: Seq<Point>, s: Port, t: Port) -> bool {
    &&& path.len() >= 1
    &&& path[0] == s.outside
    &&& path.last() == t.outside
    &&& adjacent(path[0], s.border)
    &&& adjacent(path.last(), t.border)
    &&& forall|i: int| 0 <= i < path.len() ==> b.has(pt(#[trigger] path[i]))
    &&& forall|i: int| 1 <= i < path.len() ==> adjacent(#[trigger] path[i], path[i - 1]) && adjacent(path[i - 1], path[i])
}

/// The direction back.
pub open spec fn opposite(d: Dir) -> Dir {
    match d {
        Dir::R => Dir::L,
        Dir::L => Dir::R,
        Dir::U => Dir::D,
        Dir::D => Dir::U,
    }
}

pub proof fn lemma_adjacent_sym(a: Point, b: Point)
    requires
        adjacent(a, b),
    ensures
        adjacent(b, a),
{
    let d = choose|d: Dir| #[trigger] step(a, d) == (b.0 as int, b.1 as int);
    assert(step(b, opposite(d)) == (a.0 as int, a.1 as int));
}

/// The port on a side of a box at a row.
pub fn port(node: &NodeBox, row: i64, side: Side) -> (r: Port)
    requires
        -0x100_0000_0000 <= node.x <= 0x100_0000_0000,
        node.w <= 0x1_0000_0000,
    ensures
        r == spec_port(*node, row as int, side),
{
    match side {
        Side::Left => Port { border: (node.x, row), outside: (node.x - 1, row) },
        Side::Right => {
            let x = node.x + node.w as i64 - 1;
            Port { border: (x, row), outside: (x + 1, row) }
        },
    }
}

/// The line ends of a route's `i`-th cell.
#[verifier::spinoff_prover]
pub fn route_mask(path: &Vec<Point>, i: usize, source: Port, target: Port) -> (m: u8)
    requires
        i < path.len(),
        path@.len() >= 1,
        adjacent(path@[0], source.border),
        adjacent(path@.last(), target.border),
        forall|k: int| 1 <= k < path.len() ==> adjacent(#[trigger] path@[k], path@[k - 1]) && adjacent(path@[k - 1], path@[k]),
    ensures
        m == spec_route_mask(path@, i as int, source, target),
{
    let before = if i == 0 {
        source.border
    } else {
        path[i - 1]
    };
    let after = if i + 1 == path.len() {
        target.border
    } else {
        path[i + 1]
    };
    proof {
        if i + 1 < path.len() {
            assert(adjacent(path@[i + 1], path@[i + 1 - 1]) && adjacent(path@[i + 1 - 1], path@[i + 1]));
        }
    }
    direction(path[i], before).bit() | direction(path[i], after).bit()
}

/// Adds the line ends of a route to the record of what each cell shows.
pub fn record_usage(used: &mut Vec<u8>, b: Bounds, w: usize, source: Port, target: Port, path: &Vec<Point>)
    requires
        b.sane(),
        w == b.width(),
        old(used).len() == b.width() * b.height(),
        route_shape(b, path@, source, target),
    ensures
        final(used)@ == mark(b, old(used)@, path@, source, target, path@.len()),
{
    let ghost u0 = used@;
    let mut i: usize = 0;
    while i < path.len()
        invariant
            b.sane(),
            w == b.width(),
            route_shape(b, path@, source, target),
            i <= path.len(),
            used@ == mark(b, u0, path@, source, target, i as nat),
            used@.len() == b.width() * b.height(),
        decreases path.len() - i,
    {
        let p = path[i];
        let m = route_mask(path, i, source, target);
        let ci = cell_index(b, w, p);
        let cur = used[ci];
        used.set(ci, cur | m);
        i = i + 1;
    }
}

/// A row-major index names a cell of the rectangle, and that cell's index
/// is the one it came from.
pub proof fn lemma_decode(b: Bounds, i: int)
    requires
        b.sane(),
        0 <= i < b.width() * b.height(),
    ensures
        b.has(decode(b, i)),
        b.cell(decode(b, i)) == i,
{
    let w = b.width();
    let h = b.height();
    vstd::arithmetic::div_mod::lemma_fundamental_div_mod(i, w);
    vstd::arithmetic::div_mod::lemma_mod_pos_bound(i, w);
    let y = i / w;
    let x = i % w;
    assert(0 <= y < h) by (nonlinear_arith)
        requires
            i == w * y + x,
            0 <= x < w,
            0 <= i < w * h,
            w > 0,
    ;
    assert(y * w + x == i) by (nonlinear_arith)
        requires
            i == w * y + x,
    ;
}

/// The cells of the rectangle, read through the grid of covered cells.
pub proof fn lemma_blocked_grid(b: Bounds, nodes: Seq<NodeBox>, q: (int, int))
    requires
        b.sane(),
        b.has(q),
    ensures
        blocked_in(b, blocked_grid(b, nodes), q) == in_boxes(nodes, q),
{
    lemma_cell_range(b, q);
    let i = b.cell(q);
    lemma_decode(b, i);
    lemma_cell_inj(b, decode(b, i), q);
}

/// Every box lies within the extent of all boxes.
pub proof fn lemma_extent(nodes: Seq<NodeBox>, k: int)
    requires
        0 <= k < nodes.len(),
    ensures
        lo_x(nodes) <= nodes[k].x,
        lo_y(nodes) <= nodes[k].y,
        nodes[k].x + nodes[k].w - 1 <= hi_x(nodes),
        nodes[k].y + nodes[k].h - 1 <= hi_y(nodes),
    decreases nodes.len(),
{
    if k < nodes.len() - 1 {
        lemma_extent(nodes.drop_last(), k);
    }
}

/// The first box with a name in a prefix is the first in the whole.
pub proof fn lemma_find_prefix(nodes: Seq<NodeBox>, name: Seq<char>, m: int)
    requires
        0 <= m <= nodes.len(),
        find_node(nodes.take(m), name) >= 0,
    ensures
        find_node(nodes, name) == find_node(nodes.take(m), name),
    decreases nodes.len() - m,
{
    if m < nodes.len() {
        assert(nodes.take(m + 1).drop_last() =~= nodes.take(m));
        lemma_find_prefix(nodes, name, m + 1);
    } else {
        assert(nodes.take(m) =~= nodes);
    }
}

/// The first box with a name is one with that name.
pub proof fn lemma_find_node(nodes: Seq<NodeBox>, name: Seq<char>)
    ensures
        -1 <= find_node(nodes, name) < nodes.len(),
        find_node(nodes, name) >= 0 ==> nodes[find_node(nodes, name)].name@ == name,
        find_node(nodes, name) < 0 ==> forall|k: int| 0 <= k < nodes.len() ==> (#[trigger] nodes[k]).name@ != name,
    decreases nodes.len(),
{
    if nodes.len() > 0 {
        lemma_find_node(nodes.drop_last(), name);
        assert forall|k: int| 0 <= k < nodes.len() - 1 implies nodes[k] == nodes.drop_last()[k] by {}
    }
}

/// A box whose corner and size stay within the arithmetic routing is
/// proved for.
pub open spec fn node_fits(n: NodeBox) -> bool {
    &&& -0x100_0000_0000 <= n.x <= 0x100_0000_0000
    &&& -0x100_0000_0000 <= n.y <= 0x100_0000_0000
    &&& n.w <= 0x1_0000_0000
    &&& n.h <= 0x1_0000_0000
}

/// An edge end attaches at a row of its box (when the box is there).
pub open spec fn end_fits(nodes: Seq<NodeBox>, name: Seq<char>, line: usize) -> bool {
    let k = find_node(nodes, name);
    k >= 0 ==> spec_line_row(nodes[k].y as int, line as int) <= nodes[k].y + nodes[k].h - 1
}

/// Room in a `usize` for the searches over the rectangle (five states a
/// cell) and the prices they add up with the port charges of `ne` edges.
pub open spec fn route_room(b: Bounds, ne: int) -> bool {
    125 * (b.width() * b.height()) + b.width() + b.height() + 200 * ne + 0x1000_0000 <= usize::MAX
}

/// The search grid of a layout fits in memory: its width and height (the
/// boxes' extent with a margin of six cells and one more per edge) as in
/// `route_room`, counted as integers.
pub open spec fn route_area_ok(l: Layout) -> bool {
    let m = 6 + l.edges.len();
    let w = hi_x(l.nodes@) - lo_x(l.nodes@) + 1 + 2 * m;
    let h = hi_y(l.nodes@) - lo_y(l.nodes@) + 1 + 2 * m;
    125 * (w * h) + w + h + 200 * l.edges.len() + 0x1000_0000 <= usize::MAX
}

/// A layout that routing is proved for: boxes of bounded place and size,
/// each edge attached at rows of its boxes, and a search grid that fits in
/// memory.
pub open spec fn routable(l: Layout) -> bool {
    &&& forall|k: int| 0 <= k < l.nodes.len() ==> node_fits(#[trigger] l.nodes@[k])
    &&& forall|k: int|
        0 <= k < l.edges.len() ==> end_fits(l.nodes@, (#[trigger] l.edges@[k]).from@, l.edges@[k].from_line)
            && end_fits(l.nodes@, l.edges@[k].to@, l.edges@[k].to_line)
    &&& l.nodes.len() > 0 ==> route_area_ok(l)
}

/// A grid that fits in memory has a margin of fewer than 2^28 cells, so
/// fewer than 2^28 edges.
pub proof fn lemma_edges_bound(l: Layout)
    requires
        l.nodes.len() > 0,
        forall|k: int| 0 <= k < l.nodes.len() ==> node_fits(#[trigger] l.nodes@[k]),
        route_area_ok(l),
    ensures
        l.edges.len() <= 0x1000_0000,
{
    lemma_extent_bounds(l.nodes@);
    let ne = l.edges.len() as int;
    let m = 6 + ne;
    let w = hi_x(l.nodes@) - lo_x(l.nodes@) + 1 + 2 * m;
    let h = hi_y(l.nodes@) - lo_y(l.nodes@) + 1 + 2 * m;
    assert(w >= 2 * ne && h >= 2 * ne);
    if ne > 0x1000_0000 {
        assert(w * h >= (2 * ne) * (2 * ne)) by (nonlinear_arith)
            requires
                w >= 2 * ne,
                h >= 2 * ne,
                ne >= 0,
        ;
        assert((2 * ne) * (2 * ne) >= 0x2000_0000 * 0x2000_0000) by (nonlinear_arith)
            requires
                ne > 0x1000_0000,
        ;
        assert(false);
    }
}

pub proof fn lemma_extent_bounds(nodes: Seq<NodeBox>)
    requires
        nodes.len() > 0,
        forall|k: int| 0 <= k < nodes.len() ==> node_fits(#[trigger] nodes[k]),
    ensures
        -0x100_0000_0000 <= lo_x(nodes) <= 0x100_0000_0000,
        -0x100_0000_0000 <= lo_y(nodes) <= 0x100_0000_0000,
        -0x100_0000_0001 <= hi_x(nodes) <= 0x101_0000_0000,
        -0x100_0000_0001 <= hi_y(nodes) <= 0x101_0000_0000,
        lo_x(nodes) - 1 <= hi_x(nodes),
        lo_y(nodes) - 1 <= hi_y(nodes),
    decreases nodes.len(),
{
    assert(node_fits(nodes[nodes.len() - 1]));
    if nodes.len() > 1 {
        assert forall|k: int| 0 <= k < nodes.len() - 1 implies node_fits(#[trigger] nodes.drop_last()[k]) by {
            assert(node_fits(nodes[k]));
        }
        lemma_extent_bounds(nodes.drop_last());
    } else {
        assert(nodes.drop_last().len() == 0);
        assert(lo_x(nodes.drop_last()) == i64::MAX);
        assert(lo_y(nodes.drop_last()) == i64::MAX);
        assert(hi_x(nodes.drop_last()) == i64::MIN);
        assert(hi_y(nodes.drop_last()) == i64::MIN);
    }
}

/// The corners of the search rectangle, as integers.
pub proof fn lemma_route_corners(l: Layout)
    requires
        l.nodes.len() > 0,
        forall|k: int| 0 <= k < l.nodes.len() ==> node_fits(#[trigger] l.nodes@[k]),
        l.edges.len() <= 0x1000_0000,
    ensures
        route_bounds(l).min_x == lo_x(l.nodes@) - 6 - l.edges.len(),
        route_bounds(l).min_y == lo_y(l.nodes@) - 6 - l.edges.len(),
        route_bounds(l).max_x == hi_x(l.nodes@) + 6 + l.edges.len(),
        route_bounds(l).max_y == hi_y(l.nodes@) + 6 + l.edges.len(),
{
    lemma_extent_bounds(l.nodes@);
}

/// The search rectangle of a routable layout with boxes is one the search
/// is proved for.
pub proof fn lemma_route_bounds(l: Layout)
    requires
        routable(l),
        l.nodes.len() > 0,
    ensures
        route_bounds(l).sane(),
        route_room(route_bounds(l), l.edges.len() as int),
        l.edges.len() <= 0x1000_0000,
        route_bounds(l).min_x == lo_x(l.nodes@) - 6 - l.edges.len(),
        route_bounds(l).min_y == lo_y(l.nodes@) - 6 - l.edges.len(),
        route_bounds(l).max_x == hi_x(l.nodes@) + 6 + l.edges.len(),
        route_bounds(l).max_y == hi_y(l.nodes@) + 6 + l.edges.len(),
{
    lemma_extent_bounds(l.nodes@);
    lemma_edges_bound(l);
}

/// A port's outside cell is next to its border cell.
pub proof fn lemma_port(n: NodeBox, row: int, side: Side)
    requires
        node_fits(n),
        -0x200_0000_0000 <= row <= 0x200_0000_0000,
    ensures
        adjacent(spec_port(n, row, side).outside, spec_port(n, row, side).border),
        spec_port(n, row, side).border.1 == row,
        spec_port(n, row, side).outside.1 == row,
        n.x - 1 <= spec_port(n, row, side).outside.0 <= n.x + n.w,
        node_has(n, pt(spec_port(n, row, side).border)) <==> (n.w > 0 && n.y <= row <= n.y + n.h - 1),
{
    let p = spec_port(n, row, side);
    match side {
        Side::Left => {
            assert(step(p.outside, Dir::R) == (p.border.0 as int, p.border.1 as int));
        },
        Side::Right => {
            assert(step(p.outside, Dir::L) == (p.border.0 as int, p.border.1 as int));
        },
    }
}

pub proof fn lemma_port_count_bound(rs: Seq<RouteView>, q: Point)
    ensures
        port_count(rs, q) <= 2 * rs.len(),
    decreases rs.len(),
{
    if rs.len() > 0 {
        lemma_port_count_bound(rs.drop_last(), q);
    }
}

pub proof fn lemma_mark_len(b: Bounds, u: Seq<u8>, path: Seq<Point>, s: Port, t: Port, k: nat)
    requires
        forall|i: int| 0 <= i < k ==> 0 <= b.cell(pt(#[trigger] path[i])) < u.len(),
    ensures
        mark(b, u, path, s, t, k).len() == u.len(),
    decreases k,
{
    if k > 0 {
        lemma_mark_len(b, u, path, s, t, (k - 1) as nat);
    }
}

/// What routing keeps while it goes: the rectangle, the covered cells, the
/// line ends and the port counts of the routes so far, and their shapes.
#[verifier::opaque]
pub open spec fn route_state(
    l: Layout,
    b: Bounds,
    blocked: Seq<bool>,
    used: Seq<u8>,
    pu: Seq<usize>,
    rs: Seq<RouteView>,
    done: int,
) -> bool {
    &&& routable(l)
    &&& l.nodes.len() > 0
    &&& b == route_bounds(l)
    &&& b.sane()
    &&& route_room(b, l.edges.len() as int)
    &&& blocked == blocked_grid(b, l.nodes@)
    &&& used == usage(b, rs)
    &&& used.len() == b.width() * b.height()
    &&& pu.len() == b.width() * b.height()
    &&& forall|p: Point| b.has(pt(p)) ==> pu[b.cell(pt(p))] == #[trigger] port_count(rs, p)
    &&& 0 <= rs.len() <= done <= 2 * l.edges.len()
    &&& forall|i: int| 0 <= i < rs.len() ==> route_shape(b, (#[trigger] rs[i]).2, rs[i].0, rs[i].1)
}

/// How one edge changes the routes: unchanged when it is skipped, one more
/// when it is routed.
pub open spec fn one_step(l: Layout, rs: Seq<RouteView>, e: EdgeRoute, rs2: Seq<RouteView>) -> bool {
    ||| (rs2 == rs && edge_skipped(l, rs, e))
    ||| (rs2.len() == rs.len() + 1 && rs2.drop_last() == rs && edge_routed(l, rs, e, rs2.last()))
}

/// The best way among the first `jn` ways tried, if any has a route.
pub open spec fn sel_ok(
    l: Layout,
    rs: Seq<RouteView>,
    sn: NodeBox,
    tn: NodeBox,
    e: EdgeRoute,
    jn: int,
    best: Option<(int, Port, Port, Seq<Point>)>,
    bj: int,
) -> bool {
    match best {
        None => forall|j: int, q: Seq<Point>|
            0 <= j < jn && combo_open(l, combo_ports(sn, tn, e, j).0, combo_ports(sn, tn, e, j).1) ==> !#[trigger] path_ok(
                combo_field(l, rs, combo_ports(sn, tn, e, j).0, combo_ports(sn, tn, e, j).1),
                q,
            ),
        Some((sc, src, tgt, path)) => {
            &&& 0 <= bj < jn
            &&& (src, tgt) == combo_ports(sn, tn, e, bj)
            &&& combo_open(l, src, tgt)
            &&& path_ok(combo_field(l, rs, src, tgt), path)
            &&& searched(combo_field(l, rs, src, tgt), path)
            &&& forall|q: Seq<Point>| #[trigger] path_ok(combo_field(l, rs, src, tgt), q) ==> walk_cost(combo_field(l, rs, src, tgt), path) <= walk_cost(combo_field(l, rs, src, tgt), q)
            &&& sc == walk_cost(combo_field(l, rs, src, tgt), path) + penalty(rs, src, tgt)
            &&& forall|j2: int, q: Seq<Point>|
                0 <= j2 < jn && j2 != bj && combo_open(l, combo_ports(sn, tn, e, j2).0, combo_ports(sn, tn, e, j2).1)
                    && #[trigger] path_ok(combo_field(l, rs, combo_ports(sn, tn, e, j2).0, combo_ports(sn, tn, e, j2).1), q)
                    ==> {
                    let s2 = walk_cost(combo_field(l, rs, combo_ports(sn, tn, e, j2).0, combo_ports(sn, tn, e, j2).1), q)
                        + penalty(rs, combo_ports(sn, tn, e, j2).0, combo_ports(sn, tn, e, j2).1);
                    if j2 < bj {
                        s2 > sc
                    } else {
                        s2 >= sc
                    }
                }
        },
    }
}

/// A walk's cells lie in the rectangle, each next to the one before.
pub proof fn lemma_walk_shape(f: Field, pts: Seq<Point>)
    requires
        field_ok(f),
        walk(f, pts),
    ensures
        forall|i: int| 0 <= i < pts.len() ==> f.b.has(pt(#[trigger] pts[i])),
        forall|i: int| 1 <= i < pts.len() ==> adjacent(#[trigger] pts[i], pts[i - 1]) && adjacent(pts[i - 1], pts[i]),
{
    assert forall|i: int| 0 <= i < pts.len() implies f.b.has(pt(#[trigger] pts[i])) by {
        if i > 0 {
            lemma_walk_open(f, pts, i);
        }
    }
    assert forall|i: int| 1 <= i < pts.len() implies adjacent(#[trigger] pts[i], pts[i - 1]) && adjacent(pts[i - 1], pts[i]) by {
        lemma_walk_open(f, pts, i);
        lemma_adjacent_sym(pts[i - 1], pts[i]);
    }
}

/// The first box with a name.
pub(crate) fn find_first(nodes: &Vec<NodeBox>, name: &String) -> (r: Option<usize>)
    ensures
        match r {
            Some(k) => k == find_node(nodes@, name@),
            None => find_node(nodes@, name@) == -1,
        },
{
    let mut k: usize = 0;
    while k < nodes.len()
        invariant
            k <= nodes.len(),
            find_node(nodes@.take(k as int), name@) == -1,
        decreases nodes.len() - k,
    {
        proof {
            assert(nodes@.take(k + 1).drop_last() =~= nodes@.take(k as int));
        }
        if str_eq(nodes[k].name.as_str(), name.as_str()) {
            proof {
                lemma_find_prefix(nodes@, name@, k + 1);
            }
            return Some(k);
        }
        k = k + 1;
    }
    proof {
        assert(nodes@.take(k as int) =~= nodes@);
    }
    None
}


/// What trying the `j`-th way gives: nothing when it is closed or has no
/// route; else its cheapest route, with the score of that route.
pub open spec fn way_ok(
    l: Layout,
    rs: Seq<RouteView>,
    sn: NodeBox,
    tn: NodeBox,
    e: EdgeRoute,
    j: int,
    r: Option<(int, Port, Port, Seq<Point>)>,
) -> bool {
    let src = combo_ports(sn, tn, e, j).0;
    let tgt = combo_ports(sn, tn, e, j).1;
    let f = combo_field(l, rs, src, tgt);
    match r {
        None => !combo_open(l, src, tgt) || forall|q: Seq<Point>| !#[trigger] path_ok(f, q),
        Some((sc, s2, t2, path)) => {
            &&& s2 == src
            &&& t2 == tgt
            &&& combo_open(l, src, tgt)
            &&& path_ok(f, path)
            &&& searched(f, path)
            &&& forall|q: Seq<Point>| #[trigger] path_ok(f, q) ==> walk_cost(f, path) <= walk_cost(f, q)
            &&& sc == walk_cost(f, path) + penalty(rs, src, tgt)
        },
    }
}

/// What a tried way is.
pub open spec fn opt_view(r: Option<(usize, Port, Port, Vec<Point>)>) -> Option<(int, Port, Port, Seq<Point>)> {
    match r {
        Some(x) => Some((x.0 as int, x.1, x.2, x.3@)),
        None => None,
    }
}

/// The score of a tried way.
pub open spec fn score_of(r: Option<(int, Port, Port, Seq<Point>)>) -> int {
    match r {
        Some(x) => x.0,
        None => 0,
    }
}

/// Keeping the better of the best so far and the way just tried.
pub proof fn lemma_sel_step(
    l: Layout,
    rs: Seq<RouteView>,
    sn: NodeBox,
    tn: NodeBox,
    e: EdgeRoute,
    j: int,
    best: Option<(int, Port, Port, Seq<Point>)>,
    bj: int,
    r: Option<(int, Port, Port, Seq<Point>)>,
    take: bool,
)
    requires
        0 <= j < 4,
        sel_ok(l, rs, sn, tn, e, j, best, bj),
        way_ok(l, rs, sn, tn, e, j, r),
        take == (r is Some && (best is None || score_of(r) < score_of(best))),
    ensures
        sel_ok(l, rs, sn, tn, e, j + 1, if take { r } else { best }, if take { j } else { bj }),
{
    let src = combo_ports(sn, tn, e, j).0;
    let tgt = combo_ports(sn, tn, e, j).1;
    let f = combo_field(l, rs, src, tgt);
    if take {
        let (sc, s2, t2, path) = r->0;
        assert forall|j2: int, q: Seq<Point>|
            0 <= j2 < j + 1 && j2 != j && combo_open(l, combo_ports(sn, tn, e, j2).0, combo_ports(sn, tn, e, j2).1)
                && #[trigger] path_ok(combo_field(l, rs, combo_ports(sn, tn, e, j2).0, combo_ports(sn, tn, e, j2).1), q)
                implies walk_cost(combo_field(l, rs, combo_ports(sn, tn, e, j2).0, combo_ports(sn, tn, e, j2).1), q)
                + penalty(rs, combo_ports(sn, tn, e, j2).0, combo_ports(sn, tn, e, j2).1) > sc by {
            match best {
                None => {},
                Some(bb) => {
                    if j2 == bj {
                    } else {
                    }
                },
            }
        }
    } else {
        match r {
            None => {
                assert forall|j2: int, q: Seq<Point>|
                    0 <= j2 < j + 1 && combo_open(l, combo_ports(sn, tn, e, j2).0, combo_ports(sn, tn, e, j2).1)
                        && #[trigger] path_ok(combo_field(l, rs, combo_ports(sn, tn, e, j2).0, combo_ports(sn, tn, e, j2).1), q)
                        implies j2 != j by {}
            },
            Some(rr) => {},
        }
    }
}

/// Facts about the two boxes of an edge that trying its ways relies on.
pub open spec fn ends_ok(l: Layout, e: EdgeRoute, sn: NodeBox, tn: NodeBox, srow: i64, trow: i64, fwd: bool) -> bool {
    let ks = find_node(l.nodes@, e.from@);
    let kt = find_node(l.nodes@, e.to@);
    &&& 0 <= ks < l.nodes.len()
    &&& 0 <= kt < l.nodes.len()
    &&& sn == l.nodes@[ks]
    &&& tn == l.nodes@[kt]
    &&& srow == spec_line_row(sn.y as int, e.from_line as int)
    &&& trow == spec_line_row(tn.y as int, e.to_line as int)
    &&& sn.y <= srow <= sn.y + sn.h - 1
    &&& tn.y <= trow <= tn.y + tn.h - 1
    &&& fwd == (tn.x + tn.w / 2 >= sn.x + sn.w / 2)
}

/// Tries the `j`-th way of joining the edge's boxes.
#[verifier::spinoff_prover]
#[verifier::rlimit(40)]
fn try_way(
    l: &Layout,
    e: &EdgeRoute,
    sn: &NodeBox,
    tn: &NodeBox,
    srow: i64,
    trow: i64,
    fwd: bool,
    j: usize,
    b: Bounds,
    w: usize,
    blocked: &Vec<bool>,
    used: &Vec<u8>,
    pu: &Vec<usize>,
    scores: &mut Vec<usize>,
    previous: &mut Vec<(Point, u8)>,
    Ghost(rs): Ghost<Seq<RouteView>>,
    Ghost(done): Ghost<int>,
) -> (r: Option<(usize, Port, Port, Vec<Point>)>)
    requires
        route_state(*l, b, blocked@, used@, pu@, rs, done),
        ends_ok(*l, *e, *sn, *tn, srow, trow, fwd),
        w == b.width(),
        j < 4,
        buffers_ready(b, old(scores)@, old(previous)@),
    ensures
        way_ok(*l, rs, *sn, *tn, *e, j as int, opt_view(r)),
        buffers_ready(b, final(scores)@, final(previous)@),
{
    proof {
        reveal(route_state);
        let ks = find_node(l.nodes@, e.from@);
        let kt = find_node(l.nodes@, e.to@);
        assert(node_fits(l.nodes@[ks]));
        assert(node_fits(l.nodes@[kt]));
        lemma_route_bounds(*l);
        lemma_extent(l.nodes@, ks);
        lemma_extent(l.nodes@, kt);
    }
    let ss = if (j < 2) == fwd {
        Side::Right
    } else {
        Side::Left
    };
    let ts = if (j % 2 == 0) == fwd {
        Side::Left
    } else {
        Side::Right
    };
    let source = port(sn, srow, ss);
    let target = port(tn, trow, ts);
    proof {
        assert((source, target) == combo_ports(*sn, *tn, *e, j as int));
        lemma_port(*sn, srow as int, ss);
        lemma_port(*tn, trow as int, ts);
        lemma_blocked_grid(b, l.nodes@, pt(source.outside));
        lemma_blocked_grid(b, l.nodes@, pt(target.outside));
    }
    if (source.outside.0 == target.outside.0 && source.outside.1 == target.outside.1) || blocked_at(
        b,
        w,
        blocked,
        source.outside,
    ) || blocked_at(b, w, blocked, target.outside) {
        return None;
    }
    let found = astar(source.outside, target.outside, b, blocked, used, scores, previous);
    proof {
        assert(field(b, blocked@, used@, source.outside, target.outside) == combo_field(*l, rs, source, target));
    }
    match found {
        Some((cost, path)) => {
            proof {
                lemma_port_count_bound(rs, source.border);
                lemma_port_count_bound(rs, target.border);
                assert(pu@[b.cell(pt(source.border))] == port_count(rs, source.border));
                assert(pu@[b.cell(pt(target.border))] == port_count(rs, target.border));
                assert(nstates(b) == b.width() * b.height() * 5);
            }
            let sb = cell_index(b, w, source.border);
            let tb = cell_index(b, w, target.border);
            let score = cost + pu[sb] * 20 + pu[tb] * 25;
            Some((score, source, target, path))
        },
        None => None,
    }
}

pub proof fn lemma_state_next(
    l: Layout,
    b: Bounds,
    blocked: Seq<bool>,
    used: Seq<u8>,
    pu: Seq<usize>,
    rs: Seq<RouteView>,
    done: int,
)
    requires
        route_state(l, b, blocked, used, pu, rs, done),
        done < 2 * l.edges.len(),
    ensures
        route_state(l, b, blocked, used, pu, rs, done + 1),
{
    reveal(route_state);
}

/// Records a chosen route: its line ends, its two border cells, and the
/// route itself.
fn commit(
    l: &Layout,
    e: &EdgeRoute,
    b: Bounds,
    w: usize,
    blocked: &Vec<bool>,
    used: &mut Vec<u8>,
    pu: &mut Vec<usize>,
    routes: &mut Vec<RoutedEdge>,
    source: Port,
    target: Port,
    path: Vec<Point>,
    Ghost(sn): Ghost<NodeBox>,
    Ghost(tn): Ghost<NodeBox>,
    Ghost(srow): Ghost<i64>,
    Ghost(trow): Ghost<i64>,
    Ghost(fwd): Ghost<bool>,
    Ghost(bj): Ghost<int>,
    Ghost(done): Ghost<int>,
)
    requires
        route_state(*l, b, blocked@, old(used)@, old(pu)@, route_views(old(routes)@), done),
        done < 2 * l.edges.len(),
        ends_ok(*l, *e, sn, tn, srow, trow, fwd),
        w == b.width(),
        chosen(*l, route_views(old(routes)@), sn, tn, *e, bj, (source, target, path@, e.bidirectional)),
    ensures
        route_state(*l, b, blocked@, final(used)@, final(pu)@, route_views(final(routes)@), done + 1),
        route_views(final(routes)@) == route_views(old(routes)@).push((source, target, path@, e.bidirectional)),
{
    let ghost rs = route_views(routes@);
    let ghost rv = (source, target, path@, e.bidirectional);
    let ghost f = combo_field(*l, rs, source, target);
    proof {
        reveal(route_state);
        let ks = find_node(l.nodes@, e.from@);
        let kt = find_node(l.nodes@, e.to@);
        assert(node_fits(l.nodes@[ks]));
        assert(node_fits(l.nodes@[kt]));
        lemma_route_bounds(*l);
        lemma_extent(l.nodes@, ks);
        lemma_extent(l.nodes@, kt);
        lemma_port(sn, srow as int, combo_side_s(fwd, bj));
        lemma_port(tn, trow as int, combo_side_t(fwd, bj));
        assert(field_ok(f));
        lemma_walk_shape(f, path@);
        assert(route_shape(b, path@, source, target));
        lemma_port_count_bound(rs, source.border);
        lemma_port_count_bound(rs, target.border);
        assert(pu@[b.cell(pt(source.border))] == port_count(rs, source.border));
        assert(pu@[b.cell(pt(target.border))] == port_count(rs, target.border));
        assert(forall|i: int| 0 <= i < path@.len() ==> 0 <= b.cell(pt(#[trigger] path@[i])) < used@.len()) by {
            assert forall|i: int| 0 <= i < path@.len() implies 0 <= b.cell(pt(#[trigger] path@[i])) < used@.len() by {
                lemma_cell_range(b, pt(path@[i]));
            }
        }
        lemma_mark_len(b, used@, path@, source, target, path@.len());
    }
    record_usage(used, b, w, source, target, &path);
    let sb = cell_index(b, w, source.border);
    let x = pu[sb];
    pu.set(sb, x + 1);
    let tb = cell_index(b, w, target.border);
    let y = pu[tb];
    proof {
        if tb == sb {
            assert(y == x + 1);
        }
    }
    pu.set(tb, y + 1);
    let ghost pu0 = pu@;
    routes.push(RoutedEdge { source, target, path, bidirectional: e.bidirectional });
    proof {
        let rs2 = route_views(routes@);
        assert(rs2 =~= rs.push(rv));
        assert(rs2.drop_last() =~= rs);
        assert(used@ == usage(b, rs2));
        assert forall|p: Point| b.has(pt(p)) implies pu@[b.cell(pt(p))] == #[trigger] port_count(rs2, p) by {
            lemma_cell_range(b, pt(p));
            if b.cell(pt(p)) == sb as int {
                lemma_cell_inj(b, pt(p), pt(source.border));
            }
            if b.cell(pt(p)) == tb as int {
                lemma_cell_inj(b, pt(p), pt(target.border));
            }
            if p == source.border {
            }
            assert(port_count(rs2, p) == port_count(rs, p) + (if source.border == p { 1nat } else { 0nat }) + (if target.border == p { 1nat } else { 0nat }));
        }
        assert forall|i: int| 0 <= i < rs2.len() implies route_shape(b, (#[trigger] rs2[i]).2, rs2[i].0, rs2[i].1) by {
            if i < rs.len() {
                assert(rs2[i] == rs[i]);
            }
        }
    }
}

/// Routes one edge, if it can be: of the four ways to join its boxes, the
/// one whose cheapest route, plus what reusing its border cells costs,
/// scores least (the first tried, on a tie).
fn route_one(
    l: &Layout,
    e: &EdgeRoute,
    b: Bounds,
    w: usize,
    blocked: &Vec<bool>,
    used: &mut Vec<u8>,
    pu: &mut Vec<usize>,
    routes: &mut Vec<RoutedEdge>,
    scores: &mut Vec<usize>,
    previous: &mut Vec<(Point, u8)>,
    Ghost(done): Ghost<int>,
)
    requires
        route_state(*l, b, blocked@, old(used)@, old(pu)@, route_views(old(routes)@), done),
        done < 2 * l.edges.len(),
        w == b.width(),
        end_fits(l.nodes@, e.from@, e.from_line),
        end_fits(l.nodes@, e.to@, e.to_line),
        buffers_ready(b, old(scores)@, old(previous)@),
    ensures
        route_state(*l, b, blocked@, final(used)@, final(pu)@, route_views(final(routes)@), done + 1),
        one_step(*l, route_views(old(routes)@), *e, route_views(final(routes)@)),
        buffers_ready(b, final(scores)@, final(previous)@),
{
    let ghost rs = route_views(routes@);
    let ks = find_first(&l.nodes, &e.from);
    let kt = find_first(&l.nodes, &e.to);
    proof {
        lemma_find_node(l.nodes@, e.from@);
        lemma_find_node(l.nodes@, e.to@);
        lemma_state_next(*l, b, blocked@, used@, pu@, rs, done);
    }
    if ks.is_none() || kt.is_none() {
        return;
    }
    let ks = ks.unwrap();
    let kt = kt.unwrap();
    let sn = &l.nodes[ks];
    let tn = &l.nodes[kt];
    proof {
        reveal(route_state);
        assert(node_fits(l.nodes@[ks as int]));
        assert(node_fits(l.nodes@[kt as int]));
    }
    let srow = line_row(sn, e.from_line);
    let trow = line_row(tn, e.to_line);
    let sc = sn.x + sn.w as i64 / 2;
    let tc = tn.x + tn.w as i64 / 2;
    let fwd = tc >= sc;
    let mut best: Option<(usize, Port, Port, Vec<Point>)> = None;
    let ghost mut bj: int = -1;
    let mut j: usize = 0;
    while j < 4
        invariant
            route_state(*l, b, blocked@, used@, pu@, rs, done),
            ends_ok(*l, *e, *sn, *tn, srow, trow, fwd),
            w == b.width(),
            j <= 4,
            sel_ok(*l, rs, *sn, *tn, *e, j as int, opt_view(best), bj),
            buffers_ready(b, scores@, previous@),
        decreases 4 - j,
    {
        let r = try_way(
            l,
            e,
            sn,
            tn,
            srow,
            trow,
            fwd,
            j,
            b,
            w,
            blocked,
            used,
            pu,
            scores,
            previous,
            Ghost(rs),
            Ghost(done),
        );
        let take = match &r {
            None => false,
            Some(rr) => match &best {
                None => true,
                Some(bb) => rr.0 < bb.0,
            },
        };
        proof {
            lemma_sel_step(*l, rs, *sn, *tn, *e, j as int, opt_view(best), bj, opt_view(r), take);
        }
        if take {
            best = r;
            proof {
                bj = j as int;
            }
        }
        j = j + 1;
    }
    match best {
        None => {
            proof {
                assert(no_way(*l, rs, *sn, *tn, *e));
            }
        },
        Some((_, source, target, path)) => {
            proof {
                assert(chosen(*l, rs, *sn, *tn, *e, bj, (source, target, path@, e.bidirectional)));
            }
            commit(
                l,
                e,
                b,
                w,
                blocked,
                used,
                pu,
                routes,
                source,
                target,
                path,
                Ghost(*sn),
                Ghost(*tn),
                Ghost(srow),
                Ghost(trow),
                Ghost(fwd),
                Ghost(bj),
                Ghost(done),
            );
            proof {
                let rs2 = route_views(routes@);
                assert(rs2.drop_last() =~= rs);
                assert(edge_routed(*l, rs, *e, rs2.last()));
            }
        },
    }
}

pub proof fn lemma_in_boxes_step(nodes: Seq<NodeBox>, k: int, q: (int, int))
    requires
        0 <= k < nodes.len(),
    ensures
        in_boxes(nodes.take(k + 1), q) == (in_boxes(nodes.take(k), q) || node_has(nodes[k], q)),
{
    if in_boxes(nodes.take(k + 1), q) {
        let j = choose|j: int| 0 <= j < nodes.take(k + 1).len() && #[trigger] node_has(nodes.take(k + 1)[j], q);
        if j < k {
            assert(node_has(nodes.take(k)[j], q));
        }
    }
    if in_boxes(nodes.take(k), q) {
        let j = choose|j: int| 0 <= j < nodes.take(k).len() && #[trigger] node_has(nodes.take(k)[j], q);
        assert(node_has(nodes.take(k + 1)[j], q));
    }
    if node_has(nodes[k], q) {
        assert(node_has(nodes.take(k + 1)[k], q));
    }
}

/// Which cells of the rectangle the boxes cover, cell by cell.
fn fill_blocked(nodes: &Vec<NodeBox>, b: Bounds, w: usize, h: usize) -> (g: Vec<bool>)
    requires
        b.sane(),
        w == b.width(),
        h == b.height(),
        forall|k: int| 0 <= k < nodes.len() ==> node_fits(#[trigger] nodes@[k]),
        forall|k: int|
            0 <= k < nodes.len() ==> b.min_x < (#[trigger] nodes@[k]).x && nodes@[k].x + nodes@[k].w <= b.max_x
                && b.min_y < nodes@[k].y && nodes@[k].y + nodes@[k].h <= b.max_y,
    ensures
        g@ == blocked_grid(b, nodes@),
{
    proof {
        assert(w * h <= 125 * (w * h)) by (nonlinear_arith)
            requires
                0 <= w,
                0 <= h,
        ;
    }
    let n = w * h;
    let mut g: Vec<bool> = Vec::new();
    let mut i: usize = 0;
    while i < n
        invariant
            i <= n,
            g.len() == i,
            forall|j: int| 0 <= j < i ==> !#[trigger] g@[j],
        decreases n - i,
    {
        g.push(false);
        i = i + 1;
    }
    proof {
        assert forall|q: (int, int)| b.has(q) implies g@[b.cell(q)] == #[trigger] in_boxes(nodes@.take(0), q) by {
            lemma_cell_range(b, q);
        }
    }
    let mut k: usize = 0;
    while k < nodes.len()
        invariant
            b.sane(),
            w == b.width(),
            h == b.height(),
            n == w * h,
            g.len() == n,
            k <= nodes.len(),
            forall|j: int| 0 <= j < nodes.len() ==> node_fits(#[trigger] nodes@[j]),
            forall|j: int|
                0 <= j < nodes.len() ==> b.min_x < (#[trigger] nodes@[j]).x && nodes@[j].x + nodes@[j].w <= b.max_x
                    && b.min_y < nodes@[j].y && nodes@[j].y + nodes@[j].h <= b.max_y,
            forall|q: (int, int)| b.has(q) ==> g@[b.cell(q)] == #[trigger] in_boxes(nodes@.take(k as int), q),
        decreases nodes.len() - k,
    {
        let node = &nodes[k];
        proof {
            assert(node_fits(nodes@[k as int]));
        }
        let right = node.x + node.w as i64 - 1;
        let bottom = node.y + node.h as i64 - 1;
        let mut y = node.y;
        while y <= bottom
            invariant
                b.sane(),
                w == b.width(),
                g.len() == n,
                n == w * h,
                h == b.height(),
                k < nodes.len(),
                *node == nodes@[k as int],
                node_fits(*node),
                b.min_x < node.x && node.x + node.w <= b.max_x && b.min_y < node.y && node.y + node.h <= b.max_y,
                right == node.x + node.w - 1,
                bottom == node.y + node.h - 1,
                node.y <= y <= bottom + 1,
                forall|q: (int, int)|
                    #![trigger b.has(q)]
                    b.has(q) ==> g@[b.cell(q)] == (in_boxes(nodes@.take(k as int), q) || (node_has(*node, q) && q.1
                        < y)),
            decreases bottom + 1 - y,
        {
            let mut x = node.x;
            while x <= right
                invariant
                    b.sane(),
                    w == b.width(),
                    g.len() == n,
                    n == w * h,
                    h == b.height(),
                    k < nodes.len(),
                    *node == nodes@[k as int],
                    node_fits(*node),
                    b.min_x < node.x && node.x + node.w <= b.max_x && b.min_y < node.y && node.y + node.h <= b.max_y,
                    right == node.x + node.w - 1,
                    bottom == node.y + node.h - 1,
                    node.y <= y <= bottom,
                    node.x <= x <= right + 1,
                    forall|q: (int, int)|
                        #![trigger b.has(q)]
                        b.has(q) ==> g@[b.cell(q)] == (in_boxes(nodes@.take(k as int), q) || (node_has(*node, q) && (q.1
                            < y || (q.1 == y && q.0 < x)))),
                decreases right + 1 - x,
            {
                let ci = cell_index(b, w, (x, y));
                let ghost old_g = g@;
                g.set(ci, true);
                proof {
                    assert forall|q: (int, int)|
                        #![trigger b.has(q)]
                        b.has(q) implies g@[b.cell(q)] == (in_boxes(nodes@.take(k as int), q) || (node_has(*node, q) && (q.1
                            < y || (q.1 == y && q.0 < x + 1)))) by {
                        lemma_cell_range(b, q);
                        if b.cell(q) == ci as int {
                            lemma_cell_inj(b, q, (x as int, y as int));
                            assert(node_has(*node, q));
                        } else {
                            assert(g@[b.cell(q)] == old_g[b.cell(q)]);
                            assert(old_g[b.cell(q)] == (in_boxes(nodes@.take(k as int), q) || (node_has(*node, q) && (q.1 < y || (q.1 == y && q.0 < x)))));
                            assert(q != (x as int, y as int));
                        }
                    }
                }
                x = x + 1;
            }
            y = y + 1;
        }
        proof {
            assert forall|q: (int, int)| b.has(q) implies g@[b.cell(q)] == #[trigger] in_boxes(nodes@.take(k + 1), q) by {
                lemma_in_boxes_step(nodes@, k as int, q);
            }
        }
        k = k + 1;
    }
    proof {
        assert(nodes@.take(k as int) =~= nodes@);
        assert forall|j: int| 0 <= j < n implies g@[j] == blocked_grid(b, nodes@)[j] by {
            lemma_decode(b, j);
        }
        assert(g@ =~= blocked_grid(b, nodes@));
    }
    g
}

/// Routing one more edge extends the routes of the edges before it.
pub proof fn lemma_routes_step(l: Layout, p: Seq<EdgeRoute>, rs: Seq<RouteView>, e: EdgeRoute, rs2: Seq<RouteView>)
    requires
        routes_ok(l, p, rs),
        one_step(l, rs, e, rs2),
    ensures
        routes_ok(l, p.push(e), rs2),
{
    assert(p.push(e).drop_last() =~= p);
    assert(p.push(e).last() == e);
}

/// Without boxes no edge gets a route.
pub proof fn lemma_no_nodes(l: Layout, p: Seq<EdgeRoute>)
    requires
        l.nodes.len() == 0,
    ensures
        routes_ok(l, p, seq![]),
    decreases p.len(),
{
    if p.len() > 0 {
        lemma_no_nodes(l, p.drop_last());
        assert(find_node(l.nodes@, p.last().from@) == -1);
    }
}

pub proof fn lemma_edges_with_take(es: Seq<EdgeRoute>, k: int, flag: bool)
    requires
        0 <= k < es.len(),
    ensures
        edges_with(es.take(k + 1), flag) == (if es[k].bidirectional == flag {
            edges_with(es.take(k), flag).push(es[k])
        } else {
            edges_with(es.take(k), flag)
        }),
{
    assert(es.take(k + 1).drop_last() =~= es.take(k));
    assert(es.take(k + 1).last() == es[k]);
}

/// Routes the edges of a layout, those with arrows at both ends first:
/// each over the free cells around the boxes, as cheaply as it can be,
/// given the routes before it.
pub fn route_edges(layout: &Layout) -> (routes: Vec<RoutedEdge>)
    requires
        routable(*layout),
    ensures
        routes_ok(*layout, pending_edges(layout.edges@), route_views(routes@)),
        route_views(routes@) == spec_routes(*layout),
        layout.nodes.len() == 0 ==> routes.len() == 0,
        layout.nodes.len() > 0 ==> forall|i: int|
            0 <= i < routes.len() ==> route_shape(
                route_bounds(*layout),
                (#[trigger] route_views(routes@)[i]).2,
                route_views(routes@)[i].0,
                route_views(routes@)[i].1,
            ),
{
    let ghost l = *layout;
    let ghost es = layout.edges@;
    if layout.nodes.len() == 0 {
        let none: Vec<RoutedEdge> = Vec::new();
        proof {
            lemma_no_nodes(l, pending_edges(es));
            assert(route_views(none@) =~= seq![]);
            let sr = spec_routes(*layout);
            assert(routes_ok(*layout, pending_edges(layout.edges@), route_views(none@)));
            assert(routes_ok(*layout, pending_edges(layout.edges@), sr));
            lemma_routes_unique(*layout, pending_edges(layout.edges@), route_views(none@), sr);
        }
        return none;
    }
    let mut min_x: i64 = i64::MAX;
    let mut min_y: i64 = i64::MAX;
    let mut max_x: i64 = i64::MIN;
    let mut max_y: i64 = i64::MIN;
    let mut k: usize = 0;
    while k < layout.nodes.len()
        invariant
            l == *layout,
            routable(l),
            k <= layout.nodes.len(),
            min_x == lo_x(layout.nodes@.take(k as int)),
            min_y == lo_y(layout.nodes@.take(k as int)),
            max_x == hi_x(layout.nodes@.take(k as int)),
            max_y == hi_y(layout.nodes@.take(k as int)),
        decreases layout.nodes.len() - k,
    {
        let node = &layout.nodes[k];
        proof {
            assert(node_fits(layout.nodes@[k as int]));
            assert(layout.nodes@.take(k + 1).drop_last() =~= layout.nodes@.take(k as int));
            assert(layout.nodes@.take(k + 1).last() == *node);
        }
        let right = node.x + node.w as i64 - 1;
        let bottom = node.y + node.h as i64 - 1;
        if node.x < min_x {
            min_x = node.x;
        }
        if node.y < min_y {
            min_y = node.y;
        }
        if right > max_x {
            max_x = right;
        }
        if bottom > max_y {
            max_y = bottom;
        }
        k = k + 1;
    }
    proof {
        assert(layout.nodes@.take(k as int) =~= layout.nodes@);
        lemma_route_bounds(l);
        lemma_extent_bounds(l.nodes@);
    }
    let margin = 6 + layout.edges.len() as i64;
    let bounds = Bounds {
        min_x: min_x - margin,
        min_y: min_y - margin,
        max_x: max_x + margin,
        max_y: max_y + margin,
    };
    let w = (bounds.max_x - bounds.min_x + 1) as usize;
    let h = (bounds.max_y - bounds.min_y + 1) as usize;
    proof {
        assert(bounds == route_bounds(l));
        assert forall|j: int| 0 <= j < layout.nodes.len() implies bounds.min_x < (#[trigger] layout.nodes@[j]).x
            && layout.nodes@[j].x + layout.nodes@[j].w <= bounds.max_x && bounds.min_y < layout.nodes@[j].y
            && layout.nodes@[j].y + layout.nodes@[j].h <= bounds.max_y by {
            lemma_extent(l.nodes@, j);
        }
    }
    let blocked = fill_blocked(&layout.nodes, bounds, w, h);
    proof {
        assert(w * h <= 125 * (w * h)) by (nonlinear_arith)
            requires
                0 <= w,
                0 <= h,
        ;
    }
    let n = w * h;
    let mut used: Vec<u8> = Vec::new();
    let mut pu: Vec<usize> = Vec::new();
    let mut i: usize = 0;
    while i < n
        invariant
            i <= n,
            used.len() == i,
            pu.len() == i,
            forall|j: int| 0 <= j < i ==> #[trigger] used@[j] == 0u8,
            forall|j: int| 0 <= j < i ==> #[trigger] pu@[j] == 0usize,
        decreases n - i,
    {
        used.push(0);
        pu.push(0);
        i = i + 1;
    }
    let mut routes: Vec<RoutedEdge> = Vec::new();
    let mut scores: Vec<usize> = Vec::new();
    let mut previous: Vec<(Point, u8)> = Vec::new();
    let ns = n * 5;
    let mut i: usize = 0;
    while i < ns
        invariant
            i <= ns,
            scores.len() == i,
            previous.len() == i,
            forall|j: int| 0 <= j < i ==> #[trigger] scores@[j] == usize::MAX,
            forall|j: int| 0 <= j < i ==> #[trigger] previous@[j] == no_prev(),
        decreases ns - i,
    {
        scores.push(usize::MAX);
        previous.push(((0, 0), 0));
        i = i + 1;
    }
    proof {
        reveal(route_state);
        assert(route_views(routes@) =~= seq![]);
        assert(used@ =~= usage(bounds, seq![]));
        assert forall|p: Point| bounds.has(pt(p)) implies pu@[bounds.cell(pt(p))] == #[trigger] port_count(
            seq![],
            p,
        ) by {
            lemma_cell_range(bounds, pt(p));
        }
        assert(route_state(l, bounds, blocked@, used@, pu@, route_views(routes@), 0));
        assert(edges_with(es.take(0), true) =~= seq![]);
    }
    let mut k: usize = 0;
    while k < layout.edges.len()
        invariant
            l == *layout,
            es == layout.edges@,
            w == bounds.width(),
            routable(l),
            k <= layout.edges.len(),
            route_state(l, bounds, blocked@, used@, pu@, route_views(routes@), k as int),
            routes_ok(l, edges_with(es.take(k as int), true), route_views(routes@)),
            buffers_ready(bounds, scores@, previous@),
        decreases layout.edges.len() - k,
    {
        let e = &layout.edges[k];
        let ghost rs = route_views(routes@);
        proof {
            lemma_edges_with_take(es, k as int, true);
            assert(end_fits(l.nodes@, es[k as int].from@, es[k as int].from_line) && end_fits(
                l.nodes@,
                es[k as int].to@,
                es[k as int].to_line,
            ));
        }
        if e.bidirectional {
            route_one(
                layout,
                e,
                bounds,
                w,
                &blocked,
                &mut used,
                &mut pu,
                &mut routes,
                &mut scores,
                &mut previous,
                Ghost(k as int),
            );
            proof {
                lemma_routes_step(l, edges_with(es.take(k as int), true), rs, *e, route_views(routes@));
            }
        } else {
            proof {
                lemma_state_next(l, bounds, blocked@, used@, pu@, rs, k as int);
            }
        }
        k = k + 1;
    }
    proof {
        assert(es.take(k as int) =~= es);
        assert(edges_with(es, true) + edges_with(es.take(0), false) =~= edges_with(es, true));
    }
    let mut k2: usize = 0;
    while k2 < layout.edges.len()
        invariant
            l == *layout,
            es == layout.edges@,
            w == bounds.width(),
            routable(l),
            k2 <= layout.edges.len(),
            route_state(l, bounds, blocked@, used@, pu@, route_views(routes@), layout.edges.len() + k2),
            routes_ok(l, edges_with(es, true) + edges_with(es.take(k2 as int), false), route_views(routes@)),
            buffers_ready(bounds, scores@, previous@),
        decreases layout.edges.len() - k2,
    {
        let e = &layout.edges[k2];
        let ghost rs = route_views(routes@);
        proof {
            lemma_edges_with_take(es, k2 as int, false);
            assert(end_fits(l.nodes@, es[k2 as int].from@, es[k2 as int].from_line) && end_fits(
                l.nodes@,
                es[k2 as int].to@,
                es[k2 as int].to_line,
            ));
        }
        if !e.bidirectional {
            route_one(
                layout,
                e,
                bounds,
                w,
                &blocked,
                &mut used,
                &mut pu,
                &mut routes,
                &mut scores,
                &mut previous,
                Ghost(layout.edges.len() + k2),
            );
            proof {
                lemma_routes_step(
                    l,
                    edges_with(es, true) + edges_with(es.take(k2 as int), false),
                    rs,
                    *e,
                    route_views(routes@),
                );
                assert((edges_with(es, true) + edges_with(es.take(k2 as int), false)).push(*e) =~= edges_with(es, true)
                    + edges_with(es.take(k2 as int), false).push(*e));
            }
        } else {
            proof {
                lemma_state_next(l, bounds, blocked@, used@, pu@, rs, layout.edges.len() + k2);
            }
        }
        k2 = k2 + 1;
    }
    proof {
        assert(es.take(k2 as int) =~= es);
        reveal(route_state);
        let sr = spec_routes(*layout);
        assert(routes_ok(*layout, pending_edges(layout.edges@), route_views(routes@)));
        assert(routes_ok(*layout, pending_edges(layout.edges@), sr));
        lemma_routes_unique(*layout, pending_edges(layout.edges@), route_views(routes@), sr);
    }
    routes
}

/// An edge end attaches at a row of its box.
fn end_fits_check(nodes: &Vec<NodeBox>, name: &String, line: usize) -> (r: bool)
    requires
        forall|k: int| 0 <= k < nodes.len() ==> node_fits(#[trigger] nodes@[k]),
    ensures
        r == end_fits(nodes@, name@, line),
{
    match find_first(nodes, name) {
        None => true,
        Some(k) => {
            proof {
                lemma_find_node(nodes@, name@);
                assert(node_fits(nodes@[k as int]));
            }
            let n = &nodes[k];
            let row: i128 = if line == 0 {
                n.y as i128 + 1
            } else {
                n.y as i128 + 2 + line as i128
            };
            row <= n.y as i128 + n.h as i128 - 1
        },
    }
}

/// Whether routing is proved for a layout.
pub fn can_route(layout: &Layout) -> (r: bool)
    ensures
        r == routable(*layout),
{
    let ghost l = *layout;
    let mut k: usize = 0;
    while k < layout.nodes.len()
        invariant
            k <= layout.nodes.len(),
            forall|j: int| 0 <= j < k ==> node_fits(#[trigger] layout.nodes@[j]),
        decreases layout.nodes.len() - k,
    {
        let n = &layout.nodes[k];
        if !(-0x100_0000_0000 <= n.x && n.x <= 0x100_0000_0000 && -0x100_0000_0000 <= n.y && n.y <= 0x100_0000_0000
            && n.w as u64 <= 0x1_0000_0000 && n.h as u64 <= 0x1_0000_0000) {
            return false;
        }
        k = k + 1;
    }
    let mut k: usize = 0;
    while k < layout.edges.len()
        invariant
            k <= layout.edges.len(),
            forall|j: int| 0 <= j < layout.nodes.len() ==> node_fits(#[trigger] layout.nodes@[j]),
            forall|j: int|
                0 <= j < k ==> end_fits(layout.nodes@, (#[trigger] layout.edges@[j]).from@, layout.edges@[j].from_line)
                    && end_fits(layout.nodes@, layout.edges@[j].to@, layout.edges@[j].to_line),
        decreases layout.edges.len() - k,
    {
        let e = &layout.edges[k];
        if !end_fits_check(&layout.nodes, &e.from, e.from_line) || !end_fits_check(&layout.nodes, &e.to, e.to_line) {
            return false;
        }
        k = k + 1;
    }
    if layout.nodes.len() == 0 {
        return true;
    }
    let mut min_x: i64 = i64::MAX;
    let mut min_y: i64 = i64::MAX;
    let mut max_x: i64 = i64::MIN;
    let mut max_y: i64 = i64::MIN;
    let mut k: usize = 0;
    while k < layout.nodes.len()
        invariant
            k <= layout.nodes.len(),
            forall|j: int| 0 <= j < layout.nodes.len() ==> node_fits(#[trigger] layout.nodes@[j]),
            min_x == lo_x(layout.nodes@.take(k as int)),
            min_y == lo_y(layout.nodes@.take(k as int)),
            max_x == hi_x(layout.nodes@.take(k as int)),
            max_y == hi_y(layout.nodes@.take(k as int)),
        decreases layout.nodes.len() - k,
    {
        let node = &layout.nodes[k];
        proof {
            assert(node_fits(layout.nodes@[k as int]));
            assert(layout.nodes@.take(k + 1).drop_last() =~= layout.nodes@.take(k as int));
            assert(layout.nodes@.take(k + 1).last() == *node);
        }
        let right = node.x + node.w as i64 - 1;
        let bottom = node.y + node.h as i64 - 1;
        if node.x < min_x {
            min_x = node.x;
        }
        if node.y < min_y {
            min_y = node.y;
        }
        if right > max_x {
            max_x = right;
        }
        if bottom > max_y {
            max_y = bottom;
        }
        k = k + 1;
    }
    if layout.edges.len() > 0x1000_0000 {
        proof {
            if route_area_ok(l) {
                lemma_edges_bound(l);
            }
        }
        return false;
    }
    proof {
        assert(layout.nodes@.take(k as int) =~= layout.nodes@);
        lemma_route_corners(l);
        lemma_extent_bounds(l.nodes@);
    }
    let m: i128 = 6 + layout.edges.len() as i128;
    let w: i128 = (max_x as i128 + m) - (min_x as i128 - m) + 1;
    let h: i128 = (max_y as i128 + m) - (min_y as i128 - m) + 1;
    proof {
        assert(0 <= w * h <= 0x1_0000_0000_0000_0000_0000_0000) by (nonlinear_arith)
            requires
                0 <= w <= 0x1_0000_0000_0000,
                0 <= h <= 0x1_0000_0000_0000,
        ;
    }
    125 * (w * h) + w + h + 200 * layout.edges.len() as i128 + 0x1000_0000 <= usize::MAX as i128
}

/// Every step of a walk is onto a free cell.
pub proof fn lemma_walk_open(f: Field, pts: Seq<Point>, i: int)
    requires
        walk(f, pts),
        1 <= i < pts.len(),
    ensures
        open_cell(f, pt(pts[i])),
        adjacent(pts[i - 1], pts[i]),
{
    assert(adjacent(pts[i - 1], pts[i]) && open_cell(f, pt(pts[i])));
}

/// No route runs through a box: every cell of every route is free.
pub proof fn lemma_routes_avoid_boxes(l: Layout, p: Seq<EdgeRoute>, rs: Seq<RouteView>)
    requires
        routable(l),
        routes_ok(l, p, rs),
    ensures
        forall|k: int, i: int|
            0 <= k < rs.len() && 0 <= i < rs[k].2.len() ==> !in_boxes(l.nodes@, pt(#[trigger] rs[k].2[i])),
    decreases p.len(),
{
    if p.len() > 0 {
        let e = p.last();
        if edge_skipped(l, rs, e) && routes_ok(l, p.drop_last(), rs) {
            lemma_routes_avoid_boxes(l, p.drop_last(), rs);
        } else {
            let prior = rs.drop_last();
            let r = rs.last();
            lemma_routes_avoid_boxes(l, p.drop_last(), prior);
            let ks = find_node(l.nodes@, e.from@);
            let kt = find_node(l.nodes@, e.to@);
            assert(edge_routed(l, prior, e, r));
            let j = choose|j: int| chosen(l, prior, l.nodes@[ks], l.nodes@[kt], e, j, r);
            assert(path_ok(combo_field(l, prior, combo_ports(l.nodes@[ks], l.nodes@[kt], e, j).0, combo_ports(l.nodes@[ks], l.nodes@[kt], e, j).1), r.2));
            let src = combo_ports(l.nodes@[ks], l.nodes@[kt], e, j).0;
            let tgt = combo_ports(l.nodes@[ks], l.nodes@[kt], e, j).1;
            let f = combo_field(l, prior, src, tgt);
            assert(path_ok(f, r.2));
            assert(walk(f, r.2));
            lemma_route_bounds(l);
            assert forall|k: int, i: int| 0 <= k < rs.len() && 0 <= i < rs[k].2.len() implies !in_boxes(
                l.nodes@,
                pt(#[trigger] rs[k].2[i]),
            ) by {
                if k < prior.len() {
                    assert(rs[k] == prior[k]);
                    assert(!in_boxes(l.nodes@, pt(prior[k].2[i])));
                } else if i == 0 {
                    assert(rs[k] == r);
                } else if i > 0 {
                    assert(rs[k] == r);
                    lemma_walk_open(f, r.2, i);
                    lemma_blocked_grid(f.b, l.nodes@, pt(r.2[i]));
                }
            }
        }
    }
}

} // verus!
