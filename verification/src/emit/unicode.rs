//! The text diagram: boxes drawn with box-drawing characters (or plain
//! ASCII), joined by routed lines with arrowheads.
use vstd::prelude::*;
use crate::emit::route::{
    RouteView, can_route, hi_x, hi_y, lemma_adjacent_sym, lemma_extent, lemma_extent_bounds,
    lemma_route_bounds, lo_x, lo_y, node_fits, pending_edges, route_bounds, route_edges, route_mask,
    route_shape, route_view, route_views, routable, routes_ok, spec_route_mask, spec_routes,
};
use crate::layout::Layout;
use crate::layout::{NodeBox, spec_line_row};
use crate::text::{char_count, chars_of, push_char, views};

verus! {

/// A cell of the diagram, as column and row.
pub type Point = (i64, i64);

/// One of the four directions on the grid.
#[derive(Debug, Copy, Clone, PartialEq, Eq, Structural)]
pub enum Dir {
    R,
    D,
    L,
    U,
}

pub open spec fn spec_delta(d: Dir) -> (int, int) {
    match d {
        Dir::R => (1, 0),
        Dir::D => (0, 1),
        Dir::L => (-1, 0),
        Dir::U => (0, -1),
    }
}

/// The bit of a direction in a cell's mask of line ends.
pub open spec fn spec_bit(d: Dir) -> u8 {
    match d {
        Dir::U => 1,
        Dir::R => 2,
        Dir::D => 4,
        Dir::L => 8,
    }
}

/// The bits of both directions along a direction's axis.
pub open spec fn spec_axis(d: Dir) -> u8 {
    match d {
        Dir::R | Dir::L => 10,
        Dir::U | Dir::D => 5,
    }
}

/// The point one step from `p` in direction `d`.
pub open spec fn step(p: Point, d: Dir) -> (int, int) {
    (p.0 + spec_delta(d).0, p.1 + spec_delta(d).1)
}

/// `b` is a neighbour of `a` on the grid.
pub open spec fn adjacent(a: Point, b: Point) -> bool {
    exists|d: Dir| #[trigger] step(a, d) == (b.0 as int, b.1 as int)
}

/// The direction from `a` to its neighbour `b`.
pub open spec fn dir_between(a: Point, b: Point) -> Dir {
    if b.0 == a.0 + 1 && b.1 == a.1 {
        Dir::R
    } else if b.0 == a.0 && b.1 == a.1 + 1 {
        Dir::D
    } else if b.0 == a.0 - 1 && b.1 == a.1 {
        Dir::L
    } else {
        Dir::U
    }
}

pub proof fn lemma_dir_between(a: Point, d: Dir, b: Point)
    requires
        step(a, d) == (b.0 as int, b.1 as int),
    ensures
        dir_between(a, b) == d,
{
}

impl Dir {
    pub fn delta(self) -> (r: (i64, i64))
        ensures
            r.0 == spec_delta(self).0,
            r.1 == spec_delta(self).1,
    {
        match self {
            Dir::R => (1, 0),
            Dir::D => (0, 1),
            Dir::L => (-1, 0),
            Dir::U => (0, -1),
        }
    }

    pub fn bit(self) -> (r: u8)
        ensures
            r == spec_bit(self),
    {
        match self {
            Dir::U => 1,
            Dir::R => 2,
            Dir::D => 4,
            Dir::L => 8,
        }
    }

    pub fn axis(self) -> (r: u8)
        ensures
            r == spec_axis(self),
    {
        match self {
            Dir::R | Dir::L => 0b1010,
            Dir::U | Dir::D => 0b0101,
        }
    }
}

/// The direction from `a` to its neighbour `b`.
pub fn direction(a: Point, b: Point) -> (d: Dir)
    requires
        adjacent(a, b),
    ensures
        d == dir_between(a, b),
        step(a, d) == (b.0 as int, b.1 as int),
{
    if b.0 - a.0 == 1 && b.1 == a.1 {
        Dir::R
    } else if b.0 == a.0 && b.1 - a.1 == 1 {
        Dir::D
    } else if a.0 - b.0 == 1 && b.1 == a.1 {
        Dir::L
    } else {
        Dir::U
    }
}

pub open spec fn spec_arrow_glyph(d: Dir) -> char {
    match d {
        Dir::R => '>',
        Dir::D => 'v',
        Dir::L => '<',
        Dir::U => '^',
    }
}

/// The arrowhead that points in a direction.
pub fn arrow_glyph(d: Dir) -> (c: char)
    ensures
        c == spec_arrow_glyph(d),
{
    match d {
        Dir::R => '>',
        Dir::D => 'v',
        Dir::L => '<',
        Dir::U => '^',
    }
}

/// The line ends (as a mask of direction bits) that a box-drawing character
/// shows.
pub open spec fn spec_glyph_dirs(c: char) -> Option<u8> {
    if c == '─' {
        Some(10u8)
    } else if c == '│' {
        Some(5u8)
    } else if c == '┌' {
        Some(6u8)
    } else if c == '┐' {
        Some(12u8)
    } else if c == '└' {
        Some(3u8)
    } else if c == '┘' {
        Some(9u8)
    } else if c == '├' {
        Some(7u8)
    } else if c == '┤' {
        Some(13u8)
    } else if c == '┬' {
        Some(14u8)
    } else if c == '┴' {
        Some(11u8)
    } else if c == '┼' {
        Some(15u8)
    } else {
        None
    }
}

/// The box-drawing character for a mask of line ends; a line for a single
/// end, a space for none.
pub open spec fn spec_dirs_glyph(m: u8) -> char {
    if m == 2 || m == 8 || m == 10 {
        '─'
    } else if m == 1 || m == 4 || m == 5 {
        '│'
    } else if m == 6 {
        '┌'
    } else if m == 12 {
        '┐'
    } else if m == 3 {
        '└'
    } else if m == 9 {
        '┘'
    } else if m == 7 {
        '├'
    } else if m == 13 {
        '┤'
    } else if m == 14 {
        '┬'
    } else if m == 11 {
        '┴'
    } else if m == 15 {
        '┼'
    } else {
        ' '
    }
}

pub fn glyph_dirs(c: char) -> (r: Option<u8>)
    ensures
        r == spec_glyph_dirs(c),
{
    match c {
        '─' => Some(0b1010),
        '│' => Some(0b0101),
        '┌' => Some(0b0110),
        '┐' => Some(0b1100),
        '└' => Some(0b0011),
        '┘' => Some(0b1001),
        '├' => Some(0b0111),
        '┤' => Some(0b1101),
        '┬' => Some(0b1110),
        '┴' => Some(0b1011),
        '┼' => Some(0b1111),
        _ => None,
    }
}

pub fn dirs_glyph(m: u8) -> (c: char)
    ensures
        c == spec_dirs_glyph(m),
{
    match m {
        0b0010 | 0b1000 | 0b1010 => '─',
        0b0001 | 0b0100 | 0b0101 => '│',
        0b0110 => '┌',
        0b1100 => '┐',
        0b0011 => '└',
        0b1001 => '┘',
        0b0111 => '├',
        0b1101 => '┤',
        0b1110 => '┬',
        0b1011 => '┴',
        0b1111 => '┼',
        _ => ' ',
    }
}

/// Reading the line ends of a box-drawing character and drawing them again
/// gives the same character.
pub proof fn lemma_glyph_round_trip(c: char)
    ensures
        spec_glyph_dirs(c) matches Some(m) ==> spec_dirs_glyph(m) == c,
{
}

/// Drawing a mask of two or more line ends and reading it back gives the
/// same mask.
pub proof fn lemma_mask_round_trip(m: u8)
    requires
        m == 3 || m == 5 || m == 6 || m == 7 || 9 <= m <= 15,
    ensures
        spec_glyph_dirs(spec_dirs_glyph(m)) == Some(m),
{
}

/// The arrowhead drawn where a line enters a box from `d`'s side points
/// the way the line travels: stepping in `d` from the arrow's cell reaches
/// the box.
pub proof fn lemma_direction_step(a: Point, d: Dir)
    requires
        i64::MIN <= step(a, d).0 <= i64::MAX,
        i64::MIN <= step(a, d).1 <= i64::MAX,
    ensures
        dir_between(a, (step(a, d).0 as i64, step(a, d).1 as i64)) == d,
{
}

/// Where a line meets a box: the cell of the border it leaves from, and
/// the free cell just outside.
#[derive(Debug, Copy, Clone)]
pub struct Port {
    pub border: Point,
    pub outside: Point,
}

/// A routed edge: its two ports, the free cells from the source's outside
/// cell to the target's, and whether it has arrows at both ends.
#[derive(Debug)]
pub struct RoutedEdge {
    pub source: Port,
    pub target: Port,
    pub path: Vec<Point>,
    pub bidirectional: bool,
}

/// One drawing step on the grid: write a character, or add line ends to
/// what a cell shows.
pub enum Op {
    Put((int, int, char)),
    Merge(int, int, u8),
}

/// The text grid: `height` rows of `width` characters, and the offsets
/// that turn diagram points into grid cells.
pub struct Grid {
    pub cells: Vec<char>,
    pub width: usize,
    pub height: usize,
    pub off_x: i64,
    pub off_y: i64,
}

/// The cell index of a point, when the point is on the grid.
pub open spec fn cell_of(g: (Seq<char>, int, int, int, int), px: int, py: int) -> Option<int> {
    let (cells, w, h, ox, oy) = g;
    let x = px + ox;
    let y = py + oy;
    if 0 <= x < w && 0 <= y < h {
        Some(y * w + x)
    } else {
        None
    }
}

/// The characters after one drawing step. Adding line ends to a
/// box-drawing character draws the union of both; to a blank cell, just
/// the new ends; any other character stays.
pub open spec fn apply_op(g: (Seq<char>, int, int, int, int), op: Op) -> Seq<char> {
    let cells = g.0;
    match op {
        Op::Put((px, py, c)) => match cell_of(g, px, py) {
            Some(i) => cells.update(i, c),
            None => cells,
        },
        Op::Merge(px, py, m) => match cell_of(g, px, py) {
            Some(i) => match spec_glyph_dirs(cells[i]) {
                Some(e) => cells.update(i, spec_dirs_glyph(e | m)),
                None => if cells[i] == ' ' {
                    cells.update(i, spec_dirs_glyph(m))
                } else {
                    cells
                },
            },
            None => cells,
        },
    }
}

/// The characters after a list of drawing steps, in order.
pub open spec fn apply_ops(g: (Seq<char>, int, int, int, int), ops: Seq<Op>) -> Seq<char>
    decreases ops.len(),
{
    if ops.len() == 0 {
        g.0
    } else {
        let before = apply_ops(g, ops.drop_last());
        apply_op((before, g.1, g.2, g.3, g.4), ops.last())
    }
}

impl Grid {
    pub open spec fn model(&self) -> (Seq<char>, int, int, int, int) {
        (self.cells@, self.width as int, self.height as int, self.off_x as int, self.off_y as int)
    }

    pub open spec fn wf(&self) -> bool {
        &&& self.cells@.len() == self.width * self.height
        &&& -0x1000_0000_0000_0000 <= self.off_x <= 0x1000_0000_0000_0000
        &&& -0x1000_0000_0000_0000 <= self.off_y <= 0x1000_0000_0000_0000
    }

    /// Writes a character at a point, when the point is on the grid.
    pub fn put(&mut self, px: i64, py: i64, c: char)
        requires
            old(self).wf(),
            -0x1000_0000_0000_0000 <= px <= 0x1000_0000_0000_0000,
            -0x1000_0000_0000_0000 <= py <= 0x1000_0000_0000_0000,
        ensures
            final(self).wf(),
            final(self).width == old(self).width,
            final(self).height == old(self).height,
            final(self).off_x == old(self).off_x,
            final(self).off_y == old(self).off_y,
            final(self).cells@ == apply_op(old(self).model(), Op::Put((px as int, py as int, c))),
    {
        let x = px + self.off_x;
        let y = py + self.off_y;
        if x >= 0 && y >= 0 && (x as u64) < (self.width as u64) && (y as u64) < (self.height as u64) {
            let xu = x as usize;
            let yu = y as usize;
            let n = self.cells.len();
            proof {
                assert(yu * self.width + xu < self.width * self.height && yu * self.width <= yu * self.width + xu) by (nonlinear_arith)
                    requires
                        xu < self.width,
                        yu < self.height,
                ;
                assert(self.cells@.len() == n);
            }
            let i = yu * self.width + xu;
            self.cells.set(i, c);
        }
    }

    /// Adds line ends to what a cell shows.
    pub fn merge_mask(&mut self, px: i64, py: i64, mask: u8)
        requires
            old(self).wf(),
            -0x1000_0000_0000_0000 <= px <= 0x1000_0000_0000_0000,
            -0x1000_0000_0000_0000 <= py <= 0x1000_0000_0000_0000,
        ensures
            final(self).wf(),
            final(self).width == old(self).width,
            final(self).height == old(self).height,
            final(self).off_x == old(self).off_x,
            final(self).off_y == old(self).off_y,
            final(self).cells@ == apply_op(old(self).model(), Op::Merge(px as int, py as int, mask)),
    {
        let x = px + self.off_x;
        let y = py + self.off_y;
        if x < 0 || y < 0 || (x as u64) >= (self.width as u64) || (y as u64) >= (self.height as u64) {
            return;
        }
        let xu = x as usize;
        let yu = y as usize;
        let n = self.cells.len();
        proof {
            assert(yu * self.width + xu < self.width * self.height && yu * self.width <= yu * self.width + xu) by (nonlinear_arith)
                requires
                    xu < self.width,
                    yu < self.height,
            ;
            assert(self.cells@.len() == n);
        }
        let i = yu * self.width + xu;
        let current = self.cells[i];
        match glyph_dirs(current) {
            Some(existing) => {
                self.cells.set(i, dirs_glyph(existing | mask));
            },
            None => {
                if current == ' ' {
                    self.cells.set(i, dirs_glyph(mask));
                }
            },
        }
    }
}

pub proof fn lemma_apply_ops_push(g: (Seq<char>, int, int, int, int), ops: Seq<Op>, op: Op)
    ensures
        apply_ops(g, ops.push(op)) == apply_op((apply_ops(g, ops), g.1, g.2, g.3, g.4), op),
{
    assert(ops.push(op).drop_last() =~= ops);
}

pub proof fn lemma_apply_ops_concat(g: (Seq<char>, int, int, int, int), a: Seq<Op>, b: Seq<Op>)
    ensures
        apply_ops(g, a + b) == apply_ops((apply_ops(g, a), g.1, g.2, g.3, g.4), b),
    decreases b.len(),
{
    if b.len() == 0 {
        assert(a + b =~= a);
    } else {
        lemma_apply_ops_concat(g, a, b.drop_last());
        assert((a + b).drop_last() =~= a + b.drop_last());
    }
}

/// The two horizontal border lines of a box, drawn column by column.
pub open spec fn hline_ops(x0: int, x1: int, y: int, bottom: int) -> Seq<Op> {
    Seq::new(
        if x1 > x0 {
            (2 * (x1 - x0)) as nat
        } else {
            0
        },
        |k: int|
            Op::Put((
                x0 + k / 2,
                if k % 2 == 0 {
                    y
                } else {
                    bottom
                },
                '─',
            )),
    )
}

/// The two vertical border lines of a box, drawn row by row.
pub open spec fn vline_ops(y0: int, y1: int, x: int, right: int) -> Seq<Op> {
    Seq::new(
        if y1 > y0 {
            (2 * (y1 - y0)) as nat
        } else {
            0
        },
        |k: int|
            Op::Put((
                if k % 2 == 0 {
                    x
                } else {
                    right
                },
                y0 + k / 2,
                '│',
            )),
    )
}

/// The rule under a box's name, when the box has more than its name.
pub open spec fn rule_ops(n: NodeBox) -> Seq<Op> {
    let right = n.x + n.w - 1;
    if n.lines.len() > 1 {
        seq![Op::Put((n.x as int, n.y + 2, '├')), Op::Put((right, n.y + 2, '┤'))] + Seq::new(
            if right > n.x + 1 {
                (right - n.x - 1) as nat
            } else {
                0
            },
            |k: int| Op::Put((n.x + 1 + k, n.y + 2, '─')),
        )
    } else {
        seq![]
    }
}

/// One line of a box's text, centred between the borders (from the left
/// border when it does not fit).
pub open spec fn line_ops(n: NodeBox, idx: int, line: Seq<char>) -> Seq<Op> {
    let row = spec_line_row(n.y as int, idx);
    let v = n.w - 2 - line.len();
    let pad = (if v > 0 {
        v
    } else {
        0
    }) / 2;
    chars_ops(n.x + 1 + pad, row, line)
}

/// The characters of `line` written left to right from `(x0, row)`.
pub open spec fn chars_ops(x0: int, row: int, line: Seq<char>) -> Seq<Op>
    decreases line.len(),
{
    if line.len() == 0 {
        seq![]
    } else {
        chars_ops(x0, row, line.drop_last()).push(Op::Put((x0 + line.len() - 1, row, line.last())))
    }
}

pub open spec fn text_ops(n: NodeBox, lines: Seq<Seq<char>>) -> Seq<Op>
    decreases lines.len(),
{
    if lines.len() == 0 {
        seq![]
    } else {
        text_ops(n, lines.drop_last()) + line_ops(n, lines.len() - 1, lines.last())
    }
}

/// Everything drawn for one box: corners, borders, the rule, the text.
pub open spec fn box_ops(n: NodeBox) -> Seq<Op> {
    let right = n.x + n.w - 1;
    let bottom = n.y + n.h - 1;
    seq![
        Op::Put((n.x as int, n.y as int, '┌')),
        Op::Put((right, n.y as int, '┐')),
        Op::Put((n.x as int, bottom, '└')),
        Op::Put((right, bottom, '┘')),
    ] + hline_ops(n.x + 1, right, n.y as int, bottom) + vline_ops(n.y + 1, bottom, n.x as int, right)
        + rule_ops(n) + text_ops(n, views(n.lines@))
}

pub open spec fn boxes_ops(nodes: Seq<NodeBox>) -> Seq<Op>
    decreases nodes.len(),
{
    if nodes.len() == 0 {
        seq![]
    } else {
        boxes_ops(nodes.drop_last()) + box_ops(nodes.last())
    }
}

/// A box whose corners, sizes and text stay within the arithmetic the
/// drawing is proved for.
pub open spec fn node_drawable(n: NodeBox) -> bool {
    &&& -0x100_0000_0000_0000 <= n.x <= 0x100_0000_0000_0000
    &&& -0x100_0000_0000_0000 <= n.y <= 0x100_0000_0000_0000
    &&& n.w <= 0x1_0000_0000
    &&& n.h <= 0x1_0000_0000
    &&& n.lines.len() <= 0x1_0000_0000
    &&& forall|k: int| 0 <= k < n.lines.len() ==> (#[trigger] n.lines@[k])@.len() <= 0x1_0000_0000
}

impl Grid {
    /// Writes `chars` left to right from `(x0, row)`.
    fn draw_chars(&mut self, x0: i64, row: i64, chars: &Vec<char>)
        requires
            old(self).wf(),
            -0x400_0000_0000_0000 <= x0 <= 0x400_0000_0000_0000,
            -0x400_0000_0000_0000 <= row <= 0x400_0000_0000_0000,
            chars.len() <= 0x1_0000_0000,
        ensures
            final(self).wf(),
            final(self).width == old(self).width,
            final(self).height == old(self).height,
            final(self).off_x == old(self).off_x,
            final(self).off_y == old(self).off_y,
            final(self).cells@ == apply_ops(old(self).model(), chars_ops(x0 as int, row as int, chars@)),
    {
        let ghost g0 = self.model();
        let mut o: usize = 0;
        while o < chars.len()
            invariant
                self.wf(),
                self.width == g0.1,
                self.height == g0.2,
                self.off_x == g0.3,
                self.off_y == g0.4,
                -0x400_0000_0000_0000 <= x0 <= 0x400_0000_0000_0000,
                -0x400_0000_0000_0000 <= row <= 0x400_0000_0000_0000,
                chars.len() <= 0x1_0000_0000,
                o <= chars.len(),
                self.cells@ == apply_ops(g0, chars_ops(x0 as int, row as int, chars@.take(o as int))),
            decreases chars.len() - o,
        {
            let px = x0 + o as i64;
            let c = chars[o];
            self.put(px, row, c);
            proof {
                let prefix = chars@.take(o as int);
                lemma_apply_ops_push(g0, chars_ops(x0 as int, row as int, prefix), Op::Put((px as int, row as int, c)));
                assert(chars@.take(o + 1).drop_last() =~= prefix);
                assert(chars@.take(o + 1).last() == c);
            }
            o = o + 1;
        }
        assert(chars@.take(o as int) =~= chars@);
    }

    #[verifier::spinoff_prover]
    #[verifier::rlimit(50)]
    fn draw_box(&mut self, n: &NodeBox)
        requires
            old(self).wf(),
            node_drawable(*n),
        ensures
            final(self).wf(),
            final(self).width == old(self).width,
            final(self).height == old(self).height,
            final(self).off_x == old(self).off_x,
            final(self).off_y == old(self).off_y,
            final(self).cells@ == apply_ops(old(self).model(), box_ops(*n)),
    {
        let ghost g0 = self.model();
        let ghost mut done: Seq<Op> = seq![];
        let right = n.x + n.w as i64 - 1;
        let bottom = n.y + n.h as i64 - 1;
        self.put(n.x, n.y, '┌');
        proof {
            lemma_apply_ops_push(g0, done, Op::Put((n.x as int, n.y as int, '┌')));
            done = done.push(Op::Put((n.x as int, n.y as int, '┌')));
        }
        self.put(right, n.y, '┐');
        proof {
            lemma_apply_ops_push(g0, done, Op::Put((right as int, n.y as int, '┐')));
            done = done.push(Op::Put((right as int, n.y as int, '┐')));
        }
        self.put(n.x, bottom, '└');
        proof {
            lemma_apply_ops_push(g0, done, Op::Put((n.x as int, bottom as int, '└')));
            done = done.push(Op::Put((n.x as int, bottom as int, '└')));
        }
        self.put(right, bottom, '┘');
        proof {
            lemma_apply_ops_push(g0, done, Op::Put((right as int, bottom as int, '┘')));
            done = done.push(Op::Put((right as int, bottom as int, '┘')));
        }
        let ghost d1 = done;
        let mut x = n.x + 1;
        while x < right
            invariant
                self.wf(),
                self.width == g0.1,
                self.height == g0.2,
                self.off_x == g0.3,
                self.off_y == g0.4,
                node_drawable(*n),
                right == n.x + n.w - 1,
                bottom == n.y + n.h - 1,
                n.x + 1 <= x,
                x <= right || x == n.x + 1,
                self.cells@ == apply_ops(g0, done),
                done == d1 + hline_ops(n.x + 1, x as int, n.y as int, bottom as int),
            decreases right - x,
        {
            self.put(x, n.y, '─');
            proof {
                lemma_apply_ops_push(g0, done, Op::Put((x as int, n.y as int, '─')));
                done = done.push(Op::Put((x as int, n.y as int, '─')));
            }
            self.put(x, bottom, '─');
            proof {
                lemma_apply_ops_push(g0, done, Op::Put((x as int, bottom as int, '─')));
                done = done.push(Op::Put((x as int, bottom as int, '─')));
                assert(hline_ops(n.x + 1, x + 1, n.y as int, bottom as int) =~= hline_ops(
                    n.x + 1,
                    x as int,
                    n.y as int,
                    bottom as int,
                ).push(Op::Put((x as int, n.y as int, '─'))).push(Op::Put((x as int, bottom as int, '─'))));
            }
            x = x + 1;
        }
        let ghost d2 = done;
        assert(d2 == d1 + hline_ops(n.x + 1, right as int, n.y as int, bottom as int)) by {
            if right <= n.x + 1 {
                assert(hline_ops(n.x + 1, x as int, n.y as int, bottom as int) =~= hline_ops(n.x + 1, right as int, n.y as int, bottom as int));
            }
        }
        let mut y = n.y + 1;
        while y < bottom
            invariant
                self.wf(),
                self.width == g0.1,
                self.height == g0.2,
                self.off_x == g0.3,
                self.off_y == g0.4,
                node_drawable(*n),
                right == n.x + n.w - 1,
                bottom == n.y + n.h - 1,
                n.y + 1 <= y,
                y <= bottom || y == n.y + 1,
                self.cells@ == apply_ops(g0, done),
                done == d2 + vline_ops(n.y + 1, y as int, n.x as int, right as int),
            decreases bottom - y,
        {
            self.put(n.x, y, '│');
            proof {
                lemma_apply_ops_push(g0, done, Op::Put((n.x as int, y as int, '│')));
                done = done.push(Op::Put((n.x as int, y as int, '│')));
            }
            self.put(right, y, '│');
            proof {
                lemma_apply_ops_push(g0, done, Op::Put((right as int, y as int, '│')));
                done = done.push(Op::Put((right as int, y as int, '│')));
                assert(vline_ops(n.y + 1, y + 1, n.x as int, right as int) =~= vline_ops(
                    n.y + 1,
                    y as int,
                    n.x as int,
                    right as int,
                ).push(Op::Put((n.x as int, y as int, '│'))).push(Op::Put((right as int, y as int, '│'))));
            }
            y = y + 1;
        }
        let ghost d3 = done;
        assert(d3 == d2 + vline_ops(n.y + 1, bottom as int, n.x as int, right as int)) by {
            if bottom <= n.y + 1 {
                assert(vline_ops(n.y + 1, y as int, n.x as int, right as int) =~= vline_ops(n.y + 1, bottom as int, n.x as int, right as int));
            }
        }
        if n.lines.len() > 1 {
            let y2 = n.y + 2;
            self.put(n.x, y2, '├');
            proof {
                lemma_apply_ops_push(g0, done, Op::Put((n.x as int, y2 as int, '├')));
                done = done.push(Op::Put((n.x as int, y2 as int, '├')));
            }
            self.put(right, y2, '┤');
            proof {
                lemma_apply_ops_push(g0, done, Op::Put((right as int, y2 as int, '┤')));
                done = done.push(Op::Put((right as int, y2 as int, '┤')));
            }
            let ghost d4 = done;
            let mut x = n.x + 1;
            while x < right
                invariant
                    self.wf(),
                    self.width == g0.1,
                    self.height == g0.2,
                    self.off_x == g0.3,
                    self.off_y == g0.4,
                    node_drawable(*n),
                    right == n.x + n.w - 1,
                    y2 == n.y + 2,
                    n.x + 1 <= x,
                    x <= right || x == n.x + 1,
                    self.cells@ == apply_ops(g0, done),
                    done == d4 + Seq::new((x - n.x - 1) as nat, |k: int| Op::Put((n.x + 1 + k, n.y + 2, '─'))),
                decreases right - x,
            {
                self.put(x, y2, '─');
                proof {
                    lemma_apply_ops_push(g0, done, Op::Put((x as int, y2 as int, '─')));
                    done = done.push(Op::Put((x as int, y2 as int, '─')));
                    assert(Seq::new((x + 1 - n.x - 1) as nat, |k: int| Op::Put((n.x + 1 + k, n.y + 2, '─')))
                        =~= Seq::new((x - n.x - 1) as nat, |k: int| Op::Put((n.x + 1 + k, n.y + 2, '─'))).push(
                        Op::Put((x as int, y2 as int, '─')),
                    ));
                }
                x = x + 1;
            }
            assert(done =~= d3 + rule_ops(*n));
        } else {
            assert(done =~= d3 + rule_ops(*n));
        }
        let ghost d5 = done;
        let mut idx: usize = 0;
        while idx < n.lines.len()
            invariant
                self.wf(),
                self.width == g0.1,
                self.height == g0.2,
                self.off_x == g0.3,
                self.off_y == g0.4,
                node_drawable(*n),
                idx <= n.lines.len(),
                self.cells@ == apply_ops(g0, done),
                done == d5 + text_ops(*n, views(n.lines@).take(idx as int)),
            decreases n.lines.len() - idx,
        {
            let line = &n.lines[idx];
            let chars = chars_of(line.as_str());
            let row = if idx == 0 {
                n.y + 1
            } else {
                n.y + 2 + idx as i64
            };
            let len = chars.len() as i64;
            let v = n.w as i64 - 2 - len;
            let pad = (if v > 0 {
                v
            } else {
                0
            }) / 2;
            let ghost d6 = done;
            self.draw_chars(n.x + 1 + pad, row, &chars);
            proof {
                lemma_apply_ops_concat(g0, d6, chars_ops(n.x + 1 + pad, row as int, chars@));
                done = d6 + chars_ops(n.x + 1 + pad, row as int, chars@);
            }
            proof {
                assert(views(n.lines@).take(idx + 1).drop_last() =~= views(n.lines@).take(idx as int));
                assert(views(n.lines@).take(idx + 1).last() == chars@);
                assert(done =~= d5 + text_ops(*n, views(n.lines@).take(idx + 1)));
            }
            idx = idx + 1;
        }
        assert(views(n.lines@).take(idx as int) =~= views(n.lines@));
        assert(done =~= box_ops(*n));
    }

    /// Draws every box.
    pub fn draw_boxes(&mut self, nodes: &Vec<NodeBox>)
        requires
            old(self).wf(),
            forall|k: int| 0 <= k < nodes.len() ==> node_drawable(#[trigger] nodes@[k]),
        ensures
            final(self).wf(),
            final(self).width == old(self).width,
            final(self).height == old(self).height,
            final(self).off_x == old(self).off_x,
            final(self).off_y == old(self).off_y,
            final(self).cells@ == apply_ops(old(self).model(), boxes_ops(nodes@)),
    {
        let ghost g0 = self.model();
        let mut k: usize = 0;
        while k < nodes.len()
            invariant
                self.wf(),
                self.width == g0.1,
                self.height == g0.2,
                self.off_x == g0.3,
                self.off_y == g0.4,
                forall|q: int| 0 <= q < nodes.len() ==> node_drawable(#[trigger] nodes@[q]),
                k <= nodes.len(),
                self.cells@ == apply_ops(g0, boxes_ops(nodes@.take(k as int))),
            decreases nodes.len() - k,
        {
            let ghost before = self.model();
            self.draw_box(&nodes[k]);
            proof {
                lemma_apply_ops_concat(g0, boxes_ops(nodes@.take(k as int)), box_ops(nodes@[k as int]));
                assert(nodes@.take(k + 1).drop_last() =~= nodes@.take(k as int));
            }
            k = k + 1;
        }
        assert(nodes@.take(k as int) =~= nodes@);
    }
}

/// Adds to the border cell of a port the line end towards its outside cell.
pub open spec fn port_merge(p: Port) -> Op {
    Op::Merge(p.border.0 as int, p.border.1 as int, spec_bit(dir_between(p.border, p.outside)))
}

/// Adds to each cell of a route its line ends.
pub open spec fn path_merges(path: Seq<Point>, s: Port, t: Port) -> Seq<Op> {
    Seq::new(path.len(), |i: int| Op::Merge(path[i].0 as int, path[i].1 as int, spec_route_mask(path, i, s, t)))
}

/// The lines of a route: both border cells, then its cells in order.
pub open spec fn route_merges(r: RouteView) -> Seq<Op> {
    seq![port_merge(r.0), port_merge(r.1)] + path_merges(r.2, r.0, r.1)
}

pub open spec fn merges_ops(rs: Seq<RouteView>) -> Seq<Op>
    decreases rs.len(),
{
    if rs.len() == 0 {
        seq![]
    } else {
        merges_ops(rs.drop_last()) + route_merges(rs.last())
    }
}

/// The arrowhead in a port's outside cell, pointing at the box.
pub open spec fn arrow_put(p: Port) -> Op {
    Op::Put((p.outside.0 as int, p.outside.1 as int, spec_arrow_glyph(dir_between(p.outside, p.border))))
}

/// A route's arrowheads: at the target, and at the source too when it has
/// arrows at both ends.
pub open spec fn route_arrows(r: RouteView) -> Seq<Op> {
    seq![arrow_put(r.1)] + if r.3 {
        seq![arrow_put(r.0)]
    } else {
        seq![]
    }
}

pub open spec fn arrows_ops(rs: Seq<RouteView>) -> Seq<Op>
    decreases rs.len(),
{
    if rs.len() == 0 {
        seq![]
    } else {
        arrows_ops(rs.drop_last()) + route_arrows(rs.last())
    }
}

/// A route the grid can draw: cells next to each other, ends next to the
/// ports' border cells, all within 2^52 of the origin.
pub open spec fn route_drawable(r: RouteView) -> bool {
    let path = r.2;
    &&& path.len() >= 1
    &&& path[0] == r.0.outside
    &&& path.last() == r.1.outside
    &&& adjacent(path[0], r.0.border)
    &&& adjacent(path.last(), r.1.border)
    &&& forall|i: int| 1 <= i < path.len() ==> adjacent(#[trigger] path[i], path[i - 1]) && adjacent(path[i - 1], path[i])
    &&& forall|i: int|
        0 <= i < path.len() ==> -0x10_0000_0000_0000 <= (#[trigger] path[i]).0 <= 0x10_0000_0000_0000
            && -0x10_0000_0000_0000 <= path[i].1 <= 0x10_0000_0000_0000
    &&& -0x10_0000_0000_0000 <= r.0.border.0 <= 0x10_0000_0000_0000
    &&& -0x10_0000_0000_0000 <= r.0.border.1 <= 0x10_0000_0000_0000
    &&& -0x10_0000_0000_0000 <= r.1.border.0 <= 0x10_0000_0000_0000
    &&& -0x10_0000_0000_0000 <= r.1.border.1 <= 0x10_0000_0000_0000
}

impl Grid {
    /// Draws one route's lines.
    fn draw_route(&mut self, r: &RoutedEdge)
        requires
            old(self).wf(),
            route_drawable(route_view(*r)),
        ensures
            final(self).wf(),
            final(self).width == old(self).width,
            final(self).height == old(self).height,
            final(self).off_x == old(self).off_x,
            final(self).off_y == old(self).off_y,
            final(self).cells@ == apply_ops(old(self).model(), route_merges(route_view(*r))),
    {
        let ghost g0 = self.model();
        let ghost rv = route_view(*r);
        proof {
            lemma_adjacent_sym(r.path@[0], r.source.border);
            lemma_adjacent_sym(r.path@.last(), r.target.border);
        }
        let sm = direction(r.source.border, r.source.outside).bit();
        self.merge_mask(r.source.border.0, r.source.border.1, sm);
        let tm = direction(r.target.border, r.target.outside).bit();
        proof {
            lemma_apply_ops_push(g0, seq![], port_merge(r.source));
            assert(seq![].push(port_merge(r.source)) =~= seq![port_merge(r.source)]);
        }
        self.merge_mask(r.target.border.0, r.target.border.1, tm);
        proof {
            lemma_apply_ops_push(g0, seq![port_merge(r.source)], port_merge(r.target));
            assert(seq![port_merge(r.source)].push(port_merge(r.target)) =~= seq![port_merge(r.source), port_merge(r.target)]);
        }
        let ghost d0: Seq<Op> = seq![port_merge(r.source), port_merge(r.target)];
        let mut i: usize = 0;
        while i < r.path.len()
            invariant
                self.wf(),
                self.width == g0.1,
                self.height == g0.2,
                self.off_x == g0.3,
                self.off_y == g0.4,
                rv == route_view(*r),
                route_drawable(rv),
                i <= r.path.len(),
                self.cells@ == apply_ops(g0, d0 + path_merges(r.path@, r.source, r.target).take(i as int)),
            decreases r.path.len() - i,
        {
            let p = r.path[i];
            let m = route_mask(&r.path, i, r.source, r.target);
            proof {
                assert(-0x10_0000_0000_0000 <= r.path@[i as int].0 <= 0x10_0000_0000_0000);
                lemma_apply_ops_push(
                    g0,
                    d0 + path_merges(r.path@, r.source, r.target).take(i as int),
                    Op::Merge(p.0 as int, p.1 as int, m),
                );
                assert((d0 + path_merges(r.path@, r.source, r.target).take(i as int)).push(Op::Merge(p.0 as int, p.1 as int, m))
                    =~= d0 + path_merges(r.path@, r.source, r.target).take(i + 1));
            }
            self.merge_mask(p.0, p.1, m);
            i = i + 1;
        }
        proof {
            assert(path_merges(r.path@, r.source, r.target).take(i as int) =~= path_merges(r.path@, r.source, r.target));
        }
    }

    /// Draws one route's arrowheads.
    fn draw_arrows(&mut self, r: &RoutedEdge)
        requires
            old(self).wf(),
            route_drawable(route_view(*r)),
        ensures
            final(self).wf(),
            final(self).width == old(self).width,
            final(self).height == old(self).height,
            final(self).off_x == old(self).off_x,
            final(self).off_y == old(self).off_y,
            final(self).cells@ == apply_ops(old(self).model(), route_arrows(route_view(*r))),
    {
        let ghost g0 = self.model();
        proof {
            assert(-0x10_0000_0000_0000 <= r.path@[r.path@.len() - 1].0 <= 0x10_0000_0000_0000);
            assert(-0x10_0000_0000_0000 <= r.path@[0].0 <= 0x10_0000_0000_0000);
        }
        let c = arrow_glyph(direction(r.target.outside, r.target.border));
        self.put(r.target.outside.0, r.target.outside.1, c);
        proof {
            lemma_apply_ops_push(g0, seq![], arrow_put(r.target));
            assert(seq![].push(arrow_put(r.target)) =~= seq![arrow_put(r.target)]);
        }
        if r.bidirectional {
            let c2 = arrow_glyph(direction(r.source.outside, r.source.border));
            self.put(r.source.outside.0, r.source.outside.1, c2);
            proof {
                lemma_apply_ops_push(g0, seq![arrow_put(r.target)], arrow_put(r.source));
                assert(seq![arrow_put(r.target)].push(arrow_put(r.source)) =~= route_arrows(
                    route_view(*r),
                ));
            }
        } else {
            proof {
                assert(seq![arrow_put(r.target)] =~= route_arrows(route_view(*r)));
            }
        }
    }

    /// Draws the lines of every route, then every arrowhead.
    pub fn draw_edges(&mut self, routes: &Vec<RoutedEdge>)
        requires
            old(self).wf(),
            forall|k: int| 0 <= k < routes.len() ==> route_drawable(#[trigger] route_view(routes@[k])),
        ensures
            final(self).wf(),
            final(self).width == old(self).width,
            final(self).height == old(self).height,
            final(self).off_x == old(self).off_x,
            final(self).off_y == old(self).off_y,
            final(self).cells@ == apply_ops(
                old(self).model(),
                merges_ops(route_views(routes@)) + arrows_ops(route_views(routes@)),
            ),
    {
        let ghost g0 = self.model();
        let ghost rs = route_views(routes@);
        let mut k: usize = 0;
        while k < routes.len()
            invariant
                self.wf(),
                self.width == g0.1,
                self.height == g0.2,
                self.off_x == g0.3,
                self.off_y == g0.4,
                rs == route_views(routes@),
                forall|q: int| 0 <= q < routes.len() ==> route_drawable(#[trigger] route_view(routes@[q])),
                k <= routes.len(),
                self.cells@ == apply_ops(g0, merges_ops(rs.take(k as int))),
            decreases routes.len() - k,
        {
            self.draw_route(&routes[k]);
            proof {
                lemma_apply_ops_concat(g0, merges_ops(rs.take(k as int)), route_merges(rs[k as int]));
                assert(rs.take(k + 1).drop_last() =~= rs.take(k as int));
            }
            k = k + 1;
        }
        proof {
            assert(rs.take(k as int) =~= rs);
        }
        let ghost d = merges_ops(rs);
        let mut k: usize = 0;
        while k < routes.len()
            invariant
                self.wf(),
                self.width == g0.1,
                self.height == g0.2,
                self.off_x == g0.3,
                self.off_y == g0.4,
                rs == route_views(routes@),
                d == merges_ops(rs),
                forall|q: int| 0 <= q < routes.len() ==> route_drawable(#[trigger] route_view(routes@[q])),
                k <= routes.len(),
                self.cells@ == apply_ops(g0, d + arrows_ops(rs.take(k as int))),
            decreases routes.len() - k,
        {
            self.draw_arrows(&routes[k]);
            proof {
                lemma_apply_ops_concat(g0, d + arrows_ops(rs.take(k as int)), route_arrows(rs[k as int]));
                assert(rs.take(k + 1).drop_last() =~= rs.take(k as int));
                assert(d + arrows_ops(rs.take(k as int)) + route_arrows(rs[k as int]) =~= d + arrows_ops(rs.take(k + 1)));
            }
            k = k + 1;
        }
        proof {
            assert(rs.take(k as int) =~= rs);
        }
    }
}

/// The least and greatest column and row so far, widened by a point.
pub open spec fn ext_step(e: (int, int, int, int), p: Point) -> (int, int, int, int) {
    (
        if p.0 < e.0 {
            p.0 as int
        } else {
            e.0
        },
        if p.1 < e.1 {
            p.1 as int
        } else {
            e.1
        },
        if p.0 > e.2 {
            p.0 as int
        } else {
            e.2
        },
        if p.1 > e.3 {
            p.1 as int
        } else {
            e.3
        },
    )
}

pub open spec fn pts_ext(ps: Seq<Point>, e: (int, int, int, int)) -> (int, int, int, int)
    decreases ps.len(),
{
    if ps.len() == 0 {
        e
    } else {
        ext_step(pts_ext(ps.drop_last(), e), ps.last())
    }
}

/// The cells a route reaches: its own, then its two border cells.
pub open spec fn route_pts(r: RouteView) -> Seq<Point> {
    r.2 + seq![r.0.border, r.1.border]
}

pub open spec fn routes_ext(rs: Seq<RouteView>, e: (int, int, int, int)) -> (int, int, int, int)
    decreases rs.len(),
{
    if rs.len() == 0 {
        e
    } else {
        pts_ext(route_pts(rs.last()), routes_ext(rs.drop_last(), e))
    }
}

/// The extent of the drawing: the boxes and every cell of every route.
pub open spec fn drawing_ext(nodes: Seq<NodeBox>, rs: Seq<RouteView>) -> (int, int, int, int) {
    routes_ext(rs, (lo_x(nodes), lo_y(nodes), hi_x(nodes), hi_y(nodes)))
}

/// The blank grid for a drawing: its extent with a blank cell all around;
/// no cells at all without boxes.
pub open spec fn grid0(nodes: Seq<NodeBox>, rs: Seq<RouteView>) -> (Seq<char>, int, int, int, int) {
    if nodes.len() == 0 {
        (seq![], 0, 0, 0, 0)
    } else {
        let e = drawing_ext(nodes, rs);
        let w = e.2 - e.0 + 3;
        let h = e.3 - e.1 + 3;
        (Seq::new((w * h) as nat, |i: int| ' '), w, h, 1 - e.0, 1 - e.1)
    }
}

/// A drawing whose extent the grid can hold.
pub open spec fn grid_room(nodes: Seq<NodeBox>, rs: Seq<RouteView>) -> bool {
    let e = drawing_ext(nodes, rs);
    nodes.len() > 0 ==> {
        &&& -0x10_0000_0000_0000 <= e.0 <= e.2 + 1
        &&& e.2 <= 0x10_0000_0000_0000
        &&& -0x10_0000_0000_0000 <= e.1 <= e.3 + 1
        &&& e.3 <= 0x10_0000_0000_0000
        &&& (e.2 - e.0 + 3) * (e.3 - e.1 + 3) <= usize::MAX
    }
}

pub proof fn lemma_pts_ext_bounds(
    ps: Seq<Point>,
    e: (int, int, int, int),
    lox: int,
    hix: int,
    loy: int,
    hiy: int,
)
    requires
        lox <= e.0,
        loy <= e.1,
        e.2 <= hix,
        e.3 <= hiy,
        forall|i: int| 0 <= i < ps.len() ==> lox <= (#[trigger] ps[i]).0 <= hix && loy <= ps[i].1 <= hiy,
    ensures
        lox <= pts_ext(ps, e).0 <= e.0,
        loy <= pts_ext(ps, e).1 <= e.1,
        e.2 <= pts_ext(ps, e).2 <= hix,
        e.3 <= pts_ext(ps, e).3 <= hiy,
    decreases ps.len(),
{
    if ps.len() > 0 {
        assert(lox <= ps[ps.len() - 1].0 <= hix);
        lemma_pts_ext_bounds(ps.drop_last(), e, lox, hix, loy, hiy);
    }
}

pub proof fn lemma_routes_ext_bounds(
    rs: Seq<RouteView>,
    e: (int, int, int, int),
    lox: int,
    hix: int,
    loy: int,
    hiy: int,
)
    requires
        lox <= e.0,
        loy <= e.1,
        e.2 <= hix,
        e.3 <= hiy,
        forall|k: int, i: int|
            0 <= k < rs.len() && 0 <= i < route_pts(rs[k]).len() ==> lox <= (#[trigger] route_pts(rs[k])[i]).0 <= hix
                && loy <= route_pts(rs[k])[i].1 <= hiy,
    ensures
        lox <= routes_ext(rs, e).0 <= e.0,
        loy <= routes_ext(rs, e).1 <= e.1,
        e.2 <= routes_ext(rs, e).2 <= hix,
        e.3 <= routes_ext(rs, e).3 <= hiy,
    decreases rs.len(),
{
    if rs.len() > 0 {
        lemma_routes_ext_bounds(rs.drop_last(), e, lox, hix, loy, hiy);
        let k = rs.len() - 1;
        assert forall|i: int| 0 <= i < route_pts(rs.last()).len() implies lox <= (#[trigger] route_pts(rs.last())[i]).0
            <= hix && loy <= route_pts(rs.last())[i].1 <= hiy by {
            assert(lox <= route_pts(rs[k])[i].0 <= hix);
        }
        lemma_pts_ext_bounds(route_pts(rs.last()), routes_ext(rs.drop_last(), e), lox, hix, loy, hiy);
    }
}

/// Neighbouring cells differ by at most one in each coordinate.
pub proof fn lemma_adjacent_near(a: Point, b: Point)
    requires
        adjacent(a, b),
    ensures
        a.0 - 1 <= b.0 <= a.0 + 1,
        a.1 - 1 <= b.1 <= a.1 + 1,
{
    let d = choose|d: Dir| #[trigger] step(a, d) == (b.0 as int, b.1 as int);
}

impl Grid {
    /// A blank grid for the boxes and routes.
    pub fn new(nodes: &Vec<NodeBox>, routes: &Vec<RoutedEdge>) -> (g: Grid)
        requires
            grid_room(nodes@, route_views(routes@)),
            forall|k: int|
                0 <= k < nodes.len() ==> -0x100_0000_0000 <= (#[trigger] nodes@[k]).x <= 0x100_0000_0000
                    && -0x100_0000_0000 <= nodes@[k].y <= 0x100_0000_0000 && nodes@[k].w <= 0x1_0000_0000
                    && nodes@[k].h <= 0x1_0000_0000,
            forall|k: int| 0 <= k < routes.len() ==> route_drawable(#[trigger] route_view(routes@[k])),
        ensures
            g.wf(),
            g.model() == grid0(nodes@, route_views(routes@)),
    {
        let ghost rs = route_views(routes@);
        if nodes.len() == 0 {
            let cells: Vec<char> = Vec::new();
            let g = Grid { cells, width: 0, height: 0, off_x: 0, off_y: 0 };
            proof {
                assert(g.cells@ =~= seq![]);
                assert(g.width == 0);
                assert(g.width * g.height == 0);
            }
            return g;
        }
        let mut min_x: i64 = i64::MAX;
        let mut min_y: i64 = i64::MAX;
        let mut max_x: i64 = i64::MIN;
        let mut max_y: i64 = i64::MIN;
        let mut k: usize = 0;
        while k < nodes.len()
            invariant
                k <= nodes.len(),
                forall|j: int|
                    0 <= j < nodes.len() ==> -0x100_0000_0000 <= (#[trigger] nodes@[j]).x <= 0x100_0000_0000
                        && -0x100_0000_0000 <= nodes@[j].y <= 0x100_0000_0000 && nodes@[j].w <= 0x1_0000_0000
                        && nodes@[j].h <= 0x1_0000_0000,
                min_x == lo_x(nodes@.take(k as int)),
                min_y == lo_y(nodes@.take(k as int)),
                max_x == hi_x(nodes@.take(k as int)),
                max_y == hi_y(nodes@.take(k as int)),
            decreases nodes.len() - k,
        {
            let node = &nodes[k];
            proof {
                assert(nodes@.take(k + 1).drop_last() =~= nodes@.take(k as int));
                assert(nodes@.take(k + 1).last() == *node);
                assert(-0x100_0000_0000 <= nodes@[k as int].x <= 0x100_0000_0000);
            }
            let right = node.x + node.w as i64 - 1;
            let bottom = node.y + node.h as i64 - 1;
            if node.x < min_x {
                min_x = node.x;
            }
            if node.y < min_y {
                min_y = node.y;
            }
            if right > max_x {
                max_x = right;
            }
            if bottom > max_y {
                max_y = bottom;
            }
            k = k + 1;
        }
        proof {
            assert(nodes@.take(k as int) =~= nodes@);
        }
        let ghost e0 = (lo_x(nodes@), lo_y(nodes@), hi_x(nodes@), hi_y(nodes@));
        let mut r: usize = 0;
        while r < routes.len()
            invariant
                r <= routes.len(),
                rs == route_views(routes@),
                e0 == (lo_x(nodes@), lo_y(nodes@), hi_x(nodes@), hi_y(nodes@)),
                forall|q: int| 0 <= q < routes.len() ==> route_drawable(#[trigger] route_view(routes@[q])),
                (min_x as int, min_y as int, max_x as int, max_y as int) == routes_ext(rs.take(r as int), e0),
            decreases routes.len() - r,
        {
            let route = &routes[r];
            let ghost before = (min_x as int, min_y as int, max_x as int, max_y as int);
            let ghost pts = route_pts(rs[r as int]);
            proof {
                assert(route_drawable(route_view(routes@[r as int])));
                assert(pts.len() == route.path.len() + 2);
            }
            let mut i: usize = 0;
            while i < route.path.len()
                invariant
                    i <= route.path.len(),
                    pts == route_pts(route_view(*route)),
                    route_drawable(route_view(*route)),
                    (min_x as int, min_y as int, max_x as int, max_y as int) == pts_ext(pts.take(i as int), before),
                decreases route.path.len() - i,
            {
                let p = route.path[i];
                proof {
                    assert(pts.take(i + 1).drop_last() =~= pts.take(i as int));
                    assert(pts.take(i + 1).last() == p);
                }
                if p.0 < min_x {
                    min_x = p.0;
                }
                if p.1 < min_y {
                    min_y = p.1;
                }
                if p.0 > max_x {
                    max_x = p.0;
                }
                if p.1 > max_y {
                    max_y = p.1;
                }
                i = i + 1;
            }
            let ghost m: int = route.path@.len() as int;
            let ends = [route.source.border, route.target.border];
            let mut t: usize = 0;
            while t < 2
                invariant
                    t <= 2,
                    m == route.path@.len(),
                    ends@ == seq![route.source.border, route.target.border],
                    pts == route_pts(route_view(*route)),
                    route_drawable(route_view(*route)),
                    (min_x as int, min_y as int, max_x as int, max_y as int) == pts_ext(pts.take(m + t), before),
                decreases 2 - t,
            {
                let p = ends[t];
                proof {
                    assert(pts.take(m + t + 1).drop_last() =~= pts.take(m + t));
                    assert(pts.take(m + t + 1).last() == p);
                }
                if p.0 < min_x {
                    min_x = p.0;
                }
                if p.1 < min_y {
                    min_y = p.1;
                }
                if p.0 > max_x {
                    max_x = p.0;
                }
                if p.1 > max_y {
                    max_y = p.1;
                }
                t = t + 1;
            }
            proof {
                assert(pts.take(m + 2 as int) =~= pts);
                assert(rs.take(r + 1).drop_last() =~= rs.take(r as int));
            }
            r = r + 1;
        }
        proof {
            assert(rs.take(r as int) =~= rs);
            assert((min_x as int, min_y as int, max_x as int, max_y as int) == drawing_ext(nodes@, rs));
            let we = max_x - min_x + 3;
            let he = max_y - min_y + 3;
            assert(we >= 2 && he >= 2);
            assert(we <= we * he && he <= we * he) by (nonlinear_arith)
                requires
                    we >= 2,
                    he >= 2,
            ;
        }
        let w = (max_x - min_x + 3) as usize;
        let h = (max_y - min_y + 3) as usize;
        let n = w * h;
        let mut cells: Vec<char> = Vec::new();
        let mut i: usize = 0;
        while i < n
            invariant
                i <= n,
                cells@ == Seq::new(i as nat, |j: int| ' '),
            decreases n - i,
        {
            cells.push(' ');
            proof {
                assert(cells@ =~= Seq::new((i + 1) as nat, |j: int| ' '));
            }
            i = i + 1;
        }
        let g = Grid { cells, width: w, height: h, off_x: 1 - min_x, off_y: 1 - min_y };
        proof {
            assert(g.cells@ =~= grid0(nodes@, rs).0);
        }
        g
    }
}

/// A row of the grid.
pub open spec fn grid_row(cells: Seq<char>, w: int, y: int) -> Seq<char> {
    cells.subrange(y * w, y * w + w)
}

pub open spec fn blank_row(r: Seq<char>) -> bool {
    forall|i: int| 0 <= i < r.len() ==> r[i] == ' '
}

/// The first row at or after `y` with something drawn in it (`h` if none).
pub open spec fn first_nb(cells: Seq<char>, w: int, h: int, y: int) -> int
    decreases h - y,
{
    if y >= h {
        h
    } else if !blank_row(grid_row(cells, w, y)) {
        y
    } else {
        first_nb(cells, w, h, y + 1)
    }
}

/// The last row before `y` with something drawn in it (-1 if none).
pub open spec fn last_nb(cells: Seq<char>, w: int, y: int) -> int
    decreases y,
{
    if y <= 0 {
        -1
    } else if !blank_row(grid_row(cells, w, y - 1)) {
        y - 1
    } else {
        last_nb(cells, w, y - 1)
    }
}

/// A row without its trailing blanks.
pub open spec fn trim_end(r: Seq<char>) -> Seq<char>
    decreases r.len(),
{
    if r.len() == 0 || r.last() != ' ' {
        r
    } else {
        trim_end(r.drop_last())
    }
}

/// The plain character for a box-drawing one.
pub open spec fn spec_ascii_glyph(c: char) -> char {
    if c == '─' {
        '-'
    } else if c == '│' {
        '|'
    } else if c == '┌' || c == '┐' || c == '└' || c == '┘' || c == '├' || c == '┤' || c == '┬' || c == '┴' || c
        == '┼' {
        '+'
    } else {
        c
    }
}

pub fn ascii_glyph(c: char) -> (r: char)
    ensures
        r == spec_ascii_glyph(c),
{
    match c {
        '─' => '-',
        '│' => '|',
        '┌' | '┐' | '└' | '┘' | '├' | '┤' | '┬' | '┴' | '┼' => '+',
        other => other,
    }
}

/// How a row is written out.
pub open spec fn shown(r: Seq<char>, ascii: bool) -> Seq<char> {
    if ascii {
        trim_end(r).map_values(|c: char| spec_ascii_glyph(c))
    } else {
        trim_end(r)
    }
}

/// Rows `a` up to `b` written out, each ended by a line break.
pub open spec fn rows_text(cells: Seq<char>, w: int, a: int, b: int, ascii: bool) -> Seq<char>
    decreases b - a,
{
    if b <= a {
        seq![]
    } else {
        rows_text(cells, w, a, b - 1, ascii) + shown(grid_row(cells, w, b - 1), ascii) + seq!['\n']
    }
}

/// The text of a grid: the rows from the first to the last with something
/// drawn, each without trailing blanks; plain characters for `ascii`.
pub open spec fn finish_text(g: (Seq<char>, int, int, int, int), ascii: bool) -> Seq<char> {
    let first = first_nb(g.0, g.1, g.2, 0);
    if first >= g.2 {
        seq![]
    } else {
        rows_text(g.0, g.1, first, last_nb(g.0, g.1, g.2) + 1, ascii)
    }
}

impl Grid {
    fn row_blank(&self, y: usize) -> (r: bool)
        requires
            self.wf(),
            y < self.height,
        ensures
            r == blank_row(grid_row(self.cells@, self.width as int, y as int)),
    {
        let w = self.width;
        let n = self.cells.len();
        proof {
            assert(y * w + w <= self.width * self.height) by (nonlinear_arith)
                requires
                    y < self.height,
                    w == self.width,
            ;
            assert(0 <= y * w) by (nonlinear_arith)
                requires
                    0 <= y,
                    0 <= w,
            ;
        }
        let base = y * w;
        let mut x: usize = 0;
        while x < w
            invariant
                self.wf(),
                w == self.width,
                y < self.height,
                base == y * w,
                base + w <= self.cells@.len(),
                n == self.cells@.len(),
                x <= w,
                forall|i: int| 0 <= i < x ==> #[trigger] grid_row(self.cells@, w as int, y as int)[i] == ' ',
            decreases w - x,
        {
            if self.cells[base + x] != ' ' {
                proof {
                    assert(grid_row(self.cells@, w as int, y as int)[x as int] != ' ');
                }
                return false;
            }
            x = x + 1;
        }
        true
    }

    /// Writes the grid out.
    pub fn finish(&self, ascii: bool) -> (out: String)
        requires
            self.wf(),
        ensures
            out@ == finish_text(self.model(), ascii),
    {
        let w = self.width;
        let h = self.height;
        let ghost cells = self.cells@;
        let mut first: usize = 0;
        while first < h && self.row_blank(first)
            invariant
                self.wf(),
                h == self.height,
                w == self.width,
                cells == self.cells@,
                first <= h,
                first_nb(cells, w as int, h as int, 0) == first_nb(cells, w as int, h as int, first as int),
            decreases h - first,
        {
            first = first + 1;
        }
        if first == h {
            return String::new();
        }
        let mut last: usize = h;
        while last > 0 && self.row_blank(last - 1)
            invariant
                self.wf(),
                h == self.height,
                w == self.width,
                cells == self.cells@,
                last <= h,
                last_nb(cells, w as int, h as int) == last_nb(cells, w as int, last as int),
            decreases last,
        {
            last = last - 1;
        }
        assert(last > first) by {
            assert(!blank_row(grid_row(cells, w as int, first as int)));
            lemma_last_nb(cells, w as int, h as int, first as int);
            lemma_last_nb_lt(cells, w as int, last as int);
        }
        let mut out = String::new();
        let mut y: usize = first;
        while y < last
            invariant
                self.wf(),
                h == self.height,
                w == self.width,
                cells == self.cells@,
                first <= y <= last <= h,
                out@ == rows_text(cells, w as int, first as int, y as int, ascii),
            decreases last - y,
        {
            let n = self.cells.len();
            proof {
                assert(y * w + w <= self.width * self.height) by (nonlinear_arith)
                    requires
                        y < self.height,
                        w == self.width,
                ;
                assert(0 <= y * w) by (nonlinear_arith)
                    requires
                        0 <= y,
                        0 <= w,
                ;
            }
            let base = y * w;
            let ghost row = grid_row(cells, w as int, y as int);
            proof {
                assert(row.take(w as int) =~= row);
            }
            let mut end: usize = w;
            while end > 0 && self.cells[base + end - 1] == ' '
                invariant
                    self.wf(),
                    w == self.width,
                    cells == self.cells@,
                    base == y * w,
                    base + w <= cells.len(),
                    n == cells.len(),
                    row == grid_row(cells, w as int, y as int),
                    end <= w,
                    trim_end(row) == trim_end(row.take(end as int)),
                decreases end,
            {
                proof {
                    assert(row.take(end as int).drop_last() =~= row.take(end - 1));
                    assert(row.take(end as int).last() == row[end - 1]);
                }
                end = end - 1;
            }
            proof {
                if end > 0 {
                    assert(row.take(end as int).last() == row[end - 1]);
                }
                assert(trim_end(row.take(end as int)) == row.take(end as int));
            }
            let ghost before = out@;
            let mut x: usize = 0;
            while x < end
                invariant
                    self.wf(),
                    w == self.width,
                    cells == self.cells@,
                    base == y * w,
                    base + w <= cells.len(),
                    n == cells.len(),
                    row == grid_row(cells, w as int, y as int),
                    end <= w,
                    x <= end,
                    trim_end(row.take(end as int)) == row.take(end as int),
                    out@ == before + shown(row.take(end as int), ascii).take(x as int),
                decreases end - x,
            {
                let c = self.cells[base + x];
                let shown_c = if ascii {
                    ascii_glyph(c)
                } else {
                    c
                };
                push_char(&mut out, shown_c);
                proof {
                    assert(row[x as int] == c);
                    assert(before + shown(row.take(end as int), ascii).take(x + 1) =~= (before + shown(
                        row.take(end as int),
                        ascii,
                    ).take(x as int)).push(shown_c));
                }
                x = x + 1;
            }
            push_char(&mut out, '\n');
            proof {
                assert(shown(row.take(end as int), ascii).take(x as int) =~= shown(row.take(end as int), ascii));
                assert(shown(row, ascii) == shown(row.take(end as int), ascii));
                assert(out@ =~= rows_text(cells, w as int, first as int, y + 1, ascii));
            }
            y = y + 1;
        }
        proof {
            assert(last_nb(cells, w as int, last as int) == last - 1);
        }
        out
    }
}

pub proof fn lemma_last_nb_lt(cells: Seq<char>, w: int, y: int)
    ensures
        -1 <= last_nb(cells, w, y) < if y > 0 { y } else { 0 },
    decreases y,
{
    if y > 0 {
        lemma_last_nb_lt(cells, w, y - 1);
    }
}

/// A row with something drawn in it is at or before the last such row.
pub proof fn lemma_last_nb(cells: Seq<char>, w: int, y: int, r: int)
    requires
        0 <= r < y,
        !blank_row(grid_row(cells, w, r)),
    ensures
        last_nb(cells, w, y) >= r,
    decreases y,
{
    if y - 1 != r && blank_row(grid_row(cells, w, y - 1)) {
        lemma_last_nb(cells, w, y - 1, r);
    }
}

/// A layout the text diagram is proved for: one that routing is proved
/// for, whose boxes the grid can draw.
pub open spec fn render_ready(l: Layout) -> bool {
    &&& routable(l)
    &&& forall|k: int| 0 <= k < l.nodes.len() ==> node_drawable(#[trigger] l.nodes@[k])
}

/// The text of the diagram with the routes `rs`: on a blank grid around
/// the drawing, the boxes, then the routes' lines, then their arrowheads,
/// written out.
pub open spec fn diagram_text(l: Layout, rs: Seq<RouteView>, ascii: bool) -> Seq<char> {
    let g = grid0(l.nodes@, rs);
    finish_text((apply_ops(g, boxes_ops(l.nodes@) + merges_ops(rs) + arrows_ops(rs)), g.1, g.2, g.3, g.4), ascii)
}

/// Whether the text diagram is proved for a layout.
pub fn can_render(layout: &Layout) -> (r: bool)
    ensures
        r == render_ready(*layout),
{
    if !can_route(layout) {
        return false;
    }
    let mut k: usize = 0;
    while k < layout.nodes.len()
        invariant
            k <= layout.nodes.len(),
            forall|j: int| 0 <= j < k ==> node_drawable(#[trigger] layout.nodes@[j]),
        decreases layout.nodes.len() - k,
    {
        let n = &layout.nodes[k];
        if !(-0x100_0000_0000_0000 <= n.x && n.x <= 0x100_0000_0000_0000 && -0x100_0000_0000_0000 <= n.y && n.y
            <= 0x100_0000_0000_0000 && n.w as u64 <= 0x1_0000_0000 && n.h as u64 <= 0x1_0000_0000 && n.lines.len() as u64
            <= 0x1_0000_0000) {
            return false;
        }
        let mut i: usize = 0;
        while i < n.lines.len()
            invariant
                i <= n.lines.len(),
                k < layout.nodes.len(),
                *n == layout.nodes@[k as int],
                forall|j: int| 0 <= j < i ==> (#[trigger] n.lines@[j])@.len() <= 0x1_0000_0000,
            decreases n.lines.len() - i,
        {
            if char_count(n.lines[i].as_str()) as u64 > 0x1_0000_0000 {
                proof {
                    assert(!node_drawable(layout.nodes@[k as int]));
                }
                return false;
            }
            i = i + 1;
        }
        k = k + 1;
    }
    true
}

/// Routes are drawable and the drawing fits a grid.
pub proof fn lemma_routes_fit(l: Layout, rs: Seq<RouteView>)
    requires
        routable(l),
        l.nodes.len() > 0,
        forall|i: int| 0 <= i < rs.len() ==> route_shape(route_bounds(l), (#[trigger] rs[i]).2, rs[i].0, rs[i].1),
    ensures
        grid_room(l.nodes@, rs),
        forall|i: int| 0 <= i < rs.len() ==> route_drawable(#[trigger] rs[i]),
{
    let b = route_bounds(l);
    lemma_route_bounds(l);
    lemma_extent_bounds(l.nodes@);
    assert forall|i: int| 0 <= i < rs.len() implies route_drawable(#[trigger] rs[i]) by {
        let r = rs[i];
        assert(route_shape(b, r.2, r.0, r.1));
        assert(b.has(crate::emit::route::pt(r.2[0])));
        assert(b.has(crate::emit::route::pt(r.2[r.2.len() - 1])));
        lemma_adjacent_near(r.2[0], r.0.border);
        lemma_adjacent_near(r.2.last(), r.1.border);
    }
    assert forall|k: int, i: int| 0 <= k < rs.len() && 0 <= i < route_pts(rs[k]).len() implies b.min_x - 1 <= (
    #[trigger] route_pts(rs[k])[i]).0 <= b.max_x + 1 && b.min_y - 1 <= route_pts(rs[k])[i].1 <= b.max_y + 1 by {
        let r = rs[k];
        assert(route_shape(b, r.2, r.0, r.1));
        if i < r.2.len() {
            assert(b.has(crate::emit::route::pt(r.2[i])));
        } else {
            assert(b.has(crate::emit::route::pt(r.2[0])));
            assert(b.has(crate::emit::route::pt(r.2[r.2.len() - 1])));
            lemma_adjacent_near(r.2[0], r.0.border);
            lemma_adjacent_near(r.2.last(), r.1.border);
        }
    }
    let e0 = (lo_x(l.nodes@), lo_y(l.nodes@), hi_x(l.nodes@), hi_y(l.nodes@));
    lemma_routes_ext_bounds(rs, e0, b.min_x - 1, b.max_x + 1, b.min_y - 1, b.max_y + 1);
    let e = drawing_ext(l.nodes@, rs);
    let wb = b.width();
    let hb = b.height();
    let we = e.2 - e.0 + 3;
    let he = e.3 - e.1 + 3;
    assert(we <= wb + 4 && he <= hb + 4);
    assert(we * he <= 125 * (wb * hb)) by (nonlinear_arith)
        requires
            2 <= we <= wb + 4,
            2 <= he <= hb + 4,
            wb >= 12,
            hb >= 12,
    ;
}

/// The text diagram of a layout: its edges routed around the boxes, the
/// boxes and routes drawn with box-drawing characters (plain ASCII when
/// `ascii`), blank rows above and below and trailing blanks dropped.
pub fn render(layout: &Layout, ascii: bool) -> (out: String)
    requires
        render_ready(*layout),
    ensures
        routes_ok(*layout, pending_edges(layout.edges@), spec_routes(*layout)),
        out@ == diagram_text(*layout, spec_routes(*layout), ascii),
{
    let routes = route_edges(layout);
    let ghost rs = route_views(routes@);
    proof {
        if layout.nodes.len() > 0 {
            lemma_routes_fit(*layout, rs);
        }
        assert forall|k: int| 0 <= k < routes.len() implies route_drawable(#[trigger] route_view(routes@[k])) by {
            assert(rs[k] == route_view(routes@[k]));
        }
        assert forall|k: int| 0 <= k < layout.nodes.len() implies -0x100_0000_0000 <= (#[trigger] layout.nodes@[k]).x
            <= 0x100_0000_0000 && -0x100_0000_0000 <= layout.nodes@[k].y <= 0x100_0000_0000 && layout.nodes@[k].w
            <= 0x1_0000_0000 && layout.nodes@[k].h <= 0x1_0000_0000 by {
            assert(node_fits(layout.nodes@[k]));
        }
    }
    let mut grid = Grid::new(&layout.nodes, &routes);
    let ghost g0 = grid.model();
    grid.draw_boxes(&layout.nodes);
    grid.draw_edges(&routes);
    proof {
        lemma_apply_ops_concat(g0, boxes_ops(layout.nodes@), merges_ops(rs) + arrows_ops(rs));
        assert(boxes_ops(layout.nodes@) + (merges_ops(rs) + arrows_ops(rs)) =~= boxes_ops(layout.nodes@) + merges_ops(rs)
            + arrows_ops(rs));
    }
    let out = grid.finish(ascii);
    proof {
        assert(out@ == diagram_text(*layout, rs, ascii));
        assert(rs == spec_routes(*layout));
    }
    out
}

/// One of the box-drawing characters.
pub open spec fn box_glyph(c: char) -> bool {
    spec_glyph_dirs(c) is Some
}

pub proof fn lemma_rows_plain(cells: Seq<char>, w: int, a: int, b: int)
    ensures
        forall|i: int| 0 <= i < rows_text(cells, w, a, b, true).len() ==> !box_glyph(#[trigger] rows_text(cells, w, a, b, true)[i]),
    decreases b - a,
{
    if b > a {
        lemma_rows_plain(cells, w, a, b - 1);
        let x = rows_text(cells, w, a, b - 1, true);
        let y = shown(grid_row(cells, w, b - 1), true);
        let t = rows_text(cells, w, a, b, true);
        assert(t == x + y + seq!['\n']);
        assert forall|i: int| 0 <= i < t.len() implies !box_glyph(#[trigger] t[i]) by {
            if i < x.len() {
                assert(t[i] == x[i]);
            } else if i < x.len() + y.len() {
                assert(t[i] == y[i - x.len()]);
            } else {
                assert(t[i] == '\n');
            }
        }
    }
}

/// The plain variant of a diagram holds no box-drawing character.
pub proof fn lemma_ascii_plain(l: Layout, rs: Seq<RouteView>)
    ensures
        forall|i: int| 0 <= i < diagram_text(l, rs, true).len() ==> !box_glyph(#[trigger] diagram_text(l, rs, true)[i]),
{
    let g = grid0(l.nodes@, rs);
    let cells = apply_ops(g, boxes_ops(l.nodes@) + merges_ops(rs) + arrows_ops(rs));
    let first = first_nb(cells, g.1, g.2, 0);
    if first < g.2 {
        lemma_rows_plain(cells, g.1, first, last_nb(cells, g.1, g.2) + 1);
    }
}

/// Rows written out plain are the rows written out with box-drawing
/// characters, each character made plain.
pub proof fn lemma_rows_ascii(cells: Seq<char>, w: int, a: int, b: int)
    ensures
        rows_text(cells, w, a, b, true) == rows_text(cells, w, a, b, false).map_values(|c: char| spec_ascii_glyph(c)),
    decreases b - a,
{
    if b > a {
        lemma_rows_ascii(cells, w, a, b - 1);
        let x = rows_text(cells, w, a, b - 1, false);
        let y = trim_end(grid_row(cells, w, b - 1));
        assert((x + y + seq!['\n']).map_values(|c: char| spec_ascii_glyph(c)) =~= x.map_values(
            |c: char| spec_ascii_glyph(c),
        ) + y.map_values(|c: char| spec_ascii_glyph(c)) + seq!['\n']);
    } else {
        assert(rows_text(cells, w, a, b, false).map_values(|c: char| spec_ascii_glyph(c)) =~= Seq::<char>::empty());
    }
}

/// The plain drawing is the box-drawing one with every character made
/// plain: the same boxes, lines and arrows in the same places.
pub proof fn lemma_ascii_matches(l: Layout, rs: Seq<RouteView>)
    ensures
        diagram_text(l, rs, true) == diagram_text(l, rs, false).map_values(|c: char| spec_ascii_glyph(c)),
{
    let g = grid0(l.nodes@, rs);
    let cells = apply_ops(g, boxes_ops(l.nodes@) + merges_ops(rs) + arrows_ops(rs));
    let first = first_nb(cells, g.1, g.2, 0);
    if first < g.2 {
        lemma_rows_ascii(cells, g.1, first, last_nb(cells, g.1, g.2) + 1);
    } else {
        assert(diagram_text(l, rs, false).map_values(|c: char| spec_ascii_glyph(c)) =~= Seq::<char>::empty());
    }
}

} // verus!
