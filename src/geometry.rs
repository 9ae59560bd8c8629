use vstd::prelude::*;

verus! {

/// A cell of the square simulation grid.
#[derive(Clone, Copy, Debug, PartialEq, Eq, Hash, Structural)]
pub struct Point {
    pub x: i32,
    pub y: i32,
}

/// True iff `q` is one of the (up to eight) cells around `p` that lie inside
/// a grid of side `size`.
pub open spec fn is_neighbor(p: Point, q: Point, size: int) -> bool {
    &&& q != p
    &&& -1 <= q.x - p.x <= 1
    &&& -1 <= q.y - p.y <= 1
    &&& in_grid(q, size)
}

/// True iff `p` lies inside a grid of side `size`.
pub open spec fn in_grid(p: Point, size: int) -> bool {
    0 <= p.x < size && 0 <= p.y < size
}

impl Point {
    pub fn new(x: i32, y: i32) -> (r: Point)
        ensures
            r.x == x,
            r.y == y,
    {
        Point { x, y }
    }

    /// The cells around this one that lie inside a grid of side `size`, row by
    /// row, each once.
    pub fn get_neighbor_cells(&self, size: i32) -> (r: Vec<Point>)
        ensures
            r@.no_duplicates(),
            forall|q: Point| r@.contains(q) <==> is_neighbor(*self, q, size as int),
    {
        let mut out: Vec<Point> = Vec::new();
        let mut dx: i64 = -1;
        while dx <= 1
            invariant
                -1 <= dx <= 2,
                out@.no_duplicates(),
                forall|q: Point|
                    out@.contains(q) <==> (is_neighbor(*self, q, size as int) && q.x - self.x < dx),
            decreases 2 - dx,
        {
            let mut dy: i64 = -1;
            while dy <= 1
                invariant
                    -1 <= dx <= 1,
                    -1 <= dy <= 2,
                    out@.no_duplicates(),
                    forall|q: Point|
                        out@.contains(q) <==> (is_neighbor(*self, q, size as int) && (q.x - self.x
                            < dx || (q.x - self.x == dx && q.y - self.y < dy))),
                decreases 2 - dy,
            {
                let x: i64 = self.x as i64 + dx;
                let y: i64 = self.y as i64 + dy;
                if (dx != 0 || dy != 0) && 0 <= x && x < size as i64 && 0 <= y && y < size as i64 {
                    let q = Point { x: x as i32, y: y as i32 };
                    let ghost prev = out@;
                    out.push(q);
                    proof {
                        assert(!prev.contains(q));
                        assert forall|i: int, j: int|
                            0 <= i < out@.len() && 0 <= j < out@.len() && i != j implies out@[i]
                            != out@[j] by {
                            if j == out@.len() - 1 {
                                assert(prev[i] == out@[i]);
                            } else if i == out@.len() - 1 {
                                assert(prev[j] == out@[j]);
                            }
                        }
                        assert forall|p: Point| out@.contains(p) <==> (is_neighbor(*self, p, size as int)
                            && (p.x - self.x < dx || (p.x - self.x == dx && p.y - self.y < dy
                            + 1))) by {
                            if p == q {
                                assert(out@[out@.len() - 1] == q);
                            } else {
                                if out@.contains(p) {
                                    let j = choose|j: int| 0 <= j < out@.len() && out@[j] == p;
                                    assert(j < out@.len() - 1);
                                    assert(prev.contains(p)) by {
                                        assert(prev[j] == p);
                                    }
                                }
                                if prev.contains(p) {
                                    let j = choose|j: int| 0 <= j < prev.len() && prev[j] == p;
                                    assert(out@[j] == p);
                                }
                            }
                        }
                    }
                }
                dy = dy + 1;
            }
            dx = dx + 1;
        }
        out
    }
}

/// A rectangle of cells, both corners included.
#[derive(Clone, Copy, Debug, PartialEq, Eq, Hash, Structural)]
pub struct Area {
    pub start: Point,
    pub end: Point,
}

impl Area {
    pub open spec fn contains_spec(&self, p: Point) -> bool {
        self.start.x <= p.x <= self.end.x && self.start.y <= p.y <= self.end.y
    }

    pub fn new(start: Point, end: Point) -> (r: Area)
        ensures
            r.start == start,
            r.end == end,
    {
        Area { start, end }
    }

    pub fn contains(&self, p: &Point) -> (r: bool)
        ensures
            r == self.contains_spec(*p),
    {
        self.start.x <= p.x && p.x <= self.end.x && self.start.y <= p.y && p.y <= self.end.y
    }
}

} // verus!
