use vstd::prelude::*;

verus! {

/// The box that a hint is drawn in: its top left corner and its size, in pixels.
#[derive(Debug, Clone, Copy, PartialEq, Eq)]
pub struct Rect {
    pub x: i32,
    pub y: i32,
    pub width: u16,
    pub height: u16,
}

/// A rectangle of the plane: the points `(px, py)` with `x <= px < x + width` and
/// `y <= py < y + height`.
pub struct Area {
    pub x: int,
    pub y: int,
    pub width: int,
    pub height: int,
}

impl Area {
    /// Whether the point `(px, py)` lies in the area.
    pub open spec fn holds(self, px: int, py: int) -> bool {
        &&& self.x <= px < self.x + self.width
        &&& self.y <= py < self.y + self.height
    }

    /// Whether the two areas share a point.
    pub open spec fn overlaps(self, other: Area) -> bool {
        exists|px: int, py: int| #[trigger] self.holds(px, py) && other.holds(px, py)
    }

    /// The area moved to the right by `dx`.
    pub open spec fn shifted(self, dx: int) -> Area {
        Area { x: self.x + dx, y: self.y, width: self.width, height: self.height }
    }

    /// Two areas share a point exactly when neither is empty and each begins before
    /// the other ends, in both directions.
    pub proof fn lemma_overlaps(self, other: Area)
        ensures
            self.overlaps(other) <==> {
                &&& self.width > 0 && self.height > 0
                &&& other.width > 0 && other.height > 0
                &&& self.x < other.x + other.width
                &&& other.x < self.x + self.width
                &&& self.y < other.y + other.height
                &&& other.y < self.y + self.height
            },
            self.overlaps(other) == other.overlaps(self),
    {
        if self.overlaps(other) {
            let (px, py) = choose|px: int, py: int| #[trigger]
                self.holds(px, py) && other.holds(px, py);
            assert(other.holds(px, py) && self.holds(px, py));
        }
        if other.overlaps(self) {
            let (px, py) = choose|px: int, py: int| #[trigger]
                other.holds(px, py) && self.holds(px, py);
            assert(self.holds(px, py) && other.holds(px, py));
        }
        if self.width > 0 && self.height > 0 && other.width > 0 && other.height > 0 && self.x
            < other.x + other.width && other.x < self.x + self.width && self.y < other.y
            + other.height && other.y < self.y + self.height {
            let px = if self.x >= other.x {
                self.x
            } else {
                other.x
            };
            let py = if self.y >= other.y {
                self.y
            } else {
                other.y
            };
            assert(self.holds(px, py) && other.holds(px, py));
            assert(other.holds(px, py) && self.holds(px, py));
        }
    }
}

impl View for Rect {
    type V = Area;

    open spec fn view(&self) -> Area {
        Area {
            x: self.x as int,
            y: self.y as int,
            width: self.width as int,
            height: self.height as int,
        }
    }
}

/// Whether the two rectangles share a point.
pub fn intersects(a: &Rect, b: &Rect) -> (hit: bool)
    ensures
        hit == a@.overlaps(b@),
{
    proof {
        a@.lemma_overlaps(b@);
    }
    let ax: i64 = a.x as i64;
    let ay: i64 = a.y as i64;
    let bx: i64 = b.x as i64;
    let by: i64 = b.y as i64;
    let aw: i64 = a.width as i64;
    let ah: i64 = a.height as i64;
    let bw: i64 = b.width as i64;
    let bh: i64 = b.height as i64;
    aw > 0 && ah > 0 && bw > 0 && bh > 0 && ax < bx + bw && bx < ax + aw && ay < by + bh && by < ay
        + ah
}

/// The rectangles of `placed` that share a point with `a`, in the order of `placed`.
pub open spec fn overlapping(placed: Seq<Rect>, a: Area) -> Seq<Rect> {
    placed.filter(|r: Rect| r@.overlaps(a))
}

/// Every rectangle of `overlapping(placed, a)` is one of `placed` and shares a point
/// with `a`, and every such rectangle of `placed` is among them.
pub proof fn lemma_overlapping(placed: Seq<Rect>, a: Area)
    ensures
        forall|i: int|
            0 <= i < overlapping(placed, a).len() ==> placed.contains(
                #[trigger] overlapping(placed, a)[i],
            ) && overlapping(placed, a)[i]@.overlaps(a),
        forall|i: int|
            0 <= i < placed.len() && (#[trigger] placed[i])@.overlaps(a) ==> overlapping(
                placed,
                a,
            ).len() > 0,
    decreases placed.len(),
{
    reveal(Seq::filter);
    if placed.len() > 0 {
        let front = placed.drop_last();
        lemma_overlapping(front, a);
        let hit = overlapping(placed, a);
        assert forall|i: int| 0 <= i < hit.len() implies placed.contains(#[trigger] hit[i])
            && hit[i]@.overlaps(a) by {
            if i < overlapping(front, a).len() {
                assert(hit[i] == overlapping(front, a)[i]);
                let w = choose|w: int| 0 <= w < front.len() && front[w] == hit[i];
                assert(placed[w] == hit[i]);
            } else {
                assert(hit[i] == placed[placed.len() - 1]);
            }
        }
        assert forall|i: int| 0 <= i < placed.len() && (#[trigger] placed[i])@.overlaps(
            a,
        ) implies hit.len() > 0 by {
            if i < front.len() {
                assert(front[i] == placed[i]);
            }
        }
    }
}

/// The rectangles of `placed` that share a point with `rect`, in the order of
/// `placed`.
pub fn find_overlaps(placed: &Vec<Rect>, rect: &Rect) -> (hit: Vec<Rect>)
    ensures
        hit@ == overlapping(placed@, rect@),
{
    let mut hit: Vec<Rect> = Vec::new();
    let mut i: usize = 0;
    proof {
        reveal(Seq::filter);
        assert(placed@.take(0) =~= Seq::<Rect>::empty());
    }
    while i < placed.len()
        invariant
            i <= placed.len(),
            hit@ == overlapping(placed@.take(i as int), rect@),
        decreases placed.len() - i,
    {
        proof {
            reveal(Seq::filter);
            assert(placed@.take(i + 1).drop_last() == placed@.take(i as int));
            assert(placed@.take(i + 1).last() == placed@[i as int]);
        }
        if intersects(&placed[i], rect) {
            hit.push(placed[i]);
        }
        i += 1;
    }
    assert(placed@.take(i as int) == placed@);
    hit
}

/// Why a hint's box could not be placed.
#[derive(Debug, Clone, Copy, PartialEq, Eq, Structural)]
pub enum LayoutError {
    /// The box was moved so far to the right that its position is no `i32`.
    OutOfRange,
}

/// The right edge of the rightmost of `placed`, and 0 where there is none.
pub open spec fn reach(placed: Seq<Rect>) -> int
    decreases placed.len(),
{
    if placed.len() == 0 {
        0
    } else {
        let front = reach(placed.drop_last());
        let edge = placed.last().x + placed.last().width;
        if placed.len() == 1 || edge > front {
            edge
        } else {
            front
        }
    }
}

/// No rectangle of `placed` ends to the right of `reach(placed)`.
pub proof fn lemma_reach(placed: Seq<Rect>, i: int)
    requires
        0 <= i < placed.len(),
    ensures
        placed[i].x + placed[i].width <= reach(placed),
    decreases placed.len(),
{
    if i < placed.len() - 1 {
        lemma_reach(placed.drop_last(), i);
    }
}

/// How far `a` can still be moved to the right before it has passed all of `placed`.
pub open spec fn room(placed: Seq<Rect>, a: Area) -> int {
    if reach(placed) > a.x {
        reach(placed) - a.x
    } else {
        0
    }
}

/// Where `a` comes to rest among `placed`: as long as it shares a point with one of
/// them, it moves to the right by the width of the last of `placed` that it shares a
/// point with.
pub open spec fn settled(placed: Seq<Rect>, a: Area) -> Area
    decreases room(placed, a),
    via settled_decreases
{
    let hit = overlapping(placed, a);
    if hit.len() == 0 {
        a
    } else {
        settled(placed, a.shifted(hit.last().width as int))
    }
}

#[via_fn]
proof fn settled_decreases(placed: Seq<Rect>, a: Area) {
    let hit = overlapping(placed, a);
    if hit.len() != 0 {
        lemma_step(placed, a);
    }
}

/// A rectangle that `a` shares a point with has a width, and `a` begins to the left
/// of `reach(placed)`: a move brings it nearer.
proof fn lemma_step(placed: Seq<Rect>, a: Area)
    requires
        overlapping(placed, a).len() > 0,
    ensures
        overlapping(placed, a).last().width > 0,
        room(placed, a) > 0,
        room(placed, a.shifted(overlapping(placed, a).last().width as int)) < room(placed, a),
{
    let hit = overlapping(placed, a);
    lemma_overlapping(placed, a);
    let last = hit[hit.len() - 1];
    assert(placed.contains(last) && last@.overlaps(a));
    let w = choose|w: int| 0 <= w < placed.len() && placed[w] == last;
    lemma_reach(placed, w);
    last@.lemma_overlaps(a);
}

/// At rest, `a` shares no point with any of `placed`. It has only moved to the right.
pub proof fn lemma_settled(placed: Seq<Rect>, a: Area)
    ensures
        forall|i: int| 0 <= i < placed.len() ==> !(#[trigger] placed[i])@.overlaps(settled(placed, a)),
        settled(placed, a).x >= a.x,
        settled(placed, a).y == a.y,
        settled(placed, a).width == a.width,
        settled(placed, a).height == a.height,
        overlapping(placed, a).len() == 0 ==> settled(placed, a) == a,
    decreases room(placed, a),
{
    let hit = overlapping(placed, a);
    lemma_overlapping(placed, a);
    if hit.len() != 0 {
        lemma_step(placed, a);
        lemma_settled(placed, a.shifted(hit.last().width as int));
    }
}

/// The rectangle of the given size at the given place.
pub open spec fn area_at(pos: (i32, i32), size: (u16, u16)) -> Area {
    Area { x: pos.0 as int, y: pos.1 as int, width: size.0 as int, height: size.1 as int }
}

/// Places a box of `size` at `pos`, or as far to the right of it as it takes to share
/// no point with any of `placed`: while it shares a point with some of them, it moves
/// to the right by the width of the last of these in `placed`.
pub fn place_rect(placed: &Vec<Rect>, pos: (i32, i32), size: (u16, u16)) -> (result: Result<
    Rect,
    LayoutError,
>)
    ensures
        match result {
            Ok(rect) => {
                &&& rect@ == settled(placed@, area_at(pos, size))
                &&& forall|i: int| 0 <= i < placed.len() ==> !(#[trigger] placed[i])@.overlaps(rect@)
            },
            Err(LayoutError::OutOfRange) => settled(placed@, area_at(pos, size)).x > i32::MAX,
        },
{
    let mut rect = Rect { x: pos.0, y: pos.1, width: size.0, height: size.1 };
    loop
        invariant
            rect@.y == pos.1,
            rect@.width == size.0,
            rect@.height == size.1,
            settled(placed@, rect@) == settled(placed@, area_at(pos, size)),
        decreases room(placed@, rect@),
    {
        let mut hit = find_overlaps(placed, &rect);
        proof {
            lemma_settled(placed@, rect@);
        }
        match hit.pop() {
            None => {
                return Ok(rect);
            },
            Some(last) => {
                proof {
                    lemma_step(placed@, rect@);
                    lemma_settled(placed@, rect@.shifted(last.width as int));
                }
                let x: i64 = rect.x as i64 + last.width as i64;
                if x > i32::MAX as i64 {
                    return Err(LayoutError::OutOfRange);
                }
                rect = Rect { x: x as i32, y: rect.y, width: rect.width, height: rect.height };
            },
        }
    }
}

/// The boxes of `initial` after each has been placed in turn among those placed
/// before it, or `None` where one of them would have to move out of range.
pub open spec fn layout_of(initial: Seq<Rect>) -> Option<Seq<Rect>>
    decreases initial.len(),
{
    if initial.len() == 0 {
        Some(Seq::empty())
    } else {
        match layout_of(initial.drop_last()) {
            None => None,
            Some(placed) => {
                let rest = settled(placed, initial.last()@);
                if rest.x > i32::MAX {
                    None
                } else {
                    Some(
                        placed.push(
                            Rect {
                                x: rest.x as i32,
                                y: initial.last().y,
                                width: initial.last().width,
                                height: initial.last().height,
                            },
                        ),
                    )
                }
            },
        }
    }
}

/// Whether no two of `rects` share a point.
pub open spec fn pairwise_disjoint(rects: Seq<Rect>) -> bool {
    forall|i: int, j: int|
        0 <= i < rects.len() && 0 <= j < rects.len() && i != j ==> !(#[trigger] rects[i])@.overlaps(
            (#[trigger] rects[j])@,
        )
}

/// After the boxes have been placed, no two of them share a point. Each has its size
/// and its height on the screen, and stands at its window's place or to the right of
/// it.
pub proof fn lemma_layout_disjoint(initial: Seq<Rect>)
    requires
        layout_of(initial) is Some,
    ensures
        layout_of(initial).unwrap().len() == initial.len(),
        pairwise_disjoint(layout_of(initial).unwrap()),
        forall|i: int|
            0 <= i < initial.len() ==> {
                let r = #[trigger] layout_of(initial).unwrap()[i];
                &&& r.x >= initial[i].x
                &&& r.y == initial[i].y
                &&& r.width == initial[i].width
                &&& r.height == initial[i].height
            },
    decreases initial.len(),
{
    if initial.len() > 0 {
        let front = initial.drop_last();
        lemma_layout_disjoint(front);
        let placed = layout_of(front).unwrap();
        let all = layout_of(initial).unwrap();
        lemma_settled(placed, initial.last()@);
        let added = all[all.len() - 1];
        assert(added@ == settled(placed, initial.last()@));
        assert forall|i: int, j: int|
            0 <= i < all.len() && 0 <= j < all.len() && i != j implies !(#[trigger] all[i])@.overlaps(
            (#[trigger] all[j])@,
        ) by {
            all[i]@.lemma_overlaps(all[j]@);
            if i < placed.len() && j < placed.len() {
                assert(all[i] == placed[i] && all[j] == placed[j]);
            } else if i < placed.len() {
                assert(all[i] == placed[i]);
            } else {
                assert(all[j] == placed[j]);
            }
        }
        assert forall|i: int| 0 <= i < initial.len() implies {
            let r = #[trigger] all[i];
            &&& r.x >= initial[i].x
            &&& r.y == initial[i].y
            &&& r.width == initial[i].width
            &&& r.height == initial[i].height
        } by {
            if i < front.len() {
                assert(all[i] == placed[i]);
                assert(front[i] == initial[i]);
            }
        }
    }
}

/// Places the boxes of `initial` one after the other, each among those placed before
/// it, so that in the end no two share a point.
pub fn resolve_layout(initial: &Vec<Rect>) -> (result: Result<Vec<Rect>, LayoutError>)
    ensures
        match result {
            Ok(rects) => {
                &&& layout_of(initial@) == Some(rects@)
                &&& rects.len() == initial.len()
                &&& pairwise_disjoint(rects@)
            },
            Err(LayoutError::OutOfRange) => layout_of(initial@) is None,
        },
{
    let mut placed: Vec<Rect> = Vec::new();
    let mut i: usize = 0;
    assert(initial@.take(0) =~= Seq::<Rect>::empty());
    while i < initial.len()
        invariant
            i <= initial.len(),
            layout_of(initial@.take(i as int)) == Some(placed@),
        decreases initial.len() - i,
    {
        let start = initial[i];
        proof {
            assert(initial@.take(i + 1).drop_last() == initial@.take(i as int));
            assert(initial@.take(i + 1).last() == start);
            assert(area_at((start.x, start.y), (start.width, start.height)) == start@);
        }
        match place_rect(&placed, (start.x, start.y), (start.width, start.height)) {
            Ok(rect) => {
                proof {
                    lemma_settled(placed@, start@);
                }
                placed.push(rect);
            },
            Err(e) => {
                proof {
                    lemma_layout_none(initial@, i + 1);
                }
                return Err(e);
            },
        }
        i += 1;
    }
    proof {
        assert(initial@.take(i as int) == initial@);
        lemma_layout_disjoint(initial@);
    }
    Ok(placed)
}

/// Once one box cannot be placed, the layout of any longer list fails too.
proof fn lemma_layout_none(initial: Seq<Rect>, n: int)
    requires
        0 <= n <= initial.len(),
        layout_of(initial.take(n)) is None,
    ensures
        layout_of(initial) is None,
    decreases initial.len(),
{
    if n < initial.len() {
        assert(initial.drop_last().take(n) == initial.take(n));
        lemma_layout_none(initial.drop_last(), n);
    } else {
        assert(initial.take(n) == initial);
    }
}

} // verus!
