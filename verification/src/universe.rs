//! The world: an ordered store of dots, the pointer-driven drag state
//! machine, and the draw and synchronization requests handed to the host.
//!
//! All pointer handlers are pure state transitions. Network effects are
//! returned as [`SyncRequest`] values and drawing as [`DrawOp`] values; the
//! host performs them, so every decision made here is verified.

use vstd::prelude::*;

use crate::dot::ADot;
use crate::dot::spec_near;
use crate::parse::parse_dots;
use crate::parse::parse_dots_exec;

verus! {

/// The fixed user identity under which dots are synchronized.
pub const SYNC_USER_ID: i32 = 1;

/// Side length of the square drawn for each dot.
pub const DOT_SIZE: i32 = 5;

/// A remote-synchronization request emitted by a pointer handler. The host
/// is expected to dispatch it fire-and-forget; no reply ever feeds back
/// into the world's state.
#[derive(Debug, Clone, Copy, PartialEq, Eq, Structural)]
pub enum SyncRequest {
    /// Ask the remote service to create a dot at the given position.
    Create { user_id: i32, x: i32, y: i32 },
    /// Ask the remote service to move an existing dot.
    Update { user_id: i32, point_id: i32, x: i32, y: i32 },
}

/// One drawing instruction for the render surface, in issue order.
#[derive(Debug, Clone, Copy, PartialEq, Eq, Structural)]
pub enum DrawOp {
    /// Fill the whole background.
    Clear,
    /// Fill a `size`-sided square whose corner is at `(x, y)`.
    FillSquare { x: i32, y: i32, size: i32 },
}

/// The world state: canvas dimensions, the ordered dot store, and the drag
/// state (`mouse_down` plus the id of the grabbed dot, if any).
pub struct Universe {
    pub width: u32,
    pub height: u32,
    pub dots: Vec<ADot>,
    pub mouse_down: bool,
    pub grabing: Option<i32>,
}

/// The first dot in store order that is near `(px, py)`, if any. Store
/// order, not distance, breaks ties: an earlier dot wins even when a later
/// one is closer.
pub open spec fn find_near(dots: Seq<ADot>, px: int, py: int) -> Option<ADot>
    decreases dots.len(),
{
    if dots.len() == 0 {
        None
    } else if spec_near(dots[0], px, py) {
        Some(dots[0])
    } else {
        find_near(dots.drop_first(), px, py)
    }
}

/// Whether some dot in the store carries the given id.
pub open spec fn has_id(dots: Seq<ADot>, id: i32) -> bool {
    exists|k: int| 0 <= k < dots.len() && dots[k].id == id
}

/// The store after dragging the dot with the given id to `(x, y)`: the
/// first dot carrying that id is repositioned, everything else is kept.
pub open spec fn moved(dots: Seq<ADot>, id: i32, x: i32, y: i32) -> Seq<ADot>
    decreases dots.len(),
{
    if dots.len() == 0 {
        dots
    } else if dots[0].id == id {
        seq![ADot { id, x, y }] + dots.drop_first()
    } else {
        seq![dots[0]] + moved(dots.drop_first(), id, x, y)
    }
}

/// The greatest id present in the store (meaningful only when nonempty).
pub open spec fn spec_max_id(dots: Seq<ADot>) -> int
    decreases dots.len(),
{
    if dots.len() == 0 {
        0
    } else if dots.len() == 1 {
        dots[0].id as int
    } else {
        let m = spec_max_id(dots.drop_last());
        if dots.last().id > m {
            dots.last().id as int
        } else {
            m
        }
    }
}

/// The id a newly created dot receives: one above the current maximum, or
/// 1 for an empty store.
pub open spec fn spec_new_id(dots: Seq<ADot>) -> int {
    if dots.len() == 0 {
        1
    } else {
        spec_max_id(dots) + 1
    }
}

/// The drawing instructions for a store: clear the background, then fill
/// one fixed-size square per dot, in store order.
pub open spec fn spec_draw_ops(dots: Seq<ADot>) -> Seq<DrawOp> {
    seq![DrawOp::Clear] + Seq::new(
        dots.len(),
        |k: int| DrawOp::FillSquare { x: dots[k].x, y: dots[k].y, size: DOT_SIZE },
    )
}

/// How a pointer-down at `(x, y)` transforms the world. Either the first
/// near dot is grabbed, or — with nothing near — a fresh dot is created at
/// the pointer, appended, and a creation request is emitted.
pub open spec fn down_post(pre: Universe, x: i32, y: i32, post: Universe, r: Option<SyncRequest>) -> bool {
    &&& post.width == pre.width
    &&& post.height == pre.height
    &&& post.mouse_down
    &&& match find_near(pre.dots@, x as int, y as int) {
        Some(d) => {
            &&& post.dots@ == pre.dots@
            &&& post.grabing == Some(d.id)
            &&& r is None
        },
        None => {
            &&& post.grabing is None
            &&& post.dots@ == pre.dots@.push(
                ADot { id: spec_new_id(pre.dots@) as i32, x, y },
            )
            &&& r == Some(SyncRequest::Create { user_id: SYNC_USER_ID, x, y })
        },
    }
}

/// How a pointer-move to `(x, y)` transforms the world. It repositions the
/// grabbed dot, and only while the pointer is held down; a stale grab (id
/// no longer in the store) or a released pointer falls back to idle.
pub open spec fn move_post(pre: Universe, x: i32, y: i32, post: Universe) -> bool {
    &&& post.width == pre.width
    &&& post.height == pre.height
    &&& post.mouse_down == pre.mouse_down
    &&& match pre.grabing {
        None => {
            &&& post.dots@ == pre.dots@
            &&& post.grabing is None
        },
        Some(id) => {
            if !pre.mouse_down {
                &&& post.dots@ == pre.dots@
                &&& post.grabing is None
            } else if has_id(pre.dots@, id) {
                &&& post.dots@ == moved(pre.dots@, id, x, y)
                &&& post.grabing == Some(id)
            } else {
                &&& post.dots@ == pre.dots@
                &&& post.grabing is None
            }
        },
    }
}

/// How a pointer-up at `(x, y)` transforms the world: the drag state is
/// always fully cleared, the store is untouched, and ending a grab emits
/// exactly one update request carrying the committed position.
pub open spec fn up_post(pre: Universe, x: i32, y: i32, post: Universe, r: Option<SyncRequest>) -> bool {
    &&& post.width == pre.width
    &&& post.height == pre.height
    &&& !post.mouse_down
    &&& post.grabing is None
    &&& post.dots@ == pre.dots@
    &&& r == match pre.grabing {
        Some(id) => Some(SyncRequest::Update { user_id: SYNC_USER_ID, point_id: id, x, y }),
        None => None::<SyncRequest>,
    }
}

/// How a bulk load transforms the world: when the text opens a record
/// list, the store is replaced by the records parsed from it (truncated at
/// the first malformed record); otherwise the store is kept. The drag
/// state is never touched.
pub open spec fn replace_post(pre: Universe, s: Seq<char>, post: Universe) -> bool {
    &&& post.width == pre.width
    &&& post.height == pre.height
    &&& post.mouse_down == pre.mouse_down
    &&& post.grabing == pre.grabing
    &&& match parse_dots(s) {
        Some(ds) => post.dots@ == ds,
        None => post.dots@ == pre.dots@,
    }
}

/// The first near dot in store order, as executable code.
fn find_near_exec(dots: &Vec<ADot>, px: u32, py: u32) -> (r: Option<ADot>)
    ensures
        r == find_near(dots@, px as int, py as int),
{
    proof {
        assert(dots@.skip(0) =~= dots@);
    }
    let mut i: usize = 0;
    while i < dots.len()
        invariant
            i <= dots@.len(),
            find_near(dots@, px as int, py as int) == find_near(dots@.skip(i as int), px as int, py as int),
        decreases dots@.len() - i,
    {
        let d = dots[i];
        if d.is_near(px, py) {
            proof {
                assert(dots@.skip(i as int)[0] == dots@[i as int]);
            }
            return Some(d);
        }
        proof {
            assert(dots@.skip(i as int).drop_first() =~= dots@.skip(i as int + 1));
        }
        i += 1;
    }
    None
}

/// The id for a dot created now, as executable code.
fn new_id_exec(dots: &Vec<ADot>) -> (r: i32)
    requires
        spec_new_id(dots@) <= i32::MAX as int,
    ensures
        r as int == spec_new_id(dots@),
{
    if dots.len() == 0 {
        1
    } else {
        let mut m: i32 = dots[0].id;
        let mut i: usize = 1;
        proof {
            assert(dots@.take(1)[0] == dots@[0]);
        }
        while i < dots.len()
            invariant
                1 <= i <= dots@.len(),
                m as int == spec_max_id(dots@.take(i as int)),
            decreases dots@.len() - i,
        {
            let d = dots[i];
            proof {
                assert(dots@.take(i as int + 1).drop_last() =~= dots@.take(i as int));
                assert(dots@.take(i as int + 1).last() == dots@[i as int]);
            }
            if d.id > m {
                m = d.id;
            }
            i += 1;
        }
        proof {
            assert(dots@.take(dots@.len() as int) =~= dots@);
        }
        m + 1
    }
}

impl Universe {
    /// A fresh world: a 64x64 canvas seeded with four dots on the
    /// diagonal, pointer up, nothing grabbed.
    pub fn new() -> (u: Universe)
        ensures
            u.width == 64,
            u.height == 64,
            !u.mouse_down,
            u.grabing is None,
            u.dots@ == seq![
                ADot { id: 2, x: 20, y: 20 },
                ADot { id: 3, x: 30, y: 30 },
                ADot { id: 4, x: 40, y: 40 },
                ADot { id: 5, x: 50, y: 50 },
            ],
    {
        let mut dots: Vec<ADot> = Vec::new();
        dots.push(ADot { id: 2, x: 20, y: 20 });
        dots.push(ADot { id: 3, x: 30, y: 30 });
        dots.push(ADot { id: 4, x: 40, y: 40 });
        dots.push(ADot { id: 5, x: 50, y: 50 });
        proof {
            assert(dots@ =~= seq![
                ADot { id: 2, x: 20, y: 20 },
                ADot { id: 3, x: 30, y: 30 },
                ADot { id: 4, x: 40, y: 40 },
                ADot { id: 5, x: 50, y: 50 },
            ]);
        }
        Universe { width: 64, height: 64, dots, mouse_down: false, grabing: None }
    }

    pub fn width(&self) -> (r: u32)
        ensures
            r == self.width,
    {
        self.width
    }

    pub fn height(&self) -> (r: u32)
        ensures
            r == self.height,
    {
        self.height
    }

    pub fn dot_count(&self) -> (r: usize)
        ensures
            r == self.dots@.len(),
    {
        self.dots.len()
    }

    /// A snapshot of the store, in store order.
    pub fn dots(&self) -> (r: Vec<ADot>)
        ensures
            r@ == self.dots@,
    {
        let mut out: Vec<ADot> = Vec::new();
        let mut i: usize = 0;
        while i < self.dots.len()
            invariant
                i <= self.dots@.len(),
                out@ == self.dots@.take(i as int),
            decreases self.dots@.len() - i,
        {
            out.push(self.dots[i]);
            proof {
                assert(self.dots@.take(i as int).push(self.dots@[i as int]) =~= self.dots@.take(i as int + 1));
            }
            i += 1;
        }
        proof {
            assert(self.dots@.take(self.dots@.len() as int) =~= self.dots@);
        }
        out
    }

    /// Pointer-down handler: grab the first near dot, or create a fresh
    /// one at the pointer and hand back the creation request to send.
    pub fn set_mouse_down(&mut self, x_in: u32, y_in: u32) -> (r: Option<SyncRequest>)
        requires
            x_in as int <= i32::MAX as int,
            y_in as int <= i32::MAX as int,
            find_near(old(self).dots@, x_in as int, y_in as int) is None
                ==> spec_new_id(old(self).dots@) <= i32::MAX as int,
        ensures
            down_post(*old(self), x_in as i32, y_in as i32, *final(self), r),
    {
        self.mouse_down = true;
        let found = find_near_exec(&self.dots, x_in, y_in);
        match found {
            Some(d) => {
                self.grabing = Some(d.id);
                None
            },
            None => {
                self.grabing = None;
                let id = new_id_exec(&self.dots);
                self.dots.push(ADot { id, x: x_in as i32, y: y_in as i32 });
                Some(SyncRequest::Create { user_id: SYNC_USER_ID, x: x_in as i32, y: y_in as i32 })
            },
        }
    }

    /// Pointer-move handler: reposition the grabbed dot while the pointer
    /// is held down; otherwise fall back to idle and change nothing.
    pub fn move_mouse(&mut self, e_x: u32, e_y: u32)
        requires
            e_x as int <= i32::MAX as int,
            e_y as int <= i32::MAX as int,
        ensures
            move_post(*old(self), e_x as i32, e_y as i32, *final(self)),
    {
        if let Some(id) = self.grabing {
            if !self.mouse_down {
                self.grabing = None;
                return;
            }
            let n = self.dots.len();
            let mut i: usize = 0;
            while i < n
                invariant
                    n == self.dots@.len(),
                    i <= n,
                    forall|k: int| 0 <= k < i ==> self.dots@[k].id != id,
                    self.dots@ == old(self).dots@,
                    self.grabing == old(self).grabing,
                    self.mouse_down == old(self).mouse_down,
                    self.width == old(self).width,
                    self.height == old(self).height,
                    self.grabing == Some(id),
                    self.mouse_down,
                decreases n - i,
            {
                if self.dots[i].id == id {
                    self.dots[i] = ADot { id, x: e_x as i32, y: e_y as i32 };
                    proof {
                        lemma_moved_is_update(old(self).dots@, id, e_x as i32, e_y as i32, i as int);
                    }
                    return;
                }
                i += 1;
            }
            self.grabing = None;
        }
    }

    /// Pointer-up handler: clear the drag state and, when a dot was
    /// grabbed, hand back the update request committing its position.
    pub fn set_mouse_up(&mut self, x_in: u32, y_in: u32) -> (r: Option<SyncRequest>)
        requires
            x_in as int <= i32::MAX as int,
            y_in as int <= i32::MAX as int,
        ensures
            up_post(*old(self), x_in as i32, y_in as i32, *final(self), r),
    {
        self.mouse_down = false;
        let r = match self.grabing {
            Some(point_id) => Some(SyncRequest::Update {
                user_id: SYNC_USER_ID,
                point_id,
                x: x_in as i32,
                y: y_in as i32,
            }),
            None => None,
        };
        self.grabing = None;
        r
    }

    /// Rendering is driven through [`Universe::tick`]; this hook is kept
    /// as a deliberate no-op.
    pub fn render(&self) {
    }

    /// Per-frame hook: hand back the drawing instructions for the current
    /// store, leaving the world untouched.
    pub fn tick(&mut self) -> (ops: Vec<DrawOp>)
        ensures
            *final(self) == *old(self),
            ops@ == spec_draw_ops(old(self).dots@),
    {
        let mut ops: Vec<DrawOp> = Vec::new();
        ops.push(DrawOp::Clear);
        let ghost f = |k: int| DrawOp::FillSquare {
            x: self.dots@[k].x,
            y: self.dots@[k].y,
            size: DOT_SIZE,
        };
        proof {
            assert(ops@ =~= seq![DrawOp::Clear] + Seq::new(0, f));
        }
        let mut i: usize = 0;
        while i < self.dots.len()
            invariant
                i <= self.dots@.len(),
                ops@ == seq![DrawOp::Clear] + Seq::new(i as nat, f),
                f == (|k: int| DrawOp::FillSquare {
                    x: self.dots@[k].x,
                    y: self.dots@[k].y,
                    size: DOT_SIZE,
                }),
            decreases self.dots@.len() - i,
        {
            let d = self.dots[i];
            ops.push(DrawOp::FillSquare { x: d.x, y: d.y, size: DOT_SIZE });
            proof {
                assert(ops@ =~= seq![DrawOp::Clear] + Seq::new(i as nat + 1, f));
            }
            i += 1;
        }
        proof {
            assert(Seq::new(self.dots@.len(), f) =~= Seq::new(
                self.dots@.len(),
                |k: int| DrawOp::FillSquare { x: self.dots@[k].x, y: self.dots@[k].y, size: DOT_SIZE },
            ));
        }
        ops
    }

    /// Bulk load: replace the whole store with the records parsed from
    /// the given text, per the truncating policy of [`parse_dots`]. Text
    /// that does not open a record list leaves the store unchanged.
    pub fn set_dots_now(&mut self, dots: &str)
        ensures
            replace_post(*old(self), dots@, *final(self)),
    {
        match parse_dots_exec(dots) {
            Some(l) => {
                self.dots = l;
            },
            None => {},
        }
    }
}

/// Repositioning the dot at a first-match index is a pointwise update.
proof fn lemma_moved_is_update(dots: Seq<ADot>, id: i32, x: i32, y: i32, i: int)
    requires
        0 <= i < dots.len(),
        dots[i].id == id,
        forall|k: int| 0 <= k < i ==> dots[k].id != id,
    ensures
        moved(dots, id, x, y) == dots.update(i, ADot { id, x, y }),
    decreases i,
{
    if i == 0 {
        assert(seq![ADot { id, x, y }] + dots.drop_first() =~= dots.update(0, ADot { id, x, y }));
    } else {
        assert(dots[0].id != id);
        lemma_moved_is_update(dots.drop_first(), id, x, y, i - 1);
        assert(seq![dots[0]] + dots.drop_first().update(i - 1, ADot { id, x, y }) =~= dots.update(
            i,
            ADot { id, x, y },
        ));
    }
}

/// Hit-testing law: the dot that a pointer-down selects is the first near
/// dot in store order — never a closer but later alternative — and when
/// nothing is returned, no dot in the store is near.
pub proof fn lemma_find_near_first(dots: Seq<ADot>, px: int, py: int)
    ensures
        match find_near(dots, px, py) {
            Some(d) => exists|i: int|
                0 <= i < dots.len() && dots[i] == d && spec_near(d, px, py) && (forall|j: int|
                    0 <= j < i ==> !spec_near(dots[j], px, py)),
            None => forall|i: int| 0 <= i < dots.len() ==> !spec_near(dots[i], px, py),
        },
    decreases dots.len(),
{
    if dots.len() == 0 {
    } else if spec_near(dots[0], px, py) {
        assert(0 <= 0 < dots.len() && dots[0] == dots[0] && spec_near(dots[0], px, py) && (forall|j: int|
            0 <= j < 0 ==> !spec_near(dots[j], px, py)));
    } else {
        let rest = dots.drop_first();
        lemma_find_near_first(rest, px, py);
        match find_near(dots, px, py) {
            Some(d) => {
                let i0 = choose|i: int|
                    0 <= i < rest.len() && rest[i] == d && spec_near(d, px, py) && (forall|j: int|
                        0 <= j < i ==> !spec_near(rest[j], px, py));
                assert(dots[i0 + 1] == rest[i0]);
                assert(forall|j: int| 0 <= j < i0 + 1 ==> !spec_near(dots[j], px, py)) by {
                    assert(forall|j: int| 1 <= j < i0 + 1 ==> dots[j] == rest[j - 1]);
                }
                assert(0 <= i0 + 1 < dots.len() && dots[i0 + 1] == d && spec_near(d, px, py)
                    && (forall|j: int| 0 <= j < i0 + 1 ==> !spec_near(dots[j], px, py)));
            },
            None => {
                assert(forall|i: int| 1 <= i < dots.len() ==> dots[i] == rest[i - 1]);
            },
        }
    }
}

/// Every id in the store is bounded by the store's maximum id.
pub proof fn lemma_max_id_ge_all(dots: Seq<ADot>)
    ensures
        forall|k: int| 0 <= k < dots.len() ==> dots[k].id as int <= spec_max_id(dots),
    decreases dots.len(),
{
    if dots.len() <= 1 {
    } else {
        lemma_max_id_ge_all(dots.drop_last());
        assert forall|k: int| 0 <= k < dots.len() implies dots[k].id as int <= spec_max_id(dots) by {
            if k < dots.len() - 1 {
                assert(dots.drop_last()[k] == dots[k]);
            }
        }
    }
}

/// Any bound on the store's ids bounds the store's maximum id; it lets a
/// caller discharge the id-headroom precondition of a pointer-down.
pub proof fn lemma_max_id_le_bound(dots: Seq<ADot>, b: int)
    requires
        forall|k: int| 0 <= k < dots.len() ==> dots[k].id as int <= b,
    ensures
        dots.len() == 0 || spec_max_id(dots) <= b,
    decreases dots.len(),
{
    if dots.len() <= 1 {
    } else {
        assert forall|k: int| 0 <= k < dots.drop_last().len() implies dots.drop_last()[k].id as int
            <= b by {
            assert(dots.drop_last()[k] == dots[k]);
        }
        lemma_max_id_le_bound(dots.drop_last(), b);
    }
}

/// Creation law: the id given to a dot created by a pointer-down is fresh,
/// strictly above every id already in the store.
pub proof fn lemma_new_id_fresh(dots: Seq<ADot>)
    ensures
        forall|k: int| 0 <= k < dots.len() ==> (dots[k].id as int) < spec_new_id(dots),
{
    if dots.len() == 0 {
    } else {
        lemma_max_id_ge_all(dots);
    }
}

/// Dragging changes positions only: the stored ids, and the store's
/// length, are exactly those from before the move.
pub proof fn lemma_moved_ids(dots: Seq<ADot>, id: i32, x: i32, y: i32)
    ensures
        moved(dots, id, x, y).len() == dots.len(),
        forall|k: int| 0 <= k < dots.len() ==> moved(dots, id, x, y)[k].id == dots[k].id,
    decreases dots.len(),
{
    if dots.len() == 0 {
    } else if dots[0].id == id {
    } else {
        lemma_moved_ids(dots.drop_first(), id, x, y);
        assert forall|k: int| 0 <= k < dots.len() implies moved(dots, id, x, y)[k].id == dots[k].id by {
            if k >= 1 {
                assert(moved(dots, id, x, y)[k] == moved(dots.drop_first(), id, x, y)[k - 1]);
                assert(dots.drop_first()[k - 1] == dots[k]);
            }
        }
    }
}

/// Replaying moves: dragging the same dot twice leaves exactly the store
/// of the second drag alone — only the most recent coordinate counts, and
/// repeating the final coordinate changes nothing further.
pub proof fn lemma_moved_twice(dots: Seq<ADot>, id: i32, x1: i32, y1: i32, x2: i32, y2: i32)
    ensures
        moved(moved(dots, id, x1, y1), id, x2, y2) == moved(dots, id, x2, y2),
    decreases dots.len(),
{
    if dots.len() == 0 {
    } else if dots[0].id == id {
        let m1 = moved(dots, id, x1, y1);
        assert(m1[0] == ADot { id, x: x1, y: y1 });
        assert(m1.drop_first() =~= dots.drop_first());
        assert(moved(m1, id, x2, y2) =~= moved(dots, id, x2, y2));
    } else {
        lemma_moved_twice(dots.drop_first(), id, x1, y1, x2, y2);
        let m1 = moved(dots, id, x1, y1);
        assert(m1[0] == dots[0]);
        assert(m1.drop_first() =~= moved(dots.drop_first(), id, x1, y1));
        assert(moved(m1, id, x2, y2) =~= moved(dots, id, x2, y2));
    }
}

/// Drag law: with a dot grabbed and the pointer held, a sequence of moves
/// leaves the store as if only the most recent move had happened, and the
/// grab survives.
pub proof fn lemma_moves_last_write_wins(
    u0: Universe,
    id: i32,
    x1: i32,
    y1: i32,
    u1: Universe,
    x2: i32,
    y2: i32,
    u2: Universe,
)
    requires
        u0.mouse_down,
        u0.grabing == Some(id),
        has_id(u0.dots@, id),
        move_post(u0, x1, y1, u1),
        move_post(u1, x2, y2, u2),
    ensures
        u2.dots@ == moved(u0.dots@, id, x2, y2),
        u2.grabing == Some(id),
        u2.mouse_down,
{
    lemma_moved_ids(u0.dots@, id, x1, y1);
    let k = choose|k: int| 0 <= k < u0.dots@.len() && u0.dots@[k].id == id;
    assert(u1.dots@[k].id == id);
    assert(has_id(u1.dots@, id));
    lemma_moved_twice(u0.dots@, id, x1, y1, x2, y2);
}

/// Release law: a pointer-up always clears the drag state, so a following
/// pointer-move is a no-op on the world.
pub proof fn lemma_up_then_move_is_noop(
    u0: Universe,
    ux: i32,
    uy: i32,
    u1: Universe,
    r: Option<SyncRequest>,
    mx: i32,
    my: i32,
    u2: Universe,
)
    requires
        up_post(u0, ux, uy, u1, r),
        move_post(u1, mx, my, u2),
    ensures
        u2.dots@ == u1.dots@,
        u2.grabing == u1.grabing,
        u2.mouse_down == u1.mouse_down,
        u2.width == u1.width,
        u2.height == u1.height,
{
}

} // verus!
