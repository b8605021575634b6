//! A memoized three-way recurrence over a 2D grid, evaluated two ways:
//! by direct recursion (`foo1`) and by an explicit, heap-allocated stack
//! machine that never grows the native call stack (`foo2`). Both are
//! proved to return exactly the mathematical recurrence `f`.

use vstd::prelude::*;

verus! {

/// The recurrence under evaluation:
/// `f(x, y) = 1` when `x == 0` or `y == 0`, and otherwise
/// `f(x, y) = (f(x-1, y-1) + f(x, y-1) + f(x-1, y)) % 1000`.
pub open spec fn f(x: nat, y: nat) -> nat
    decreases x + y,
{
    if x == 0 || y == 0 {
        1
    } else {
        (f((x - 1) as nat, (y - 1) as nat) + f(x, (y - 1) as nat) + f((x - 1) as nat, y)) % 1000
    }
}

/// Boundedness law: every value of the recurrence lies in `[0, 1000)`,
/// so a running sum of three values never exceeds `3 * 999`.
pub proof fn lemma_f_bounded(x: nat, y: nat)
    ensures
        0 <= f(x, y) < 1000,
{
}

/// Base-case law: along either axis the recurrence is exactly 1.
pub proof fn lemma_f_base_case(x: nat, y: nat)
    ensures
        f(0, y) == 1,
        f(x, 0) == 1,
{
}

/// Equivalence and determinism law: the recurrence pins every evaluation.
/// Any two results that the evaluators' contracts admit for one coordinate
/// — one from each variant, or from repeated calls on fresh tables — are
/// identical.
pub proof fn lemma_evaluations_agree(x: u32, y: u32, r1: u32, r2: u32)
    requires
        r1 == f(x as nat, y as nat),
        r2 == f(x as nat, y as nat),
    ensures
        r1 == r2,
{
}

/// A dense memo table for one evaluation, sized by the top-level coordinate.
/// Each slot is an explicit `Option`, so "not yet computed" can never be
/// confused with a stored result of 0.
pub struct Cache {
    data: Vec<Option<u32>>,
    xdim: usize,
    ydim: usize,
}

impl Cache {
    /// Number of distinct `x` values the table can hold.
    pub closed spec fn bound_x(&self) -> nat {
        self.xdim as nat
    }

    /// Number of distinct `y` values the table can hold.
    pub closed spec fn bound_y(&self) -> nat {
        self.ydim as nat
    }

    /// The table's slots cover exactly the `bound_x() * bound_y()` grid.
    pub closed spec fn wf(&self) -> bool {
        self.data@.len() == self.xdim * self.ydim
    }

    /// The slot stored for coordinate `(a, b)`.
    pub closed spec fn entry(&self, a: nat, b: nat) -> Option<u32>
        recommends
            a < self.bound_x(),
            b < self.bound_y(),
    {
        self.data@[a as int * self.ydim as int + b as int]
    }

    /// A fresh, all-empty table covering coordinates `(0, 0)` through `(x, y)`.
    pub fn new(x: u32, y: u32) -> (c: Cache)
        requires
            (x as int + 1) * (y as int + 1) <= usize::MAX as int,
        ensures
            c.wf(),
            c.bound_x() == x as nat + 1,
            c.bound_y() == y as nat + 1,
            forall|a: nat, b: nat|
                a < c.bound_x() && b < c.bound_y() ==> (#[trigger] c.entry(a, b)) is None,
    {
        proof {
            assert((x as int + 1) <= (x as int + 1) * (y as int + 1) && (y as int + 1) <= (x
                as int + 1) * (y as int + 1)) by (nonlinear_arith)
                requires
                    x as int >= 0,
                    y as int >= 0,
            ;
        }
        let xdim: usize = x as usize + 1;
        let ydim: usize = y as usize + 1;
        let len: usize = xdim * ydim;
        let mut data: Vec<Option<u32>> = Vec::new();
        while data.len() < len
            invariant
                data@.len() <= len,
                forall|i: int| 0 <= i < data@.len() ==> data@[i] is None,
            decreases len - data@.len(),
        {
            data.push(None);
        }
        let c = Cache { data, xdim, ydim };
        proof {
            assert forall|a: nat, b: nat|
                a < c.bound_x() && b < c.bound_y() implies (#[trigger] c.entry(a, b)) is None by {
                lemma_flat_index(a as int, b as int, c.xdim as int, c.ydim as int);
            }
        }
        c
    }

    /// The flat position of `(x, y)`: row-major order with stride `bound_y()`.
    fn idx(&self, x: u32, y: u32) -> (i: usize)
        requires
            self.wf(),
            (x as nat) < self.bound_x(),
            (y as nat) < self.bound_y(),
        ensures
            i == x as int * self.ydim as int + y as int,
            i < self.data@.len(),
    {
        let n = self.data.len();
        proof {
            lemma_flat_index(x as int, y as int, self.xdim as int, self.ydim as int);
            assert((x as int * self.ydim as int + y as int) < (n as int));
        }
        x as usize * self.ydim + y as usize
    }

    /// The stored value for a coordinate, or `None` when it has not been
    /// computed yet. Never mutates.
    pub fn get(&self, xy: (u32, u32)) -> (r: Option<u32>)
        requires
            self.wf(),
            (xy.0 as nat) < self.bound_x(),
            (xy.1 as nat) < self.bound_y(),
        ensures
            r == self.entry(xy.0 as nat, xy.1 as nat),
    {
        let i = self.idx(xy.0, xy.1);
        self.data[i]
    }

    /// Stores `val` for a coordinate, overwriting any previous entry and
    /// leaving every other slot untouched.
    pub fn insert(&mut self, xy: (u32, u32), val: u32)
        requires
            old(self).wf(),
            (xy.0 as nat) < old(self).bound_x(),
            (xy.1 as nat) < old(self).bound_y(),
        ensures
            final(self).wf(),
            final(self).bound_x() == old(self).bound_x(),
            final(self).bound_y() == old(self).bound_y(),
            final(self).entry(xy.0 as nat, xy.1 as nat) == Some(val),
            forall|a: nat, b: nat|
                a < old(self).bound_x() && b < old(self).bound_y() && !(a == xy.0 as nat && b
                    == xy.1 as nat) ==> #[trigger] final(self).entry(a, b) == old(self).entry(
                    a,
                    b,
                ),
    {
        let i = self.idx(xy.0, xy.1);
        self.data[i] = Some(val);
        proof {
            assert forall|a: nat, b: nat|
                a < old(self).bound_x() && b < old(self).bound_y() && !(a == xy.0 as nat && b
                    == xy.1 as nat) implies #[trigger] self.entry(a, b) == old(self).entry(
                a,
                b,
            ) by {
                lemma_flat_index(a as int, b as int, self.xdim as int, self.ydim as int);
                if a as int * self.ydim as int + b as int == xy.0 as int * self.ydim as int
                    + xy.1 as int {
                    lemma_flat_index_injective(
                        a as int,
                        b as int,
                        xy.0 as int,
                        xy.1 as int,
                        self.ydim as int,
                    );
                }
            }
        }
    }
}

/// The memoization invariant every evaluator maintains: whatever the table
/// holds is exactly the recurrence's value for that coordinate. An absent
/// entry promises nothing.
pub open spec fn memoized(c: Cache) -> bool {
    forall|a: nat, b: nat|
        a < c.bound_x() && b < c.bound_y() ==> ((#[trigger] c.entry(a, b)) matches Some(v) ==> v
            == f(a, b))
}

/// Direct recursive evaluation of the recurrence with memoization: check the
/// table, recurse on the three sub-coordinates in the fixed order
/// `(x-1, y-1)`, `(x, y-1)`, `(x-1, y)`, combine modulo 1000, store, return.
pub fn foo1_helper(x: u32, y: u32, cache: &mut Cache) -> (r: u32)
    requires
        old(cache).wf(),
        memoized(*old(cache)),
        (x as nat) < old(cache).bound_x(),
        (y as nat) < old(cache).bound_y(),
    ensures
        final(cache).wf(),
        memoized(*final(cache)),
        final(cache).bound_x() == old(cache).bound_x(),
        final(cache).bound_y() == old(cache).bound_y(),
        r == f(x as nat, y as nat),
    decreases x + y,
{
    if x == 0 || y == 0 {
        1
    } else if let Some(res) = cache.get((x, y)) {
        res
    } else {
        let r1 = foo1_helper(x - 1, y - 1, cache);
        let r2 = foo1_helper(x, y - 1, cache);
        let r3 = foo1_helper(x - 1, y, cache);
        proof {
            lemma_f_bounded((x - 1) as nat, (y - 1) as nat);
            lemma_f_bounded(x as nat, (y - 1) as nat);
            lemma_f_bounded((x - 1) as nat, y as nat);
        }
        let tr = (r1 + r2 + r3) % 1000;
        cache.insert((x, y), tr);
        tr
    }
}

/// Variant A: evaluate the recurrence by native recursion over a fresh table.
pub fn foo1(x: u32, y: u32) -> (r: u32)
    requires
        (x as int + 1) * (y as int + 1) <= usize::MAX as int,
    ensures
        r == f(x as nat, y as nat),
{
    let mut cache = Cache::new(x, y);
    foo1_helper(x, y, &mut cache)
}

/// One suspended recursive call of the explicit-stack machine. A frame
/// carries the coordinate it resolves, which of its three sub-calls comes
/// next, and the sub-results it has already received.
enum StackState {
    FirstRec(u32, u32),
    SecondRec(u32, u32, u32),
    ThirdRec(u32, u32, u32, u32),
}

/// The coordinate a frame will eventually resolve.
spec fn frame_coord(st: StackState) -> (nat, nat) {
    match st {
        StackState::FirstRec(x, y) => (x as nat, y as nat),
        StackState::SecondRec(x, y, _) => (x as nat, y as nat),
        StackState::ThirdRec(x, y, _, _) => (x as nat, y as nat),
    }
}

/// The sub-coordinate whose result the frame is waiting for: the return
/// register must hold that result when the frame is popped.
spec fn frame_wait(st: StackState) -> (nat, nat) {
    match st {
        StackState::FirstRec(x, y) => ((x - 1) as nat, (y - 1) as nat),
        StackState::SecondRec(x, y, _) => (x as nat, (y - 1) as nat),
        StackState::ThirdRec(x, y, _, _) => ((x - 1) as nat, y as nat),
    }
}

/// A frame is sound when its coordinate is strictly inside the table (the
/// base case never pushes a frame) and every sub-result it carries is the
/// recurrence's value for the corresponding sub-coordinate.
spec fn frame_ok(st: StackState, bx: nat, by: nat) -> bool {
    match st {
        StackState::FirstRec(x, y) => 0 < x && (x as nat) < bx && 0 < y && (y as nat) < by,
        StackState::SecondRec(x, y, r1) => 0 < x && (x as nat) < bx && 0 < y && (y as nat) < by
            && r1 == f((x - 1) as nat, (y - 1) as nat),
        StackState::ThirdRec(x, y, r1, r2) => 0 < x && (x as nat) < bx && 0 < y && (y as nat) < by
            && r1 == f((x - 1) as nat, (y - 1) as nat) && r2 == f(x as nat, (y - 1) as nat),
    }
}

/// The whole stack is sound: every frame is sound, and each frame waits on
/// exactly the coordinate that the frame above it resolves.
spec fn frames_ok(s: Seq<StackState>, bx: nat, by: nat) -> bool {
    &&& forall|i: int| 0 <= i < s.len() ==> frame_ok(#[trigger] s[i], bx, by)
    &&& forall|i: int|
        0 <= i < s.len() - 1 ==> frame_wait(#[trigger] s[i]) == frame_coord(s[i + 1])
}

/// Termination budget for one pending, uncached call of the recurrence:
/// enough to pay for the whole descent below it, with no credit for cache
/// hits (a hit only makes the machine finish sooner).
spec fn pot(x: nat, y: nat) -> nat
    decreases x + y,
{
    if x == 0 || y == 0 {
        0
    } else {
        3 + pot((x - 1) as nat, y) + pot(x, (y - 1) as nat) + pot((x - 1) as nat, (y - 1) as nat)
    }
}

/// Termination budget for one frame: what its remaining sub-calls may cost,
/// plus one step per remaining pop of the frame itself.
spec fn frame_pot(st: StackState) -> nat {
    match st {
        StackState::FirstRec(x, y) => 3 + pot((x - 1) as nat, y as nat) + pot(
            x as nat,
            (y - 1) as nat,
        ),
        StackState::SecondRec(x, y, _) => 2 + pot((x - 1) as nat, y as nat),
        StackState::ThirdRec(_, _, _, _) => 1,
    }
}

/// Termination budget of the whole stack: strictly decreasing across every
/// iteration of the machine's main loop.
spec fn stack_pot(s: Seq<StackState>) -> nat
    decreases s.len(),
{
    if s.len() == 0 {
        0
    } else {
        stack_pot(s.drop_last()) + frame_pot(s.last())
    }
}

proof fn lemma_stack_pot_push(s: Seq<StackState>, st: StackState)
    ensures
        stack_pot(s.push(st)) == stack_pot(s) + frame_pot(st),
{
    assert(s.push(st).drop_last() =~= s);
}

proof fn lemma_frames_ok_push(s: Seq<StackState>, st: StackState, bx: nat, by: nat)
    requires
        frames_ok(s, bx, by),
        frame_ok(st, bx, by),
        s.len() > 0 ==> frame_wait(s.last()) == frame_coord(st),
    ensures
        frames_ok(s.push(st), bx, by),
{
    let t = s.push(st);
    assert forall|i: int| 0 <= i < t.len() implies frame_ok(#[trigger] t[i], bx, by) by {
        if i < s.len() {
            assert(t[i] == s[i]);
        } else {
            assert(t[i] == st);
        }
    }
    assert forall|i: int| 0 <= i < t.len() - 1 implies frame_wait(#[trigger] t[i]) == frame_coord(
        t[i + 1],
    ) by {
        assert(t[i] == s[i]);
        if i < s.len() - 1 {
            assert(t[i + 1] == s[i + 1]);
        } else {
            assert(t[i + 1] == st);
        }
    }
}

proof fn lemma_frames_ok_pop(s: Seq<StackState>, bx: nat, by: nat)
    requires
        frames_ok(s, bx, by),
        s.len() > 0,
    ensures
        frames_ok(s.drop_last(), bx, by),
{
    let t = s.drop_last();
    assert forall|i: int| 0 <= i < t.len() implies frame_ok(#[trigger] t[i], bx, by) by {
        assert(t[i] == s[i]);
    }
    assert forall|i: int| 0 <= i < t.len() - 1 implies frame_wait(#[trigger] t[i]) == frame_coord(
        t[i + 1],
    ) by {
        assert(t[i] == s[i]);
        assert(t[i + 1] == s[i + 1]);
    }
}

/// The machine's "call" step. Descends from `(x, y)` along first
/// sub-coordinates, pushing one `FirstRec` frame per uncached, non-base
/// coordinate, until a base case or a cache hit sets the return register.
/// The loop replaces native recursion, so the native stack never grows.
fn initial(x: u32, y: u32, cache: &mut Cache, rv: &mut u32, stack: &mut Vec<StackState>)
    requires
        old(cache).wf(),
        memoized(*old(cache)),
        (x as nat) < old(cache).bound_x(),
        (y as nat) < old(cache).bound_y(),
        frames_ok(old(stack)@, old(cache).bound_x(), old(cache).bound_y()),
        old(stack)@.len() > 0 ==> frame_wait(old(stack)@.last()) == (x as nat, y as nat),
    ensures
        *final(cache) == *old(cache),
        frames_ok(final(stack)@, old(cache).bound_x(), old(cache).bound_y()),
        final(stack)@.len() >= old(stack)@.len(),
        forall|i: int| 0 <= i < old(stack)@.len() ==> final(stack)@[i] == old(stack)@[i],
        stack_pot(final(stack)@) <= stack_pot(old(stack)@) + pot(x as nat, y as nat),
        final(stack)@.len() == old(stack)@.len() ==> *final(rv) == f(x as nat, y as nat),
        final(stack)@.len() > old(stack)@.len() ==> frame_coord(
            final(stack)@[old(stack)@.len() as int],
        ) == (x as nat, y as nat) && *final(rv) == f(
            frame_wait(final(stack)@.last()).0,
            frame_wait(final(stack)@.last()).1,
        ),
{
    let mut cx: u32 = x;
    let mut cy: u32 = y;
    loop
        invariant_except_break
            cache.wf(),
            memoized(*cache),
            *cache == *old(cache),
            (cx as nat) < cache.bound_x(),
            (cy as nat) < cache.bound_y(),
            frames_ok(stack@, cache.bound_x(), cache.bound_y()),
            stack@.len() >= old(stack)@.len(),
            forall|i: int| 0 <= i < old(stack)@.len() ==> stack@[i] == old(stack)@[i],
            stack_pot(stack@) + pot(cx as nat, cy as nat) <= stack_pot(old(stack)@) + pot(
                x as nat,
                y as nat,
            ),
            stack@.len() > 0 ==> frame_wait(stack@.last()) == (cx as nat, cy as nat),
            stack@.len() == old(stack)@.len() ==> cx == x && cy == y,
            stack@.len() > old(stack)@.len() ==> frame_coord(stack@[old(stack)@.len() as int]) == (
            x as nat,
            y as nat,
            ),
        ensures
            *cache == *old(cache),
            frames_ok(stack@, old(cache).bound_x(), old(cache).bound_y()),
            stack@.len() >= old(stack)@.len(),
            forall|i: int| 0 <= i < old(stack)@.len() ==> stack@[i] == old(stack)@[i],
            stack_pot(stack@) <= stack_pot(old(stack)@) + pot(x as nat, y as nat),
            stack@.len() == old(stack)@.len() ==> *rv == f(x as nat, y as nat),
            stack@.len() > old(stack)@.len() ==> frame_coord(stack@[old(stack)@.len() as int]) == (
            x as nat,
            y as nat,
            ) && *rv == f(frame_wait(stack@.last()).0, frame_wait(stack@.last()).1),
        decreases cx + cy,
    {
        if cx == 0 || cy == 0 {
            *rv = 1;
            break;
        }
        let cached = cache.get((cx, cy));
        if let Some(res) = cached {
            *rv = res;
            break;
        }
        let ghost prev = stack@;
        stack.push(StackState::FirstRec(cx, cy));
        proof {
            lemma_frames_ok_push(
                prev,
                StackState::FirstRec(cx, cy),
                cache.bound_x(),
                cache.bound_y(),
            );
            lemma_stack_pot_push(prev, StackState::FirstRec(cx, cy));
        }
        cx = cx - 1;
        cy = cy - 1;
    }
}

/// Variant B: evaluate the recurrence on an explicit, heap-allocated stack
/// of frames plus a single return register, so native call depth stays
/// constant however deep the recurrence is. Sub-calls happen in the same
/// fixed order as in `foo1`, and the two variants return identical values.
pub fn foo2(x: u32, y: u32) -> (r: u32)
    requires
        (x as int + 1) * (y as int + 1) <= usize::MAX as int,
    ensures
        r == f(x as nat, y as nat),
{
    let mut stack: Vec<StackState> = Vec::new();
    let mut rv: u32 = 0;
    let mut cache = Cache::new(x, y);

    initial(x, y, &mut cache, &mut rv, &mut stack);

    while stack.len() != 0
        invariant
            cache.wf(),
            memoized(cache),
            cache.bound_x() == x as nat + 1,
            cache.bound_y() == y as nat + 1,
            frames_ok(stack@, cache.bound_x(), cache.bound_y()),
            stack@.len() > 0 ==> frame_coord(stack@[0]) == (x as nat, y as nat) && rv == f(
                frame_wait(stack@.last()).0,
                frame_wait(stack@.last()).1,
            ),
            stack@.len() == 0 ==> rv == f(x as nat, y as nat),
        decreases stack_pot(stack@),
    {
        let ghost s0 = stack@;
        proof {
            assert(frame_ok(s0.last(), cache.bound_x(), cache.bound_y()));
            lemma_frames_ok_pop(s0, cache.bound_x(), cache.bound_y());
        }
        let state = stack.pop().unwrap();
        proof {
            assert(stack@ =~= s0.drop_last());
            if stack@.len() > 0 {
                // the frame below waited on exactly the popped frame's coordinate
                assert(frame_wait(s0[s0.len() - 2]) == frame_coord(s0[s0.len() - 1]));
            }
        }
        match state {
            StackState::FirstRec(fx, fy) => {
                let ghost s1 = stack@;
                stack.push(StackState::SecondRec(fx, fy, rv));
                proof {
                    lemma_frames_ok_push(
                        s1,
                        StackState::SecondRec(fx, fy, rv),
                        cache.bound_x(),
                        cache.bound_y(),
                    );
                    lemma_stack_pot_push(s1, StackState::SecondRec(fx, fy, rv));
                }
                initial(fx, fy - 1, &mut cache, &mut rv, &mut stack);
            },
            StackState::SecondRec(fx, fy, r1) => {
                let ghost s1 = stack@;
                stack.push(StackState::ThirdRec(fx, fy, r1, rv));
                proof {
                    lemma_frames_ok_push(
                        s1,
                        StackState::ThirdRec(fx, fy, r1, rv),
                        cache.bound_x(),
                        cache.bound_y(),
                    );
                    lemma_stack_pot_push(s1, StackState::ThirdRec(fx, fy, r1, rv));
                }
                initial(fx - 1, fy, &mut cache, &mut rv, &mut stack);
            },
            StackState::ThirdRec(fx, fy, r1, r2) => {
                proof {
                    lemma_f_bounded((fx - 1) as nat, (fy - 1) as nat);
                    lemma_f_bounded(fx as nat, (fy - 1) as nat);
                    lemma_f_bounded((fx - 1) as nat, fy as nat);
                }
                let tr = (r1 + r2 + rv) % 1000;
                cache.insert((fx, fy), tr);
                rv = tr;
            },
        }
    }
    rv
}

/// Row-major flattening stays inside a grid of `xdim * ydim` slots.
proof fn lemma_flat_index(a: int, b: int, xdim: int, ydim: int)
    requires
        0 <= a < xdim,
        0 <= b < ydim,
    ensures
        0 <= a * ydim + b < xdim * ydim,
{
    assert(0 <= a * ydim + b < xdim * ydim) by (nonlinear_arith)
        requires
            0 <= a < xdim,
            0 <= b < ydim,
    ;
}

/// Row-major flattening is injective on in-bounds coordinates.
proof fn lemma_flat_index_injective(a: int, b: int, p: int, q: int, ydim: int)
    requires
        0 <= b < ydim,
        0 <= q < ydim,
        a * ydim + b == p * ydim + q,
    ensures
        a == p,
        b == q,
{
    assert(a == p && b == q) by (nonlinear_arith)
        requires
            0 <= b < ydim,
            0 <= q < ydim,
            a * ydim + b == p * ydim + q,
    ;
}

} // verus!

