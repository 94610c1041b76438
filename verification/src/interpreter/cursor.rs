use vstd::prelude::*;

use crate::interpreter::btree::{
    cell_entry, cell_pointer, interior_entries, leaf_entries, lemma_head_counts,
    lemma_truncated_root, open_tree, page_head, read_cell_entry, read_head, tree_entries, tree_kind,
    Entry, EntryView, Head, HeadView, TreeKind, MAX_DEPTH,
};
use crate::interpreter::decimal::power;
use crate::interpreter::error::{joined, DatabaseError};
use crate::interpreter::pager::{Pager, PagerView};
use crate::interpreter::record::{be_value, lemma_pow256_values, read_be};
use crate::interpreter::schema::PageId;

verus! {

/// A place in a page on the way from the root of a tree to a leaf: the
/// page, and how many steps have been taken in it. A step in a leaf hands
/// out a cell. A step in an inner node goes down to a child, and in an index
/// every other step hands out the cell that stands behind that child.
#[derive(Clone, Copy, Debug, PartialEq, Eq, Structural)]
pub struct Frame {
    pub page_id: PageId,
    pub step: usize,
}

/// The most steps that a page can take: two for each of its cells, of
/// which it has less than two to the sixteenth, and one more.
pub const MOST_STEPS: usize = 131071;

/// What `a` hands out followed by what `b` hands out; the failure of `a`
/// where it fails, and else that of `b`.
pub open spec fn chained<T>(
    a: core::result::Result<Seq<T>, DatabaseError>,
    b: core::result::Result<Seq<T>, DatabaseError>,
) -> core::result::Result<Seq<T>, DatabaseError> {
    match a {
        Err(e) => Err(e),
        Ok(x) => joined(x, b),
    }
}

/// What an inner node still hands out when `step` steps have been taken in
/// it; see [`interior_entries`].
#[verifier::opaque]
pub open spec fn interior_rest(
    pv: PagerView,
    kind: TreeKind,
    head: HeadView,
    step: int,
    depth: nat,
) -> core::result::Result<Seq<EntryView>, DatabaseError> {
    match kind {
        TreeKind::Table => if step > head.n {
            Ok(Seq::<EntryView>::empty())
        } else {
            interior_entries(
                pv,
                kind,
                head.area,
                head.array,
                head.n,
                step,
                head.rightmost,
                depth,
            )
        },
        TreeKind::Index => if step > 2 * head.n {
            Ok(Seq::<EntryView>::empty())
        } else if step % 2 == 0 {
            interior_entries(
                pv,
                kind,
                head.area,
                head.array,
                head.n,
                step / 2,
                head.rightmost,
                depth,
            )
        } else {
            let at = cell_pointer(head.area, head.array, step / 2);
            if at + 4 > head.area.len() {
                Err(DatabaseError::Corruption)
            } else {
                match cell_entry(pv, kind, head.area, at + 4) {
                    Err(e) => Err(e),
                    Ok(entry) => joined(
                        seq![entry],
                        interior_entries(
                            pv,
                            kind,
                            head.area,
                            head.array,
                            head.n,
                            step / 2 + 1,
                            head.rightmost,
                            depth,
                        ),
                    ),
                }
            }
        },
    }
}

/// What the page of a frame still hands out, with what lies below it,
/// where the tree may be `depth` pages deep from that page on.
#[verifier::opaque]
pub open spec fn frame_rest(pv: PagerView, kind: TreeKind, frame: Frame, depth: nat) -> core::result::Result<
    Seq<EntryView>,
    DatabaseError,
> {
    if depth == 0 {
        Err(DatabaseError::Corruption)
    } else {
        match page_head(pv, kind, frame.page_id as int) {
            Err(e) => Err(e),
            Ok(head) => if head.leaf {
                leaf_entries(pv, kind, head.area, head.array, head.n, frame.step as int)
            } else {
                interior_rest(pv, kind, head, frame.step as int, (depth - 1) as nat)
            },
        }
    }
}

/// What a walk still hands out whose way from the root to where it is
/// leads through the frames: what the last frame still hands out, then what
/// the one before it does, and so on down to the root.
pub open spec fn remaining(pv: PagerView, kind: TreeKind, frames: Seq<Frame>) -> core::result::Result<
    Seq<EntryView>,
    DatabaseError,
>
    decreases frames.len(),
{
    if frames.len() == 0 {
        Ok(Seq::<EntryView>::empty())
    } else if frames.len() > MAX_DEPTH {
        Err(DatabaseError::Corruption)
    } else {
        chained(
            frame_rest(pv, kind, frames.last(), (MAX_DEPTH + 1 - frames.len()) as nat),
            remaining(pv, kind, frames.drop_last()),
        )
    }
}

/// A page that no step has been taken in still hands out all that lies at
/// it and below it.
pub proof fn lemma_fresh_frame(pv: PagerView, kind: TreeKind, id: PageId, depth: nat)
    ensures
        frame_rest(pv, kind, Frame { page_id: id, step: 0 }, depth) == tree_entries(
            pv,
            kind,
            id as int,
            depth,
        ),
{
    reveal(frame_rest);
    reveal(interior_rest);
    if depth > 0 && page_head(pv, kind, id as int) is Ok {
        lemma_head_counts(pv, kind, id as int);
    }
}

/// What a frame still hands out, by the head of its page.
proof fn lemma_frame_rest(pv: PagerView, kind: TreeKind, frame: Frame, depth: nat)
    requires
        depth > 0,
    ensures
        frame_rest(pv, kind, frame, depth) == match page_head(pv, kind, frame.page_id as int) {
            Err(e) => Err::<Seq<EntryView>, DatabaseError>(e),
            Ok(head) => if head.leaf {
                leaf_entries(pv, kind, head.area, head.array, head.n, frame.step as int)
            } else {
                interior_rest(pv, kind, head, frame.step as int, (depth - 1) as nat)
            },
        },
{
    reveal(frame_rest);
}

/// A leaf that has handed out all its cells hands out nothing more, and
/// one that has not hands out its next cell first.
proof fn lemma_leaf_step(pv: PagerView, kind: TreeKind, head: HeadView, step: int)
    ensures
        step >= head.n ==> leaf_entries(pv, kind, head.area, head.array, head.n, step) == Ok::<
            Seq<EntryView>,
            DatabaseError,
        >(Seq::<EntryView>::empty()),
        step < head.n ==> leaf_entries(pv, kind, head.area, head.array, head.n, step)
            == match cell_entry(pv, kind, head.area, cell_pointer(head.area, head.array, step)) {
            Err(e) => Err::<Seq<EntryView>, DatabaseError>(e),
            Ok(entry) => joined(
                seq![entry],
                leaf_entries(pv, kind, head.area, head.array, head.n, step + 1),
            ),
        },
{
}

/// An inner node that has taken all its steps hands out nothing more.
proof fn lemma_interior_done(pv: PagerView, kind: TreeKind, head: HeadView, step: int, depth: nat)
    requires
        step > if kind == TreeKind::Table {
            head.n
        } else {
            2 * head.n
        },
    ensures
        interior_rest(pv, kind, head, step, depth) == Ok::<Seq<EntryView>, DatabaseError>(
            Seq::<EntryView>::empty(),
        ),
{
    reveal(interior_rest);
}

/// A step down to the right-most child: what the node hands out is what
/// lies below that child.
proof fn lemma_interior_last(pv: PagerView, kind: TreeKind, head: HeadView, step: int, depth: nat)
    requires
        head.n >= 0,
        step == if kind == TreeKind::Table {
            head.n
        } else {
            2 * head.n
        },
    ensures
        interior_rest(pv, kind, head, step, depth) == chained(
            tree_entries(pv, kind, head.rightmost, depth),
            interior_rest(pv, kind, head, step + 1, depth),
        ),
{
    reveal(interior_rest);
    match tree_entries(pv, kind, head.rightmost, depth) {
        Ok(es) => {
            assert(es + Seq::<EntryView>::empty() =~= es);
        },
        Err(_) => {},
    }
}

/// A step down to the child of the cell `i`: what the node hands out is
/// what lies below that child, followed by what the node hands out behind
/// it. A cell that has no room for the number of its child is a corruption.
proof fn lemma_interior_down(
    pv: PagerView,
    kind: TreeKind,
    head: HeadView,
    step: int,
    i: int,
    depth: nat,
)
    requires
        0 <= i < head.n,
        kind == TreeKind::Table ==> step == i,
        kind == TreeKind::Index ==> step == 2 * i,
    ensures
        ({
            let at = cell_pointer(head.area, head.array, i);
            interior_rest(pv, kind, head, step, depth) == if at + 4 > head.area.len() {
                Err::<Seq<EntryView>, DatabaseError>(DatabaseError::Corruption)
            } else {
                chained(
                    tree_entries(pv, kind, be_value(head.area.subrange(at, at + 4)), depth),
                    interior_rest(pv, kind, head, step + 1, depth),
                )
            }
        }),
{
    reveal(interior_rest);
    let at = cell_pointer(head.area, head.array, i);
    if at + 4 <= head.area.len() {
        let below = tree_entries(pv, kind, be_value(head.area.subrange(at, at + 4)), depth);
        let more = interior_entries(
            pv,
            kind,
            head.area,
            head.array,
            head.n,
            i + 1,
            head.rightmost,
            depth,
        );
        if kind == TreeKind::Index {
            match (below, cell_entry(pv, kind, head.area, at + 4), more) {
                (Ok(es), Ok(entry), Ok(tail)) => {
                    assert(es.push(entry) + tail =~= es + (seq![entry] + tail));
                },
                _ => {},
            }
        }
    }
}

/// A step of an index that hands out the cell `i` of an inner node: what
/// the node hands out is that cell, followed by what the node hands out
/// behind it.
proof fn lemma_interior_cell(pv: PagerView, head: HeadView, step: int, i: int, depth: nat)
    requires
        0 <= i < head.n,
        step == 2 * i + 1,
    ensures
        ({
            let at = cell_pointer(head.area, head.array, i);
            interior_rest(pv, TreeKind::Index, head, step, depth) == if at + 4
                > head.area.len() {
                Err::<Seq<EntryView>, DatabaseError>(DatabaseError::Corruption)
            } else {
                match cell_entry(pv, TreeKind::Index, head.area, at + 4) {
                    Err(e) => Err::<Seq<EntryView>, DatabaseError>(e),
                    Ok(entry) => joined(
                        seq![entry],
                        interior_rest(pv, TreeKind::Index, head, step + 1, depth),
                    ),
                }
            }
        }),
{
    reveal(interior_rest);
}

/// The base of the measure of the work that is left.
pub open spec fn work_base() -> nat {
    (MOST_STEPS + 3) as nat
}

/// A measure of the work that is left to a walk: it grows with the steps
/// that each frame can still take, a frame nearer to the root weighing more
/// than all that can come above it.
pub open spec fn work(frames: Seq<Frame>) -> nat
    decreases frames.len(),
{
    if frames.len() == 0 || frames.len() > MAX_DEPTH {
        0
    } else {
        work(frames.drop_last()) + ((MOST_STEPS + 1 - frames.last().step) as nat) * power(
            work_base(),
            (MAX_DEPTH - frames.len()) as nat,
        )
    }
}

/// Whether each frame has taken no more steps than a page can.
pub open spec fn frames_wf(frames: Seq<Frame>) -> bool {
    &&& frames.len() <= MAX_DEPTH
    &&& forall|j: int| 0 <= j < frames.len() ==> (#[trigger] frames[j]).step <= MOST_STEPS
}

proof fn lemma_power_step(n: nat)
    ensures
        power(work_base(), n + 1) == work_base() * power(work_base(), n),
        power(work_base(), n) >= 1,
    decreases n,
{
    if n > 0 {
        lemma_power_step((n - 1) as nat);
        let p = power(work_base(), (n - 1) as nat) as int;
        assert(work_base() * p >= 1) by (nonlinear_arith)
            requires
                p >= 1,
                work_base() >= 1,
        ;
    }
}

/// Taking the last frame away leaves less work.
proof fn lemma_work_pop(frames: Seq<Frame>)
    requires
        frames_wf(frames),
        frames.len() > 0,
    ensures
        work(frames.drop_last()) < work(frames),
{
    lemma_power_step((MAX_DEPTH - frames.len()) as nat);
    let d = (MOST_STEPS + 1 - frames.last().step) as int;
    let p = power(work_base(), (MAX_DEPTH - frames.len()) as nat) as int;
    assert(d * p >= 1) by (nonlinear_arith)
        requires
            d >= 1,
            p >= 1,
    ;
}

/// A step in the last frame leaves less work, even where a new frame comes
/// above it.
proof fn lemma_work_step(frames: Seq<Frame>, child: Frame)
    requires
        frames_wf(frames),
        frames.len() > 0,
        frames.last().step < MOST_STEPS,
        child.step <= MOST_STEPS,
    ensures
        work(
            frames.drop_last().push(
                Frame { page_id: frames.last().page_id, step: (frames.last().step + 1) as usize },
            ),
        ) < work(frames),
        frames.len() < MAX_DEPTH ==> work(
            frames.drop_last().push(
                Frame { page_id: frames.last().page_id, step: (frames.last().step + 1) as usize },
            ).push(child),
        ) < work(frames),
{
    let top = Frame { page_id: frames.last().page_id, step: (frames.last().step + 1) as usize };
    let stepped = frames.drop_last().push(top);
    assert(stepped.drop_last() =~= frames.drop_last());
    assert(stepped.last() == top);
    let e = (MAX_DEPTH - frames.len()) as nat;
    lemma_power_step(e);
    let p = power(work_base(), e) as int;
    let d = (MOST_STEPS + 1 - frames.last().step) as int;
    assert((d - 1) * p == d * p - p) by (nonlinear_arith);
    assert(work(stepped) == work(frames) - p);
    if frames.len() < MAX_DEPTH {
        let grown = stepped.push(child);
        assert(grown.drop_last() =~= stepped);
        assert(grown.last() == child);
        let below = (e - 1) as nat;
        lemma_power_step(below);
        let q = power(work_base(), below) as int;
        let c = (MOST_STEPS + 1 - child.step) as int;
        assert(p == work_base() * q);
        assert(c * q < work_base() * q) by (nonlinear_arith)
            requires
                0 <= c < work_base(),
                q >= 1,
        ;
        assert(work(grown) == work(stepped) + c * q);
    }
}

/// Chaining is associative, and nothing chained before a walk changes
/// nothing.
proof fn lemma_chained<T>(
    a: core::result::Result<Seq<T>, DatabaseError>,
    b: core::result::Result<Seq<T>, DatabaseError>,
    c: core::result::Result<Seq<T>, DatabaseError>,
)
    ensures
        chained(chained(a, b), c) == chained(a, chained(b, c)),
        chained(Ok(Seq::<T>::empty()), b) == b,
{
    match (a, b, c) {
        (Ok(x), Ok(y), Ok(z)) => {
            assert((x + y) + z =~= x + (y + z));
        },
        _ => {},
    }
    match b {
        Ok(y) => {
            assert(Seq::<T>::empty() + y =~= y);
        },
        Err(_) => {},
    }
}

proof fn lemma_chained_joined<T>(
    s: Seq<T>,
    x: core::result::Result<Seq<T>, DatabaseError>,
    b: core::result::Result<Seq<T>, DatabaseError>,
)
    ensures
        chained(joined(s, x), b) == joined(s, chained(x, b)),
{
    match (x, b) {
        (Ok(y), Ok(z)) => {
            assert((s + y) + z =~= s + (y + z));
        },
        _ => {},
    }
}


/// A walk through a tree from its first entry to its last, which hands out
/// one entry at a time. It keeps its way from the root to where it is.
#[derive(Debug)]
pub struct Cursor<'a> {
    pub pager: &'a Pager,
    pub kind: TreeKind,
    pub stack: Vec<Frame>,
    /// The key of the entry that was handed out last.
    pub last_key: Option<i64>,
}

/// What one move of a walk comes to.
pub enum Step {
    /// An entry was reached.
    Entry(Entry),
    /// The walk went on to another page, or back to the one above.
    Moved,
    /// The walk is at its end.
    Done,
}

impl<'a> Cursor<'a> {
    /// Each frame has taken no more steps than a page can, and the way is
    /// no longer than a tree is deep.
    pub open spec fn wf(&self) -> bool {
        frames_wf(self.stack@)
    }

    /// What the walk still hands out; see [`remaining`].
    pub open spec fn rest(&self) -> core::result::Result<Seq<EntryView>, DatabaseError> {
        remaining(self.pager@, self.kind, self.stack@)
    }

    /// How deep the tree may be from the page of the last frame on.
    pub open spec fn depth(&self) -> nat {
        (MAX_DEPTH + 1 - self.stack@.len()) as nat
    }

    /// What the last frame still hands out.
    pub open spec fn top_rest(&self) -> core::result::Result<Seq<EntryView>, DatabaseError> {
        frame_rest(self.pager@, self.kind, self.stack@.last(), self.depth())
    }

    /// What the last frame hands out after one more step.
    pub open spec fn next_rest(&self) -> core::result::Result<Seq<EntryView>, DatabaseError> {
        frame_rest(
            self.pager@,
            self.kind,
            Frame {
                page_id: self.stack@.last().page_id,
                step: (self.stack@.last().step + 1) as usize,
            },
            self.depth(),
        )
    }

    /// A walk at the beginning of the tree that begins at the page `root`.
    /// The tag of that page says whether the tree is a table or an index; see
    /// [`tree_kind`]. The walk has all of the tree before it; see
    /// [`tree_entries`].
    pub fn open(pager: &'a Pager, root: PageId) -> (r: core::result::Result<
        Cursor<'a>,
        DatabaseError,
    >)
        ensures
            match r {
                Ok(c) => c.wf() && c.pager == pager && c.last_key is None && tree_kind(
                    pager@,
                    root as int,
                ) == Ok::<TreeKind, DatabaseError>(c.kind) && c.rest() == tree_entries(
                    pager@,
                    c.kind,
                    root as int,
                    MAX_DEPTH as nat,
                ),
                Err(e) => tree_kind(pager@, root as int) == Err::<TreeKind, DatabaseError>(e),
            },
    {
        match open_tree(pager, root) {
            Err(e) => Err(e),
            Ok(kind) => {
                let mut stack: Vec<Frame> = Vec::new();
                stack.push(Frame { page_id: root, step: 0 });
                proof {
                    reveal_with_fuel(remaining, 2);
                    lemma_fresh_frame(pager@, kind, root, MAX_DEPTH as nat);
                    assert(stack@.drop_last() =~= Seq::<Frame>::empty());
                    assert(stack@.last() == Frame { page_id: root, step: 0 });
                    assert(stack@.len() == 1);
                    assert(remaining(pager@, kind, Seq::<Frame>::empty()) == Ok::<
                        Seq<EntryView>,
                        DatabaseError,
                    >(Seq::<EntryView>::empty()));
                    let all = tree_entries(pager@, kind, root as int, MAX_DEPTH as nat);
                    match all {
                        Ok(es) => {
                            assert(es + Seq::<EntryView>::empty() =~= es);
                        },
                        Err(_) => {},
                    }
                }
                Ok(Cursor { pager, kind, stack, last_key: None })
            },
        }
    }

    /// The walk without its last frame: the page of that frame has nothing
    /// more to hand out.
    fn leave(&mut self)
        requires
            old(self).wf(),
            old(self).stack@.len() > 0,
            old(self).top_rest() == Ok::<Seq<EntryView>, DatabaseError>(Seq::<EntryView>::empty()),
        ensures
            final(self).wf(),
            final(self).pager == old(self).pager,
            final(self).kind == old(self).kind,
            final(self).last_key == old(self).last_key,
            final(self).rest() == old(self).rest(),
            work(final(self).stack@) < work(old(self).stack@),
    {
        proof {
            lemma_work_pop(self.stack@);
            lemma_chained(
                Ok::<Seq<EntryView>, DatabaseError>(Seq::<EntryView>::empty()),
                remaining(self.pager@, self.kind, self.stack@.drop_last()),
                Ok::<Seq<EntryView>, DatabaseError>(Seq::<EntryView>::empty()),
            );
        }
        let _ = self.stack.pop();
    }

    /// The walk with one more step taken in its last frame, which was a
    /// step down to `child`: the frame of the child comes above it. A tree
    /// that is deeper than a tree may be is a corruption.
    fn descend(&mut self, child: PageId) -> (r: bool)
        requires
            old(self).wf(),
            old(self).stack@.len() > 0,
            old(self).stack@.last().step < MOST_STEPS,
            old(self).top_rest() == chained(
                tree_entries(
                    old(self).pager@,
                    old(self).kind,
                    child as int,
                    (old(self).depth() - 1) as nat,
                ),
                old(self).next_rest(),
            ),
        ensures
            final(self).wf(),
            final(self).pager == old(self).pager,
            final(self).kind == old(self).kind,
            final(self).last_key == old(self).last_key,
            r ==> final(self).rest() == old(self).rest() && work(final(self).stack@) < work(
                old(self).stack@,
            ),
            !r ==> old(self).rest() == Err::<Seq<EntryView>, DatabaseError>(
                DatabaseError::Corruption,
            ),
    {
        let len: usize = self.stack.len();
        let top: Frame = self.stack[len - 1];
        let ghost frames = self.stack@;
        let ghost pv = self.pager@;
        let ghost depth = (MAX_DEPTH + 1 - len) as nat;
        let ghost below = remaining(pv, self.kind, frames.drop_last());
        let stepped: Frame = Frame { page_id: top.page_id, step: top.step + 1 };
        if len >= MAX_DEPTH as usize {
            return false;
        }
        self.stack[len - 1] = stepped;
        self.stack.push(Frame { page_id: child, step: 0 });
        proof {
            let grown = self.stack@;
            let middle = frames.drop_last().push(stepped);
            assert(grown =~= middle.push(Frame { page_id: child, step: 0 }));
            assert(grown.drop_last() =~= middle);
            assert(middle.drop_last() =~= frames.drop_last());
            assert(middle.last() == stepped);
            lemma_work_step(frames, Frame { page_id: child, step: 0 });
            lemma_fresh_frame(pv, self.kind, child, (depth - 1) as nat);
            lemma_chained(
                tree_entries(pv, self.kind, child as int, (depth - 1) as nat),
                frame_rest(pv, self.kind, stepped, depth),
                below,
            );
            assert(remaining(pv, self.kind, middle) == chained(
                frame_rest(pv, self.kind, stepped, depth),
                below,
            ));
            assert forall|j: int| 0 <= j < grown.len() implies (#[trigger] grown[j]).step
                <= MOST_STEPS by {
                if j < len - 1 {
                    assert(grown[j] == frames[j]);
                }
            }
        }
        true
    }

    /// The walk with one more step taken in its last frame, which handed
    /// out an entry.
    fn hand_out(&mut self, entry: &Entry)
        requires
            old(self).wf(),
            old(self).stack@.len() > 0,
            old(self).stack@.last().step < MOST_STEPS,
            old(self).top_rest() == joined(seq![entry@], old(self).next_rest()),
        ensures
            final(self).wf(),
            final(self).pager == old(self).pager,
            final(self).kind == old(self).kind,
            final(self).last_key == old(self).last_key,
            old(self).rest() == joined(seq![entry@], final(self).rest()),
            work(final(self).stack@) < work(old(self).stack@),
    {
        let len: usize = self.stack.len();
        let top: Frame = self.stack[len - 1];
        let ghost frames = self.stack@;
        let ghost pv = self.pager@;
        let ghost depth = (MAX_DEPTH + 1 - len) as nat;
        let ghost below = remaining(pv, self.kind, frames.drop_last());
        let stepped: Frame = Frame { page_id: top.page_id, step: top.step + 1 };
        self.stack[len - 1] = stepped;
        proof {
            let after = self.stack@;
            assert(after =~= frames.drop_last().push(stepped));
            assert(after.drop_last() =~= frames.drop_last());
            lemma_work_step(frames, Frame { page_id: 0, step: 0 });
            lemma_chained_joined(seq![entry@], frame_rest(pv, self.kind, stepped, depth), below);
        }
    }

    /// One move of the walk on a leaf.
    fn advance_leaf(&mut self, head: &Head<'a>) -> (r: core::result::Result<Step, DatabaseError>)
        requires
            old(self).wf(),
            old(self).stack@.len() > 0,
            head.leaf,
            head.n <= 65535,
            head.array + 2 * head.n <= head.area@.len(),
            page_head(
                old(self).pager@,
                old(self).kind,
                old(self).stack@.last().page_id as int,
            ) == Ok::<HeadView, DatabaseError>(head@),
        ensures
            final(self).wf(),
            final(self).pager == old(self).pager,
            final(self).kind == old(self).kind,
            final(self).last_key == old(self).last_key,
            match r {
                Ok(Step::Entry(e)) => old(self).rest() == joined(seq![e@], final(self).rest()) && work(
                    final(self).stack@,
                ) < work(old(self).stack@),
                Ok(Step::Moved) => final(self).rest() == old(self).rest() && work(
                    final(self).stack@,
                ) < work(old(self).stack@),
                Ok(Step::Done) => false,
                Err(e) => old(self).rest() == Err::<Seq<EntryView>, DatabaseError>(e),
            },
    {
        let len: usize = self.stack.len();
        let frame: Frame = self.stack[len - 1];
        proof {
            lemma_pow256_values();
            use_type_invariant(self.pager);
            let stepped = Frame { page_id: frame.page_id, step: (frame.step + 1) as usize };
            lemma_frame_rest(self.pager@, self.kind, frame, self.depth());
            lemma_frame_rest(self.pager@, self.kind, stepped, self.depth());
            lemma_leaf_step(self.pager@, self.kind, head@, frame.step as int);
        }
        if frame.step < head.n {
            assert(head.area.len() <= usize::MAX);
            let at: usize = read_be(head.area, head.array + 2 * frame.step, 2) as usize;
            match read_cell_entry(self.pager, self.kind, head.area, at) {
                Err(e) => Err(e),
                Ok(entry) => {
                    self.hand_out(&entry);
                    Ok(Step::Entry(entry))
                },
            }
        } else {
            self.leave();
            Ok(Step::Moved)
        }
    }

    /// A step down to the child of the cell `i` of an inner node.
    fn go_down(&mut self, head: &Head<'a>, i: usize) -> (r: core::result::Result<
        Step,
        DatabaseError,
    >)
        requires
            old(self).wf(),
            old(self).stack@.len() > 0,
            old(self).stack@.last().step < MOST_STEPS,
            i < head.n,
            head.array + 2 * head.n <= head.area@.len(),
            ({
                let at = cell_pointer(head.area@, head.array as int, i as int);
                old(self).top_rest() == if at + 4 > head.area@.len() {
                    Err::<Seq<EntryView>, DatabaseError>(DatabaseError::Corruption)
                } else {
                    chained(
                        tree_entries(
                            old(self).pager@,
                            old(self).kind,
                            be_value(head.area@.subrange(at, at + 4)),
                            (old(self).depth() - 1) as nat,
                        ),
                        old(self).next_rest(),
                    )
                }
            }),
        ensures
            final(self).wf(),
            final(self).pager == old(self).pager,
            final(self).kind == old(self).kind,
            final(self).last_key == old(self).last_key,
            match r {
                Ok(Step::Moved) => final(self).rest() == old(self).rest() && work(
                    final(self).stack@,
                ) < work(old(self).stack@),
                Ok(_) => false,
                Err(e) => old(self).rest() == Err::<Seq<EntryView>, DatabaseError>(e),
            },
    {
        proof {
            lemma_pow256_values();
        }
        let len: usize = head.area.len();
        let at: usize = read_be(head.area, head.array + 2 * i, 2) as usize;
        if at + 4 > len {
            return Err(DatabaseError::Corruption);
        }
        let child: PageId = read_be(head.area, at, 4) as PageId;
        if self.descend(child) {
            Ok(Step::Moved)
        } else {
            Err(DatabaseError::Corruption)
        }
    }

    /// A step that hands out the cell `i` of an inner node of an index.
    fn cell_out(&mut self, head: &Head<'a>, i: usize) -> (r: core::result::Result<
        Step,
        DatabaseError,
    >)
        requires
            old(self).wf(),
            old(self).stack@.len() > 0,
            old(self).stack@.last().step < MOST_STEPS,
            old(self).kind == TreeKind::Index,
            i < head.n,
            head.array + 2 * head.n <= head.area@.len(),
            ({
                let at = cell_pointer(head.area@, head.array as int, i as int);
                old(self).top_rest() == if at + 4 > head.area@.len() {
                    Err::<Seq<EntryView>, DatabaseError>(DatabaseError::Corruption)
                } else {
                    match cell_entry(old(self).pager@, TreeKind::Index, head.area@, at + 4) {
                        Err(e) => Err::<Seq<EntryView>, DatabaseError>(e),
                        Ok(entry) => joined(seq![entry], old(self).next_rest()),
                    }
                }
            }),
        ensures
            final(self).wf(),
            final(self).pager == old(self).pager,
            final(self).kind == old(self).kind,
            final(self).last_key == old(self).last_key,
            match r {
                Ok(Step::Entry(e)) => old(self).rest() == joined(seq![e@], final(self).rest()) && work(
                    final(self).stack@,
                ) < work(old(self).stack@),
                Ok(_) => false,
                Err(e) => old(self).rest() == Err::<Seq<EntryView>, DatabaseError>(e),
            },
    {
        proof {
            lemma_pow256_values();
            use_type_invariant(self.pager);
        }
        let len: usize = head.area.len();
        let at: usize = read_be(head.area, head.array + 2 * i, 2) as usize;
        if at + 4 > len {
            return Err(DatabaseError::Corruption);
        }
        match read_cell_entry(self.pager, self.kind, head.area, at + 4) {
            Err(e) => Err(e),
            Ok(entry) => {
                self.hand_out(&entry);
                Ok(Step::Entry(entry))
            },
        }
    }

    /// One move of the walk on an inner node.
    fn advance_interior(&mut self, head: &Head<'a>) -> (r: core::result::Result<
        Step,
        DatabaseError,
    >)
        requires
            old(self).wf(),
            old(self).stack@.len() > 0,
            !head.leaf,
            head.n <= 65535,
            head.array + 2 * head.n <= head.area@.len(),
            page_head(
                old(self).pager@,
                old(self).kind,
                old(self).stack@.last().page_id as int,
            ) == Ok::<HeadView, DatabaseError>(head@),
        ensures
            final(self).wf(),
            final(self).pager == old(self).pager,
            final(self).kind == old(self).kind,
            final(self).last_key == old(self).last_key,
            match r {
                Ok(Step::Entry(e)) => old(self).rest() == joined(seq![e@], final(self).rest()) && work(
                    final(self).stack@,
                ) < work(old(self).stack@),
                Ok(Step::Moved) => final(self).rest() == old(self).rest() && work(
                    final(self).stack@,
                ) < work(old(self).stack@),
                Ok(Step::Done) => false,
                Err(e) => old(self).rest() == Err::<Seq<EntryView>, DatabaseError>(e),
            },
    {
        let len: usize = self.stack.len();
        let frame: Frame = self.stack[len - 1];
        let ghost pv = self.pager@;
        let ghost below_depth = (self.depth() - 1) as nat;
        proof {
            let stepped = Frame { page_id: frame.page_id, step: (frame.step + 1) as usize };
            lemma_frame_rest(pv, self.kind, frame, self.depth());
            lemma_frame_rest(pv, self.kind, stepped, self.depth());
        }
        let table: bool = match self.kind {
            TreeKind::Table => true,
            TreeKind::Index => false,
        };
        let n: usize = head.n;
        let limit: usize = if table {
            n
        } else {
            2 * n
        };
        if frame.step > limit {
            proof {
                lemma_interior_done(pv, self.kind, head@, frame.step as int, below_depth);
            }
            self.leave();
            Ok(Step::Moved)
        } else if frame.step == limit {
            proof {
                lemma_interior_last(pv, self.kind, head@, frame.step as int, below_depth);
            }
            if self.descend(head.rightmost) {
                Ok(Step::Moved)
            } else {
                Err(DatabaseError::Corruption)
            }
        } else if table {
            proof {
                lemma_interior_down(
                    pv,
                    self.kind,
                    head@,
                    frame.step as int,
                    frame.step as int,
                    below_depth,
                );
            }
            self.go_down(head, frame.step)
        } else if frame.step % 2 == 0 {
            proof {
                lemma_interior_down(
                    pv,
                    self.kind,
                    head@,
                    frame.step as int,
                    frame.step as int / 2,
                    below_depth,
                );
            }
            self.go_down(head, frame.step / 2)
        } else {
            proof {
                lemma_interior_cell(
                    pv,
                    head@,
                    frame.step as int,
                    frame.step as int / 2,
                    below_depth,
                );
            }
            self.cell_out(head, frame.step / 2)
        }
    }

    /// One move of the walk: a step in the page where it is, or the way
    /// back to the page above.
    fn advance(&mut self) -> (r: core::result::Result<Step, DatabaseError>)
        requires
            old(self).wf(),
        ensures
            final(self).wf(),
            final(self).pager == old(self).pager,
            final(self).kind == old(self).kind,
            final(self).last_key == old(self).last_key,
            match r {
                Ok(Step::Entry(e)) => old(self).rest() == joined(seq![e@], final(self).rest()) && work(
                    final(self).stack@,
                ) < work(old(self).stack@),
                Ok(Step::Moved) => final(self).rest() == old(self).rest() && work(
                    final(self).stack@,
                ) < work(old(self).stack@),
                Ok(Step::Done) => old(self).stack@.len() == 0 && final(self).stack@ == old(
                    self,
                ).stack@,
                Err(e) => old(self).rest() == Err::<Seq<EntryView>, DatabaseError>(e),
            },
    {
        let len: usize = self.stack.len();
        if len == 0 {
            return Ok(Step::Done);
        }
        let frame: Frame = self.stack[len - 1];
        let head: Head<'a> = match read_head(self.pager, self.kind, frame.page_id) {
            Err(e) => {
                proof {
                    lemma_frame_rest(self.pager@, self.kind, frame, self.depth());
                }
                return Err(e);
            },
            Ok(h) => h,
        };
        if head.leaf {
            self.advance_leaf(&head)
        } else {
            self.advance_interior(&head)
        }
    }

    /// Whether the walk is well formed; see [`Cursor::wf`].
    fn well_formed(&self) -> (r: bool)
        ensures
            r == self.wf(),
    {
        if self.stack.len() > MAX_DEPTH as usize {
            return false;
        }
        let mut j: usize = 0;
        while j < self.stack.len()
            invariant
                j <= self.stack@.len(),
                self.stack@.len() <= MAX_DEPTH,
                forall|k: int| 0 <= k < j ==> (#[trigger] self.stack@[k]).step <= MOST_STEPS,
            decreases self.stack@.len() - j,
        {
            if self.stack[j].step > MOST_STEPS {
                return false;
            }
            j = j + 1;
        }
        true
    }

    /// The next entry of the walk, or `None` at its end. What the walk had
    /// before it is the entry followed by what it has before it now. The rows
    /// of a table must come in the order of their numbers, each greater than
    /// the one before: a row that does not is a corruption. A walk that is
    /// not well formed, as none is that was opened and left alone, hands out
    /// nothing.
    pub fn next(&mut self) -> (r: core::result::Result<Option<Entry>, DatabaseError>)
        ensures
            final(self).pager == old(self).pager,
            final(self).kind == old(self).kind,
            !old(self).wf() ==> r == Err::<Option<Entry>, DatabaseError>(DatabaseError::Corruption)
                && *final(self) == *old(self),
            old(self).wf() ==> final(self).wf() && match r {
                Ok(Some(e)) => {
                    &&& old(self).rest() == joined(seq![e@], final(self).rest())
                    &&& work(final(self).stack@) < work(old(self).stack@)
                    &&& final(self).last_key == Some(e.key)
                    &&& old(self).kind == TreeKind::Table && old(self).last_key is Some ==> old(
                        self,
                    ).last_key->0 < e.key
                },
                Ok(None) => {
                    &&& old(self).rest() == Ok::<Seq<EntryView>, DatabaseError>(
                        Seq::<EntryView>::empty(),
                    )
                    &&& final(self).rest() == old(self).rest()
                    &&& final(self).last_key == old(self).last_key
                },
                Err(e) => {
                    ||| old(self).rest() == Err::<Seq<EntryView>, DatabaseError>(e)
                    ||| {
                        &&& e == DatabaseError::Corruption
                        &&& old(self).kind == TreeKind::Table
                        &&& old(self).last_key is Some
                        &&& exists|entry: EntryView, rest: core::result::Result<
                            Seq<EntryView>,
                            DatabaseError,
                        >|
                            old(self).rest() == joined(seq![entry], rest) && entry.key <= old(
                                self,
                            ).last_key->0
                    }
                },
            },
    {
        if !self.well_formed() {
            return Err(DatabaseError::Corruption);
        }
        loop
            invariant
                self.wf(),
                old(self).wf(),
                self.pager == old(self).pager,
                self.kind == old(self).kind,
                self.last_key == old(self).last_key,
                self.rest() == old(self).rest(),
                work(self.stack@) <= work(old(self).stack@),
            decreases work(self.stack@),
        {
            match self.advance() {
                Err(e) => {
                    return Err(e);
                },
                Ok(Step::Done) => {
                    return Ok(None);
                },
                Ok(Step::Moved) => {},
                Ok(Step::Entry(entry)) => {
                    let table: bool = match self.kind {
                        TreeKind::Table => true,
                        TreeKind::Index => false,
                    };
                    if table {
                        match self.last_key {
                            Some(last) => {
                                if entry.key <= last {
                                    return Err(DatabaseError::Corruption);
                                }
                            },
                            None => {},
                        }
                    }
                    self.last_key = Some(entry.key);
                    return Ok(Some(entry));
                },
            }
        }
    }
}

/// A walk that is to begin at a page that the file ends before has a
/// failure before it, and no entry: an input error.
pub proof fn lemma_truncated_walk(pv: PagerView, kind: TreeKind, root: PageId)
    requires
        pv.wf(),
        1 <= root <= pv.n_pages,
        pv.file.len() < root * pv.pagesize,
    ensures
        remaining(pv, kind, seq![Frame { page_id: root, step: 0 }]) == Err::<
            Seq<EntryView>,
            DatabaseError,
        >(DatabaseError::Io),
{
    let frames = seq![Frame { page_id: root, step: 0 }];
    assert(frames.last() == Frame { page_id: root, step: 0 });
    lemma_fresh_frame(pv, kind, root, MAX_DEPTH as nat);
    lemma_truncated_root(pv, kind, root as int, 0);
    reveal(page_head);
    reveal_with_fuel(tree_entries, 2);
}

} // verus!
