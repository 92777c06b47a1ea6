//! The animation store: an ordered sequence of text frames, a playback
//! cursor, and a playback interval, together with the editing and
//! advancement operations and their invariants.
//!
//! Index errors are reported, never ignored: every operation that takes a
//! position returns a `Result`, and an out-of-range position leaves the
//! store unchanged.  The cursor is not index-stable across `insert_frame`
//! and `move_frame`: those operations shift frames without touching the
//! cursor, so the cursor may afterwards denote a different frame (it always
//! stays in bounds).

use vstd::prelude::*;

verus! {

/// Why an operation on the store was refused.
#[derive(Clone, Copy, Debug, PartialEq, Eq, Structural)]
pub enum AnimError {
    /// A position argument (or a loaded cursor) is outside the valid bound.
    IndexOutOfRange,
    /// The operation needs at least one frame and none is there.
    EmptyAnimation,
    /// A persisted text is not readable in the persisted encoding.
    MalformedData,
    /// A persisted text is readable but a required field is absent or of
    /// the wrong shape.
    SchemaMismatch,
    /// A speed that is not a positive number of milliseconds.
    InvalidSpeed,
}

/// One rendered state of the animation: an ordered sequence of text lines.
pub struct Frame {
    pub content: Vec<String>,
}

impl View for Frame {
    type V = Seq<Seq<char>>;

    open spec fn view(&self) -> Seq<Seq<char>> {
        self.content.deep_view()
    }
}

impl Frame {
    /// A frame with no lines yet.
    pub fn new() -> (r: Frame)
        ensures
            r@ == Seq::<Seq<char>>::empty(),
    {
        let f = Frame { content: Vec::new() };
        proof {
            assert(f@ =~= Seq::<Seq<char>>::empty());
        }
        f
    }

    /// The number of lines.
    pub fn line_count(&self) -> (n: usize)
        ensures
            n == self@.len(),
    {
        self.content.len()
    }

    /// Appends one line at the bottom of the frame.
    pub fn add_line(&mut self, line: String)
        ensures
            final(self)@ == old(self)@.push(line@),
    {
        self.content.push(line);
        proof {
            assert(self@ =~= old(self)@.push(line@));
        }
    }

    /// Replaces the line at `index`; an out-of-range `index` is refused and
    /// the frame is unchanged.
    pub fn replace_line(&mut self, index: usize, line: String) -> (r: Result<(), AnimError>)
        ensures
            r is Ok <==> index < old(self)@.len(),
            r is Ok ==> final(self)@ == old(self)@.update(index as int, line@),
            r is Err ==> *final(self) == *old(self) && r == Err::<(), AnimError>(
                AnimError::IndexOutOfRange,
            ),
    {
        if index < self.content.len() {
            self.content.set(index, line);
            proof {
                assert(self@ =~= old(self)@.update(index as int, line@));
            }
            Ok(())
        } else {
            Err(AnimError::IndexOutOfRange)
        }
    }

    /// Removes the line at `index`; an out-of-range `index` is refused and
    /// the frame is unchanged.
    pub fn remove_line(&mut self, index: usize) -> (r: Result<(), AnimError>)
        ensures
            r is Ok <==> index < old(self)@.len(),
            r is Ok ==> final(self)@ == old(self)@.remove(index as int),
            r is Err ==> *final(self) == *old(self) && r == Err::<(), AnimError>(
                AnimError::IndexOutOfRange,
            ),
    {
        if index < self.content.len() {
            self.content.remove(index);
            proof {
                assert(self@ =~= old(self)@.remove(index as int));
            }
            Ok(())
        } else {
            Err(AnimError::IndexOutOfRange)
        }
    }

    /// An exact copy of the frame.
    pub fn duplicate(&self) -> (r: Frame)
        ensures
            r@ == self@,
    {
        let mut out: Vec<String> = Vec::new();
        let mut i: usize = 0;
        while i < self.content.len()
            invariant
                i <= self.content.len(),
                out@ == self.content@.subrange(0, i as int),
            decreases self.content.len() - i,
        {
            out.push(self.content[i].clone());
            proof {
                assert(out@ =~= self.content@.subrange(0, i as int + 1));
            }
            i = i + 1;
        }
        let f = Frame { content: out };
        proof {
            assert(out@ =~= self.content@);
            assert(f@ =~= self@);
        }
        f
    }
}

/// The view of a frame sequence, frame by frame.
pub open spec fn frames_view(fs: Seq<Frame>) -> Seq<Seq<Seq<char>>> {
    fs.map_values(|f: Frame| f@)
}

/// The mathematical model of an [`Animation`]: the frame lines, the
/// playback cursor, and the inter-frame delay in milliseconds.
pub struct AnimModel {
    pub frames: Seq<Seq<Seq<char>>>,
    pub cursor: nat,
    pub speed: nat,
}

/// The store's invariant: the delay is positive and the cursor stays
/// inside the frame sequence (it rests at zero while no frame exists).
pub open spec fn wf_model(m: AnimModel) -> bool {
    &&& m.speed >= 1
    &&& if m.frames.len() == 0 {
        m.cursor == 0
    } else {
        m.cursor < m.frames.len()
    }
}

/// An ordered sequence of frames with a playback cursor and a speed.
pub struct Animation {
    pub frames: Vec<Frame>,
    pub current_frame: usize,
    pub speed: u64,
}

impl View for Animation {
    type V = AnimModel;

    open spec fn view(&self) -> AnimModel {
        AnimModel {
            frames: frames_view(self.frames@),
            cursor: self.current_frame as nat,
            speed: self.speed as nat,
        }
    }
}

impl Animation {
    /// The store's invariant, on the concrete value.
    pub open spec fn wf(&self) -> bool {
        wf_model(self@)
    }

    /// A fresh store: no frames, cursor at zero, a default delay of 500 ms.
    pub fn new() -> (r: Animation)
        ensures
            r@.frames == Seq::<Seq<Seq<char>>>::empty(),
            r@.cursor == 0,
            r@.speed == 500,
            r.wf(),
    {
        let a = Animation { frames: Vec::new(), current_frame: 0, speed: 500 };
        proof {
            assert(a@.frames =~= Seq::<Seq<Seq<char>>>::empty());
        }
        a
    }

    /// The store's construction path after a load: takes the decoded
    /// parts and re-validates them, since a persisted text may encode a
    /// state that breaks the invariant.  A zero speed or a cursor outside
    /// the loaded frames is refused; a caller that prefers to repair such
    /// a value instead may do so before calling here.
    pub fn from_loaded(frames: Vec<Frame>, cursor: usize, speed: u64) -> (r: Result<
        Animation,
        AnimError,
    >)
        ensures
            ({
                let m = AnimModel {
                    frames: frames_view(frames@),
                    cursor: cursor as nat,
                    speed: speed as nat,
                };
                if wf_model(m) {
                    r matches Ok(a) && a@ == m && a.wf()
                } else if speed == 0 {
                    r == Err::<Animation, AnimError>(AnimError::InvalidSpeed)
                } else {
                    r == Err::<Animation, AnimError>(AnimError::IndexOutOfRange)
                }
            }),
    {
        if speed == 0 {
            return Err(AnimError::InvalidSpeed);
        }
        if frames.len() == 0 {
            if cursor != 0 {
                return Err(AnimError::IndexOutOfRange);
            }
        } else {
            if cursor >= frames.len() {
                return Err(AnimError::IndexOutOfRange);
            }
        }
        Ok(Animation { frames, current_frame: cursor, speed })
    }

    /// The number of frames.
    pub fn frame_count(&self) -> (n: usize)
        ensures
            n == self@.frames.len(),
    {
        self.frames.len()
    }

    /// The playback cursor.
    pub fn cursor(&self) -> (c: usize)
        ensures
            c == self@.cursor,
    {
        self.current_frame
    }

    /// The inter-frame delay in milliseconds.
    pub fn speed_ms(&self) -> (s: u64)
        ensures
            s == self@.speed,
    {
        self.speed
    }

    /// Appends `frame` at the end; the cursor and the speed are unchanged.
    pub fn add_frame(&mut self, frame: Frame)
        requires
            old(self).wf(),
        ensures
            final(self)@.frames == old(self)@.frames.push(frame@),
            final(self)@.cursor == old(self)@.cursor,
            final(self)@.speed == old(self)@.speed,
            final(self).wf(),
    {
        self.frames.push(frame);
        proof {
            assert(self@.frames =~= old(self)@.frames.push(frame@));
        }
    }

    /// A copy of the frame at `index`; an out-of-range `index` is refused.
    pub fn get_frame(&self, index: usize) -> (r: Result<Frame, AnimError>)
        ensures
            r is Ok <==> index < self@.frames.len(),
            r is Ok ==> r->Ok_0@ == self@.frames[index as int],
            r is Err ==> r == Err::<Frame, AnimError>(AnimError::IndexOutOfRange),
    {
        if index < self.frames.len() {
            Ok(self.frames[index].duplicate())
        } else {
            Err(AnimError::IndexOutOfRange)
        }
    }

    /// Replaces the frame at `index`; an out-of-range `index` is refused
    /// and the store is unchanged.
    pub fn set_frame(&mut self, index: usize, frame: Frame) -> (r: Result<(), AnimError>)
        requires
            old(self).wf(),
        ensures
            r is Ok <==> index < old(self)@.frames.len(),
            r is Ok ==> final(self)@.frames == old(self)@.frames.update(index as int, frame@),
            r is Err ==> final(self)@ == old(self)@ && r == Err::<(), AnimError>(
                AnimError::IndexOutOfRange,
            ),
            final(self)@.cursor == old(self)@.cursor,
            final(self)@.speed == old(self)@.speed,
            final(self).wf(),
    {
        if index < self.frames.len() {
            self.frames.set(index, frame);
            proof {
                assert(self@.frames =~= old(self)@.frames.update(index as int, frame@));
            }
            Ok(())
        } else {
            Err(AnimError::IndexOutOfRange)
        }
    }

    /// Inserts `frame` so that it occupies position `index`, shifting the
    /// frames at and after `index` one place towards the end.  A position
    /// past the end (`index > frame_count()`) is refused and the store is
    /// unchanged.  The cursor is left as it is, so after an insertion at or
    /// before it the cursor denotes the frame one place later in the shown
    /// order.
    pub fn insert_frame(&mut self, index: usize, frame: Frame) -> (r: Result<(), AnimError>)
        requires
            old(self).wf(),
        ensures
            r is Ok <==> index <= old(self)@.frames.len(),
            r is Ok ==> final(self)@.frames == old(self)@.frames.insert(index as int, frame@),
            r is Err ==> final(self)@ == old(self)@ && r == Err::<(), AnimError>(
                AnimError::IndexOutOfRange,
            ),
            final(self)@.cursor == old(self)@.cursor,
            final(self)@.speed == old(self)@.speed,
            final(self).wf(),
    {
        if index <= self.frames.len() {
            self.frames.insert(index, frame);
            proof {
                assert(self@.frames =~= old(self)@.frames.insert(index as int, frame@));
            }
            Ok(())
        } else {
            Err(AnimError::IndexOutOfRange)
        }
    }

    /// Removes the frame at `index`.  An out-of-range `index` is refused.
    /// A removal that would leave no frame at all is a no-op, not an error:
    /// the store never loses its last frame this way.  After a removal the
    /// cursor is clamped to the last remaining position, so it stays valid.
    pub fn delete_frame(&mut self, index: usize) -> (r: Result<(), AnimError>)
        requires
            old(self).wf(),
        ensures
            r is Ok <==> index < old(self)@.frames.len(),
            r is Err ==> final(self)@ == old(self)@ && r == Err::<(), AnimError>(
                AnimError::IndexOutOfRange,
            ),
            r is Ok && old(self)@.frames.len() == 1 ==> final(self)@ == old(self)@,
            r is Ok && old(self)@.frames.len() > 1 ==> {
                &&& final(self)@.frames == old(self)@.frames.remove(index as int)
                &&& final(self)@.cursor == if old(self)@.cursor <= old(self)@.frames.len() - 2 {
                    old(self)@.cursor
                } else {
                    (old(self)@.frames.len() - 2) as nat
                }
            },
            final(self)@.speed == old(self)@.speed,
            old(self)@.frames.len() >= 1 ==> final(self)@.frames.len() >= 1,
            final(self).wf(),
    {
        if index >= self.frames.len() {
            return Err(AnimError::IndexOutOfRange);
        }
        if self.frames.len() > 1 {
            self.frames.remove(index);
            let last = self.frames.len() - 1;
            if self.current_frame > last {
                self.current_frame = last;
            }
            proof {
                assert(self@.frames =~= old(self)@.frames.remove(index as int));
            }
        }
        Ok(())
    }

    /// Removes the frame the cursor denotes, with [`Self::delete_frame`]'s
    /// clamping and last-frame no-op behaviour.
    pub fn delete_current(&mut self) -> (r: Result<(), AnimError>)
        requires
            old(self).wf(),
        ensures
            r is Ok <==> old(self)@.frames.len() >= 1,
            r is Err ==> final(self)@ == old(self)@ && r == Err::<(), AnimError>(
                AnimError::IndexOutOfRange,
            ),
            r is Ok && old(self)@.frames.len() == 1 ==> final(self)@ == old(self)@,
            r is Ok && old(self)@.frames.len() > 1 ==> {
                &&& final(self)@.frames == old(self)@.frames.remove(old(self)@.cursor as int)
                &&& final(self)@.cursor == if old(self)@.cursor <= old(self)@.frames.len() - 2 {
                    old(self)@.cursor
                } else {
                    (old(self)@.frames.len() - 2) as nat
                }
            },
            final(self)@.speed == old(self)@.speed,
            final(self).wf(),
    {
        let i = self.current_frame;
        self.delete_frame(i)
    }

    /// Relocates the frame at `from` to occupy position `to`: the frame is
    /// taken out and re-inserted, shifting the frames between the two
    /// positions (no swap).  Either position out of range is refused and
    /// the store is unchanged.  The cursor is left as it is.
    pub fn move_frame(&mut self, from: usize, to: usize) -> (r: Result<(), AnimError>)
        requires
            old(self).wf(),
        ensures
            r is Ok <==> from < old(self)@.frames.len() && to < old(self)@.frames.len(),
            r is Ok ==> final(self)@.frames == old(self)@.frames.remove(from as int).insert(
                to as int,
                old(self)@.frames[from as int],
            ),
            r is Err ==> final(self)@ == old(self)@ && r == Err::<(), AnimError>(
                AnimError::IndexOutOfRange,
            ),
            final(self)@.cursor == old(self)@.cursor,
            final(self)@.speed == old(self)@.speed,
            final(self)@.frames.len() == old(self)@.frames.len(),
            final(self).wf(),
    {
        if from < self.frames.len() && to < self.frames.len() {
            let frame = self.frames.remove(from);
            self.frames.insert(to, frame);
            proof {
                assert(self@.frames =~= old(self)@.frames.remove(from as int).insert(
                    to as int,
                    old(self)@.frames[from as int],
                ));
            }
            Ok(())
        } else {
            Err(AnimError::IndexOutOfRange)
        }
    }

    /// Returns a copy of the frame the cursor denotes, then advances the
    /// cursor one place, wrapping to the first frame after the last: called
    /// repeatedly this walks the frames cyclically in their stored order.
    /// On a store without frames the call is refused.
    pub fn next_frame(&mut self) -> (r: Result<Frame, AnimError>)
        requires
            old(self).wf(),
        ensures
            r is Ok <==> old(self)@.frames.len() >= 1,
            r is Ok ==> {
                &&& r->Ok_0@ == old(self)@.frames[old(self)@.cursor as int]
                &&& final(self)@.cursor == (old(self)@.cursor + 1) % old(self)@.frames.len()
            },
            r is Err ==> final(self)@ == old(self)@ && r == Err::<Frame, AnimError>(
                AnimError::EmptyAnimation,
            ),
            final(self)@.frames == old(self)@.frames,
            final(self)@.speed == old(self)@.speed,
            final(self).wf(),
    {
        if self.frames.len() == 0 {
            return Err(AnimError::EmptyAnimation);
        }
        let frame = self.frames[self.current_frame].duplicate();
        self.current_frame = (self.current_frame + 1) % self.frames.len();
        Ok(frame)
    }

    /// A copy of the frame the cursor denotes, without advancing.
    pub fn peek_current(&self) -> (r: Result<Frame, AnimError>)
        requires
            self.wf(),
        ensures
            r is Ok <==> self@.frames.len() >= 1,
            r is Ok ==> r->Ok_0@ == self@.frames[self@.cursor as int],
            r is Err ==> r == Err::<Frame, AnimError>(AnimError::EmptyAnimation),
    {
        if self.frames.len() == 0 {
            return Err(AnimError::EmptyAnimation);
        }
        Ok(self.frames[self.current_frame].duplicate())
    }

    /// Replaces the delay between frames.  A value below one millisecond is
    /// refused and the speed is unchanged.
    pub fn set_speed(&mut self, value: i64) -> (r: Result<(), AnimError>)
        requires
            old(self).wf(),
        ensures
            r is Ok <==> value >= 1,
            r is Ok ==> final(self)@.speed == value,
            r is Err ==> final(self)@ == old(self)@ && r == Err::<(), AnimError>(
                AnimError::InvalidSpeed,
            ),
            final(self)@.frames == old(self)@.frames,
            final(self)@.cursor == old(self)@.cursor,
            final(self).wf(),
    {
        if value >= 1 {
            self.speed = value as u64;
            Ok(())
        } else {
            Err(AnimError::InvalidSpeed)
        }
    }
}

/// The cursor after `k` calls of `next_frame` on a store of `n` frames
/// whose frame sequence is not otherwise mutated, starting from cursor
/// `c`: each call moves the cursor one step, wrapping at `n`, exactly as
/// `next_frame`'s contract states.
pub open spec fn cursor_after_calls(c: nat, n: nat, k: nat) -> nat
    decreases k,
{
    if k == 0 {
        c
    } else {
        (cursor_after_calls(c, n, (k - 1) as nat) + 1) % n
    }
}

proof fn lemma_cursor_after_calls_closed(c: nat, n: nat, k: nat)
    requires
        1 <= n,
        c < n,
    ensures
        cursor_after_calls(c, n, k) == (c + k) % n,
    decreases k,
{
    if k == 0 {
        vstd::arithmetic::div_mod::lemma_small_mod(c, n);
    } else {
        lemma_cursor_after_calls_closed(c, n, (k - 1) as nat);
        lemma_cyclic_advancement(c, n, (k - 1) as nat);
    }
}

/// Cyclic advancement law, over a whole run.  On a store of `n >= 1`
/// frames with start cursor `c`, `next_frame`'s contract says that call
/// number `k + 1` returns `frames[cursor_after_calls(c, n, k)]` and leaves
/// the cursor at `cursor_after_calls(c, n, k + 1)`.  This lemma pins that
/// walk down as one statement: the walk starts at `c`, within the first
/// `n` calls it follows the closed form `(c + k) % n` and stays in bounds,
/// no position repeats — each of the `n` frames is returned exactly once,
/// in stored order starting at `c` — and after exactly `n` calls the
/// cursor stands at `c` again.
pub proof fn lemma_cyclic_cycle(c: nat, n: nat)
    requires
        1 <= n,
        c < n,
    ensures
        cursor_after_calls(c, n, 0) == c,
        forall|k: nat|
            k < n ==> #[trigger] cursor_after_calls(c, n, k) == (c + k) % n
                && cursor_after_calls(c, n, k) < n,
        cursor_after_calls(c, n, n) == c,
        forall|k1: nat, k2: nat|
            k1 < k2 < n ==> #[trigger] cursor_after_calls(c, n, k1) != #[trigger] cursor_after_calls(
                c,
                n,
                k2,
            ),
{
    assert forall|k: nat|
        k < n implies #[trigger] cursor_after_calls(c, n, k) == (c + k) % n
        && cursor_after_calls(c, n, k) < n by {
        lemma_cursor_after_calls_closed(c, n, k);
        lemma_cyclic_advancement(c, n, k);
    }
    lemma_cursor_after_calls_closed(c, n, n);
    lemma_cyclic_advancement(c, n, n);
    assert forall|k1: nat, k2: nat|
        k1 < k2 < n implies #[trigger] cursor_after_calls(c, n, k1)
        != #[trigger] cursor_after_calls(c, n, k2) by {
        lemma_cursor_after_calls_closed(c, n, k1);
        lemma_cursor_after_calls_closed(c, n, k2);
        lemma_cyclic_distinct(c, n, k1, k2);
    }
}

/// Cyclic advancement law, step by step.  `next_frame` returns the frame
/// at the cursor and moves the cursor to `(cursor + 1) % n`, so after `k`
/// calls from cursor `c` the cursor stands at `(c + k) % n`, and call `k`
/// returned `frames[(c + k) % n]`.  This lemma states what that walk does:
/// the start is `c`, every visited position is in bounds, each step
/// follows the advancement formula, and after exactly `n` calls the cursor
/// is back at `c` — the walk is one full cycle.
pub proof fn lemma_cyclic_advancement(c: nat, n: nat, k: nat)
    requires
        1 <= n,
        c < n,
    ensures
        (c + 0) % n == c,
        (c + k) % n < n,
        ((c + k) % n + 1) % n == (c + (k + 1)) % n,
        (c + n) % n == c,
{
    vstd::arithmetic::div_mod::lemma_small_mod(c, n);
    vstd::arithmetic::div_mod::lemma_mod_bound((c + k) as int, n as int);
    vstd::arithmetic::div_mod::lemma_add_mod_noop((c + k) as int, 1, n as int);
    vstd::arithmetic::div_mod::lemma_mod_twice((c + k) as int, n as int);
    if n == 1 {
        vstd::arithmetic::div_mod::lemma_mod_self_0(1);
    } else {
        vstd::arithmetic::div_mod::lemma_small_mod(1, n);
    }
    vstd::arithmetic::div_mod::lemma_mod_multiples_vanish(1, c as int, n as int);
}

/// Cyclic advancement law, distinctness.  Within one cycle of `n` calls
/// the walk of the cursor never visits a position twice: with the step
/// lemma above, each of the `n` frames is returned exactly once, in stored
/// order starting at the initial cursor.
pub proof fn lemma_cyclic_distinct(c: nat, n: nat, k1: nat, k2: nat)
    requires
        1 <= n,
        c < n,
        k1 < k2 < n,
    ensures
        (c + k1) % n != (c + k2) % n,
{
    let r1 = (c + k1) % n;
    let d = (k2 - k1) as nat;
    vstd::arithmetic::div_mod::lemma_mod_bound((c + k1) as int, n as int);
    vstd::arithmetic::div_mod::lemma_add_mod_noop((c + k1) as int, d as int, n as int);
    vstd::arithmetic::div_mod::lemma_small_mod(d, n);
    vstd::arithmetic::div_mod::lemma_mod_twice((c + k1) as int, n as int);
    assert((c + k2) % n == (r1 + d) % n);
    if r1 + d < n {
        vstd::arithmetic::div_mod::lemma_small_mod((r1 + d) as nat, n);
        assert((c + k2) % n == r1 + d);
    } else {
        vstd::arithmetic::div_mod::lemma_mod_multiples_vanish(1, (r1 + d - n) as int, n as int);
        vstd::arithmetic::div_mod::lemma_small_mod((r1 + d - n) as nat, n);
        assert((c + k2) % n == r1 + d - n);
    }
}

} // verus!
