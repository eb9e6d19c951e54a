//! The steps that the render loop takes on each buffer the device asks for:
//! pick up the newest synthesis function, apply the key events that arrived,
//! then fill the buffer frame by frame, one synthesised value per frame copied
//! to every channel.
//!
//! Time is kept as a frame count. The elapsed time of a frame is its index
//! divided by the sample rate, so it does not drift however many buffers
//! have been rendered.

use vstd::prelude::*;
use crate::keys::{KeyAction, KeysState, active_of, replay};

verus! {

/// The function in use after `arrivals` came in while `current` was in use:
/// the last one to arrive, or `current` if none did.
pub open spec fn latest<F>(current: F, arrivals: Seq<F>) -> F {
    if arrivals.len() == 0 {
        current
    } else {
        arrivals.last()
    }
}

/// Settles which synthesis function renders the next buffer, given those that
/// arrived, in order, since the last one; the others are dropped.
pub fn install_latest<F>(current: &mut F, arrivals: Vec<F>)
    ensures
        *final(current) == latest(*old(current), arrivals@),
{
    let mut arrivals = arrivals;
    match arrivals.pop() {
        Some(f) => {
            *current = f;
        },
        None => {},
    }
}

/// Replacements that arrive over several ticks leave the same function in use
/// as if they had all arrived before the last tick: the last one sent wins,
/// and a tick with no arrivals keeps the function in use.
pub proof fn lemma_latest_over_ticks<F>(current: F, first: Seq<F>, second: Seq<F>)
    ensures
        latest(latest(current, first), second) == latest(current, first + second),
        latest(current, Seq::<F>::empty()) == current,
{
    if second.len() > 0 {
        assert((first + second).last() == second.last());
    } else {
        assert(first + second =~= first);
    }
}

/// Number of frames in an interleaved buffer of `len` samples: a short last
/// frame counts as one.
pub open spec fn frames_of(len: int, channels: int) -> int {
    len / channels + if len % channels == 0 { 0int } else { 1int }
}

/// The frame that sample `i` of an interleaved buffer belongs to.
pub open spec fn frame_of(i: int, channels: int) -> int {
    i / channels
}

proof fn lemma_in_frame(i: int, q: int, ch: int)
    requires
        ch > 0,
        q * ch <= i < q * ch + ch,
    ensures
        i / ch == q,
        i % ch == i - q * ch,
{
    vstd::arithmetic::div_mod::lemma_fundamental_div_mod_converse(i, ch, q, i - q * ch);
}

/// What the render loop knows between buffers.
pub struct RenderModel {
    pub held: Seq<i32>,
    pub frame: int,
    pub sample_rate: int,
    pub channels: int,
}

/// The render loop's own state: the keys held, the index of the next frame,
/// and the device's sample rate and channel count.
pub struct Renderer {
    keys: KeysState,
    frame: u64,
    sample_rate: u32,
    channels: u16,
}

impl View for Renderer {
    type V = RenderModel;

    closed spec fn view(&self) -> RenderModel {
        RenderModel {
            held: self.keys@,
            frame: self.frame as int,
            sample_rate: self.sample_rate as int,
            channels: self.channels as int,
        }
    }
}

/// The frame clock advances by exactly one per frame with no gap or repeat:
/// within a buffer the first frame has offset zero and each frame's offset is
/// one more than the one before, and the last frame's offset is one less
/// than the number of frames, which is what the next buffer starts from.
pub proof fn lemma_frame_clock_steady(len: int, ch: int, i: int)
    requires
        ch > 0,
        0 < len,
        0 <= i,
    ensures
        frame_of(0, ch) == 0,
        frame_of(i + ch, ch) == frame_of(i, ch) + 1,
        frame_of(len - 1, ch) + 1 == frames_of(len, ch),
{
    vstd::arithmetic::div_mod::lemma_fundamental_div_mod(i, ch);
    vstd::arithmetic::div_mod::lemma_mod_pos_bound(i, ch);
    let q = i / ch;
    assert(q * ch <= i < q * ch + ch) by (nonlinear_arith)
        requires
            i == ch * q + i % ch,
            0 <= i % ch < ch,
    ;
    assert((q + 1) * ch == q * ch + ch) by (nonlinear_arith);
    lemma_in_frame(i + ch, q + 1, ch);
    lemma_in_frame(0, 0, ch);
    let p = (len - 1) / ch;
    vstd::arithmetic::div_mod::lemma_fundamental_div_mod(len - 1, ch);
    vstd::arithmetic::div_mod::lemma_mod_pos_bound(len - 1, ch);
    assert(p * ch <= len - 1 < p * ch + ch) by (nonlinear_arith)
        requires
            len - 1 == ch * p + (len - 1) % ch,
            0 <= (len - 1) % ch < ch,
    ;
    if len - p * ch < ch {
        lemma_in_frame(len, p, ch);
    } else {
        assert((p + 1) * ch == p * ch + ch) by (nonlinear_arith);
        lemma_in_frame(len, p + 1, ch);
    }
}

/// `v` is a value that a synthesis function of type `F` may return for the
/// frame with index `frame` while `note` sounds.
pub open spec fn may_produce<T, F: FnMut(u64, Option<i32>) -> T>(
    frame: u64,
    note: Option<i32>,
    v: T,
) -> bool {
    exists|g: F| #[trigger] call_ensures(g, (frame, note), v)
}

/// Facts on the frame that starts at sample `done`, a multiple of the
/// channel count, and on the sample `end` where it stops.
proof fn lemma_frame_step(done: int, len: int, end: int, ch: int, q: int)
    requires
        ch > 0,
        0 <= done < len,
        done % ch == 0,
        q == done / ch,
        end == if len - done < ch { len } else { done + ch },
    ensures
        done == q * ch,
        frames_of(done, ch) == q,
        frames_of(end, ch) == q + 1,
        q + 1 <= frames_of(len, ch),
        end % ch == 0 || end == len,
{
    vstd::arithmetic::div_mod::lemma_fundamental_div_mod(done, ch);
    assert(done == q * ch) by (nonlinear_arith)
        requires
            done == ch * q + 0,
    ;
    assert((q + 1) * ch == q * ch + ch) by (nonlinear_arith);
    if len - done < ch {
        lemma_in_frame(len, q, ch);
    } else {
        vstd::arithmetic::div_mod::lemma_fundamental_div_mod_converse(end, ch, q + 1, 0);
        vstd::arithmetic::div_mod::lemma_div_is_ordered(end, len, ch);
    }
}

/// The frame of sample `i` starts at or before `i`.
proof fn lemma_frame_start(i: int, ch: int)
    requires
        ch > 0,
        0 <= i,
    ensures
        0 <= frame_of(i, ch) * ch <= i,
{
    vstd::arithmetic::div_mod::lemma_remainder_lower(i, ch);
    vstd::arithmetic::div_mod::lemma_div_pos_is_pos(i, ch);
    vstd::arithmetic::mul::lemma_mul_nonnegative(i / ch, ch);
}

impl Renderer {
    /// The channel count is positive.
    pub open spec fn wf(&self) -> bool {
        self@.channels > 0
    }

    /// A renderer at time zero with no key held.
    pub fn new(sample_rate: u32, channels: u16) -> (r: Renderer)
        requires
            channels > 0,
        ensures
            r@ == (RenderModel {
                held: Seq::empty(),
                frame: 0,
                sample_rate: sample_rate as int,
                channels: channels as int,
            }),
    {
        Renderer { keys: KeysState::new(), frame: 0, sample_rate, channels }
    }

    pub fn sample_rate(&self) -> (r: u32)
        ensures
            r == self@.sample_rate,
    {
        self.sample_rate
    }

    pub fn channels(&self) -> (r: u16)
        ensures
            r == self@.channels,
    {
        self.channels
    }

    /// Index of the next frame to be rendered.
    pub fn frame_index(&self) -> (r: u64)
        ensures
            r == self@.frame,
    {
        self.frame
    }

    /// The note that the next frame is rendered with.
    pub fn active_note(&self) -> (r: Option<i32>)
        ensures
            r == active_of(self@.held),
    {
        self.keys.active_note()
    }

    /// Applies the key events that arrived since the last buffer, in order.
    pub fn apply_key_actions(&mut self, actions: &Vec<KeyAction>) -> (r: Option<i32>)
        ensures
            final(self)@ == (RenderModel { held: replay(old(self)@.held, actions@), ..old(self)@ }),
            r == active_of(final(self)@.held),
    {
        self.keys.apply_all(actions)
    }

    /// Number of frames in an interleaved buffer of `len` samples.
    pub fn frames_in(&self, len: usize) -> (r: usize)
        requires
            self.wf(),
        ensures
            r == frames_of(len as int, self@.channels),
    {
        let ch = self.channels as usize;
        if len % ch == 0 {
            len / ch
        } else {
            proof {
                let q = len as int / ch as int;
                vstd::arithmetic::div_mod::lemma_fundamental_div_mod(len as int, ch as int);
                vstd::arithmetic::div_mod::lemma_mod_pos_bound(len as int, ch as int);
                vstd::arithmetic::div_mod::lemma_div_pos_is_pos(len as int, ch as int);
                assert(q <= ch as int * q) by (nonlinear_arith)
                    requires
                        ch >= 1,
                        q >= 0,
                ;
            }
            len / ch + 1
        }
    }

    /// Fills one interleaved buffer. Each frame gets one value from `synth`,
    /// called with the frame's index and the active note, and that value goes
    /// to every channel of the frame; frames are taken in order and the frame
    /// index advances by one per frame. Returns `false`, touching nothing,
    /// when the frame index would pass `u64::MAX`.
    pub fn render_buffer<T: Copy, F: FnMut(u64, Option<i32>) -> T>(
        &mut self,
        buffer: &mut [T],
        synth: &mut F,
    ) -> (r: bool)
        requires
            old(self).wf(),
            forall|g: F, i: u64, n: Option<i32>| call_requires(g, (i, n)),
        ensures
            r == (old(self)@.frame + frames_of(old(buffer)@.len() as int, old(self)@.channels)
                <= u64::MAX),
            final(buffer)@.len() == old(buffer)@.len(),
            !r ==> final(self)@ == old(self)@ && final(buffer)@ == old(buffer)@,
            r ==> final(self)@ == (RenderModel {
                frame: old(self)@.frame + frames_of(old(buffer)@.len() as int, old(self)@.channels),
                ..old(self)@
            }),
            r ==> forall|i: int|
                0 <= i < final(buffer)@.len() ==> #[trigger] final(buffer)@[i] == final(buffer)@[
                    frame_of(i, old(self)@.channels) * old(self)@.channels
                ],
            r ==> forall|i: int|
                0 <= i < final(buffer)@.len() ==> may_produce::<T, F>(
                    (old(self)@.frame + frame_of(i, old(self)@.channels)) as u64,
                    active_of(old(self)@.held),
                    #[trigger] final(buffer)@[i],
                ),
    {
        let ch = self.channels as usize;
        let len = buffer.len();
        let n = self.frames_in(len);
        if n as u64 > u64::MAX - self.frame {
            return false;
        }
        let note = self.keys.active_note();
        let ghost start_frame = self.frame as int;
        let ghost chi = ch as int;
        let ghost before = buffer@;
        let mut done: usize = 0;
        while done < len
            invariant
                chi == ch == self@.channels,
                ch > 0,
                len == buffer@.len() == before.len(),
                n == frames_of(len as int, chi),
                start_frame + n <= u64::MAX,
                note == active_of(self@.held),
                self@.frame == start_frame + frames_of(done as int, chi),
                self@.held == old(self)@.held,
                self@.sample_rate == old(self)@.sample_rate,
                self@.channels == old(self)@.channels,
                start_frame == old(self)@.frame,
                forall|g: F, i: u64, n: Option<i32>| call_requires(g, (i, n)),
                done <= len,
                done % ch == 0 || done == len,
                forall|i: int|
                    0 <= i < done ==> #[trigger] buffer@[i] == buffer@[frame_of(i, chi) * chi],
                forall|i: int|
                    0 <= i < done ==> may_produce::<T, F>(
                        (start_frame + frame_of(i, chi)) as u64,
                        note,
                        #[trigger] buffer@[i],
                    ),
            decreases len - done,
        {
            let ghost q = done as int / chi;
            let end: usize = if len - done < ch { len } else { done + ch };
            proof {
                lemma_frame_step(done as int, len as int, end as int, chi, q);
            }
            let ghost g = *synth;
            let v = synth(self.frame, note);
            assert(call_ensures(g, ((start_frame + q) as u64, note), v));
            let ghost mid = buffer@;
            let mut k: usize = done;
            while k < end
                invariant
                    done <= k <= end <= len,
                    len == buffer@.len() == mid.len(),
                    forall|i: int| done <= i < k ==> buffer@[i] == v,
                    forall|i: int| 0 <= i < done ==> buffer@[i] == mid[i],
                    forall|i: int| end <= i < len ==> buffer@[i] == mid[i],
                decreases end - k,
            {
                buffer[k] = v;
                k += 1;
            }
            assert forall|i: int| 0 <= i < end implies #[trigger] buffer@[i] == buffer@[frame_of(
                i,
                chi,
            ) * chi] && may_produce::<T, F>(
                (start_frame + frame_of(i, chi)) as u64,
                note,
                buffer@[i],
            ) by {
                if i >= done {
                    lemma_in_frame(i, q, chi);
                    assert(call_ensures(g, ((start_frame + frame_of(i, chi)) as u64, note), buffer@[i]));
                } else {
                    lemma_frame_start(i, chi);
                    assert(buffer@[i] == mid[i]);
                }
            }
            self.frame = self.frame + 1;
            done = end;
        }
        assert(buffer@.len() == before.len());
        true
    }
}

} // verus!
