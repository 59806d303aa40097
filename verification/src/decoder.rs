use vstd::prelude::*;
use std::collections::HashMap;

use vstd::arithmetic::div_mod::lemma_fundamental_div_mod;

use crate::sampling::{kept_count, lemma_kept_bound, lemma_kept_slot, lemma_sampler_step, sampled, since_kept};

verus! {

/// The first picture of a video, as RGBA rows, with its size.
#[derive(Debug)]
pub struct VideoThumb {
    width: u32,
    height: u32,
    data: Option<Vec<u8>>,
}

impl View for VideoThumb {
    type V = (u32, u32, Option<Seq<u8>>);

    closed spec fn view(&self) -> (u32, u32, Option<Seq<u8>>) {
        (self.width, self.height, match self.data {
            Some(d) => Some(d@),
            None => None,
        })
    }
}

impl Default for VideoThumb {
    /// A thumbnail of no size that holds no pixels.
    fn default() -> (thumb: VideoThumb)
        ensures
            thumb@ == (0u32, 0u32, None::<Seq<u8>>),
    {
        VideoThumb { width: 0, height: 0, data: None }
    }
}

impl VideoThumb {
    /// A thumbnail of the given size holding the given pixels.
    pub fn new(width: u32, height: u32, data: Vec<u8>) -> (thumb: VideoThumb)
        ensures
            thumb@ == (width, height, Some(data@)),
    {
        VideoThumb { width, height, data: Some(data) }
    }

    /// Width of the thumbnail in pixels.
    pub fn width(&self) -> (w: u32)
        ensures
            w == self@.0,
    {
        self.width
    }

    /// Height of the thumbnail in pixels.
    pub fn height(&self) -> (h: u32)
        ensures
            h == self@.1,
    {
        self.height
    }

    /// The thumbnail's pixels, if it holds any.
    pub fn data(&self) -> (d: Option<&Vec<u8>>)
        ensures
            match d {
                Some(v) => self@.2 == Some(v@),
                None => self@.2.is_none(),
            },
    {
        match &self.data {
            Some(v) => Some(v),
            None => None,
        }
    }
}

/// A decoded frame kept in a dump: its RGBA pixels, row after row, and its
/// presentation timestamp in units of the stream's time base (`None` when
/// the decoder gave the frame no timestamp).
#[derive(Debug)]
pub struct VideoFrame {
    pub data: Vec<u8>,
    pub pts: Option<i64>,
}

/// Frames sampled from a video: the size of every frame, the stream's time
/// base as a fraction of a second (numerator, denominator), the number of
/// frames kept and the frames under their slot numbers `0..nframes`.
#[derive(Debug)]
pub struct VideoDump {
    pub width: u32,
    pub height: u32,
    pub time_base: (i32, i32),
    pub nframes: usize,
    pub frames: HashMap<usize, VideoFrame>,
}

impl Default for VideoDump {
    /// An empty dump: no size, a zero time base, no frames.
    fn default() -> (dump: VideoDump)
        ensures
            dump.width == 0,
            dump.height == 0,
            dump.time_base == (0i32, 0i32),
            dump.nframes == 0,
            dump.frames@ == Map::<usize, VideoFrame>::empty(),
    {
        VideoDump { width: 0, height: 0, time_base: (0, 0), nframes: 0, frames: HashMap::new() }
    }
}

/// The frames of a dump in slot order, over the slots `0..n`; a slot
/// with no frame is passed over.
pub open spec fn frames_by_slot(frames: Map<usize, VideoFrame>, n: nat) -> Seq<VideoFrame>
    decreases n,
{
    if n == 0 {
        Seq::empty()
    } else {
        let before = frames_by_slot(frames, (n - 1) as nat);
        let slot = (n - 1) as usize;
        if frames.contains_key(slot) {
            before.push(frames[slot])
        } else {
            before
        }
    }
}

/// For a dump whose slots `0..n` all hold a frame (as a finished dump's
/// do), the sheet order is the slot order: `n` frames, the `i`-th being
/// the one in slot `i`.
pub proof fn lemma_full_dump_order(frames: Map<usize, VideoFrame>, n: usize)
    requires
        frames.dom() == Set::new(|i: usize| i < n),
    ensures
        frames_by_slot(frames, n as nat).len() == n,
        forall|i: int| 0 <= i < n ==> #[trigger] frames_by_slot(frames, n as nat)[i] == frames[i as usize],
{
    lemma_full_prefix(frames, n, n as nat);
}

proof fn lemma_full_prefix(frames: Map<usize, VideoFrame>, n: usize, k: nat)
    requires
        frames.dom() == Set::new(|i: usize| i < n),
        k <= n,
    ensures
        frames_by_slot(frames, k).len() == k,
        forall|i: int| 0 <= i < k ==> #[trigger] frames_by_slot(frames, k)[i] == frames[i as usize],
    decreases k,
{
    if k > 0 {
        lemma_full_prefix(frames, n, (k - 1) as nat);
        assert(frames.dom().contains((k - 1) as usize));
    }
}

/// The frames of a dump in the order they go on the contact sheet: slot by
/// slot from 0 to `nframes - 1`, passing over empty slots.
pub fn frames_in_order(dump: &VideoDump) -> (frames: Vec<&VideoFrame>)
    ensures
        frames@.len() == frames_by_slot(dump.frames@, dump.nframes as nat).len(),
        forall|i: int| 0 <= i < frames@.len() ==> *(#[trigger] frames@[i]) == frames_by_slot(dump.frames@, dump.nframes as nat)[i],
{
    broadcast use vstd::std_specs::hash::group_hash_axioms;
    let mut frames: Vec<&VideoFrame> = Vec::new();
    let mut slot: usize = 0;
    while slot < dump.nframes
        invariant
            slot <= dump.nframes,
            frames@.len() == frames_by_slot(dump.frames@, slot as nat).len(),
            forall|i: int| 0 <= i < frames@.len() ==> *(#[trigger] frames@[i]) == frames_by_slot(dump.frames@, slot as nat)[i],
        decreases dump.nframes - slot,
    {
        match dump.frames.get(&slot) {
            Some(frame) => {
                frames.push(frame);
            },
            None => {},
        }
        slot = slot + 1;
    }
    frames
}

/// Why a dump cannot be made.
#[derive(Debug, Clone, Copy, PartialEq, Eq)]
pub enum DumpError {
    /// More frames were asked for than the stream says it holds.
    TooManyFrames { total_frames: i64 },
}

/// `n` as a signed 64-bit count, read in two's complement as a cast does.
pub open spec fn signed_count(n: usize) -> int {
    if n <= i64::MAX { n as int } else { n - 0x1_0000_0000_0000_0000 }
}

/// Integer division rounded towards zero.
pub open spec fn div_toward_zero(a: int, b: int) -> int {
    let q = (if a < 0 { -a } else { a }) / (if b < 0 { -b } else { b });
    if (a < 0) == (b < 0) { q } else { -q }
}

/// The cast law: `signed_count(n)` is the one signed 64-bit value that
/// leaves the same remainder as `n` modulo `2^64`.
pub proof fn lemma_signed_count(n: usize)
    ensures
        i64::MIN <= signed_count(n) <= i64::MAX,
        (n - signed_count(n)) % 0x1_0000_0000_0000_0000 == 0,
        n <= i64::MAX ==> signed_count(n) == n,
{
    if n > i64::MAX {
        assert(n - signed_count(n) == 0x1_0000_0000_0000_0000int);
    } else {
        assert(n - signed_count(n) == 0int);
    }
}

/// The rounding law of the frame interval: for a nonzero divisor `b`, the
/// quotient `q` rounded towards zero makes `q * b` no larger than `a` in
/// size and within one `b` of it, with the sign of `a` (or zero).
pub proof fn lemma_div_toward_zero(a: int, b: int)
    requires
        b != 0,
    ensures
        ({
            let q = div_toward_zero(a, b);
            let abs_a = if a < 0 { -a } else { a };
            let abs_b = if b < 0 { -b } else { b };
            let abs_qb = if q * b < 0 { -(q * b) } else { q * b };
            &&& abs_qb <= abs_a < abs_qb + abs_b
            &&& q * b == 0 || (q * b < 0) == (a < 0)
        }),
{
    let abs_a = if a < 0 { -a } else { a };
    let abs_b = if b < 0 { -b } else { b };
    let big_q = abs_a / abs_b;
    lemma_fundamental_div_mod(abs_a, abs_b);
    let r = abs_a % abs_b;
    assert(abs_a == abs_b * big_q + r && 0 <= r < abs_b);
    assert(big_q >= 0) by (nonlinear_arith)
        requires abs_a == abs_b * big_q + r, r < abs_b, abs_a >= 0, abs_b >= 1;
    let q = div_toward_zero(a, b);
    assert(big_q * abs_b >= 0) by (nonlinear_arith)
        requires big_q >= 0, abs_b >= 1;
    if (a < 0) == (b < 0) {
        assert(q == big_q);
        if b < 0 {
            assert(q * b == -(big_q * abs_b)) by (nonlinear_arith)
                requires q == big_q, abs_b == -b;
        } else {
            assert(q * b == big_q * abs_b) by (nonlinear_arith)
                requires q == big_q, abs_b == b;
        }
    } else {
        assert(q == -big_q);
        if b < 0 {
            assert(q * b == big_q * abs_b) by (nonlinear_arith)
                requires q == -big_q, abs_b == -b;
        } else {
            assert(q * b == -(big_q * abs_b)) by (nonlinear_arith)
                requires q == -big_q, abs_b == b;
        }
    }
    assert(big_q * abs_b == abs_b * big_q) by (nonlinear_arith);
}

/// The frame interval of a dump of `nframes` frames out of a stream that
/// holds `total_frames` frames: the dump keeps one decoded frame out of
/// every interval.  Asking for more frames than the stream holds is an
/// error.  (Asking for none of a stream that holds some would divide by
/// zero.)
pub fn frame_interval(nframes: usize, total_frames: i64) -> (interval: Result<i64, DumpError>)
    requires
        !(nframes == 0 && total_frames >= 0),
    ensures
        interval is Err <==> signed_count(nframes) > total_frames,
        interval matches Err(e) ==> e == (DumpError::TooManyFrames { total_frames }),
        interval matches Ok(r) ==> r == div_toward_zero(total_frames as int, signed_count(nframes)),
{
    let wide: u64 = nframes as u64;
    let n: i64 = if wide <= 0x7fff_ffff_ffff_ffff {
        wide as i64
    } else {
        ((wide - 0x8000_0000_0000_0000) as i64) + i64::MIN
    };
    assert(n as int == signed_count(nframes));
    if n > total_frames {
        return Err(DumpError::TooManyFrames { total_frames });
    }
    if n > 0 {
        assert(div_toward_zero(total_frames as int, n as int) == (total_frames as int) / (n as int));
        Ok(total_frames / n)
    } else if n == i64::MIN {
        if total_frames == i64::MIN {
            Ok(1)
        } else {
            Ok(0)
        }
    } else {
        let m: i64 = -n;
        if total_frames >= 0 {
            Ok(-(total_frames / m))
        } else {
            Ok((-total_frames) / m)
        }
    }
}

/// Builds a dump while the frames of a video are decoded one by one.
///
/// For each decoded frame the caller asks `wants_frame`; when it answers
/// yes the caller converts the frame and hands it to `keep`, otherwise it
/// calls `skip`.  `finish` gives the dump.
pub struct DumpRecorder {
    nframes: usize,
    frame_rate: i64,
    frame_index: usize,
    processed_frames: i64,
    decoded: Ghost<nat>,
    dump: VideoDump,
}

impl DumpRecorder {
    #[verifier::type_invariant]
    spec fn counters_agree(self) -> bool {
        &&& self.frame_index == kept_count(self.nframes as int, self.frame_rate as int, self.decoded@ as int)
        &&& self.processed_frames == since_kept(self.nframes as int, self.frame_rate as int, self.decoded@ as int)
        &&& self.dump.frames@.dom() == Set::new(|i: usize| i < self.frame_index)
    }

    /// Number of frames the dump is to hold.
    pub closed spec fn target(&self) -> usize {
        self.nframes
    }

    /// Frame interval of the dump.
    pub closed spec fn rate(&self) -> i64 {
        self.frame_rate
    }

    /// Number of decoded frames seen so far.
    pub closed spec fn decoded(&self) -> nat {
        self.decoded@
    }

    /// The frames kept so far, under their slot numbers.
    pub closed spec fn kept(&self) -> Map<usize, VideoFrame> {
        self.dump.frames@
    }

    /// Frame size and time base recorded with the dump.
    pub closed spec fn header(&self) -> (u32, u32, (i32, i32)) {
        (self.dump.width, self.dump.height, self.dump.time_base)
    }

    /// A recorder for a dump of `nframes` frames of the given size and
    /// time base, keeping one decoded frame out of every `frame_rate`.
    pub fn new(width: u32, height: u32, time_base: (i32, i32), nframes: usize, frame_rate: i64) -> (rec: DumpRecorder)
        ensures
            rec.target() == nframes,
            rec.rate() == frame_rate,
            rec.decoded() == 0,
            rec.kept() == Map::<usize, VideoFrame>::empty(),
            rec.header() == (width, height, time_base),
    {
        broadcast use vstd::std_specs::hash::group_hash_axioms;
        let dump = VideoDump { width, height, time_base, nframes: 0, frames: HashMap::new() };
        assert(dump.frames@.dom() =~= Set::new(|i: usize| i < 0usize));
        DumpRecorder {
            nframes,
            frame_rate,
            frame_index: 0,
            processed_frames: 0,
            decoded: Ghost(0),
            dump,
        }
    }

    /// Whether the next decoded frame is to be kept: the decoded frame `k`
    /// (counted from 0) is kept when `k` is a multiple of the frame interval
    /// and fewer than `nframes` frames come before it at that interval.
    pub fn wants_frame(&self) -> (wanted: bool)
        ensures
            wanted == sampled(self.target() as int, self.rate() as int, self.decoded() as int),
    {
        proof {
            use_type_invariant(self);
            lemma_sampler_step(self.nframes as int, self.frame_rate as int, self.decoded@ as int);
        }
        self.frame_index < self.nframes && (self.processed_frames == 0 || self.processed_frames == self.frame_rate)
    }

    /// Number of decoded frames counted since the last kept one (all of them
    /// while none was kept).
    pub fn processed_frames(&self) -> (count: i64)
        ensures
            count == since_kept(self.target() as int, self.rate() as int, self.decoded() as int),
    {
        proof {
            use_type_invariant(self);
        }
        self.processed_frames
    }

    /// Keeps the decoded frame that `wants_frame` asked for.  It goes to the
    /// next free slot, which for an interval `r` of at least one is the
    /// frame's decoded position divided by `r`.
    pub fn keep(&mut self, frame: VideoFrame)
        requires
            sampled(old(self).target() as int, old(self).rate() as int, old(self).decoded() as int),
        ensures
            final(self).target() == old(self).target(),
            final(self).rate() == old(self).rate(),
            final(self).header() == old(self).header(),
            final(self).decoded() == old(self).decoded() + 1,
            final(self).kept() == old(self).kept().insert(
                kept_count(old(self).target() as int, old(self).rate() as int, old(self).decoded() as int) as usize,
                frame,
            ),
            old(self).rate() >= 1 ==> kept_count(old(self).target() as int, old(self).rate() as int, old(self).decoded() as int)
                == (old(self).decoded() as int) / (old(self).rate() as int),
    {
        broadcast use vstd::std_specs::hash::group_hash_axioms;
        proof {
            use_type_invariant(&*self);
            lemma_sampler_step(self.nframes as int, self.frame_rate as int, self.decoded@ as int);
            lemma_kept_bound(self.nframes as int, self.frame_rate as int, self.decoded@ as int + 1);
            if self.frame_rate >= 1 {
                lemma_kept_slot(self.nframes as int, self.frame_rate as int, self.decoded@ as int);
            }
        }
        let ghost next: nat = self.decoded@ + 1;
        let mut current = DumpRecorder::new(0, 0, (0, 0), 0, 0);
        std::mem::swap(self, &mut current);
        proof {
            use_type_invariant(&current);
        }
        let DumpRecorder { nframes, frame_rate, frame_index, processed_frames: _, decoded: _, mut dump } = current;
        dump.frames.insert(frame_index, frame);
        proof {
            assert(dump.frames@.dom() =~= Set::new(|i: usize| i < frame_index + 1));
        }
        *self = DumpRecorder {
            nframes,
            frame_rate,
            frame_index: frame_index + 1,
            processed_frames: 1,
            decoded: Ghost(next),
            dump,
        };
    }

    /// Passes over a decoded frame that `wants_frame` declined.
    pub fn skip(&mut self)
        requires
            !sampled(old(self).target() as int, old(self).rate() as int, old(self).decoded() as int),
            since_kept(old(self).target() as int, old(self).rate() as int, old(self).decoded() as int) < i64::MAX,
        ensures
            final(self).target() == old(self).target(),
            final(self).rate() == old(self).rate(),
            final(self).header() == old(self).header(),
            final(self).decoded() == old(self).decoded() + 1,
            final(self).kept() == old(self).kept(),
    {
        proof {
            use_type_invariant(&*self);
            lemma_sampler_step(self.nframes as int, self.frame_rate as int, self.decoded@ as int);
        }
        let ghost next: nat = self.decoded@ + 1;
        let mut current = DumpRecorder::new(0, 0, (0, 0), 0, 0);
        std::mem::swap(self, &mut current);
        proof {
            use_type_invariant(&current);
        }
        let DumpRecorder { nframes, frame_rate, frame_index, processed_frames, decoded: _, dump } = current;
        *self = DumpRecorder {
            nframes,
            frame_rate,
            frame_index,
            processed_frames: processed_frames + 1,
            decoded: Ghost(next),
            dump,
        };
    }

    /// The dump: the frames kept, under the slots `0..nframes`.
    pub fn finish(self) -> (dump: VideoDump)
        ensures
            dump.nframes == kept_count(self.target() as int, self.rate() as int, self.decoded() as int),
            dump.nframes <= self.target(),
            dump.frames@ == self.kept(),
            dump.frames@.dom() == Set::new(|i: usize| i < dump.nframes),
            (dump.width, dump.height, dump.time_base) == self.header(),
    {
        proof {
            use_type_invariant(&self);
            lemma_kept_bound(self.nframes as int, self.frame_rate as int, self.decoded@ as int);
        }
        let DumpRecorder { nframes: _, frame_rate: _, frame_index, processed_frames: _, decoded: _, dump } = self;
        VideoDump { nframes: frame_index, ..dump }
    }
}

} // verus!
