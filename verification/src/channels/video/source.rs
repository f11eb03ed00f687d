//! Where pictures come from.
//!
//! [`TestPatternVideoSource`] replays a stream in a loop.
//! [`ScreenRecordVideoSource`] takes what an encoder writes, chunk by chunk, and
//! cuts it into access units: a unit goes out when the next start code has come,
//! and parameter sets wait for the slice that they belong to.
use crate::channels::video::nal;
use crate::octets;
use crate::text;
use std::collections::VecDeque;
use vstd::prelude::*;

verus! {

/// An access unit and when to show it.
#[derive(Debug)]
pub struct VideoFrame {
    /// The unit's bytes, start codes included.
    pub annex_b: Vec<u8>,
    /// Microseconds since the stream began.
    pub pts_us: u64,
    /// Whether decoding can begin here.
    pub keyframe: bool,
}

/// What a frame says.
#[verifier::ext_equal]
pub struct Picture {
    pub annex_b: Seq<u8>,
    pub pts_us: u64,
    pub keyframe: bool,
}

impl View for VideoFrame {
    type V = Picture;

    open spec fn view(&self) -> Picture {
        Picture { annex_b: self.annex_b@, pts_us: self.pts_us, keyframe: self.keyframe }
    }
}

/// Whether decoding can begin with an access unit.
pub open spec fn has_idr(au: Seq<u8>) -> bool {
    exists|i: int|
        0 <= i < nal::nals_of(au).len() && nal::type_from(#[trigger] nal::nals_of(au)[i], 0)
            == nal::nut::SLICE_IDR
}

/// Whether an access unit holds a slice.
pub open spec fn has_slice(au: Seq<u8>) -> bool {
    exists|i: int|
        0 <= i < nal::nals_of(au).len() && nal::slice_type(
            nal::type_from(#[trigger] nal::nals_of(au)[i], 0),
        )
}

fn au_has_idr(au: &[u8]) -> (r: bool)
    ensures
        r == has_idr(au@),
{
    let nals: Vec<&[u8]> = nal::split_nals(au);
    let mut i: usize = 0;
    while i < nals.len()
        invariant
            i <= nals.len(),
            nal::held(nals@) == nal::nals_of(au@),
            forall|k: int|
                0 <= k < i ==> nal::type_from(#[trigger] nal::nals_of(au@)[k], 0)
                    != nal::nut::SLICE_IDR,
        decreases nals.len() - i,
    {
        assert(nal::held(nals@)[i as int] == nals@[i as int]@);
        if nal::nal_unit_type(nals[i]) == nal::nut::SLICE_IDR {
            assert(nal::type_from(nal::nals_of(au@)[i as int], 0) == nal::nut::SLICE_IDR);
            return true;
        }
        i += 1;
    }
    false
}

fn au_has_slice(au: &[u8]) -> (r: bool)
    ensures
        r == has_slice(au@),
{
    let nals: Vec<&[u8]> = nal::split_nals(au);
    let mut i: usize = 0;
    while i < nals.len()
        invariant
            i <= nals.len(),
            nal::held(nals@) == nal::nals_of(au@),
            forall|k: int|
                0 <= k < i ==> !nal::slice_type(
                    nal::type_from(#[trigger] nal::nals_of(au@)[k], 0),
                ),
        decreases nals.len() - i,
    {
        assert(nal::held(nals@)[i as int] == nals@[i as int]@);
        if nal::is_slice(nal::nal_unit_type(nals[i])) {
            assert(nal::slice_type(nal::type_from(nal::nals_of(au@)[i as int], 0)));
            return true;
        }
        i += 1;
    }
    false
}

/// Which test pattern to replay.
#[derive(Debug, Clone, Copy, PartialEq, Eq, Structural)]
pub enum TestPatternProfile {
    /// 1280 by 720 at 30 frames a second.
    P720p30,
    /// 1920 by 1080 at 30 frames a second.
    P1080p30,
}

/// Microseconds between two frames at 30 frames a second.
pub const FRAME_INTERVAL_30: u64 = 33_333;

impl TestPatternProfile {
    /// Microseconds between two frames.
    pub fn frame_interval(self) -> (r: u64)
        ensures
            r == FRAME_INTERVAL_30,
    {
        match self {
            TestPatternProfile::P720p30 | TestPatternProfile::P1080p30 => 1_000_000 / 30,
        }
    }
}

/// A sum that stops at the largest number.
pub open spec fn later(pts_us: u64, interval: u64) -> u64 {
    if pts_us + interval > u64::MAX {
        u64::MAX
    } else {
        (pts_us + interval) as u64
    }
}

/// Replays a stream in a loop.
#[derive(Debug)]
pub struct TestPatternVideoSource {
    access_units: Vec<Vec<u8>>,
    next_idx: usize,
    frame_interval: u64,
    pts_us: u64,
}

impl TestPatternVideoSource {
    #[verifier::type_invariant]
    spec fn in_range(self) -> bool {
        self.access_units@.len() == 0 || self.next_idx < self.access_units@.len()
    }

    /// The access units of the stream.
    pub closed spec fn units(&self) -> Seq<Seq<u8>> {
        nal::contents(self.access_units@)
    }

    /// Which unit comes next.
    pub closed spec fn next(&self) -> int {
        self.next_idx as int
    }

    /// Microseconds between two frames.
    pub closed spec fn interval(&self) -> u64 {
        self.frame_interval
    }

    /// When the next unit is to be shown.
    pub closed spec fn pts(&self) -> u64 {
        self.pts_us
    }

    /// A source that replays the stream `bytes` at the profile's frame rate.
    pub fn new(profile: TestPatternProfile, bytes: &[u8]) -> (r: Self)
        ensures
            r.units() == nal::units_of(bytes@),
            r.next() == 0,
            r.interval() == FRAME_INTERVAL_30,
            r.pts() == 0,
    {
        TestPatternVideoSource {
            access_units: nal::group_access_units(bytes),
            next_idx: 0,
            frame_interval: profile.frame_interval(),
            pts_us: 0,
        }
    }

    /// How many access units the stream has.
    pub fn frame_count(&self) -> (r: usize)
        ensures
            r == self.units().len(),
    {
        self.access_units.len()
    }

    /// An access unit of the stream.
    pub fn access_unit(&self, i: usize) -> (r: &[u8])
        requires
            i < self.units().len(),
        ensures
            r@ == self.units()[i as int],
    {
        self.access_units[i].as_slice()
    }

    /// When the next frame is to be shown, in microseconds since the stream began.
    pub fn due_us(&self) -> (r: u64)
        ensures
            r == self.pts(),
    {
        self.pts_us
    }

    /// The next frame. After the last unit comes the first again. There is none if
    /// the stream has no access units.
    pub fn next_frame(&mut self) -> (r: Option<VideoFrame>)
        ensures
            final(self).units() == old(self).units(),
            final(self).interval() == old(self).interval(),
            if old(self).units().len() == 0 {
                r is None && *final(self) == *old(self)
            } else {
                &&& 0 <= old(self).next() < old(self).units().len()
                &&& r matches Some(frame) && frame@ == (Picture {
                    annex_b: old(self).units()[old(self).next()],
                    pts_us: old(self).pts(),
                    keyframe: has_idr(old(self).units()[old(self).next()]),
                })
                &&& final(self).next() == (old(self).next() + 1) % (old(self).units().len() as int)
                &&& final(self).pts() == later(old(self).pts(), old(self).interval())
            },
            r matches Some(frame) ==> frame@.annex_b == old(self).units()[old(self).next()]
                && frame@.pts_us == old(self).pts() && (frame@.keyframe <==> has_idr(frame@.annex_b)),
            r is Some && old(self).next() + 1 < old(self).units().len() ==> final(self).next()
                == old(self).next() + 1,
            r is Some && old(self).next() + 1 == old(self).units().len() ==> final(self).next() == 0,
            r is Some && old(self).pts() + old(self).interval() <= u64::MAX ==> final(self).pts()
                == old(self).pts() + old(self).interval(),
    {
        proof {
            use_type_invariant(&*self);
        }
        let n: usize = self.access_units.len();
        if n == 0 {
            return None;
        }
        let au: Vec<u8> = octets::to_vec(self.access_units[self.next_idx].as_slice());
        let keyframe: bool = au_has_idr(au.as_slice());
        let pts_us: u64 = self.pts_us;
        let next: usize = self.next_idx + 1;
        proof {
            if next < n {
                vstd::arithmetic::div_mod::lemma_small_mod(next as nat, n as nat);
            } else {
                vstd::arithmetic::div_mod::lemma_mod_self_0(n as int);
            }
        }
        self.next_idx = if next < n {
            next
        } else {
            0
        };
        self.pts_us = if self.pts_us > u64::MAX - self.frame_interval {
            u64::MAX
        } else {
            self.pts_us + self.frame_interval
        };
        Some(VideoFrame { annex_b: au, pts_us, keyframe })
    }
}

/// Where the last `00 00 01` in the first `n + 2` bytes stands.
pub open spec fn last_short_code(s: Seq<u8>, n: int) -> Option<int>
    decreases n,
{
    if n <= 0 {
        None
    } else if nal::short_code_at(s, n - 1) {
        Some(n - 1)
    } else {
        last_short_code(s, n - 1)
    }
}

/// Where the last start code begins.
pub open spec fn last_code(s: Seq<u8>) -> Option<int> {
    match last_short_code(s, s.len() - 2) {
        None => None,
        Some(i) => Some(
            if i > 0 && s[i - 1] == 0 {
                i - 1
            } else {
                i
            },
        ),
    }
}

/// Where the last start code of `buf` begins, its leading zero byte included.
pub fn find_last_start_code(buf: &[u8]) -> (r: Option<usize>)
    ensures
        match last_code(buf@) {
            Some(i) => r matches Some(k) && k == i && 0 <= i <= buf@.len(),
            None => r is None,
        },
{
    let n: usize = buf.len();
    if n < 3 {
        assert(last_short_code(buf@, buf@.len() - 2) is None) by {
            reveal_with_fuel(last_short_code, 2);
        }
        return None;
    }
    let mut i: usize = n - 2;
    while i > 0
        invariant
            i + 2 <= n,
            n == buf@.len(),
            last_short_code(buf@, n - 2) == last_short_code(buf@, i as int),
        decreases i,
    {
        let k: usize = i - 1;
        if buf[k] == 0 && buf[k + 1] == 0 && buf[k + 2] == 1 {
            assert(nal::short_code_at(buf@, k as int));
            if k > 0 && buf[k - 1] == 0 {
                return Some(k - 1);
            }
            return Some(k);
        }
        i = k;
    }
    None
}

/// What an encoder's output becomes: what is kept back, and the units that are
/// complete.
///
/// What stands from the last start code on is kept back, since more of it may
/// come. A unit before it without a slice is kept back too.
pub open spec fn absorbed(all: Seq<u8>) -> (Seq<u8>, Seq<Seq<u8>>) {
    match last_code(all) {
        None => (all, Seq::empty()),
        Some(k) => {
            let units = nal::units_of(all.take(k));
            if units.len() > 0 && !has_slice(units.last()) {
                (units.last() + all.skip(k), units.drop_last())
            } else {
                (all.skip(k), units)
            }
        },
    }
}

/// Cuts what an encoder writes into access units.
#[derive(Debug)]
pub struct ScreenRecordVideoSource {
    /// What has come and is not part of a complete unit yet.
    pub leftover: Vec<u8>,
    /// The units that are complete and have not gone out.
    pub queued: VecDeque<Vec<u8>>,
    /// When the next unit is to be shown.
    pub pts_us: u64,
    /// Microseconds between two frames.
    pub frame_interval_us: u64,
}

/// The state of a recording.
#[verifier::ext_equal]
pub struct Recording {
    pub leftover: Seq<u8>,
    pub queued: Seq<Seq<u8>>,
    pub pts_us: u64,
    pub interval: u64,
}

impl View for ScreenRecordVideoSource {
    type V = Recording;

    open spec fn view(&self) -> Recording {
        Recording {
            leftover: self.leftover@,
            queued: nal::contents(self.queued@),
            pts_us: self.pts_us,
            interval: self.frame_interval_us,
        }
    }
}

/// A recording of which nothing has come yet.
pub open spec fn blank(interval: u64) -> Recording {
    Recording { leftover: Seq::empty(), queued: Seq::empty(), pts_us: 0, interval }
}

/// A recording when the encoder has written `chunk`.
pub open spec fn recorded(rec: Recording, chunk: Seq<u8>) -> Recording {
    let (leftover, units) = absorbed(rec.leftover + chunk);
    Recording { leftover, queued: rec.queued + units, ..rec }
}

/// A recording when a frame was asked for, and the frame, if a unit was complete.
pub open spec fn asked(rec: Recording) -> (Recording, Option<Picture>) {
    if rec.queued.len() == 0 {
        (rec, None)
    } else {
        (
            Recording {
                queued: rec.queued.drop_first(),
                pts_us: later(rec.pts_us, rec.interval),
                ..rec
            },
            Some(
                Picture {
                    annex_b: rec.queued[0],
                    pts_us: rec.pts_us,
                    keyframe: has_idr(rec.queued[0]),
                },
            ),
        )
    }
}

/// What comes of asking a screen recorder for a frame.
#[derive(Debug)]
pub enum NextFrame {
    /// The next frame.
    Frame(VideoFrame),
    /// No unit is complete: read what the encoder writes, and ask again with it.
    ReadMore,
    /// The encoder has written its last byte.
    Ended,
}

/// What a frame is asked for with: what was read since the last time, which is
/// empty where the encoder's output has ended.
pub open spec fn fed(rec: Recording, read: Option<Seq<u8>>) -> Recording {
    match read {
        Some(chunk) => if chunk.len() > 0 {
            recorded(rec, chunk)
        } else {
            rec
        },
        None => rec,
    }
}

impl ScreenRecordVideoSource {
    /// A source at this frame rate with nothing read yet.
    pub fn new(fps: u32) -> (r: Self)
        ensures
            r@ == blank(
                (1_000_000int / (if fps == 0 {
                    1int
                } else {
                    fps as int
                })) as u64,
            ),
    {
        let queued: VecDeque<Vec<u8>> = VecDeque::new();
        assert(nal::contents(queued@) =~= Seq::<Seq<u8>>::empty());
        ScreenRecordVideoSource {
            leftover: Vec::new(),
            queued,
            pts_us: 0,
            frame_interval_us: 1_000_000 / (if fps == 0 {
                1u64
            } else {
                fps as u64
            }),
        }
    }

    /// Puts units behind those that wait.
    fn enqueue(&mut self, units: Vec<Vec<u8>>)
        ensures
            final(self)@ == (Recording {
                queued: old(self)@.queued + nal::contents(units@),
                ..old(self)@
            }),
    {
        let mut rest: Vec<Vec<u8>> = units;
        let mut front: VecDeque<Vec<u8>> = VecDeque::new();
        assert(rest@ + front@ =~= units@);
        while rest.len() > 0
            invariant
                rest@ + front@ == units@,
            decreases rest.len(),
        {
            let ghost (had, came) = (rest@, front@);
            if let Some(last) = rest.pop() {
                front.push_front(last);
                assert(rest@ + front@ =~= had + came);
            }
        }
        assert(front@ =~= units@);
        let ghost before = self.queued@;
        self.queued.append(&mut front);
        assert(nal::contents(self.queued@) =~= nal::contents(before) + nal::contents(units@));
    }

    /// Takes what the encoder wrote.
    pub fn absorb(&mut self, chunk: &[u8])
        ensures
            final(self)@ == recorded(old(self)@, chunk@),
    {
        let ghost start = self@;
        let ghost all = self.leftover@ + chunk@;
        octets::push_all(&mut self.leftover, chunk);
        match find_last_start_code(self.leftover.as_slice()) {
            None => {
                assert(start.queued + Seq::<Seq<u8>>::empty() =~= start.queued);
            },
            Some(k) => {
                let n: usize = self.leftover.len();
                let kept: Vec<u8> = octets::to_vec(&self.leftover.as_slice()[k..n]);
                let mut units: Vec<Vec<u8>> = nal::group_access_units(
                    &self.leftover.as_slice()[0..k],
                );
                let ghost made = nal::contents(units@);
                assert(all.take(k as int) =~= all.subrange(0, k as int));
                assert(kept@ =~= all.skip(k as int));
                self.leftover = kept;
                if units.len() > 0 {
                    let last: usize = units.len() - 1;
                    assert(made.last() == units@[last as int]@);
                    if !au_has_slice(units[last].as_slice()) {
                        let mut trailing: Vec<u8> = octets::to_vec(units[last].as_slice());
                        let _ = units.pop();
                        assert(nal::contents(units@) =~= made.drop_last());
                        octets::push_all(&mut trailing, self.leftover.as_slice());
                        self.leftover = trailing;
                    }
                }
                self.enqueue(units);
            },
        }
    }

    /// The next frame, if a unit is complete.
    pub fn next_queued(&mut self) -> (r: Option<VideoFrame>)
        ensures
            final(self)@ == asked(old(self)@).0,
            match asked(old(self)@).1 {
                Some(picture) => r matches Some(frame) && frame@ == picture,
                None => r is None,
            },
    {
        let ghost before = self.queued@;
        match self.queued.pop_front() {
            None => {
                assert(before =~= self.queued@);
                None
            },
            Some(au) => {
                assert(nal::contents(self.queued@) =~= nal::contents(before).drop_first());
                let keyframe: bool = au_has_idr(au.as_slice());
                let pts_us: u64 = self.pts_us;
                self.pts_us = if self.pts_us > u64::MAX - self.frame_interval_us {
                    u64::MAX
                } else {
                    self.pts_us + self.frame_interval_us
                };
                Some(VideoFrame { annex_b: au, pts_us, keyframe })
            },
        }
    }

    /// The next frame, when `read` has come from the encoder. Units that are complete
    /// go out before more is read, and what is left when the encoder ends goes
    /// nowhere.
    ///
    /// Nothing was read where `read` is `None`; an empty `read` is the end.
    pub fn next_frame(&mut self, read: Option<&[u8]>) -> (r: NextFrame)
        ensures
            ({
                let chunk = match read {
                    Some(c) => Some(c@),
                    None => None,
                };
                let (rec, picture) = asked(fed(old(self)@, chunk));
                &&& final(self)@ == rec
                &&& match picture {
                    Some(p) => r matches NextFrame::Frame(frame) && frame@ == p,
                    None => if chunk == Some(Seq::<u8>::empty()) {
                        r is Ended
                    } else {
                        r is ReadMore
                    },
                }
            }),
    {
        let mut ended: bool = false;
        if let Some(chunk) = read {
            if chunk.len() > 0 {
                self.absorb(chunk);
            } else {
                assert(chunk@ =~= Seq::<u8>::empty());
                ended = true;
            }
        }
        match self.next_queued() {
            Some(frame) => NextFrame::Frame(frame),
            None => if ended {
                NextFrame::Ended
            } else {
                NextFrame::ReadMore
            },
        }
    }
}

/// What a screen recorder is asked for, as its arguments.
pub open spec fn recorder_args_of(width: u32, height: u32, bitrate_bps: u32) -> Seq<Seq<char>> {
    seq![
        "--output-format=h264"@,
        "--time-limit"@,
        "0"@,
        "--size"@,
        text::decimal(width as nat) + "x"@ + text::decimal(height as nat),
        "--bit-rate"@,
        text::decimal(bitrate_bps as nat),
        "-"@,
    ]
}

/// The arguments of a screen recorder that writes a raw stream to its standard
/// output.
pub fn recorder_args(width: u32, height: u32, bitrate_bps: u32) -> (r: Vec<String>)
    ensures
        Seq::new(r@.len(), |i: int| r@[i]@) == recorder_args_of(width, height, bitrate_bps),
{
    let mut size: String = text::to_decimal(width as u64);
    size.append("x");
    size.append(text::to_decimal(height as u64).as_str());
    let out: Vec<String> = vec![
        "--output-format=h264".to_string(),
        "--time-limit".to_string(),
        "0".to_string(),
        "--size".to_string(),
        size,
        "--bit-rate".to_string(),
        text::to_decimal(bitrate_bps as u64),
        "-".to_string(),
    ];
    assert(Seq::new(out@.len(), |i: int| out@[i]@) =~= recorder_args_of(
        width,
        height,
        bitrate_bps,
    ));
    out
}

proof fn lemma_last_code_bounds(s: Seq<u8>, n: int)
    requires
        n <= s.len() - 2,
    ensures
        last_short_code(s, n) matches Some(i) ==> 0 <= i < n && nal::short_code_at(s, i),
    decreases n,
{
    if n > 0 && !nal::short_code_at(s, n - 1) {
        lemma_last_code_bounds(s, n - 1);
    }
}

/// Nothing is lost on the way: where what has come begins with a start code, the
/// units that are complete and what is kept back are, one after the other, what
/// has come, and what is kept back begins with a start code again.
pub proof fn lemma_absorbed_join(all: Seq<u8>)
    requires
        nal::code_at(all, 0),
    ensures
        nal::joined(absorbed(all).1) + absorbed(all).0 == all,
        nal::code_at(absorbed(all).0, 0),
{
    lemma_last_code_bounds(all, all.len() - 2);
    match last_code(all) {
        None => {
            assert(nal::joined(Seq::<Seq<u8>>::empty()) + all =~= all);
        },
        Some(k) => {
            let done = all.take(k);
            let units = nal::units_of(done);
            nal::lemma_units_join(done);
            if k == 0 {
                assert(done =~= Seq::<u8>::empty());
                assert(nal::codes_from(done, 0).len() == 0);
                nal::lemma_pieces_join(done);
            } else {
                assert(nal::code_at(done, 0)) by {
                    lemma_code_before(all, k);
                }
                nal::lemma_pieces_join_whole(done);
            }
            assert(nal::joined(units) =~= done);
            assert(done + all.skip(k) =~= all);
            let i = last_short_code(all, all.len() - 2)->Some_0;
            if k < i {
                assert(nal::long_code_at(all.skip(k), 0));
            } else {
                assert(nal::short_code_at(all.skip(k), 0));
            }
            nal::lemma_units_coded(done);
            if units.len() > 0 && !has_slice(units.last()) {
                assert(nal::joined(units) == nal::joined(units.drop_last()) + units.last());
                assert(nal::code_at(units[units.len() - 1], 0));
                nal::lemma_code_extends(units.last(), all.skip(k));
                assert(nal::joined(units.drop_last()) + (units.last() + all.skip(k)) =~= all);
            }
        },
    }
}

proof fn lemma_code_before(s: Seq<u8>, k: int)
    requires
        nal::code_at(s, 0),
        last_code(s) == Some(k),
        k > 0,
    ensures
        nal::code_at(s.take(k), 0),
{
    lemma_last_code_bounds(s, s.len() - 2);
    let i = last_short_code(s, s.len() - 2)->Some_0;
    assert(nal::short_code_at(s, i));
    if nal::long_code_at(s, 0) {
        assert(s[3] == 1 && s[2] == 0);
        assert(i != 1);
        assert(i != 2 && i != 3);
        assert(k >= 4);
        assert(nal::long_code_at(s.take(k), 0));
    } else {
        assert(s[2] == 1);
        assert(i >= 3);
        assert(k >= 3);
        assert(nal::short_code_at(s.take(k), 0));
    }
}

// ---- A whole recording -----------------------------------------------------

/// The last start code is the last of all start codes; there is none where there are
/// none at all.
pub proof fn lemma_last_code(s: Seq<u8>)
    ensures
        last_code(s) == if nal::codes_from(s, 0).len() == 0 {
            None
        } else {
            Some(nal::codes_from(s, 0).last())
        },
{
    lemma_last_code_bounds(s, s.len() - 2);
    lemma_none_behind(s, s.len() - 2);
    match last_short_code(s, s.len() - 2) {
        None => {
            assert forall|p: int| 0 <= p < s.len() implies !#[trigger] nal::code_at(s, p) by {
                assert(!nal::short_code_at(s, p));
                assert(!nal::short_code_at(s, p + 1));
            }
            nal::lemma_no_codes(s);
        },
        Some(i) => {
            let k = last_code(s)->Some_0;
            assert(nal::code_at(s, k)) by {
                if k < i {
                    assert(nal::long_code_at(s, k));
                }
            }
            assert forall|p: int| k < p < s.len() implies !#[trigger] nal::code_at(s, p) by {
                assert(p != i ==> !nal::short_code_at(s, p));
                assert(!nal::short_code_at(s, p + 1));
            }
            nal::lemma_last_of_codes(s, k);
        },
    }
}

proof fn lemma_none_behind(s: Seq<u8>, n: int)
    requires
        n <= s.len() - 2,
    ensures
        forall|p: int|
            0 <= p < n && (last_short_code(s, n) matches Some(i) ==> i < p)
                ==> !#[trigger] nal::short_code_at(s, p),
    decreases n,
{
    if n > 0 && !nal::short_code_at(s, n - 1) {
        lemma_none_behind(s, n - 1);
    }
}

/// Every unit that is complete ends in its only slice.
proof fn lemma_absorbed_units(all: Seq<u8>)
    ensures
        forall|k: int|
            0 <= k < absorbed(all).1.len() ==> nal::ends_in_slice(#[trigger] absorbed(all).1[k]),
{
    if last_code(all) is Some {
        let units = nal::units_of(all.take(last_code(all)->Some_0));
        nal::lemma_units_end_in_slices(all.take(last_code(all)->Some_0));
        let done = absorbed(all).1;
        assert forall|k: int| 0 <= k < done.len() implies nal::ends_in_slice(
            #[trigger] done[k],
        ) by {
            assert(done[k] == units[k]);
            if k == units.len() - 1 {
                assert(has_slice(units.last()));
                let i = choose|i: int|
                    0 <= i < nal::nals_of(units[k]).len() && nal::slice_type(
                        nal::type_from(#[trigger] nal::nals_of(units[k])[i], 0),
                    );
                assert(nal::slice(nal::nals_of(units[k])[i]));
            }
        }
    }
}

/// Whether a stream begins with a start code, or is too short to tell.
pub open spec fn may_begin(s: Seq<u8>) -> bool {
    nal::code_at(s, 0) || (s.len() <= 3 && forall|i: int| 0 <= i < s.len() ==> #[trigger] s[i] == 0)
}

proof fn lemma_may_begin(a: Seq<u8>, b: Seq<u8>)
    requires
        may_begin(a + b),
    ensures
        may_begin(a),
{
    let s = a + b;
    if nal::code_at(s, 0) {
        if nal::long_code_at(s, 0) {
            assert(s[0] == 0 && s[1] == 0 && s[2] == 0 && s[3] == 1);
            if a.len() >= 4 {
                assert(nal::long_code_at(a, 0));
            } else {
                assert forall|i: int| 0 <= i < a.len() implies #[trigger] a[i] == 0 by {
                    assert(a[i] == s[i]);
                }
            }
        } else {
            assert(s[0] == 0 && s[1] == 0 && s[2] == 1);
            if a.len() >= 3 {
                assert(nal::short_code_at(a, 0));
            } else {
                assert forall|i: int| 0 <= i < a.len() implies #[trigger] a[i] == 0 by {
                    assert(a[i] == s[i]);
                }
            }
        }
    } else {
        assert forall|i: int| 0 <= i < a.len() implies #[trigger] a[i] == 0 by {
            assert(a[i] == s[i]);
        }
    }
}

/// What happens to a recording: the encoder writes something, or a frame is asked for.
pub enum RecordingStep {
    Wrote(Seq<u8>),
    Asked,
}

/// All that the encoder wrote.
pub open spec fn wrote(steps: Seq<RecordingStep>) -> Seq<u8>
    decreases steps.len(),
{
    if steps.len() == 0 {
        Seq::empty()
    } else {
        match steps.last() {
            RecordingStep::Wrote(chunk) => wrote(steps.drop_last()) + chunk,
            RecordingStep::Asked => wrote(steps.drop_last()),
        }
    }
}

/// A recording after these steps, and the frames that it gave.
pub open spec fn run(interval: u64, steps: Seq<RecordingStep>) -> (Recording, Seq<Picture>)
    decreases steps.len(),
{
    if steps.len() == 0 {
        (blank(interval), Seq::empty())
    } else {
        let (rec, sent) = run(interval, steps.drop_last());
        match steps.last() {
            RecordingStep::Wrote(chunk) => (recorded(rec, chunk), sent),
            RecordingStep::Asked => {
                let (after, picture) = asked(rec);
                (
                    after,
                    match picture {
                        Some(p) => sent.push(p),
                        None => sent,
                    },
                )
            },
        }
    }
}

/// The bytes of frames.
pub open spec fn bytes_of(sent: Seq<Picture>) -> Seq<Seq<u8>> {
    Seq::new(sent.len(), |k: int| sent[k].annex_b)
}

/// When the `k`-th frame is shown. Time ends with the largest number.
pub open spec fn shown_at(k: int, interval: u64) -> u64 {
    if k * interval > u64::MAX {
        u64::MAX
    } else {
        (k * interval) as u64
    }
}

/// Whether the `k`-th frame of a recording is as it should be: an access unit that ends
/// in its only slice, shown at its time, and a key frame where that slice is one.
pub open spec fn in_place(p: Picture, k: int, interval: u64) -> bool {
    &&& nal::ends_in_slice(p.annex_b)
    &&& p.keyframe <==> nal::type_from(nal::nals_of(p.annex_b).last(), 0) == nal::nut::SLICE_IDR
    &&& p.pts_us == shown_at(k, interval)
}

proof fn lemma_later(k: int, interval: u64)
    requires
        k >= 0,
    ensures
        later(shown_at(k, interval), interval) == shown_at(k + 1, interval),
{
    assert((k + 1) * interval == k * interval + interval) by (nonlinear_arith);
    assert(k * interval >= 0) by (nonlinear_arith)
        requires
            k >= 0,
    ;
}

proof fn lemma_keyframe(au: Seq<u8>)
    requires
        nal::ends_in_slice(au),
    ensures
        has_idr(au) <==> nal::type_from(nal::nals_of(au).last(), 0) == nal::nut::SLICE_IDR,
{
    let nals = nal::nals_of(au);
    if has_idr(au) {
        let i = choose|i: int|
            0 <= i < nals.len() && nal::type_from(#[trigger] nals[i], 0) == nal::nut::SLICE_IDR;
        assert(nal::slice(nals[i]));
    } else {
        assert(nals[nals.len() - 1] == nals.last());
    }
}

proof fn lemma_zeros(s: Seq<u8>)
    requires
        may_begin(s),
        !nal::code_at(s, 0),
    ensures
        absorbed(s) == (s, Seq::<Seq<u8>>::empty()),
{
    lemma_last_code_bounds(s, s.len() - 2);
    if last_short_code(s, s.len() - 2) is Some {
        let i = last_short_code(s, s.len() - 2)->Some_0;
        assert(nal::short_code_at(s, i));
        assert(s[i + 2] == 0);
    }
}

#[verifier::spinoff_prover]
#[verifier::rlimit(40)]
proof fn lemma_run(interval: u64, steps: Seq<RecordingStep>)
    requires
        may_begin(wrote(steps)),
    ensures
        ({
            let (rec, sent) = run(interval, steps);
            &&& nal::joined(bytes_of(sent)) + nal::joined(rec.queued) + rec.leftover == wrote(steps)
            &&& forall|k: int| 0 <= k < sent.len() ==> in_place(#[trigger] sent[k], k, interval)
            &&& forall|k: int|
                0 <= k < rec.queued.len() ==> nal::ends_in_slice(#[trigger] rec.queued[k])
            &&& nal::code_at(rec.leftover, 0) || (sent.len() == 0 && rec.queued.len() == 0)
            &&& rec.pts_us == shown_at(sent.len() as int, interval)
            &&& rec.interval == interval
        }),
    decreases steps.len(),
{
    let none = Seq::<Seq<u8>>::empty();
    assert(nal::joined(none) =~= Seq::<u8>::empty());
    assert(bytes_of(Seq::empty()) =~= none);
    if steps.len() == 0 {
        assert(nal::joined(none) + nal::joined(none) + Seq::<u8>::empty() =~= wrote(steps));
        assert(0 * interval == 0) by (nonlinear_arith);
    } else {
        let before = steps.drop_last();
        let (rec, sent) = run(interval, before);
        match steps.last() {
            RecordingStep::Wrote(chunk) => {
                lemma_may_begin(wrote(before), chunk);
                lemma_run(interval, before);
                let all = rec.leftover + chunk;
                let out = nal::joined(bytes_of(sent)) + nal::joined(rec.queued);
                assert(out + all =~= wrote(before) + chunk);
                if nal::code_at(rec.leftover, 0) {
                    nal::lemma_code_extends(rec.leftover, chunk);
                } else {
                    assert(sent =~= Seq::empty());
                    assert(rec.queued =~= none);
                    assert(all =~= wrote(steps));
                }
                let (kept, units) = absorbed(all);
                if nal::code_at(all, 0) {
                    lemma_absorbed_join(all);
                } else {
                    lemma_zeros(all);
                    assert(nal::joined(none) + all =~= all);
                }
                lemma_absorbed_units(all);
                nal::lemma_joined_concat(rec.queued, units);
                assert(nal::joined(bytes_of(sent)) + nal::joined(rec.queued + units) + kept
                    =~= out + (nal::joined(units) + kept));
                assert forall|k: int| 0 <= k < (rec.queued + units).len() implies nal::ends_in_slice(
                    #[trigger] (rec.queued + units)[k],
                ) by {
                    if k >= rec.queued.len() {
                        assert((rec.queued + units)[k] == units[k - rec.queued.len()]);
                    }
                }
            },
            RecordingStep::Asked => {
                lemma_run(interval, before);
                if rec.queued.len() > 0 {
                    let first = rec.queued[0];
                    let rest = rec.queued.drop_first();
                    assert(rec.queued =~= seq![first] + rest);
                    nal::lemma_joined_concat(seq![first], rest);
                    assert(seq![first].drop_last() =~= none);
                    assert(nal::joined(seq![first]) =~= first);
                    let p = asked(rec).1->Some_0;
                    assert(bytes_of(sent.push(p)) =~= bytes_of(sent).push(first));
                    assert(bytes_of(sent).push(first).drop_last() =~= bytes_of(sent));
                    assert(nal::joined(bytes_of(sent.push(p))) + nal::joined(rest) + rec.leftover
                        =~= nal::joined(bytes_of(sent)) + nal::joined(rec.queued) + rec.leftover);
                    assert(nal::ends_in_slice(rec.queued[0]));
                    lemma_keyframe(first);
                    lemma_later(sent.len() as int, interval);
                }
            },
        }
    }
}

/// Of an encoder's output that begins with a start code, written in pieces of any size
/// and with frames asked for at any time, the frames are, one after the other, the
/// beginning: behind them come the units that wait and what is kept back. Each frame
/// is an access unit with one slice, at its end, so that no parameter sets go out
/// without the slice behind them; it is a key frame where that slice is one; and the
/// frames are shown at even intervals.
pub proof fn lemma_recording(interval: u64, steps: Seq<RecordingStep>)
    requires
        may_begin(wrote(steps)),
    ensures
        ({
            let (rec, sent) = run(interval, steps);
            &&& nal::joined(bytes_of(sent)) + nal::joined(rec.queued) + rec.leftover == wrote(steps)
            &&& nal::joined(bytes_of(sent)).is_prefix_of(wrote(steps))
            &&& forall|k: int| 0 <= k < sent.len() ==> in_place(#[trigger] sent[k], k, interval)
            &&& forall|k: int|
                0 <= k < rec.queued.len() ==> nal::ends_in_slice(#[trigger] rec.queued[k])
        }),
{
    lemma_run(interval, steps);
}

/// The steps that a call of [`ScreenRecordVideoSource::next_frame`] stands for.
pub open spec fn steps_of(read: Option<Seq<u8>>) -> Seq<RecordingStep> {
    match read {
        Some(chunk) => if chunk.len() > 0 {
            seq![RecordingStep::Wrote(chunk), RecordingStep::Asked]
        } else {
            seq![RecordingStep::Asked]
        },
        None => seq![RecordingStep::Asked],
    }
}

/// Asking for the next frame carries a recording on by what was read and by one
/// request, so that what holds of recordings holds of frames that were asked for so.
pub proof fn lemma_next_frame(interval: u64, steps: Seq<RecordingStep>, read: Option<Seq<u8>>)
    ensures
        ({
            let (rec, sent) = run(interval, steps);
            let (after, picture) = asked(fed(rec, read));
            run(interval, steps + steps_of(read)) == (
                after,
                match picture {
                    Some(p) => sent.push(p),
                    None => sent,
                },
            )
        }),
{
    reveal_with_fuel(run, 3);
    let all = steps + steps_of(read);
    assert(all.last() == RecordingStep::Asked);
    match read {
        Some(chunk) => if chunk.len() > 0 {
            let written = steps.push(RecordingStep::Wrote(chunk));
            assert(all.drop_last() =~= written);
            assert(written.drop_last() =~= steps);
            assert(written.last() == RecordingStep::Wrote(chunk));
        } else {
            assert(all.drop_last() =~= steps);
        },
        None => {
            assert(all.drop_last() =~= steps);
        },
    }
}

/// Decoding can begin with an access unit exactly where one of its units is of the fifth
/// type; and it holds a slice where one is of the first or the fifth.
pub proof fn lemma_key_frames(au: Seq<u8>)
    ensures
        has_idr(au) <==> exists|i: int|
            0 <= i < nal::nals_of(au).len() && nal::type_from(#[trigger] nal::nals_of(au)[i], 0)
                == 5,
        has_slice(au) <==> exists|i: int|
            0 <= i < nal::nals_of(au).len() && (nal::type_from(#[trigger] nal::nals_of(au)[i], 0)
                == 1 || nal::type_from(nal::nals_of(au)[i], 0) == 5),
        has_idr(au) ==> has_slice(au),
        FRAME_INTERVAL_30 == 1_000_000u64 / 30,
{
    if has_idr(au) {
        let i = choose|i: int|
            0 <= i < nal::nals_of(au).len() && nal::type_from(#[trigger] nal::nals_of(au)[i], 0)
                == 5;
        assert(nal::slice_type(nal::type_from(nal::nals_of(au)[i], 0)));
    }
    if has_slice(au) {
        let i = choose|i: int|
            0 <= i < nal::nals_of(au).len() && nal::slice_type(
                nal::type_from(#[trigger] nal::nals_of(au)[i], 0),
            );
        assert(nal::type_from(nal::nals_of(au)[i], 0) == 1 || nal::type_from(
            nal::nals_of(au)[i],
            0,
        ) == 5);
    }
}

/// Frames follow each other at their distance, thirty of them in a second; and the k-th
/// is shown that many distances after the first.
pub proof fn lemma_pace(pts_us: u64, interval: u64, k: int)
    requires
        0 <= k,
    ensures
        pts_us + interval <= u64::MAX ==> later(pts_us, interval) == pts_us + interval,
        later(pts_us, interval) >= pts_us,
        k * interval <= u64::MAX ==> shown_at(k, interval) == k * interval,
        1_000_000 - 30 < 30 * FRAME_INTERVAL_30 <= 1_000_000,
{
    assert(0 <= k * interval) by (nonlinear_arith)
        requires
            0 <= k,
    ;
}

/// A recorder is asked for a raw stream on its standard output, without an end, of so
/// many pixels across and down, and at so many bits a second.
pub proof fn lemma_recorder_args(width: u32, height: u32, bitrate_bps: u32)
    ensures
        ({
            let args = recorder_args_of(width, height, bitrate_bps);
            let x = text::decimal(width as nat).len() as int;
            &&& args.len() == 8
            &&& args[0] == "--output-format=h264"@
            &&& args[1] == "--time-limit"@
            &&& args[2] == "0"@
            &&& args[3] == "--size"@
            &&& text::value_of(args[4].take(x)) == width
            &&& args[4][x] == 'x'
            &&& text::value_of(args[4].skip(x + 1)) == height
            &&& args[5] == "--bit-rate"@
            &&& text::value_of(args[6]) == bitrate_bps
            &&& args[7] == "-"@
        }),
{
    let (w, h) = (text::decimal(width as nat), text::decimal(height as nat));
    let size = recorder_args_of(width, height, bitrate_bps)[4];
    text::lemma_decimal_value(width as nat);
    text::lemma_decimal_value(height as nat);
    text::lemma_decimal_value(bitrate_bps as nat);
    reveal_strlit("x");
    assert(size == w + "x"@ + h);
    assert(size.take(w.len() as int) =~= w);
    assert(size.skip((w.len() + 1) as int) =~= h);
}

} // verus!
