//! Aggregated statuses of inputs and outputs, and what a stream probe
//! reports of a live stream.
use vstd::prelude::*;
use crate::ids::Status;
use crate::state::{InputEndpointKind, Restream};
use crate::store::State;

verus! {

/// Number of inputs or outputs in one status.
#[derive(Clone, Copy, Debug, PartialEq, Eq, Structural)]
pub struct StatusStatistics {
    /// The status.
    pub status: Status,
    /// How many items have it.
    pub count: i32,
}

/// Status of the first RTMP endpoint of the main input of `r`, if it has one.
pub open spec fn main_status(r: Restream) -> Option<Status> {
    first_rtmp_status(r.input.endpoints@)
}

/// Status of the first RTMP endpoint of `e`, if any.
pub open spec fn first_rtmp_status(e: Seq<crate::state::InputEndpoint>) -> Option<Status>
    decreases e.len(),
{
    if e.len() == 0 {
        None
    } else if e[0].kind == InputEndpointKind::Rtmp {
        Some(e[0].status)
    } else {
        first_rtmp_status(e.subrange(1, e.len() as int))
    }
}

/// Number of restreams of `rs` whose main input is in status `st`.
pub open spec fn inputs_in(rs: Seq<Restream>, st: Status) -> nat
    decreases rs.len(),
{
    if rs.len() == 0 {
        0
    } else {
        inputs_in(rs.drop_last(), st) + if main_status(rs.last()) == Some(st) { 1nat } else { 0nat }
    }
}

/// Number of outputs of `os` in status `st`.
pub open spec fn outputs_in(os: Seq<crate::state::Output>, st: Status) -> nat
    decreases os.len(),
{
    if os.len() == 0 {
        0
    } else {
        outputs_in(os.drop_last(), st) + if os.last().status == st { 1nat } else { 0nat }
    }
}

/// Number of outputs of all restreams of `rs` in status `st`.
pub open spec fn all_outputs_in(rs: Seq<Restream>, st: Status) -> nat
    decreases rs.len(),
{
    if rs.len() == 0 {
        0
    } else {
        all_outputs_in(rs.drop_last(), st) + outputs_in(rs.last().outputs@, st)
    }
}

/// Number of outputs of all restreams of `rs`.
pub open spec fn total_outputs(rs: Seq<Restream>) -> nat
    decreases rs.len(),
{
    if rs.len() == 0 { 0 } else { total_outputs(rs.drop_last()) + rs.last().outputs@.len() }
}

/// The statistics for the counts of offline, initializing, online and
/// unstable items: one entry per status with a non-zero count, in that
/// order.
pub open spec fn stats_of(offline: nat, initializing: nat, online: nat, unstable: nat) -> Seq<StatusStatistics> {
    entry(Status::Offline, offline) + entry(Status::Initializing, initializing) + entry(Status::Online, online)
        + entry(Status::Unstable, unstable)
}

/// The entry of a status, if its count is not zero.
pub open spec fn entry(st: Status, n: nat) -> Seq<StatusStatistics> {
    if n == 0 { Seq::empty() } else { seq![StatusStatistics { status: st, count: n as i32 }] }
}

/// Index of a status in the counters.
spec fn slot(st: Status) -> int {
    match st {
        Status::Offline => 0,
        Status::Initializing => 1,
        Status::Online => 2,
        Status::Unstable => 3,
    }
}

fn slot_of(st: Status) -> (r: usize)
    ensures
        r == slot(st),
{
    match st {
        Status::Offline => 0,
        Status::Initializing => 1,
        Status::Online => 2,
        Status::Unstable => 3,
    }
}

fn first_rtmp(e: &Vec<crate::state::InputEndpoint>) -> (r: Option<Status>)
    ensures
        r == first_rtmp_status(e@),
{
    let mut k: usize = 0;
    proof {
        assert(e@.subrange(0, e@.len() as int) =~= e@);
    }
    while k < e.len()
        invariant
            k <= e@.len(),
            first_rtmp_status(e@.subrange(k as int, e@.len() as int)) == first_rtmp_status(e@),
        decreases e@.len() - k,
    {
        let ghost rest = e@.subrange(k as int, e@.len() as int);
        if e[k].kind == InputEndpointKind::Rtmp {
            return Some(e[k].status);
        }
        proof {
            assert(rest.subrange(1, rest.len() as int) =~= e@.subrange(k + 1, e@.len() as int));
        }
        k = k + 1;
    }
    proof {
        assert(e@.subrange(k as int, e@.len() as int) =~= Seq::<crate::state::InputEndpoint>::empty());
    }
    None
}

/// Builds the statistics out of four counters.
fn stats_from(c: &Vec<u64>) -> (r: Vec<StatusStatistics>)
    requires
        c@.len() == 4,
        forall|i: int| 0 <= i < 4 ==> #[trigger] c@[i] <= i32::MAX,
    ensures
        r@ == stats_of(c@[0] as nat, c@[1] as nat, c@[2] as nat, c@[3] as nat),
{
    let mut r: Vec<StatusStatistics> = Vec::new();
    if c[0] > 0 {
        r.push(StatusStatistics { status: Status::Offline, count: c[0] as i32 });
    }
    let ghost r0 = r@;
    if c[1] > 0 {
        r.push(StatusStatistics { status: Status::Initializing, count: c[1] as i32 });
    }
    let ghost r1 = r@;
    if c[2] > 0 {
        r.push(StatusStatistics { status: Status::Online, count: c[2] as i32 });
    }
    let ghost r2 = r@;
    if c[3] > 0 {
        r.push(StatusStatistics { status: Status::Unstable, count: c[3] as i32 });
    }
    proof {
        assert(r0 =~= entry(Status::Offline, c@[0] as nat));
        assert(r1 =~= r0 + entry(Status::Initializing, c@[1] as nat));
        assert(r2 =~= r1 + entry(Status::Online, c@[2] as nat));
        assert(r@ =~= r2 + entry(Status::Unstable, c@[3] as nat));
    }
    r
}

impl State {
    /// Counts the restreams by the status of the first RTMP endpoint of their
    /// main input: one entry per status that some restream is in.
    pub fn get_inputs_statistics(&self) -> (r: Vec<StatusStatistics>)
        requires
            self.restreams@.len() <= i32::MAX,
        ensures
            r@ == stats_of(inputs_in(self.restreams@, Status::Offline), inputs_in(self.restreams@, Status::Initializing),
                inputs_in(self.restreams@, Status::Online), inputs_in(self.restreams@, Status::Unstable)),
    {
        let mut c: Vec<u64> = vec![0, 0, 0, 0];
        let mut k: usize = 0;
        while k < self.restreams.len()
            invariant
                k <= self.restreams@.len() <= i32::MAX,
                c@.len() == 4,
                forall|st: Status| #[trigger] c@[slot(st)] == inputs_in(self.restreams@.subrange(0, k as int), st),
                forall|st: Status| #[trigger] inputs_in(self.restreams@.subrange(0, k as int), st) <= k,
            decreases self.restreams@.len() - k,
        {
            let ghost pre = self.restreams@.subrange(0, k as int);
            proof {
                assert(self.restreams@.subrange(0, k + 1).drop_last() =~= pre);
            }
            match first_rtmp(&self.restreams[k].input.endpoints) {
                Some(st) => {
                    let s = slot_of(st);
                    let v = c[s];
                    c.set(s, v + 1);
                },
                None => {},
            }
            proof {
                assert forall|st: Status| #[trigger] inputs_in(self.restreams@.subrange(0, k + 1), st) <= k + 1 by {
                    assert(self.restreams@.subrange(0, k + 1).drop_last() =~= pre);
                    assert(inputs_in(pre, st) <= k);
                }
            }
            k = k + 1;
        }
        proof {
            assert(self.restreams@.subrange(0, k as int) =~= self.restreams@);
            assert(c@[slot(Status::Offline)] == c@[0]);
            assert(c@[slot(Status::Initializing)] == c@[1]);
            assert(c@[slot(Status::Online)] == c@[2]);
            assert(c@[slot(Status::Unstable)] == c@[3]);
            assert forall|i: int| 0 <= i < 4 implies #[trigger] c@[i] <= i32::MAX by {
                let st = if i == 0 { Status::Offline } else if i == 1 { Status::Initializing } else if i == 2 { Status::Online } else { Status::Unstable };
                assert(c@[slot(st)] == c@[i]);
            }
        }
        stats_from(&c)
    }

    /// Counts the outputs of all restreams by their status: one entry per
    /// status that some output is in.
    pub fn get_outputs_statistics(&self) -> (r: Vec<StatusStatistics>)
        requires
            total_outputs(self.restreams@) <= i32::MAX,
        ensures
            r@ == stats_of(all_outputs_in(self.restreams@, Status::Offline), all_outputs_in(self.restreams@, Status::Initializing),
                all_outputs_in(self.restreams@, Status::Online), all_outputs_in(self.restreams@, Status::Unstable)),
    {
        let mut c: Vec<u64> = vec![0, 0, 0, 0];
        let mut k: usize = 0;
        while k < self.restreams.len()
            invariant
                k <= self.restreams@.len(),
                c@.len() == 4,
                total_outputs(self.restreams@) <= i32::MAX,
                forall|st: Status| #[trigger] c@[slot(st)] == all_outputs_in(self.restreams@.subrange(0, k as int), st),
                forall|st: Status| #[trigger] all_outputs_in(self.restreams@.subrange(0, k as int), st) <= total_outputs(self.restreams@.subrange(0, k as int)),
                total_outputs(self.restreams@.subrange(0, k as int)) <= total_outputs(self.restreams@),
            decreases self.restreams@.len() - k,
        {
            let ghost pre = self.restreams@.subrange(0, k as int);
            let ghost c0 = c@;
            let os = &self.restreams[k].outputs;
            proof {
                assert(self.restreams@.subrange(0, k + 1).drop_last() =~= pre);
                lemma_total_outputs_prefix(self.restreams@, k + 1);
                assert(total_outputs(self.restreams@.subrange(0, k + 1)) == total_outputs(pre) + os@.len());
            }
            let mut n: usize = 0;
            while n < os.len()
                invariant
                    n <= os@.len(),
                    c@.len() == 4,
                    c0.len() == 4,
                    forall|st: Status| #[trigger] c@[slot(st)] == c0[slot(st)] + outputs_in(os@.subrange(0, n as int), st),
                    forall|st: Status| #[trigger] c0[slot(st)] <= total_outputs(pre),
                    forall|st: Status| #[trigger] outputs_in(os@.subrange(0, n as int), st) <= n,
                    total_outputs(pre) + os@.len() <= i32::MAX,
                decreases os@.len() - n,
            {
                proof {
                    assert(os@.subrange(0, n + 1).drop_last() =~= os@.subrange(0, n as int));
                }
                let s = slot_of(os[n].status);
                let v = c[s];
                c.set(s, v + 1);
                proof {
                    assert forall|st: Status| #[trigger] outputs_in(os@.subrange(0, n + 1), st) <= n + 1 by {
                        assert(os@.subrange(0, n + 1).drop_last() =~= os@.subrange(0, n as int));
                        assert(outputs_in(os@.subrange(0, n as int), st) <= n);
                    }
                }
                n = n + 1;
            }
            proof {
                assert(os@.subrange(0, n as int) =~= os@);
                assert forall|st: Status| #[trigger] all_outputs_in(self.restreams@.subrange(0, k + 1), st)
                    <= total_outputs(self.restreams@.subrange(0, k + 1)) by {
                    assert(self.restreams@.subrange(0, k + 1).drop_last() =~= pre);
                    assert(all_outputs_in(pre, st) <= total_outputs(pre));
                    assert(outputs_in(os@.subrange(0, n as int), st) <= n);
                }
            }
            k = k + 1;
        }
        proof {
            assert(self.restreams@.subrange(0, k as int) =~= self.restreams@);
            assert(c@[slot(Status::Offline)] == c@[0]);
            assert(c@[slot(Status::Initializing)] == c@[1]);
            assert(c@[slot(Status::Online)] == c@[2]);
            assert(c@[slot(Status::Unstable)] == c@[3]);
            assert forall|i: int| 0 <= i < 4 implies #[trigger] c@[i] <= i32::MAX by {
                let st = if i == 0 { Status::Offline } else if i == 1 { Status::Initializing } else if i == 2 { Status::Online } else { Status::Unstable };
                assert(c@[slot(st)] == c@[i]);
            }
        }
        stats_from(&c)
    }
}

/// Outputs of a prefix of the restreams are no more than those of all.
pub proof fn lemma_total_outputs_prefix(rs: Seq<Restream>, k: int)
    requires
        0 <= k <= rs.len(),
    ensures
        total_outputs(rs.subrange(0, k)) <= total_outputs(rs),
    decreases rs.len(),
{
    if k < rs.len() {
        assert(rs.drop_last().subrange(0, k) =~= rs.subrange(0, k));
        lemma_total_outputs_prefix(rs.drop_last(), k);
    } else {
        assert(rs.subrange(0, k) =~= rs);
    }
}

/// What a stream probe reports of one audio or video stream.
#[derive(Clone, Debug, Default)]
pub struct Stream {
    /// Type of the codec, such as `audio` or `video`.
    pub codec_type: Option<String>,
    /// Name of the codec, such as `aac` or `h264`.
    pub codec_name: Option<String>,
    /// Width of a video.
    pub width: Option<u16>,
    /// Height of a video.
    pub height: Option<u16>,
    /// Frame rate of a video, such as `30/1`.
    pub r_frame_rate: Option<String>,
    /// Sample rate of an audio stream, such as `44100`.
    pub sample_rate: Option<String>,
    /// Number of channels of an audio stream.
    pub channels: Option<u8>,
    /// Channel layout of an audio stream, such as `stereo`.
    pub channel_layout: Option<String>,
}

/// Generic parameters of a live stream.
#[derive(Clone, Debug, Default)]
pub struct Format {
    /// Total bit rate, audio and video.
    pub bit_rate: Option<String>,
}

/// What a stream probe reports of a live stream.
#[derive(Clone, Debug, Default)]
pub struct StreamInfo {
    /// Its audio and video streams.
    pub streams: Vec<Stream>,
    /// Its generic parameters.
    pub format: Format,
}

/// The codec type of a stream; none stands for the empty one.
pub open spec fn codec_type_of(s: Stream) -> Seq<char> {
    match s.codec_type {
        Some(t) => t@,
        None => Seq::empty(),
    }
}

impl StreamInfo {
    /// The first stream whose codec type is `stream_type`.
    pub fn find_stream(&self, stream_type: &str) -> (r: Option<&Stream>)
        ensures
            r is None <==> forall|k: int| 0 <= k < self.streams@.len() ==> codec_type_of(#[trigger] self.streams@[k]) != stream_type@,
            r matches Some(s) ==> exists|k: int| 0 <= k < self.streams@.len() && *s == self.streams@[k]
                && codec_type_of(self.streams@[k]) == stream_type@
                && forall|j: int| 0 <= j < k ==> codec_type_of(#[trigger] self.streams@[j]) != stream_type@,
    {
        proof {
            reveal_strlit("");
        }
        let mut k: usize = 0;
        while k < self.streams.len()
            invariant
                k <= self.streams@.len(),
                forall|j: int| 0 <= j < k ==> codec_type_of(#[trigger] self.streams@[j]) != stream_type@,
            decreases self.streams@.len() - k,
        {
            proof {
                reveal_strlit("");
            }
            let t: &str = match &self.streams[k].codec_type {
                Some(t) => t.as_str(),
                None => "",
            };
            assert(t@ == codec_type_of(self.streams@[k as int]));
            if crate::text::str_eq(t, stream_type) {
                assert(codec_type_of(self.streams@[k as int]) == stream_type@);
                return Some(&self.streams[k]);
            }
            k = k + 1;
        }
        None
    }
}

/// A non-negative number of the control API.
#[derive(Clone, Copy, Debug, PartialEq, Eq, Structural)]
pub struct UNumber(pub u16);

impl UNumber {
    /// Wraps the given number.
    pub fn new(value: u16) -> (r: Self)
        ensures
            r.0 == value,
    {
        UNumber(value)
    }
}

} // verus!
