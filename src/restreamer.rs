//! Descriptors of the media processes that re-stream live streams, what
//! forces their restart, and the reconciliation of the running pool against
//! the state.
use vstd::prelude::*;
use crate::ids::{EndpointId, MixinId, OutputId, RestreamKey, Status};
use crate::state::{
    endpoint_url, has_online_rtmp, ready_to_serve, some_input_online, Input, InputEndpoint,
    InputEndpointKind, InputSrc, Output, Restream,
};
use crate::urls::MixinSrcUrl;
use crate::volume::{fraction_text, Delay, Volume};

verus! {

/// `16` to the power `n`.
pub open spec fn pow16(n: nat) -> nat
    decreases n,
{
    if n == 0 { 1 } else { 16 * pow16((n - 1) as nat) }
}

/// The lower-case hexadecimal digit for `d < 16`.
pub open spec fn hex_char(d: int) -> char {
    if d < 10 { ((d + 48) as u8) as char } else { ((d - 10 + 97) as u8) as char }
}

/// The `n`-th of the 32 hexadecimal digits of `v`, most significant first.
pub open spec fn nibble(v: u128, n: int) -> int {
    (v as int / pow16((31 - n) as nat) as int) % 16
}

/// Which digit the character at `i` of the hyphenated text shows.
pub open spec fn digit_at(i: int) -> int {
    if i < 8 { i } else if i < 13 { i - 1 } else if i < 18 { i - 2 } else if i < 23 { i - 3 } else { i - 4 }
}

/// The hyphenated lower-case text of the UUID with the given value: its 32
/// hexadecimal digits, most significant first, in groups of 8, 4, 4, 4 and
/// 12 separated by `-`.
pub open spec fn uuid_text(id: u128) -> Seq<char> {
    Seq::new(36, |i: int| if i == 8 || i == 13 || i == 18 || i == 23 { '-' } else { hex_char(nibble(id, digit_at(i))) })
}

/// Relies on `uuid::Uuid::from_u128` and its `Display`, which writes the
/// value as 32 lower-case hexadecimal digits in hyphenated groups.
#[verifier::external_body]
fn uuid_string(id: u128) -> (r: String)
    ensures
        r@ == uuid_text(id),
{
    uuid::Uuid::from_u128(id).to_string()
}

/// The hyphenated lower-case text of the UUID with the given value.
pub(crate) fn uuid_string_pub(id: u128) -> (r: String)
    ensures
        r@ == uuid_text(id),
{
    uuid_string(id)
}

/// First control-socket port handed out.
pub const FIRST_PORT: u16 = 20000;

/// Hands out control-socket ports: a counter from `20000` up that wraps back
/// to `20000` on overflow.
#[derive(Debug)]
pub struct PortAllocator {
    /// The next port to hand out.
    pub latest: u16,
}

impl PortAllocator {
    /// An allocator starting at `20000`.
    pub fn new() -> (r: Self)
        ensures
            r.latest == FIRST_PORT,
    {
        PortAllocator { latest: FIRST_PORT }
    }

    /// Generates a new port for a control socket, which is highly unlikely to
    /// be in use already.
    pub fn new_unique_zmq_port(&mut self) -> (r: u16)
        ensures
            r == old(self).latest,
            final(self).latest == if old(self).latest == u16::MAX { FIRST_PORT } else { (old(self).latest + 1) as u16 },
    {
        let p = self.latest;
        self.latest = match p.checked_add(1) {
            Some(n) => n,
            None => FIRST_PORT,
        };
        p
    }
}

/// Re-streaming of a live stream "as is" from one URL to another.
#[derive(Debug)]
pub struct CopyRestreamer {
    /// ID of the state item this process belongs to.
    pub id: u128,
    /// URL to pull a live stream from.
    pub from_url: String,
    /// URL to publish the live stream onto.
    pub to_url: String,
}

/// Re-streaming of a live stream transcoding it.
#[derive(Debug)]
pub struct TranscodingRestreamer {
    /// ID of the state item this process belongs to.
    pub id: u128,
    /// URL to pull a live stream from.
    pub from_url: String,
    /// URL to publish the transcoded live stream onto.
    pub to_url: String,
    /// Video encoder.
    pub vcodec: Option<String>,
    /// Preset of the video encoder.
    pub vpreset: Option<String>,
    /// Profile of the video encoder.
    pub vprofile: Option<String>,
    /// Audio encoder.
    pub acodec: Option<String>,
}

/// Additional live stream mixed in by a mixing process.
#[derive(Debug)]
pub struct Mixin {
    /// ID of the state mixin this one stands for.
    pub id: MixinId,
    /// URL to pull the additional live stream from.
    pub url: MixinSrcUrl,
    /// Delay to mix this stream with.
    pub delay: Delay,
    /// Volume to mix this stream with.
    pub volume: Volume,
    /// Whether the origin audio is side-chained with this stream.
    pub sidechain: bool,
    /// Control-socket port of the volume filter of this stream.
    pub zmq_port: u16,
}

/// Whether `i` is the first of the mixins `ms` with the ID `id`.
pub open spec fn first_mixin_of(ms: Seq<Mixin>, id: u128, i: int) -> bool {
    &&& 0 <= i < ms.len()
    &&& ms[i].id.0 == id
    &&& forall|k: int| 0 <= k < i ==> (#[trigger] ms[k]).id.0 != id
}

/// The mixins of a previous process, if it is a mixing one.
pub open spec fn prev_mixins(prev: Option<RestreamerKind>) -> Seq<Mixin> {
    match prev {
        Some(RestreamerKind::Mixing(p)) => p.mixins@,
        _ => Seq::empty(),
    }
}

/// Whether the mixin `m` keeps the control-socket port of the first of the
/// previous mixins `ps` with its ID, if there is one.
pub open spec fn port_from_prev(m: Mixin, ps: Seq<Mixin>) -> bool {
    forall|i: int| #[trigger] first_mixin_of(ps, m.id.0, i) ==> m.zmq_port == ps[i].zmq_port
}

/// The control-socket port of the first of the mixins `ps` with the ID `id`.
fn prev_port(ps: &Vec<Mixin>, id: u128) -> (r: Option<u16>)
    ensures
        r is None ==> forall|i: int| 0 <= i < ps@.len() ==> (#[trigger] ps@[i]).id.0 != id,
        r matches Some(p) ==> forall|i: int| #[trigger] first_mixin_of(ps@, id, i) ==> p == ps@[i].zmq_port,
{
    let mut k: usize = 0;
    while k < ps.len()
        invariant
            k <= ps@.len(),
            forall|i: int| 0 <= i < k ==> (#[trigger] ps@[i]).id.0 != id,
        decreases ps@.len() - k,
    {
        if ps[k].id.0 == id {
            proof {
                assert forall|i: int| #[trigger] first_mixin_of(ps@, id, i) implies i == k by {
                    if i < k {
                        assert(ps@[i].id.0 != id);
                    } else if i > k {
                        assert(ps@[k as int].id.0 != id);
                    }
                }
            }
            return Some(ps[k].zmq_port);
        }
        k = k + 1;
    }
    None
}

/// Mixing of a live stream with additional ones, re-streaming the result.
#[derive(Debug)]
pub struct MixingRestreamer {
    /// ID of the output this process belongs to.
    pub id: u128,
    /// URL to pull a live stream from.
    pub from_url: String,
    /// URL to publish the mixed live stream onto.
    pub to_url: String,
    /// Volume to mix the original audio with.
    pub orig_volume: Volume,
    /// Control-socket port of the volume filter of the original audio.
    pub orig_zmq_port: u16,
    /// Additional live streams to mix in.
    pub mixins: Vec<Mixin>,
}

/// Kind of a media process, with the parameters it was started with.
#[derive(Debug)]
pub enum RestreamerKind {
    /// Re-streaming "as is".
    Copy(CopyRestreamer),
    /// Re-streaming with transcoding.
    Transcoding(TranscodingRestreamer),
    /// Mixing with additional live streams.
    Mixing(MixingRestreamer),
}

/// A volume update for a running process, sent over its control socket.
#[derive(Clone, Copy, Debug, PartialEq, Eq, Structural)]
pub struct VolumeTune {
    /// ID of the track whose volume filter is tuned.
    pub track: u128,
    /// Control-socket port of the filter.
    pub port: u16,
    /// The new volume.
    pub volume: Volume,
}

/// Whether a mixin stream must be restarted to take the `actual`
/// parameters: its URL, delay or side-chain flag differ.
pub open spec fn mixin_needs_restart(m: Mixin, actual: Mixin) -> bool {
    ||| m.url.url().href@ != actual.url.url().href@
    ||| m.delay != actual.delay
    ||| m.sidechain != actual.sidechain
}

/// Whether a mixing process must be restarted to take the `actual`
/// parameters: anything but the volumes differs.
pub open spec fn mixing_needs_restart(m: MixingRestreamer, actual: MixingRestreamer) -> bool {
    ||| m.from_url@ != actual.from_url@
    ||| m.to_url@ != actual.to_url@
    ||| m.mixins@.len() != actual.mixins@.len()
    ||| exists|k: int| 0 <= k < m.mixins@.len() && mixin_needs_restart(#[trigger] m.mixins@[k], actual.mixins@[k])
}

/// Whether two optional strings hold the same characters.
pub open spec fn same_opt(a: Option<String>, b: Option<String>) -> bool {
    match (a, b) {
        (Some(x), Some(y)) => x@ == y@,
        (None, None) => true,
        _ => false,
    }
}

/// Whether a process of kind `k` must be restarted to take the parameters of
/// `actual`: the kinds differ, or some parameter other than a mixing volume
/// does.
pub open spec fn kind_needs_restart(k: RestreamerKind, actual: RestreamerKind) -> bool {
    match (k, actual) {
        (RestreamerKind::Copy(a), RestreamerKind::Copy(b)) => a.from_url@ != b.from_url@ || a.to_url@ != b.to_url@,
        (RestreamerKind::Transcoding(a), RestreamerKind::Transcoding(b)) =>
            !(a.id == b.id && a.from_url@ == b.from_url@ && a.to_url@ == b.to_url@ && same_opt(a.vcodec, b.vcodec)
                && same_opt(a.vpreset, b.vpreset) && same_opt(a.vprofile, b.vprofile) && same_opt(a.acodec, b.acodec)),
        (RestreamerKind::Mixing(a), RestreamerKind::Mixing(b)) => mixing_needs_restart(a, b),
        _ => true,
    }
}

/// Whether two mixing processes differ in their volumes only.
pub open spec fn differ_in_volumes_only(a: MixingRestreamer, b: MixingRestreamer) -> bool {
    &&& a.id == b.id
    &&& a.from_url@ == b.from_url@
    &&& a.to_url@ == b.to_url@
    &&& a.orig_zmq_port == b.orig_zmq_port
    &&& a.mixins@.len() == b.mixins@.len()
    &&& forall|k: int| 0 <= k < a.mixins@.len() ==> {
        &&& (#[trigger] a.mixins@[k]).id == b.mixins@[k].id
        &&& a.mixins@[k].url == b.mixins@[k].url
        &&& a.mixins@[k].delay == b.mixins@[k].delay
        &&& a.mixins@[k].sidechain == b.mixins@[k].sidechain
        &&& a.mixins@[k].zmq_port == b.mixins@[k].zmq_port
    }
}

/// Whether `m` carries the volumes of `actual`, and otherwise the parameters
/// of `orig`.
pub open spec fn absorbed(orig: MixingRestreamer, m: MixingRestreamer, actual: MixingRestreamer) -> bool {
    &&& differ_in_volumes_only(orig, m)
    &&& m.orig_volume == actual.orig_volume
    &&& forall|k: int| 0 <= k < m.mixins@.len() ==> (#[trigger] m.mixins@[k]).volume == actual.mixins@[k].volume
}

/// The volume updates that take the running process `orig` to the volumes of
/// `actual`: the original track first, then each mixin whose volume differs.
pub open spec fn tunes_for(orig: MixingRestreamer, actual: MixingRestreamer) -> Seq<VolumeTune> {
    (if orig.orig_volume != actual.orig_volume {
        seq![VolumeTune { track: orig.id, port: orig.orig_zmq_port, volume: actual.orig_volume }]
    } else {
        Seq::empty()
    }) + mixin_tunes(orig.mixins@, actual.mixins@)
}

/// The volume updates of the mixins `m` towards the volumes of `actual`.
pub open spec fn mixin_tunes(m: Seq<Mixin>, actual: Seq<Mixin>) -> Seq<VolumeTune>
    decreases m.len(),
{
    if m.len() == 0 || actual.len() < m.len() {
        Seq::empty()
    } else {
        mixin_tunes(m.drop_last(), actual.subrange(0, m.len() - 1)) + if m.last().volume != actual[m.len() - 1].volume {
            seq![VolumeTune { track: m.last().id.0, port: m.last().zmq_port, volume: actual[m.len() - 1].volume }]
        } else {
            Seq::empty()
        }
    }
}

impl Mixin {
    /// Checks whether this mixin stream must be restarted to take the
    /// `actual` parameters.
    pub fn needs_restart(&self, actual: &Self) -> (r: bool)
        ensures
            r == mixin_needs_restart(*self, *actual),
    {
        !self.url.parts().same_as(actual.url.parts()) || self.delay != actual.delay || self.sidechain != actual.sidechain
    }
}

impl MixingRestreamer {
    /// Checks whether this mixing process must be restarted to take the
    /// `actual` parameters. Where only volumes differ it is not: it takes the
    /// new volumes, and the updates to send to the running process are added
    /// to `tunes`.
    pub fn needs_restart(&mut self, actual: &Self, tunes: &mut Vec<VolumeTune>) -> (r: bool)
        ensures
            r == mixing_needs_restart(*old(self), *actual),
            r ==> *final(self) == *old(self) && final(tunes)@ == old(tunes)@,
            !r ==> absorbed(*old(self), *final(self), *actual),
            !r ==> final(tunes)@ == old(tunes)@ + tunes_for(*old(self), *actual),
    {
        if self.from_url != actual.from_url || self.to_url != actual.to_url || self.mixins.len() != actual.mixins.len() {
            return true;
        }
        let mut k: usize = 0;
        while k < self.mixins.len()
            invariant
                k <= self.mixins@.len(),
                self.mixins@.len() == actual.mixins@.len(),
                *self == *old(self),
                *tunes == *old(tunes),
                forall|j: int| 0 <= j < k ==> !mixin_needs_restart(#[trigger] self.mixins@[j], actual.mixins@[j]),
            decreases self.mixins@.len() - k,
        {
            if self.mixins[k].needs_restart(&actual.mixins[k]) {
                return true;
            }
            k = k + 1;
        }
        let ghost orig = *self;
        let ghost t0 = tunes@;
        if self.orig_volume != actual.orig_volume {
            self.orig_volume = actual.orig_volume;
            tunes.push(VolumeTune { track: self.id, port: self.orig_zmq_port, volume: self.orig_volume });
        }
        let ghost t1 = tunes@;
        let mut k: usize = 0;
        while k < self.mixins.len()
            invariant
                k <= self.mixins@.len(),
                self.mixins@.len() == orig.mixins@.len(),
                actual.mixins@.len() == orig.mixins@.len(),
                self.id == orig.id,
                self.from_url == orig.from_url,
                self.to_url == orig.to_url,
                self.orig_zmq_port == orig.orig_zmq_port,
                self.orig_volume == actual.orig_volume,
                forall|j: int| 0 <= j < orig.mixins@.len() ==> {
                    &&& (#[trigger] self.mixins@[j]).id == orig.mixins@[j].id
                    &&& self.mixins@[j].url == orig.mixins@[j].url
                    &&& self.mixins@[j].delay == orig.mixins@[j].delay
                    &&& self.mixins@[j].sidechain == orig.mixins@[j].sidechain
                    &&& self.mixins@[j].zmq_port == orig.mixins@[j].zmq_port
                },
                forall|j: int| 0 <= j < k ==> (#[trigger] self.mixins@[j]).volume == actual.mixins@[j].volume,
                forall|j: int| k <= j < orig.mixins@.len() ==> (#[trigger] self.mixins@[j]).volume == orig.mixins@[j].volume,
                tunes@ == t1 + mixin_tunes(orig.mixins@.subrange(0, k as int), actual.mixins@.subrange(0, k as int)),
            decreases self.mixins@.len() - k,
        {
            let ghost tk = tunes@;
            if self.mixins[k].volume != actual.mixins[k].volume {
                let v = actual.mixins[k].volume;
                self.mixins[k].volume = v;
                tunes.push(VolumeTune { track: self.mixins[k].id.0, port: self.mixins[k].zmq_port, volume: v });
            }
            proof {
                let a = orig.mixins@.subrange(0, k + 1);
                let b = actual.mixins@.subrange(0, k + 1);
                assert(a.drop_last() =~= orig.mixins@.subrange(0, k as int));
                assert(b.subrange(0, a.len() - 1) =~= actual.mixins@.subrange(0, k as int));
            }
            k = k + 1;
        }
        proof {
            assert(orig.mixins@.subrange(0, k as int) =~= orig.mixins@);
            assert(actual.mixins@.subrange(0, k as int) =~= actual.mixins@);
        }
        false
    }
}

impl RestreamerKind {
    /// ID of the state item this process belongs to.
    pub open spec fn id_of(self) -> u128 {
        match self {
            RestreamerKind::Copy(c) => c.id,
            RestreamerKind::Transcoding(t) => t.id,
            RestreamerKind::Mixing(m) => m.id,
        }
    }

    /// Returns the ID of the state item this process belongs to.
    pub fn id(&self) -> (r: u128)
        ensures
            r == self.id_of(),
    {
        match self {
            RestreamerKind::Copy(c) => c.id,
            RestreamerKind::Transcoding(t) => t.id,
            RestreamerKind::Mixing(m) => m.id,
        }
    }

    /// Returns the URL the process publishes onto.
    pub fn to_url(&self) -> (r: String)
        ensures
            r@ == match *self {
                RestreamerKind::Copy(c) => c.to_url@,
                RestreamerKind::Transcoding(t) => t.to_url@,
                RestreamerKind::Mixing(m) => m.to_url@,
            },
    {
        match self {
            RestreamerKind::Copy(c) => c.to_url.clone(),
            RestreamerKind::Transcoding(t) => t.to_url.clone(),
            RestreamerKind::Mixing(m) => m.to_url.clone(),
        }
    }

    /// Returns the URL the process pulls from.
    pub fn src_url(&self) -> (r: String)
        ensures
            r@ == match *self {
                RestreamerKind::Copy(c) => c.from_url@,
                RestreamerKind::Transcoding(t) => t.from_url@,
                RestreamerKind::Mixing(m) => m.from_url@,
            },
    {
        match self {
            RestreamerKind::Copy(c) => c.from_url.clone(),
            RestreamerKind::Transcoding(t) => t.from_url.clone(),
            RestreamerKind::Mixing(m) => m.from_url.clone(),
        }
    }

    /// Checks whether this process must be restarted to take the `actual`
    /// parameters; a mixing process whose volumes alone differ takes them in
    /// place and queues the updates in `tunes`.
    pub fn needs_restart(&mut self, actual: &Self, tunes: &mut Vec<VolumeTune>) -> (r: bool)
        ensures
            r == kind_needs_restart(*old(self), *actual),
            r ==> final(tunes)@ == old(tunes)@ && *final(self) == *old(self),
            !r ==> match (*old(self), *final(self), *actual) {
                (RestreamerKind::Mixing(a), RestreamerKind::Mixing(f), RestreamerKind::Mixing(b)) =>
                    absorbed(a, f, b) && final(tunes)@ == old(tunes)@ + tunes_for(a, b),
                _ => *final(self) == *old(self) && final(tunes)@ == old(tunes)@,
            },
            final(self).id_of() == old(self).id_of(),
    {
        match (self, actual) {
            (RestreamerKind::Copy(a), RestreamerKind::Copy(b)) => a.from_url != b.from_url || a.to_url != b.to_url,
            (RestreamerKind::Transcoding(a), RestreamerKind::Transcoding(b)) => {
                !(a.id == b.id && a.from_url == b.from_url && a.to_url == b.to_url && opt_eq(&a.vcodec, &b.vcodec)
                    && opt_eq(&a.vpreset, &b.vpreset) && opt_eq(&a.vprofile, &b.vprofile) && opt_eq(&a.acodec, &b.acodec))
            },
            (RestreamerKind::Mixing(a), RestreamerKind::Mixing(b)) => a.needs_restart(b, tunes),
            _ => true,
        }
    }
}

/// Whether two optional strings hold the same characters.
fn opt_eq(a: &Option<String>, b: &Option<String>) -> (r: bool)
    ensures
        r == same_opt(*a, *b),
{
    match (a, b) {
        (Some(x), Some(y)) => crate::text::str_eq(x.as_str(), y.as_str()),
        (None, None) => true,
        _ => false,
    }
}

/// Position of the first input of `s` with an online RTMP endpoint.
fn first_online_input(s: &Vec<Input>) -> (r: Option<usize>)
    ensures
        r is Some <==> some_input_online(s@),
        r matches Some(k) ==> k < s@.len() && has_online_rtmp(s@[k as int].endpoints@)
            && forall|j: int| 0 <= j < k ==> !has_online_rtmp((#[trigger] s@[j]).endpoints@),
{
    let mut k: usize = 0;
    while k < s.len()
        invariant
            k <= s@.len(),
            forall|j: int| 0 <= j < k ==> !has_online_rtmp((#[trigger] s@[j]).endpoints@),
        decreases s@.len() - k,
    {
        if crate::state::find_online_rtmp_pub(&s[k].endpoints) {
            return Some(k);
        }
        k = k + 1;
    }
    None
}

/// Codec settings of HLS transcoding.
pub open spec fn is_hls_transcoding(t: TranscodingRestreamer) -> bool {
    &&& t.vcodec matches Some(v) && v@ == "libx264"@
    &&& t.vprofile matches Some(v) && v@ == "baseline"@
    &&& t.vpreset matches Some(v) && v@ == "superfast"@
    &&& t.acodec matches Some(v) && v@ == "libfdk_aac"@
}

impl RestreamerKind {
    /// The process, if any, that feeds the endpoint `endpoint` of the input
    /// `input` of the restream with key `key`:
    /// - an RTMP endpoint of an input pulling from a remote URL gets a copy
    ///   from that URL;
    /// - an RTMP endpoint of a failover input gets a copy from the first inner
    ///   input with an online RTMP endpoint, if there is one;
    /// - an HLS endpoint gets a transcoding from the input's RTMP endpoint,
    ///   while the input is ready to serve.
    ///
    /// Disabled inputs and push inputs get none.
    pub fn from_input(input: &Input, endpoint: &InputEndpoint, key: &RestreamKey) -> (r: Option<Self>)
        ensures
            r is None <==> !input.enabled || match endpoint.kind {
                InputEndpointKind::Rtmp => match input.src {
                    None => true,
                    Some(InputSrc::Remote(_)) => false,
                    Some(InputSrc::Failover(f)) => !some_input_online(f.inputs@),
                },
                InputEndpointKind::Hls => !ready_to_serve(*input),
            },
            r matches Some(k) ==> k.id_of() == endpoint.id.0,
            r matches Some(k) ==> endpoint.kind == InputEndpointKind::Rtmp ==> (k matches RestreamerKind::Copy(c)
                && c.to_url@ == endpoint_url(InputEndpointKind::Rtmp, key@, input.key@)
                && match input.src {
                    Some(InputSrc::Remote(u)) => c.from_url@ == u.url.url().href@,
                    Some(InputSrc::Failover(f)) => exists|j: int| 0 <= j < f.inputs@.len()
                        && has_online_rtmp((#[trigger] f.inputs@[j]).endpoints@)
                        && (forall|i: int| 0 <= i < j ==> !has_online_rtmp((#[trigger] f.inputs@[i]).endpoints@))
                        && c.from_url@ == endpoint_url(InputEndpointKind::Rtmp, key@, f.inputs@[j].key@),
                    None => false,
                }),
            r matches Some(k) ==> endpoint.kind == InputEndpointKind::Hls ==> (k matches RestreamerKind::Transcoding(t)
                && t.from_url@ == endpoint_url(InputEndpointKind::Rtmp, key@, input.key@)
                && t.to_url@ == endpoint_url(InputEndpointKind::Hls, key@, input.key@)
                && is_hls_transcoding(t)),
            r matches Some(k) ==> input_desc(k, *input, *endpoint, key@),
    {
        if !input.enabled {
            return None;
        }
        match endpoint.kind {
            InputEndpointKind::Rtmp => {
                let from_url = match &input.src {
                    None => return None,
                    Some(InputSrc::Remote(remote)) => remote.url.as_str().to_owned(),
                    Some(InputSrc::Failover(s)) => {
                        match first_online_input(&s.inputs) {
                            None => return None,
                            Some(j) => InputEndpointKind::Rtmp.rtmp_url(key, &s.inputs[j].key),
                        }
                    },
                };
                Some(RestreamerKind::Copy(CopyRestreamer {
                    id: endpoint.id.0,
                    from_url,
                    to_url: endpoint.kind.rtmp_url(key, &input.key),
                }))
            },
            InputEndpointKind::Hls => {
                if !input.is_ready_to_serve() {
                    return None;
                }
                let t = TranscodingRestreamer {
                    id: endpoint.id.0,
                    from_url: InputEndpointKind::Rtmp.rtmp_url(key, &input.key),
                    to_url: endpoint.kind.rtmp_url(key, &input.key),
                    vcodec: Some(String::from_str("libx264")),
                    vprofile: Some(String::from_str("baseline")),
                    vpreset: Some(String::from_str("superfast")),
                    acodec: Some(String::from_str("libfdk_aac")),
                };
                Some(RestreamerKind::Transcoding(t))
            },
        }
    }

    /// The process, if any, that re-streams the live stream pulled from
    /// `from_url` to the output `output`: none while it is disabled, a copy
    /// without mixins, a mixing with its mixins (whose control-socket ports
    /// are taken from `ports`).
    pub fn from_output(output: &Output, from_url: &str, prev: Option<&RestreamerKind>, ports: &mut PortAllocator) -> (r: Option<Self>)
        ensures
            r is None <==> !output.enabled,
            r matches Some(k) ==> k.id_of() == output.id.0,
            r matches Some(k) ==> output.mixins@.len() == 0 ==> (k matches RestreamerKind::Copy(c)
                && c.from_url@ == from_url@ && c.to_url@ == output.dst.url().href@),
            r matches Some(k) ==> output.mixins@.len() > 0 ==> (k matches RestreamerKind::Mixing(m)
                && m.from_url@ == from_url@ && m.to_url@ == output.dst.url().href@
                && m.orig_volume == output.volume
                && m.mixins@.len() == output.mixins@.len()
                && forall|j: int| 0 <= j < m.mixins@.len() ==> {
                    &&& (#[trigger] m.mixins@[j]).id == output.mixins@[j].id
                    &&& crate::state::same_url(m.mixins@[j].url.url(), output.mixins@[j].src.url())
                    &&& m.mixins@[j].delay == output.mixins@[j].delay
                    &&& m.mixins@[j].volume == output.mixins@[j].volume
                    &&& m.mixins@[j].sidechain == output.mixins@[j].sidechain
                }),
            r matches Some(k) ==> output_desc(k, *output, from_url@),
            r matches Some(RestreamerKind::Mixing(m)) ==> (prev matches Some(RestreamerKind::Mixing(p)) ==> m.orig_zmq_port == p.orig_zmq_port)
                && forall|j: int| 0 <= j < m.mixins@.len() ==> port_from_prev(#[trigger] m.mixins@[j],
                    prev_mixins(match prev { Some(p) => Some(*p), None => None })),
    {
        if !output.enabled {
            return None;
        }
        if output.mixins.len() == 0 {
            Some(RestreamerKind::Copy(CopyRestreamer {
                id: output.id.0,
                from_url: from_url.to_owned(),
                to_url: output.dst.as_str().to_owned(),
            }))
        } else {
            Some(RestreamerKind::Mixing(MixingRestreamer::new(output, from_url, prev, ports)))
        }
    }
}

impl MixingRestreamer {
    /// Creates a mixing process for the output `output` pulling from
    /// `from_url`, with control-socket ports taken from `ports`.
    pub fn new(output: &Output, from_url: &str, prev: Option<&RestreamerKind>, ports: &mut PortAllocator) -> (r: Self)
        ensures
            prev matches Some(RestreamerKind::Mixing(p)) ==> r.orig_zmq_port == p.orig_zmq_port,
            forall|j: int| 0 <= j < r.mixins@.len() ==> port_from_prev(#[trigger] r.mixins@[j],
                prev_mixins(match prev { Some(p) => Some(*p), None => None })),
            r.id == output.id.0,
            r.from_url@ == from_url@,
            r.to_url@ == output.dst.url().href@,
            r.orig_volume == output.volume,
            r.mixins@.len() == output.mixins@.len(),
            forall|j: int| 0 <= j < r.mixins@.len() ==> {
                &&& (#[trigger] r.mixins@[j]).id == output.mixins@[j].id
                &&& crate::state::same_url(r.mixins@[j].url.url(), output.mixins@[j].src.url())
                &&& r.mixins@[j].delay == output.mixins@[j].delay
                &&& r.mixins@[j].volume == output.mixins@[j].volume
                &&& r.mixins@[j].sidechain == output.mixins@[j].sidechain
            },
    {
        let ghost pm = prev_mixins(match prev { Some(p) => Some(*p), None => None });
        let empty: Vec<Mixin> = Vec::new();
        let (orig_zmq_port, olds) = match prev {
            Some(RestreamerKind::Mixing(p)) => (p.orig_zmq_port, &p.mixins),
            _ => (ports.new_unique_zmq_port(), &empty),
        };
        proof {
            assert(olds@ == pm);
        }
        let mut mixins: Vec<Mixin> = Vec::new();
        let mut k: usize = 0;
        while k < output.mixins.len()
            invariant
                k <= output.mixins@.len(),
                mixins@.len() == k,
                forall|j: int| 0 <= j < k ==> {
                    &&& (#[trigger] mixins@[j]).id == output.mixins@[j].id
                    &&& crate::state::same_url(mixins@[j].url.url(), output.mixins@[j].src.url())
                    &&& mixins@[j].delay == output.mixins@[j].delay
                    &&& mixins@[j].volume == output.mixins@[j].volume
                    &&& mixins@[j].sidechain == output.mixins@[j].sidechain
                },
                olds@ == pm,
                forall|j: int| 0 <= j < k ==> port_from_prev(#[trigger] mixins@[j], pm),
            decreases output.mixins@.len() - k,
        {
            let m = &output.mixins[k];
            let port = match prev_port(olds, m.id.0) {
                Some(p) => p,
                None => ports.new_unique_zmq_port(),
            };
            mixins.push(Mixin {
                id: m.id,
                url: m.src.copied(),
                delay: m.delay,
                volume: m.volume,
                sidechain: m.sidechain,
                zmq_port: port,
            });
            proof {
                assert(port_from_prev(mixins@[k as int], pm));
            }
            k = k + 1;
        }
        MixingRestreamer {
            id: output.id.0,
            from_url: from_url.to_owned(),
            to_url: output.dst.as_str().to_owned(),
            orig_volume: output.volume,
            orig_zmq_port,
            mixins,
        }
    }
}

/// The control message that sets the volume of the track `track` of a
/// running process: `volume@<track> volume <fraction>`.
pub open spec fn tune_message(track: u128, volume: Volume) -> Seq<char> {
    "volume@"@ + uuid_text(track) + " volume "@ + fraction_text(volume)
}

impl VolumeTune {
    /// The control message of this update.
    pub fn message(&self) -> (r: String)
        ensures
            r@ == tune_message(self.track, self.volume),
    {
        let mut r = String::from_str("volume@");
        let t = uuid_string(self.track);
        r.append(t.as_str());
        r.append(" volume ");
        let f = self.volume.display_as_fraction();
        r.append(f.as_str());
        r
    }

    /// The address of the control socket: `tcp://127.0.0.1:<port>`.
    pub fn address(&self) -> (r: String)
        ensures
            r@ == "tcp://127.0.0.1:"@ + crate::volume::decimal(self.port as nat),
    {
        let mut r = String::from_str("tcp://127.0.0.1:");
        crate::volume::push_decimal(&mut r, self.port as u64);
        r
    }
}

/// A running process of the pool, identified by the state item it belongs to.
#[derive(Debug)]
pub struct PoolEntry {
    /// ID of the state item.
    pub id: u128,
    /// Kind and parameters of the process.
    pub kind: RestreamerKind,
}

/// What a reconciliation asks of the processes: those to (re)start with
/// their new parameters, those to stop, and volume updates for running ones.
#[derive(Debug)]
pub struct PoolChanges {
    /// IDs of the processes to start; a running one with the same ID is
    /// stopped first.
    pub started: Vec<u128>,
    /// IDs of the processes to stop.
    pub stopped: Vec<u128>,
    /// Volume updates for processes that keep running.
    pub tunes: Vec<VolumeTune>,
}

/// Whether the entries have distinct IDs.
pub open spec fn ids_distinct(p: Seq<PoolEntry>) -> bool {
    forall|i: int, j: int| 0 <= i < j < p.len() ==> (#[trigger] p[i]).id != (#[trigger] p[j]).id
}

/// Whether some entry has the ID `id`.
pub open spec fn has_id(p: Seq<PoolEntry>, id: u128) -> bool {
    exists|k: int| 0 <= k < p.len() && (#[trigger] p[k]).id == id
}

/// Pool of running media processes, reconciled against the state.
#[derive(Debug)]
pub struct RestreamersPool {
    /// The running processes.
    pub pool: Vec<PoolEntry>,
}

/// Position of the entry with the ID `id`.
fn find_entry(p: &Vec<PoolEntry>, id: u128) -> (r: Option<usize>)
    ensures
        r is Some <==> has_id(p@, id),
        r matches Some(k) ==> k < p@.len() && p@[k as int].id == id,
{
    let mut k: usize = 0;
    while k < p.len()
        invariant
            k <= p@.len(),
            forall|j: int| 0 <= j < k ==> (#[trigger] p@[j]).id != id,
        decreases p@.len() - k,
    {
        if p[k].id == id {
            return Some(k);
        }
        k = k + 1;
    }
    None
}

/// Puts `e` into `p`, in place of an entry with the same ID if there is one.
fn put_entry(p: &mut Vec<PoolEntry>, e: PoolEntry)
    requires
        ids_distinct(old(p)@),
    ensures
        ids_distinct(final(p)@),
        has_id(final(p)@, e.id),
        forall|id: u128| has_id(old(p)@, id) ==> has_id(final(p)@, id),
        forall|id: u128| has_id(final(p)@, id) ==> has_id(old(p)@, id) || id == e.id,
        (exists|k: int| 0 <= k < old(p)@.len() && final(p)@ == old(p)@.update(k, e)) || final(p)@ == old(p)@.push(e),
{
    let id = e.id;
    match find_entry(p, id) {
        Some(k) => {
            let ghost before = p@;
            p.set(k, e);
            proof {
                assert forall|i: int, j: int| 0 <= i < j < p@.len() implies (#[trigger] p@[i]).id != (#[trigger] p@[j]).id by {
                    assert(before[i].id != before[j].id);
                }
                assert(p@[k as int].id == id);
                assert forall|x: u128| has_id(before, x) implies has_id(p@, x) by {
                    let w = choose|i: int| 0 <= i < before.len() && (#[trigger] before[i]).id == x;
                    assert(p@[w].id == x);
                }
                assert forall|x: u128| has_id(p@, x) implies has_id(before, x) || x == id by {
                    let w = choose|i: int| 0 <= i < p@.len() && (#[trigger] p@[i]).id == x;
                    if w != k {
                        assert(before[w].id == x);
                    }
                }
            }
        },
        None => {
            let ghost before = p@;
            p.push(e);
            proof {
                assert(p@[before.len() as int].id == id);
                assert forall|x: u128| has_id(before, x) implies has_id(p@, x) by {
                    let w = choose|i: int| 0 <= i < before.len() && (#[trigger] before[i]).id == x;
                    assert(p@[w].id == x);
                }
                assert forall|x: u128| has_id(p@, x) implies has_id(before, x) || x == id by {
                    let w = choose|i: int| 0 <= i < p@.len() && (#[trigger] p@[i]).id == x;
                    if w < before.len() {
                        assert(before[w].id == x);
                    }
                }
            }
        },
    }
}

/// Whether the endpoint `e` of the input `i` is fed by a process: the input
/// is enabled, and an RTMP endpoint pulls from a remote source or from an
/// online failover input, or an HLS endpoint is served while the input is
/// ready.
pub open spec fn endpoint_fed(i: Input, e: InputEndpoint) -> bool {
    &&& i.enabled
    &&& match e.kind {
        InputEndpointKind::Rtmp => match i.src {
            None => false,
            Some(InputSrc::Remote(_)) => true,
            Some(InputSrc::Failover(f)) => some_input_online(f.inputs@),
        },
        InputEndpointKind::Hls => ready_to_serve(i),
    }
}

/// IDs of the processes feeding the endpoints of `i` itself, among its first
/// `n` endpoints.
pub open spec fn own_ids(i: Input, n: int) -> Set<u128> {
    Set::new(|id: u128| exists|k: int| 0 <= k < n && k < i.endpoints@.len()
        && (#[trigger] i.endpoints@[k]).id.0 == id && endpoint_fed(i, i.endpoints@[k]))
}

/// IDs of the processes feeding the endpoints of the tree `i`.
pub open spec fn tree_ids(i: Input) -> Set<u128>
    decreases i,
{
    own_ids(i, i.endpoints@.len() as int) + src_ids(i.src)
}

/// IDs of the processes feeding the endpoints under the source `o`.
pub open spec fn src_ids(o: Option<InputSrc>) -> Set<u128>
    decreases o,
{
    match o {
        Some(InputSrc::Failover(f)) => forest_ids(f.inputs@),
        _ => Set::empty(),
    }
}

/// IDs of the processes feeding the endpoints of the trees `s`.
pub open spec fn forest_ids(s: Seq<Input>) -> Set<u128>
    decreases s,
{
    if s.len() == 0 {
        Set::empty()
    } else {
        forest_ids(s.drop_last()) + tree_ids(s.last())
    }
}

/// Whether the restream `r` serves its outputs: its input is enabled and
/// ready, and has an RTMP endpoint.
pub open spec fn serves_outputs(r: Restream) -> bool {
    &&& r.input.enabled
    &&& ready_to_serve(r.input)
    &&& exists|k: int| 0 <= k < r.input.endpoints@.len() && (#[trigger] r.input.endpoints@[k]).kind == InputEndpointKind::Rtmp
}

/// IDs of the enabled outputs among the first `n` outputs of `r`.
pub open spec fn output_ids(r: Restream, n: int) -> Set<u128> {
    Set::new(|id: u128| exists|k: int| 0 <= k < n && k < r.outputs@.len()
        && (#[trigger] r.outputs@[k]).id.0 == id && r.outputs@[k].enabled)
}

/// IDs of the processes the restream `r` needs.
pub open spec fn restream_ids(r: Restream) -> Set<u128> {
    tree_ids(r.input) + if serves_outputs(r) { output_ids(r, r.outputs@.len() as int) } else { Set::empty() }
}

/// IDs of the processes the restreams `rs` need.
pub open spec fn desired_ids(rs: Seq<Restream>) -> Set<u128>
    decreases rs.len(),
{
    if rs.len() == 0 {
        Set::empty()
    } else {
        desired_ids(rs.drop_last()) + restream_ids(rs.last())
    }
}

/// Whether the pool `q_new` holds the IDs of the pool `q_old` and those of
/// `ids`, and no others.
pub open spec fn grows_by(q_new: Seq<PoolEntry>, q_old: Seq<PoolEntry>, ids: Set<u128>) -> bool {
    forall|id: u128| has_id(q_new, id) <==> has_id(q_old, id) || #[trigger] ids.contains(id)
}

/// Whether the IDs of the pool `p` are those of `ids`.
pub open spec fn pool_holds(p: Seq<PoolEntry>, ids: Set<u128>) -> bool {
    forall|id: u128| has_id(p, id) <==> #[trigger] ids.contains(id)
}

/// What `grows_by` says of one ID.
proof fn lemma_grows_by_at(q_new: Seq<PoolEntry>, q_old: Seq<PoolEntry>, ids: Set<u128>, id: u128)
    requires
        grows_by(q_new, q_old, ids),
    ensures
        has_id(q_new, id) <==> has_id(q_old, id) || ids.contains(id),
{
}

/// What `pool_holds` says of one ID.
proof fn lemma_pool_holds_at(q: Seq<PoolEntry>, ids: Set<u128>, id: u128)
    requires
        pool_holds(q, ids),
    ensures
        has_id(q, id) <==> ids.contains(id),
{
}

/// One step of the reconciliation: after the processes of the restream at
/// `k` are placed, the pool holds those the first `k + 1` restreams need.
proof fn lemma_desired_step(
    rs: Seq<Restream>,
    k: int,
    q0: Seq<PoolEntry>,
    q1: Seq<PoolEntry>,
    q2: Seq<PoolEntry>,
    before: Set<u128>,
    tree: Set<u128>,
    outs: Set<u128>,
)
    requires
        0 <= k < rs.len(),
        before == desired_ids(rs.subrange(0, k)),
        tree == tree_ids(rs[k].input),
        outs == output_ids(rs[k], rs[k].outputs@.len() as int),
        pool_holds(q0, before),
        grows_by(q1, q0, tree),
        serves_outputs(rs[k]) ==> grows_by(q2, q1, outs),
        !serves_outputs(rs[k]) ==> q2 == q1,
    ensures
        pool_holds(q2, desired_ids(rs.subrange(0, k + 1))),
{
    let pre = rs.subrange(0, k);
    let nxt = rs.subrange(0, k + 1);
    assert(nxt.drop_last() =~= pre);
    assert(nxt.last() == rs[k]);
    let after = before + (tree + if serves_outputs(rs[k]) { outs } else { Set::<u128>::empty() });
    assert(desired_ids(nxt) == after);
    assert forall|id: u128| has_id(q2, id) <==> #[trigger] after.contains(id) by {
        lemma_grows_by_at(q1, q0, tree, id);
        lemma_pool_holds_at(q0, before, id);
        if serves_outputs(rs[k]) {
            lemma_grows_by_at(q2, q1, outs, id);
        }
    }
}

/// Whether `k` is the process that feeds the endpoint `endpoint` of the
/// input `input` of the restream with key `key`.
pub open spec fn input_desc(k: RestreamerKind, input: Input, endpoint: InputEndpoint, key: Seq<char>) -> bool {
    &&& endpoint_fed(input, endpoint)
    &&& k.id_of() == endpoint.id.0
    &&& endpoint.kind == InputEndpointKind::Rtmp ==> (k matches RestreamerKind::Copy(c)
        && c.to_url@ == endpoint_url(InputEndpointKind::Rtmp, key, input.key@)
        && match input.src {
            Some(InputSrc::Remote(u)) => c.from_url@ == u.url.url().href@,
            Some(InputSrc::Failover(f)) => exists|j: int| 0 <= j < f.inputs@.len()
                && has_online_rtmp((#[trigger] f.inputs@[j]).endpoints@)
                && (forall|i: int| 0 <= i < j ==> !has_online_rtmp((#[trigger] f.inputs@[i]).endpoints@))
                && c.from_url@ == endpoint_url(InputEndpointKind::Rtmp, key, f.inputs@[j].key@),
            None => false,
        })
    &&& endpoint.kind == InputEndpointKind::Hls ==> (k matches RestreamerKind::Transcoding(t)
        && t.from_url@ == endpoint_url(InputEndpointKind::Rtmp, key, input.key@)
        && t.to_url@ == endpoint_url(InputEndpointKind::Hls, key, input.key@)
        && is_hls_transcoding(t))
}

/// Whether `k` is the process that re-streams the live stream pulled from
/// `from_url` to the output `output`.
pub open spec fn output_desc(k: RestreamerKind, output: Output, from_url: Seq<char>) -> bool {
    &&& output.enabled
    &&& k.id_of() == output.id.0
    &&& output.mixins@.len() == 0 ==> (k matches RestreamerKind::Copy(c)
        && c.from_url@ == from_url && c.to_url@ == output.dst.url().href@)
    &&& output.mixins@.len() > 0 ==> (k matches RestreamerKind::Mixing(m)
        && m.from_url@ == from_url && m.to_url@ == output.dst.url().href@
        && m.orig_volume == output.volume
        && m.mixins@.len() == output.mixins@.len()
        && forall|j: int| 0 <= j < m.mixins@.len() ==> {
            &&& (#[trigger] m.mixins@[j]).id == output.mixins@[j].id
            &&& crate::state::same_url(m.mixins@[j].url.url(), output.mixins@[j].src.url())
            &&& m.mixins@[j].delay == output.mixins@[j].delay
            &&& m.mixins@[j].volume == output.mixins@[j].volume
            &&& m.mixins@[j].sidechain == output.mixins@[j].sidechain
        })
}

/// Whether `d` feeds some endpoint of the input tree `root` of the restream
/// with key `key`.
pub open spec fn desc_in_tree(d: RestreamerKind, root: Input, key: Seq<char>) -> bool {
    crate::lookup::tree_any(root, |x: Input| exists|j: int| 0 <= j < x.endpoints@.len() && #[trigger] input_desc(d, x, x.endpoints@[j], key))
}

/// Whether `d` is a process the restreams `rs` need: one feeding an
/// endpoint, or one re-streaming to an output of a restream that serves
/// its outputs.
pub open spec fn derivable(rs: Seq<Restream>, d: RestreamerKind) -> bool {
    exists|k: int| 0 <= k < rs.len() && (desc_in_tree(d, (#[trigger] rs[k]).input, rs[k].key@)
        || (serves_outputs(rs[k]) && exists|n: int| 0 <= n < rs[k].outputs@.len()
            && output_desc(d, #[trigger] rs[k].outputs@[n], endpoint_url(InputEndpointKind::Rtmp, rs[k].key@, rs[k].input.key@))))
}

/// Whether `e` is the old process `o` kept for the descriptor `d`: a mixing
/// one takes the volumes of `d`, another one is unchanged.
pub open spec fn kept_as(o: RestreamerKind, e: RestreamerKind, d: RestreamerKind) -> bool {
    match (o, e, d) {
        (RestreamerKind::Mixing(a), RestreamerKind::Mixing(f), RestreamerKind::Mixing(b)) => absorbed(a, f, b),
        _ => e == o,
    }
}

/// Whether the pool entry `e` runs a process the restreams `rs` need: that
/// process itself, started anew (its ID listed in `st`), or the process of
/// the same ID in `orig` that needs no restart to take its parameters, kept.
pub open spec fn entry_ok(e: PoolEntry, orig: Seq<PoolEntry>, st: Seq<u128>, rs: Seq<Restream>) -> bool {
    exists|d: RestreamerKind| #[trigger] derivable(rs, d) && d.id_of() == e.id && {
        ||| e.kind == d && started_has(st, e.id)
        ||| exists|j: int| 0 <= j < orig.len() && (#[trigger] orig[j]).id == e.id
            && !kind_needs_restart(orig[j].kind, d) && kept_as(orig[j].kind, e.kind, d)
    }
}

/// Whether every entry of `np` is `entry_ok`.
pub open spec fn all_ok(np: Seq<PoolEntry>, orig: Seq<PoolEntry>, st: Seq<u128>, rs: Seq<Restream>) -> bool {
    forall|x: int| 0 <= x < np.len() ==> entry_ok(#[trigger] np[x], orig, st, rs)
}

/// Whether every entry of `p` is the entry of `orig` with the same ID.
pub open spec fn pool_matches_orig(p: Seq<PoolEntry>, orig: Seq<PoolEntry>) -> bool {
    forall|x: int, j: int| 0 <= x < p.len() && 0 <= j < orig.len() && (#[trigger] p[x]).id == (#[trigger] orig[j]).id
        ==> p[x] == orig[j]
}

/// An acceptable entry stays so while more processes are started.
proof fn lemma_entry_ok_grow(e: PoolEntry, orig: Seq<PoolEntry>, st0: Seq<u128>, st1: Seq<u128>, rs: Seq<Restream>)
    requires
        entry_ok(e, orig, st0, rs),
        extends(st0, st1),
    ensures
        entry_ok(e, orig, st1, rs),
{
    let d = choose|d: RestreamerKind| #[trigger] derivable(rs, d) && d.id_of() == e.id && {
        ||| e.kind == d && started_has(st0, e.id)
        ||| exists|j: int| 0 <= j < orig.len() && (#[trigger] orig[j]).id == e.id
            && !kind_needs_restart(orig[j].kind, d) && kept_as(orig[j].kind, e.kind, d)
    };
    if e.kind == d && started_has(st0, e.id) {
        let i = choose|i: int| 0 <= i < st0.len() && st0[i] == e.id;
        assert(st1[i] == e.id);
    }
}

/// Putting an acceptable entry keeps every entry acceptable.
proof fn lemma_all_ok_put(np0: Seq<PoolEntry>, np1: Seq<PoolEntry>, e: PoolEntry, orig: Seq<PoolEntry>, st0: Seq<u128>,
    st1: Seq<u128>, rs: Seq<Restream>)
    requires
        all_ok(np0, orig, st0, rs),
        extends(st0, st1),
        entry_ok(e, orig, st1, rs),
        (exists|k: int| 0 <= k < np0.len() && np1 == np0.update(k, e)) || np1 == np0.push(e),
    ensures
        all_ok(np1, orig, st1, rs),
{
    if np1 == np0.push(e) {
        assert forall|x: int| 0 <= x < np1.len() implies entry_ok(#[trigger] np1[x], orig, st1, rs) by {
            if x < np0.len() {
                assert(np1[x] == np0[x]);
                lemma_entry_ok_grow(np0[x], orig, st0, st1, rs);
            }
        }
    } else {
        let k = choose|k: int| 0 <= k < np0.len() && np1 == np0.update(k, e);
        assert forall|x: int| 0 <= x < np1.len() implies entry_ok(#[trigger] np1[x], orig, st1, rs) by {
            if x != k {
                assert(np1[x] == np0[x]);
                lemma_entry_ok_grow(np0[x], orig, st0, st1, rs);
            }
        }
    }
}

/// A process feeding an endpoint of a failover input feeds one of the tree.
proof fn lemma_desc_child(input: Input, s: crate::state::FailoverInputSrc, k: int, d: RestreamerKind, key: Seq<char>)
    requires
        input.src == Some(InputSrc::Failover(s)),
        0 <= k < s.inputs@.len(),
        desc_in_tree(d, s.inputs@[k], key),
    ensures
        desc_in_tree(d, input, key),
{
    crate::lookup::lemma_forest_any_at(s.inputs@, k, |x: Input| exists|j: int| 0 <= j < x.endpoints@.len() && #[trigger] input_desc(d, x, x.endpoints@[j], key));
}

/// Whether `st` lists `id`.
pub open spec fn started_has(st: Seq<u128>, id: u128) -> bool {
    exists|i: int| 0 <= i < st.len() && st[i] == id
}

/// Whether `st` lists `id` (as a stopped process).
pub open spec fn stopped_has(st: Seq<u128>, id: u128) -> bool {
    exists|i: int| 0 <= i < st.len() && st[i] == id
}

/// Whether `st1` is `st0` with possibly more IDs after it.
pub open spec fn extends(st0: Seq<u128>, st1: Seq<u128>) -> bool {
    &&& st1.len() >= st0.len()
    &&& forall|i: int| 0 <= i < st0.len() ==> #[trigger] st1[i] == st0[i]
}

/// Whether every process of the pool `np` was started (listed in `st`) or
/// was running in `pool0`.
pub open spec fn accounted(np: Seq<PoolEntry>, st: Seq<u128>, pool0: Seq<PoolEntry>) -> bool {
    forall|id: u128| #[trigger] has_id(np, id) ==> started_has(st, id) || has_id(pool0, id)
}

/// What `accounted` says of one ID.
proof fn lemma_accounted_at(np: Seq<PoolEntry>, st: Seq<u128>, pool0: Seq<PoolEntry>, id: u128)
    requires
        accounted(np, st, pool0),
    ensures
        has_id(np, id) ==> started_has(st, id) || has_id(pool0, id),
{
}

/// One placement keeps every process accounted for.
proof fn lemma_accounted_step(np0: Seq<PoolEntry>, np1: Seq<PoolEntry>, st0: Seq<u128>, st1: Seq<u128>, pool0: Seq<PoolEntry>, id_new: u128)
    requires
        accounted(np0, st0, pool0),
        extends(st0, st1),
        forall|id: u128| has_id(np1, id) ==> has_id(np0, id) || id == id_new,
        started_has(st1, id_new) || has_id(pool0, id_new),
    ensures
        accounted(np1, st1, pool0),
{
    assert forall|id: u128| #[trigger] has_id(np1, id) implies started_has(st1, id) || has_id(pool0, id) by {
        if id != id_new {
            assert(has_id(np0, id));
            if started_has(st0, id) {
                let i = choose|i: int| 0 <= i < st0.len() && st0[i] == id;
                assert(st1[i] == id);
            }
        }
    }
}

/// Extending is transitive.
proof fn lemma_extends_trans(a: Seq<u128>, b: Seq<u128>, c: Seq<u128>)
    requires
        extends(a, b),
        extends(b, c),
    ensures
        extends(a, c),
{
    assert forall|i: int| 0 <= i < a.len() implies #[trigger] c[i] == a[i] by {
        assert(b[i] == a[i]);
    }
}

impl RestreamersPool {
    /// An empty pool.
    pub fn new() -> (r: Self)
        ensures
            r.pool@.len() == 0,
    {
        RestreamersPool { pool: Vec::new() }
    }

    /// Takes the process for `kind` into `new_pool`: the running one with
    /// the same ID if it need not restart (it takes new volumes in place),
    /// otherwise a new one, listed in `changes.started`.
    fn place(&mut self, kind: RestreamerKind, new_pool: &mut Vec<PoolEntry>, changes: &mut PoolChanges, orig: Ghost<Seq<PoolEntry>>,
        rs: Ghost<Seq<Restream>>)
        requires
            ids_distinct(old(new_pool)@),
            forall|id: u128| has_id(old(self).pool@, id) ==> has_id(orig@, id),
            pool_matches_orig(old(self).pool@, orig@),
            derivable(rs@, kind),
        ensures
            pool_matches_orig(final(self).pool@, orig@),
            all_ok(old(new_pool)@, orig@, old(changes).started@, rs@) ==> all_ok(final(new_pool)@, orig@, final(changes).started@, rs@),
            forall|id: u128| has_id(old(self).pool@, id) ==> has_id(final(self).pool@, id) || has_id(final(new_pool)@, id),
            extends(old(changes).started@, final(changes).started@),
            accounted(old(new_pool)@, old(changes).started@, orig@) ==> accounted(final(new_pool)@, final(changes).started@, orig@),
            ids_distinct(final(new_pool)@),
            has_id(final(new_pool)@, kind.id_of()),
            forall|id: u128| has_id(old(new_pool)@, id) ==> has_id(final(new_pool)@, id),
            forall|id: u128| has_id(final(new_pool)@, id) ==> has_id(old(new_pool)@, id) || id == kind.id_of(),
            final(changes).stopped@ == old(changes).stopped@,
            (forall|i: int| 0 <= i < old(changes).started@.len() ==> has_id(old(new_pool)@, #[trigger] old(changes).started@[i]))
                ==> (forall|i: int| 0 <= i < final(changes).started@.len() ==> has_id(final(new_pool)@, #[trigger] final(changes).started@[i])),
            forall|id: u128| has_id(final(self).pool@, id) ==> has_id(old(self).pool@, id),
    {
        let id = kind.id();
        let ghost pool0 = self.pool@;
        let ghost np0 = new_pool@;
        let ghost st0 = changes.started@;
        let entry = match find_entry(&self.pool, id) {
            Some(k) => {
                let mut old_entry = self.pool.swap_remove(k);
                proof {
                    assert forall|x: u128| has_id(self.pool@, x) implies has_id(pool0, x) by {
                        let w = choose|i: int| 0 <= i < self.pool@.len() && (#[trigger] self.pool@[i]).id == x;
                        if w == k {
                            assert(pool0[pool0.len() - 1].id == x);
                        } else {
                            assert(pool0[w].id == x);
                        }
                    }
                    assert forall|x: u128| has_id(pool0, x) && x != id implies has_id(self.pool@, x) by {
                        let w = choose|i: int| 0 <= i < pool0.len() && (#[trigger] pool0[i]).id == x;
                        if w == pool0.len() - 1 {
                            assert(self.pool@[k as int].id == x);
                        } else {
                            assert(w != k);
                            assert(self.pool@[w].id == x);
                        }
                    }
                }
                proof {
                    assert(has_id(pool0, id));
                    assert forall|x: int, j: int| 0 <= x < self.pool@.len() && 0 <= j < orig@.len()
                        && (#[trigger] self.pool@[x]).id == (#[trigger] orig@[j]).id implies self.pool@[x] == orig@[j] by {
                        if x == k {
                            assert(self.pool@[x] == pool0[pool0.len() - 1]);
                        } else {
                            assert(self.pool@[x] == pool0[x]);
                        }
                    }
                    assert(has_id(orig@, id));
                }
                let ghost oj = choose|j: int| 0 <= j < orig@.len() && (#[trigger] orig@[j]).id == id;
                proof {
                    assert(pool0[k as int].id == id);
                    assert(pool0[k as int] == orig@[oj]);
                    assert(old_entry == orig@[oj]);
                }
                if old_entry.kind.needs_restart(&kind, &mut changes.tunes) {
                    changes.started.push(id);
                    proof {
                        assert(changes.started@[changes.started@.len() - 1] == id);
                    }
                    PoolEntry { id, kind }
                } else {
                    let kept = old_entry.kind;
                    proof {
                        assert(kept_as(orig@[oj].kind, kept, kind));
                        assert(entry_ok(PoolEntry { id, kind: kept }, orig@, changes.started@, rs@));
                    }
                    PoolEntry { id, kind: kept }
                }
            },
            None => {
                changes.started.push(id);
                proof {
                    assert(changes.started@[changes.started@.len() - 1] == id);
                }
                PoolEntry { id, kind }
            },
        };
        proof {
            assert(extends(st0, changes.started@));
            if started_has(changes.started@, id) {
            } else {
                assert(changes.started@ == st0);
                assert(has_id(pool0, id));
            }
            if !started_has(changes.started@, id) {
                assert(has_id(orig@, id));
            }
        }
        proof {
            if started_has(changes.started@, id) && entry.kind == kind {
                assert(entry_ok(entry, orig@, changes.started@, rs@));
            }
            assert(entry_ok(entry, orig@, changes.started@, rs@));
        }
        put_entry(new_pool, entry);
        proof {
            if all_ok(np0, orig@, st0, rs@) {
                lemma_all_ok_put(np0, new_pool@, entry, orig@, st0, changes.started@, rs@);
            }
            if accounted(np0, st0, orig@) {
                lemma_accounted_step(np0, new_pool@, st0, changes.started@, orig@, id);
            }
        }
    }

    /// Fills `new_pool` with the processes feeding the endpoints of the input
    /// tree `input` of the restream with key `key`, inner inputs first.
    fn apply_input(&mut self, key: &RestreamKey, input: &Input, new_pool: &mut Vec<PoolEntry>, changes: &mut PoolChanges, orig: Ghost<Seq<PoolEntry>>,
        rs: Ghost<Seq<Restream>>)
        requires
            ids_distinct(old(new_pool)@),
            forall|id: u128| has_id(old(self).pool@, id) ==> has_id(orig@, id),
            pool_matches_orig(old(self).pool@, orig@),
            forall|d: RestreamerKind| #[trigger] desc_in_tree(d, *input, key@) ==> derivable(rs@, d),
        ensures
            pool_matches_orig(final(self).pool@, orig@),
            all_ok(old(new_pool)@, orig@, old(changes).started@, rs@) ==> all_ok(final(new_pool)@, orig@, final(changes).started@, rs@),
            forall|id: u128| has_id(old(self).pool@, id) ==> has_id(final(self).pool@, id) || has_id(final(new_pool)@, id),
            extends(old(changes).started@, final(changes).started@),
            accounted(old(new_pool)@, old(changes).started@, orig@) ==> accounted(final(new_pool)@, final(changes).started@, orig@),
            ids_distinct(final(new_pool)@),
            forall|id: u128| has_id(old(new_pool)@, id) ==> has_id(final(new_pool)@, id),
            final(changes).stopped@ == old(changes).stopped@,
            (forall|i: int| 0 <= i < old(changes).started@.len() ==> has_id(old(new_pool)@, #[trigger] old(changes).started@[i]))
                ==> (forall|i: int| 0 <= i < final(changes).started@.len() ==> has_id(final(new_pool)@, #[trigger] final(changes).started@[i])),
            forall|id: u128| has_id(final(self).pool@, id) ==> has_id(old(self).pool@, id),
            grows_by(final(new_pool)@, old(new_pool)@, tree_ids(*input)),
        decreases input,
    {
        match &input.src {
            Some(InputSrc::Failover(s)) => {
                proof {
                    assert(decreases_to!(input => input.src));
                    assert(decreases_to!(input.src => input.src->Some_0));
                    assert(decreases_to!(input.src->Some_0 => *s));
                    assert(decreases_to!(*s => s.inputs));
                    assert(decreases_to!(s.inputs => s.inputs@));
                }
                let ghost inner_start = new_pool@;
                let mut k: usize = 0;
                while k < s.inputs.len()
                    invariant
                        k <= s.inputs@.len(),
                        decreases_to!(input => s.inputs@),
                        ids_distinct(new_pool@),
                        forall|id: u128| has_id(inner_start, id) ==> has_id(new_pool@, id),
                        changes.stopped@ == old(changes).stopped@,
                        (forall|i: int| 0 <= i < old(changes).started@.len() ==> has_id(inner_start, #[trigger] old(changes).started@[i]))
                            ==> (forall|i: int| 0 <= i < changes.started@.len() ==> has_id(new_pool@, #[trigger] changes.started@[i])),
                        forall|id: u128| has_id(self.pool@, id) ==> has_id(old(self).pool@, id),
                        forall|id: u128| has_id(old(self).pool@, id) ==> has_id(self.pool@, id) || has_id(new_pool@, id),
                        extends(old(changes).started@, changes.started@),
                        accounted(old(new_pool)@, old(changes).started@, orig@) ==> accounted(new_pool@, changes.started@, orig@),
                        forall|id: u128| has_id(self.pool@, id) ==> has_id(orig@, id),
                        input.src == Some(InputSrc::Failover(*s)),
                        grows_by(new_pool@, inner_start, forest_ids(s.inputs@.subrange(0, k as int))),
                        pool_matches_orig(self.pool@, orig@),
                        all_ok(old(new_pool)@, orig@, old(changes).started@, rs@) ==> all_ok(new_pool@, orig@, changes.started@, rs@),
                        forall|d: RestreamerKind| #[trigger] desc_in_tree(d, *input, key@) ==> derivable(rs@, d),
                    decreases s.inputs@.len() - k,
                {
                    proof {
                        assert(decreases_to!(s.inputs@ => s.inputs@[k as int]));
                    }
                    let ghost b = new_pool@;
                    let ghost st_b = changes.started@;
                    proof {
                        assert forall|d: RestreamerKind| #[trigger] desc_in_tree(d, s.inputs@[k as int], key@) implies derivable(rs@, d) by {
                            lemma_desc_child(*input, *s, k as int, d, key@);
                        }
                    }
                    self.apply_input(key, &s.inputs[k], new_pool, changes, orig, rs);
                    proof {
                        lemma_extends_trans(old(changes).started@, st_b, changes.started@);
                    }
                    proof {
                        let pre = s.inputs@.subrange(0, k as int);
                        let nxt = s.inputs@.subrange(0, k + 1);
                        assert(nxt.drop_last() =~= pre);
                        assert(nxt.last() == s.inputs@[k as int]);
                        assert(forest_ids(nxt) == forest_ids(pre) + tree_ids(s.inputs@[k as int]));
                        assert forall|id: u128| has_id(new_pool@, id) <==> has_id(inner_start, id) || #[trigger] forest_ids(nxt).contains(id) by {
                            assert(has_id(new_pool@, id) <==> has_id(b, id) || tree_ids(s.inputs@[k as int]).contains(id));
                            assert(has_id(b, id) <==> has_id(inner_start, id) || forest_ids(pre).contains(id));
                        }
                    }
                    k = k + 1;
                }
                proof {
                    assert(s.inputs@.subrange(0, k as int) =~= s.inputs@);
                    assert(src_ids(input.src) == forest_ids(s.inputs@));
                    assert forall|id: u128| has_id(new_pool@, id) <==> has_id(old(new_pool)@, id) || #[trigger] src_ids(input.src).contains(id) by {
                        assert(has_id(new_pool@, id) <==> has_id(inner_start, id) || forest_ids(s.inputs@.subrange(0, k as int)).contains(id));
                    }
                }
            },
            _ => {
                proof {
                    assert(src_ids(input.src) =~= Set::<u128>::empty());
                    assert forall|id: u128| has_id(new_pool@, id) <==> has_id(old(new_pool)@, id) || #[trigger] src_ids(input.src).contains(id) by {}
                }
            },
        }
        let ghost own_start = new_pool@;
        proof {
            assert(own_ids(*input, 0) =~= Set::<u128>::empty());
        }
        let mut k: usize = 0;
        while k < input.endpoints.len()
            invariant
                k <= input.endpoints@.len(),
                ids_distinct(new_pool@),
                forall|id: u128| has_id(own_start, id) ==> has_id(new_pool@, id),
                changes.stopped@ == old(changes).stopped@,
                (forall|i: int| 0 <= i < old(changes).started@.len() ==> has_id(old(new_pool)@, #[trigger] old(changes).started@[i]))
                    ==> (forall|i: int| 0 <= i < changes.started@.len() ==> has_id(new_pool@, #[trigger] changes.started@[i])),
                forall|id: u128| has_id(old(new_pool)@, id) ==> has_id(new_pool@, id),
                forall|id: u128| has_id(self.pool@, id) ==> has_id(old(self).pool@, id),
                forall|id: u128| has_id(old(self).pool@, id) ==> has_id(self.pool@, id) || has_id(new_pool@, id),
                extends(old(changes).started@, changes.started@),
                accounted(old(new_pool)@, old(changes).started@, orig@) ==> accounted(new_pool@, changes.started@, orig@),
                forall|id: u128| has_id(self.pool@, id) ==> has_id(orig@, id),
                grows_by(new_pool@, own_start, own_ids(*input, k as int)),
                pool_matches_orig(self.pool@, orig@),
                all_ok(old(new_pool)@, orig@, old(changes).started@, rs@) ==> all_ok(new_pool@, orig@, changes.started@, rs@),
                forall|d: RestreamerKind| #[trigger] desc_in_tree(d, *input, key@) ==> derivable(rs@, d),
            decreases input.endpoints@.len() - k,
        {
            let ghost before = new_pool@;
            let fed = RestreamerKind::from_input(input, &input.endpoints[k], key);
            proof {
                assert(fed is Some <==> endpoint_fed(*input, input.endpoints@[k as int]));
            }
            let ghost fed_id: u128 = if fed is Some { fed->Some_0.id_of() } else { 0 };
            match fed {
                Some(kind) => {
                    let ghost st_b = changes.started@;
                    proof {
                        let f = |x: Input| exists|j: int| 0 <= j < x.endpoints@.len() && #[trigger] input_desc(kind, x, x.endpoints@[j], key@);
                        assert(input_desc(kind, *input, input.endpoints@[k as int], key@));
                        assert(f(*input));
                        assert(desc_in_tree(kind, *input, key@));
                    }
                    self.place(kind, new_pool, changes, orig, rs);
                    proof {
                        lemma_extends_trans(old(changes).started@, st_b, changes.started@);
                    }
                },
                None => {},
            }
            proof {
                assert forall|id: u128| #[trigger] own_ids(*input, k + 1).contains(id) <==>
                    own_ids(*input, k as int).contains(id) || (input.endpoints@[k as int].id.0 == id && endpoint_fed(*input, input.endpoints@[k as int])) by {
                    if own_ids(*input, k + 1).contains(id) {
                        let j = choose|j: int| 0 <= j < k + 1 && j < input.endpoints@.len()
                            && (#[trigger] input.endpoints@[j]).id.0 == id && endpoint_fed(*input, input.endpoints@[j]);
                        if j < k {
                            assert(own_ids(*input, k as int).contains(id));
                        }
                    }
                }
                assert forall|id: u128| has_id(new_pool@, id) <==> has_id(own_start, id) || #[trigger] own_ids(*input, k + 1).contains(id) by {
                    assert(has_id(before, id) <==> has_id(own_start, id) || own_ids(*input, k as int).contains(id));
                    if fed is Some {
                        assert(fed_id == input.endpoints@[k as int].id.0);
                    }
                }
            }
            k = k + 1;
        }
        proof {
            assert(own_ids(*input, k as int) =~= own_ids(*input, input.endpoints@.len() as int));
            assert forall|id: u128| has_id(new_pool@, id) <==> has_id(old(new_pool)@, id) || #[trigger] tree_ids(*input).contains(id) by {
                assert(has_id(own_start, id) <==> has_id(old(new_pool)@, id) || src_ids(input.src).contains(id));
                assert(has_id(new_pool@, id) <==> has_id(own_start, id) || own_ids(*input, k as int).contains(id));
            }
        }
    }

    /// Fills `new_pool` with the processes re-streaming the live stream
    /// pulled from `input_url` to the enabled outputs of `r`.
    fn apply_outputs(&mut self, r: &Restream, input_url: &str, new_pool: &mut Vec<PoolEntry>, changes: &mut PoolChanges, ports: &mut PortAllocator,
        orig: Ghost<Seq<PoolEntry>>, rs: Ghost<Seq<Restream>>, kidx: Ghost<int>)
        requires
            ids_distinct(old(new_pool)@),
            forall|id: u128| has_id(old(self).pool@, id) ==> has_id(orig@, id),
            pool_matches_orig(old(self).pool@, orig@),
            0 <= kidx@ < rs@.len(),
            rs@[kidx@] == *r,
            serves_outputs(*r),
            input_url@ == endpoint_url(InputEndpointKind::Rtmp, r.key@, r.input.key@),
        ensures
            pool_matches_orig(final(self).pool@, orig@),
            all_ok(old(new_pool)@, orig@, old(changes).started@, rs@) ==> all_ok(final(new_pool)@, orig@, final(changes).started@, rs@),
            forall|id: u128| has_id(old(self).pool@, id) ==> has_id(final(self).pool@, id) || has_id(final(new_pool)@, id),
            extends(old(changes).started@, final(changes).started@),
            accounted(old(new_pool)@, old(changes).started@, orig@) ==> accounted(final(new_pool)@, final(changes).started@, orig@),
            ids_distinct(final(new_pool)@),
            final(changes).stopped@ == old(changes).stopped@,
            (forall|i: int| 0 <= i < old(changes).started@.len() ==> has_id(old(new_pool)@, #[trigger] old(changes).started@[i]))
                ==> (forall|i: int| 0 <= i < final(changes).started@.len() ==> has_id(final(new_pool)@, #[trigger] final(changes).started@[i])),
            forall|id: u128| has_id(final(self).pool@, id) ==> has_id(old(self).pool@, id),
            grows_by(final(new_pool)@, old(new_pool)@, output_ids(*r, r.outputs@.len() as int)),
    {
        let ghost q1 = new_pool@;
        proof {
            assert(output_ids(*r, 0) =~= Set::<u128>::empty());
        }
        let mut j: usize = 0;
        while j < r.outputs.len()
            invariant
                j <= r.outputs@.len(),
                ids_distinct(new_pool@),
                changes.stopped@ == old(changes).stopped@,
                (forall|i: int| 0 <= i < old(changes).started@.len() ==> has_id(old(new_pool)@, #[trigger] old(changes).started@[i]))
                    ==> (forall|i: int| 0 <= i < changes.started@.len() ==> has_id(new_pool@, #[trigger] changes.started@[i])),
                forall|id: u128| has_id(q1, id) ==> has_id(new_pool@, id),
                q1 == old(new_pool)@,
                forall|id: u128| has_id(self.pool@, id) ==> has_id(old(self).pool@, id),
                forall|id: u128| has_id(old(self).pool@, id) ==> has_id(self.pool@, id) || has_id(new_pool@, id),
                extends(old(changes).started@, changes.started@),
                accounted(old(new_pool)@, old(changes).started@, orig@) ==> accounted(new_pool@, changes.started@, orig@),
                forall|id: u128| has_id(self.pool@, id) ==> has_id(orig@, id),
                grows_by(new_pool@, q1, output_ids(*r, j as int)),
                0 <= kidx@ < rs@.len(),
                rs@[kidx@] == *r,
                serves_outputs(*r),
                input_url@ == endpoint_url(InputEndpointKind::Rtmp, r.key@, r.input.key@),
                pool_matches_orig(self.pool@, orig@),
                all_ok(old(new_pool)@, orig@, old(changes).started@, rs@) ==> all_ok(new_pool@, orig@, changes.started@, rs@),
            decreases r.outputs@.len() - j,
        {
            let ghost bj = new_pool@;
            let prev = match find_entry(&self.pool, r.outputs[j].id.0) {
                Some(n) => Some(&self.pool[n].kind),
                None => None,
            };
            let made = RestreamerKind::from_output(&r.outputs[j], input_url, prev, ports);
            let ghost made_id: u128 = if made is Some { made->Some_0.id_of() } else { 0 };
            match made {
                Some(kind) => {
                    let ghost st_b = changes.started@;
                    proof {
                        assert(output_desc(kind, r.outputs@[j as int], input_url@));
                        assert(output_desc(kind, rs@[kidx@].outputs@[j as int], endpoint_url(InputEndpointKind::Rtmp, rs@[kidx@].key@, rs@[kidx@].input.key@)));
                        assert(derivable(rs@, kind));
                    }
                    self.place(kind, new_pool, changes, orig, rs);
                    proof {
                        lemma_extends_trans(old(changes).started@, st_b, changes.started@);
                    }
                },
                None => {},
            }
            proof {
                assert forall|id: u128| #[trigger] output_ids(*r, j + 1).contains(id) <==>
                    output_ids(*r, j as int).contains(id) || (r.outputs@[j as int].id.0 == id && r.outputs@[j as int].enabled) by {
                    if output_ids(*r, j + 1).contains(id) {
                        let i = choose|i: int| 0 <= i < j + 1 && i < r.outputs@.len()
                            && (#[trigger] r.outputs@[i]).id.0 == id && r.outputs@[i].enabled;
                        if i < j {
                            assert(output_ids(*r, j as int).contains(id));
                        }
                    }
                }
                assert forall|id: u128| has_id(new_pool@, id) <==> has_id(q1, id) || #[trigger] output_ids(*r, j + 1).contains(id) by {
                    assert(has_id(bj, id) <==> has_id(q1, id) || output_ids(*r, j as int).contains(id));
                }
            }
            j = j + 1;
        }
    }

    /// Reconciles the pool against the restreams: every endpoint and enabled
    /// output that needs a process gets one, keeping running processes whose
    /// parameters allow it. Processes no longer needed are listed in
    /// `stopped` and leave the pool.
    pub fn apply(&mut self, restreams: &Vec<Restream>, ports: &mut PortAllocator) -> (changes: PoolChanges)
        requires
            ids_distinct(old(self).pool@),
        ensures
            ids_distinct(final(self).pool@),
            forall|k: int| 0 <= k < changes.started@.len() ==> has_id(final(self).pool@, #[trigger] changes.started@[k]),
            forall|k: int| 0 <= k < changes.stopped@.len() ==> has_id(old(self).pool@, #[trigger] changes.stopped@[k])
                && !has_id(final(self).pool@, changes.stopped@[k]),
            pool_holds(final(self).pool@, desired_ids(restreams@)),
            forall|k: int| 0 <= k < final(self).pool@.len() ==> started_has(changes.started@, (#[trigger] final(self).pool@[k]).id)
                || has_id(old(self).pool@, final(self).pool@[k].id),
            forall|id: u128| #[trigger] has_id(old(self).pool@, id) && !has_id(final(self).pool@, id) ==> stopped_has(changes.stopped@, id),
            forall|x: int| 0 <= x < final(self).pool@.len() ==> entry_ok(#[trigger] final(self).pool@[x], old(self).pool@, changes.started@, restreams@),
    {
        let mut changes = PoolChanges { started: Vec::new(), stopped: Vec::new(), tunes: Vec::new() };
        let mut new_pool: Vec<PoolEntry> = Vec::new();
        let ghost orig = self.pool@;
        let mut k: usize = 0;
        proof {
            assert forall|i: int| 0 <= i < self.pool@.len() implies has_id(orig, (#[trigger] self.pool@[i]).id) by {
                assert(orig[i].id == self.pool@[i].id);
            }
            assert forall|x: int, j: int| 0 <= x < self.pool@.len() && 0 <= j < orig.len()
                && (#[trigger] self.pool@[x]).id == (#[trigger] orig[j]).id implies self.pool@[x] == orig[j] by {
                if x != j {
                    if x < j {
                        assert(self.pool@[x].id != self.pool@[j].id);
                    } else {
                        assert(self.pool@[j].id != self.pool@[x].id);
                    }
                }
            }
        }
        while k < restreams.len()
            invariant
                k <= restreams@.len(),
                ids_distinct(new_pool@),
                changes.stopped@.len() == 0,
                forall|i: int| 0 <= i < changes.started@.len() ==> has_id(new_pool@, #[trigger] changes.started@[i]),
                forall|id: u128| has_id(self.pool@, id) ==> has_id(orig, id),
                pool_holds(new_pool@, desired_ids(restreams@.subrange(0, k as int))),
                accounted(new_pool@, changes.started@, orig),
                forall|id: u128| has_id(orig, id) ==> has_id(self.pool@, id) || has_id(new_pool@, id),
                pool_matches_orig(self.pool@, orig),
                all_ok(new_pool@, orig, changes.started@, restreams@),
            decreases restreams@.len() - k,
        {
            let r = &restreams[k];
            let ghost q0 = new_pool@;
            let ghost pool_before = self.pool@;
            proof {
                assert forall|d: RestreamerKind| #[trigger] desc_in_tree(d, r.input, r.key@) implies derivable(restreams@, d) by {
                    assert(restreams@[k as int] == *r);
                }
            }
            self.apply_input(&r.key, &r.input, &mut new_pool, &mut changes, Ghost(orig), Ghost(restreams@));
            proof {
                assert forall|id: u128| has_id(orig, id) implies has_id(self.pool@, id) || has_id(new_pool@, id) by {
                    if has_id(pool_before, id) {
                    } else {
                        assert(has_id(q0, id));
                    }
                }
            }
            let ghost q1 = new_pool@;
            proof {
                assert(restreams@.subrange(0, k + 1).drop_last() =~= restreams@.subrange(0, k as int));
                assert(output_ids(*r, 0) =~= Set::<u128>::empty());
            }
            if r.input.enabled && r.input.is_ready_to_serve() {
                match r.main_input_rtmp_endpoint_url() {
                    Some(input_url) => {
                        proof {
                            assert(serves_outputs(*r));
                        }
                        let ghost q2 = new_pool@;
                        let ghost pool_mid = self.pool@;
                        self.apply_outputs(r, input_url.as_str(), &mut new_pool, &mut changes, ports, Ghost(orig), Ghost(restreams@), Ghost(k as int));
                        proof {
                            assert forall|id: u128| has_id(orig, id) implies has_id(self.pool@, id) || has_id(new_pool@, id) by {
                                lemma_grows_by_at(new_pool@, q2, output_ids(*r, r.outputs@.len() as int), id);
                                if has_id(pool_mid, id) {
                                } else {
                                    assert(has_id(q2, id));
                                }
                            }
                        }
                        proof {
                            lemma_desired_step(restreams@, k as int, q0, q1, new_pool@, desired_ids(restreams@.subrange(0, k as int)), tree_ids(r.input), output_ids(*r, r.outputs@.len() as int));
                        }
                    },
                    None => {
                        proof {
                            assert(!serves_outputs(*r));
                            lemma_desired_step(restreams@, k as int, q0, q1, new_pool@, desired_ids(restreams@.subrange(0, k as int)), tree_ids(r.input), output_ids(*r, r.outputs@.len() as int));
                        }
                    },
                }
            } else {
                proof {
                    assert(!serves_outputs(*r));
                    lemma_desired_step(restreams@, k as int, q0, q1, new_pool@, desired_ids(restreams@.subrange(0, k as int)), tree_ids(r.input), output_ids(*r, r.outputs@.len() as int));
                }
            }
            k = k + 1;
        }
        proof {
            assert(restreams@.subrange(0, k as int) =~= restreams@);
        }
        let leftover = crate::state::take_vec(&mut self.pool);
        let ghost all = leftover@;
        proof {
            assert forall|i: int| 0 <= i < all.len() implies has_id(orig, (#[trigger] all[i]).id) by {
                assert(has_id(all, all[i].id));
            }
        }
        let mut rest = leftover;
        proof {
            assert(rest@ == all);
        }
        while rest.len() > 0
            invariant
                forall|i: int| 0 <= i < changes.stopped@.len() ==> !has_id(new_pool@, #[trigger] changes.stopped@[i]),
                forall|i: int| 0 <= i < changes.stopped@.len() ==> has_id(orig, #[trigger] changes.stopped@[i]),
                forall|i: int| 0 <= i < rest@.len() ==> has_id(orig, (#[trigger] rest@[i]).id),
                pool_holds(new_pool@, desired_ids(restreams@)),
                forall|i: int| 0 <= i < changes.started@.len() ==> has_id(new_pool@, #[trigger] changes.started@[i]),
                ids_distinct(new_pool@),
                accounted(new_pool@, changes.started@, orig),
                forall|id: u128| has_id(orig, id) ==> has_id(rest@, id) || has_id(new_pool@, id) || stopped_has(changes.stopped@, id),
                all_ok(new_pool@, orig, changes.started@, restreams@),
            decreases rest@.len(),
        {
            let ghost r0 = rest@;
            let e = rest.remove(0);
            assert(has_id(orig, e.id));
            assert forall|i: int| 0 <= i < rest@.len() implies has_id(orig, (#[trigger] rest@[i]).id) by {
                assert(rest@[i] == r0[i + 1]);
            }
            let ghost s0 = changes.stopped@;
            if find_entry(&new_pool, e.id).is_none() {
                changes.stopped.push(e.id);
            }
            proof {
                assert forall|id: u128| has_id(orig, id) implies has_id(rest@, id) || has_id(new_pool@, id)
                    || stopped_has(changes.stopped@, id) by {
                    if has_id(r0, id) && !has_id(new_pool@, id) && !stopped_has(s0, id) {
                        let i = choose|i: int| 0 <= i < r0.len() && (#[trigger] r0[i]).id == id;
                        if i == 0 {
                            assert(changes.stopped@[changes.stopped@.len() - 1] == id);
                        } else {
                            assert(rest@[i - 1] == r0[i]);
                        }
                    }
                    if stopped_has(s0, id) {
                        let i = choose|i: int| 0 <= i < s0.len() && s0[i] == id;
                        assert(changes.stopped@[i] == id);
                    }
                }
            }
        }
        proof {
            assert forall|k: int| 0 <= k < new_pool@.len() implies started_has(changes.started@, (#[trigger] new_pool@[k]).id)
                || has_id(orig, new_pool@[k].id) by {
                assert(has_id(new_pool@, new_pool@[k].id));
                lemma_accounted_at(new_pool@, changes.started@, orig, new_pool@[k].id);
            }
        }
        self.pool = new_pool;
        changes
    }
}

} // verus!
