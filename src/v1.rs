//! Version 1 of the shareable (exportable and importable) specification of
//! the application's state.
use vstd::prelude::*;
use crate::ids::{InputId, InputKey, Label, OutputId, RestreamId, RestreamKey};
use crate::state::InputEndpointKind;
use crate::urls::{InputSrcUrl, MixinSrcUrl, OutputDstUrl, UrlParts};
use crate::volume::{Delay, VolumeLevel, ORIGIN_LEVEL};
use crate::text::str_eq;

verus! {

/// Shareable specification of the whole state.
#[derive(Debug)]
pub struct Spec {
    /// Server settings to be applied.
    pub settings: Option<Settings>,
    /// Restreams to be applied.
    pub restreams: Vec<Restream>,
}

/// Shareable specification of the server settings.
#[derive(Clone, Debug)]
pub struct Settings {
    /// Title of the server.
    pub title: Option<String>,
    /// Whether deletion of inputs and outputs is to be confirmed.
    pub delete_confirmation: Option<bool>,
    /// Whether enabling and disabling of inputs and outputs is to be
    /// confirmed.
    pub enable_confirmation: Option<bool>,
}

/// Shareable specification of a restream.
#[derive(Debug)]
pub struct Restream {
    /// ID of the restream, if it has one.
    pub id: Option<RestreamId>,
    /// Unique key of the restream.
    pub key: RestreamKey,
    /// Optional label of the restream.
    pub label: Option<Label>,
    /// Input that a live stream is received from.
    pub input: Input,
    /// Outputs that a live stream is re-streamed to.
    pub outputs: Vec<Output>,
}

/// Shareable specification of an input.
#[derive(Debug)]
pub struct Input {
    /// ID of the input, if it has one.
    pub id: Option<InputId>,
    /// Key of the input.
    pub key: InputKey,
    /// Endpoints serving the live stream.
    pub endpoints: Vec<InputEndpoint>,
    /// Source to pull a live stream from; none means it is pushed.
    pub src: Option<InputSrc>,
    /// Whether the input is enabled.
    pub enabled: bool,
}

/// Shareable specification of an input endpoint.
#[derive(Debug)]
pub struct InputEndpoint {
    /// Kind of the endpoint.
    pub kind: InputEndpointKind,
    /// Optional label of the endpoint.
    pub label: Option<Label>,
}

/// Shareable specification of an input source.
#[derive(Debug)]
pub enum InputSrc {
    /// Remote endpoint given by its URL.
    RemoteUrl(InputSrcUrl),
    /// Several inputs forming a failover source.
    FailoverInputs(Vec<Input>),
}

/// Shareable specification of an output.
#[derive(Debug)]
pub struct Output {
    /// ID of the output, if it has one.
    pub id: Option<OutputId>,
    /// Downstream URL to re-stream a live stream onto.
    pub dst: OutputDstUrl,
    /// Optional label of the output.
    pub label: Option<Label>,
    /// URL of a preview of the stream.
    pub preview_url: Option<UrlParts>,
    /// Volume rate of the output's own audio.
    pub volume: Volume,
    /// Mixins to mix the output with.
    pub mixins: Vec<Mixin>,
    /// Whether the output is enabled.
    pub enabled: bool,
}

/// Shareable specification of a mixin.
#[derive(Clone, Debug)]
pub struct Mixin {
    /// URL of the source to be mixed.
    pub src: MixinSrcUrl,
    /// Volume rate of the mixin's audio.
    pub volume: Volume,
    /// Delay before the mixin is mixed in.
    pub delay: Delay,
    /// Whether the output audio is side-chained with this mixin.
    pub sidechain: bool,
}

/// Shareable specification of a volume.
#[derive(Clone, Copy, Debug, PartialEq, Eq, Structural)]
pub struct Volume {
    /// Volume level, in percents.
    pub level: VolumeLevel,
    /// Whether the volume is muted.
    pub muted: bool,
}

impl Volume {
    /// Indicates whether this volume is the original loudness, not muted.
    pub fn is_origin(&self) -> (r: bool)
        ensures
            r == (self.level.percents() == ORIGIN_LEVEL && !self.muted),
    {
        self.level.level() == ORIGIN_LEVEL && !self.muted
    }
}

impl Default for Volume {
    fn default() -> (r: Self)
        ensures
            r.level.percents() == ORIGIN_LEVEL,
            !r.muted,
    {
        Volume { level: VolumeLevel::origin(), muted: false }
    }
}

/// Backup input of a restream.
#[derive(Debug)]
pub struct BackupInput {
    /// Key of the backup input.
    pub key: InputKey,
    /// URL to pull a live stream from for the backup endpoint.
    pub src: Option<InputSrcUrl>,
}

/// Reason for refusing a specification.
#[derive(Clone, Copy, Debug, PartialEq, Eq, Structural)]
pub enum SpecError {
    /// Two restreams share a key.
    DuplicateRestreamKey,
    /// Two outputs of a restream share a destination.
    DuplicateOutputDst,
    /// Two mixins of an output share a source.
    DuplicateMixinSrc,
    /// An output has more than five mixins.
    TooManyMixins,
    /// An output has more than three voice-chat mixins.
    TooManyVoiceChatMixins,
    /// An output has more than one side-chained mixin.
    MultipleSidechains,
    /// Two endpoints of an input share a kind.
    DuplicateEndpointKind,
    /// An input has no RTMP endpoint.
    NoRtmpEndpoint,
    /// Two inputs of a failover tree share a key.
    DuplicateInputKey,
    /// Two remote sources of a failover tree share a URL.
    DuplicateRemoteUrl,
}

/// Largest number of mixins of an output.
pub const MAX_MIXINS: usize = 5;

/// Largest number of voice-chat mixins of an output.
pub const MAX_VOICE_CHAT_MIXINS: usize = 3;

/// Whether the elements of `s` are pairwise distinct.
pub open spec fn all_distinct<T>(s: Seq<T>) -> bool {
    forall|i: int, j: int| 0 <= i < j < s.len() ==> s[i] != s[j]
}

/// Number of voice-chat sources among `srcs`.
pub open spec fn voice_chat_count(srcs: Seq<Seq<char>>) -> nat
    decreases srcs.len(),
{
    if srcs.len() == 0 {
        0
    } else {
        voice_chat_count(srcs.drop_last()) + if srcs.last() == "ts"@ { 1nat } else { 0nat }
    }
}

/// Number of `true` flags in `flags`.
pub open spec fn true_count(flags: Seq<bool>) -> nat
    decreases flags.len(),
{
    if flags.len() == 0 {
        0
    } else {
        true_count(flags.drop_last()) + if flags.last() { 1nat } else { 0nat }
    }
}

/// Whether mixins with the given source URLs, source schemes and side-chain
/// flags are within limits: at most five, sources distinct, at most three
/// voice-chat ones and at most one side-chained.
pub open spec fn mixin_limits_ok(hrefs: Seq<Seq<char>>, schemes: Seq<Seq<char>>, sidechains: Seq<bool>) -> bool {
    &&& hrefs.len() <= MAX_MIXINS
    &&& all_distinct(hrefs)
    &&& voice_chat_count(schemes) <= MAX_VOICE_CHAT_MIXINS
    &&& true_count(sidechains) <= 1
}

/// Source URLs of the mixins `m`.
pub open spec fn mixin_hrefs(m: Seq<Mixin>) -> Seq<Seq<char>> {
    m.map_values(|x: Mixin| x.src.url().href@)
}

/// Source schemes of the mixins `m`.
pub open spec fn mixin_schemes(m: Seq<Mixin>) -> Seq<Seq<char>> {
    m.map_values(|x: Mixin| x.src.url().scheme@)
}

/// Side-chain flags of the mixins `m`.
pub open spec fn mixin_sidechains(m: Seq<Mixin>) -> Seq<bool> {
    m.map_values(|x: Mixin| x.sidechain)
}

/// Whether the mixins `m` of an output are within limits.
pub open spec fn mixins_ok(m: Seq<Mixin>) -> bool {
    mixin_limits_ok(mixin_hrefs(m), mixin_schemes(m), mixin_sidechains(m))
}

/// The characters of each string of `s`.
pub open spec fn string_views(s: Seq<String>) -> Seq<Seq<char>> {
    s.map_values(|x: String| x@)
}

/// Strings whose characters are the first `n` items of `h` are pairwise
/// distinct exactly when those items are.
pub proof fn lemma_distinct_views(s: Seq<String>, h: Seq<Seq<char>>, n: int)
    requires
        0 <= n <= s.len(),
        n <= h.len(),
        forall|j: int| 0 <= j < n ==> (#[trigger] s[j])@ == h[j],
    ensures
        (forall|i: int, j: int| 0 <= i < j < n ==> s[i]@ != s[j]@) == all_distinct(h.subrange(0, n)),
{
    if forall|i: int, j: int| 0 <= i < j < n ==> s[i]@ != s[j]@ {
        assert forall|i: int, j: int| 0 <= i < j < h.subrange(0, n).len() implies h.subrange(0, n)[i] != h.subrange(0, n)[j] by {
            assert(s[i]@ != s[j]@);
        }
    } else {
        let (i, j) = choose|i: int, j: int| #![trigger s[i], s[j]] 0 <= i < j < n && s[i]@ == s[j]@;
        assert(h.subrange(0, n)[i] == h.subrange(0, n)[j]);
    }
}

/// Finds whether `s[..k]` holds `s[k]`.
fn seen_before(s: &Vec<String>, k: usize) -> (r: bool)
    requires
        k < s@.len(),
    ensures
        r == exists|i: int| 0 <= i < k && s@[i]@ == s@[k as int]@,
{
    let mut i: usize = 0;
    while i < k
        invariant
            i <= k < s@.len(),
            forall|j: int| 0 <= j < i ==> s@[j]@ != s@[k as int]@,
        decreases k - i,
    {
        if s[i] == s[k] {
            return true;
        }
        i = i + 1;
    }
    false
}

/// Finds whether the strings of `s` are pairwise distinct.
pub fn strings_distinct(s: &Vec<String>) -> (r: bool)
    ensures
        r == (forall|i: int, j: int| 0 <= i < j < s@.len() ==> s@[i]@ != s@[j]@),
{
    let mut k: usize = 0;
    while k < s.len()
        invariant
            k <= s@.len(),
            forall|i: int, j: int| 0 <= i < j < k ==> s@[i]@ != s@[j]@,
        decreases s@.len() - k,
    {
        if seen_before(s, k) {
            return false;
        }
        k = k + 1;
    }
    true
}

impl Output {
    /// Checks the mixins of an output: at most five, sources distinct, at
    /// most three voice-chat ones and at most one side-chained.
    pub fn check_mixins(mixins: &Vec<Mixin>) -> (r: Result<(), SpecError>)
        ensures
            r is Ok <==> mixins_ok(mixins@),
            r == Err::<(), SpecError>(SpecError::TooManyMixins) <==> mixins@.len() > MAX_MIXINS,
            r == Err::<(), SpecError>(SpecError::DuplicateMixinSrc) ==> !all_distinct(mixin_hrefs(mixins@)),
            r == Err::<(), SpecError>(SpecError::TooManyVoiceChatMixins) ==> voice_chat_count(mixin_schemes(mixins@)) > MAX_VOICE_CHAT_MIXINS,
            r == Err::<(), SpecError>(SpecError::MultipleSidechains) ==> true_count(mixin_sidechains(mixins@)) > 1,
    {
        if mixins.len() > MAX_MIXINS {
            return Err(SpecError::TooManyMixins);
        }
        let ghost hrefs = mixin_hrefs(mixins@);
        let ghost schemes = mixin_schemes(mixins@);
        let ghost sides = mixin_sidechains(mixins@);
        let mut srcs: Vec<String> = Vec::new();
        let mut ts_count: usize = 0;
        let mut sidechain_count: usize = 0;
        let mut k: usize = 0;
        while k < mixins.len()
            invariant
                k <= mixins@.len() <= MAX_MIXINS,
                hrefs == mixin_hrefs(mixins@),
                schemes == mixin_schemes(mixins@),
                sides == mixin_sidechains(mixins@),
                srcs@.len() == k,
                forall|j: int| 0 <= j < k ==> (#[trigger] srcs@[j])@ == hrefs[j],
                all_distinct(hrefs.subrange(0, k as int)),
                ts_count == voice_chat_count(schemes.subrange(0, k as int)),
                ts_count <= MAX_VOICE_CHAT_MIXINS,
                sidechain_count == true_count(sides.subrange(0, k as int)),
                sidechain_count <= 1,
            decreases mixins@.len() - k,
        {
            let m = &mixins[k];
            let ghost before = srcs@;
            srcs.push(m.src.as_str().to_owned());
            proof {
                assert(schemes.subrange(0, k + 1).drop_last() =~= schemes.subrange(0, k as int));
                assert(sides.subrange(0, k + 1).drop_last() =~= sides.subrange(0, k as int));
            }
            let distinct = strings_distinct(&srcs);
            proof {
                lemma_distinct_views(srcs@, hrefs, k + 1);
            }
            if !distinct {
                proof {
                    if all_distinct(hrefs) {
                        assert(all_distinct(hrefs.subrange(0, k + 1)));
                    }
                }
                return Err(SpecError::DuplicateMixinSrc);
            }
            if m.src.is_voice_chat() {
                ts_count = ts_count + 1;
                if ts_count > MAX_VOICE_CHAT_MIXINS {
                    proof {
                        lemma_voice_chat_count_prefix(schemes, k + 1);
                    }
                    return Err(SpecError::TooManyVoiceChatMixins);
                }
            }
            if m.sidechain {
                sidechain_count = sidechain_count + 1;
                if sidechain_count > 1 {
                    proof {
                        lemma_true_count_prefix(sides, k + 1);
                    }
                    return Err(SpecError::MultipleSidechains);
                }
            }
            k = k + 1;
        }
        proof {
            assert(hrefs.subrange(0, k as int) =~= hrefs);
            assert(schemes.subrange(0, k as int) =~= schemes);
            assert(sides.subrange(0, k as int) =~= sides);
        }
        Ok(())
    }
}

/// Counting voice-chat sources over a prefix never gives more than over the
/// whole.
pub proof fn lemma_voice_chat_count_prefix(s: Seq<Seq<char>>, k: int)
    requires
        0 <= k <= s.len(),
    ensures
        voice_chat_count(s.subrange(0, k)) <= voice_chat_count(s),
    decreases s.len(),
{
    if k < s.len() {
        assert(s.drop_last().subrange(0, k) =~= s.subrange(0, k));
        lemma_voice_chat_count_prefix(s.drop_last(), k);
    } else {
        assert(s.subrange(0, k) =~= s);
    }
}

/// Counting `true` flags over a prefix never gives more than over the whole.
pub proof fn lemma_true_count_prefix(s: Seq<bool>, k: int)
    requires
        0 <= k <= s.len(),
    ensures
        true_count(s.subrange(0, k)) <= true_count(s),
    decreases s.len(),
{
    if k < s.len() {
        assert(s.drop_last().subrange(0, k) =~= s.subrange(0, k));
        lemma_true_count_prefix(s.drop_last(), k);
    } else {
        assert(s.subrange(0, k) =~= s);
    }
}

/// Destination URLs of the outputs `o`.
pub open spec fn output_hrefs(o: Seq<Output>) -> Seq<Seq<char>> {
    o.map_values(|x: Output| x.dst.url().href@)
}

impl Restream {
    /// Checks that the outputs of a restream have distinct destinations.
    pub fn check_outputs(outputs: &Vec<Output>) -> (r: Result<(), SpecError>)
        ensures
            r is Ok <==> all_distinct(output_hrefs(outputs@)),
            r is Err ==> r == Err::<(), SpecError>(SpecError::DuplicateOutputDst),
    {
        let mut dsts: Vec<String> = Vec::new();
        let mut k: usize = 0;
        while k < outputs.len()
            invariant
                k <= outputs@.len(),
                dsts@.len() == k,
                forall|j: int| 0 <= j < k ==> (#[trigger] dsts@[j])@ == output_hrefs(outputs@)[j],
            decreases outputs@.len() - k,
        {
            let ghost before = dsts@;
            dsts.push(outputs[k].dst.as_str().to_owned());
            proof {
            }
            k = k + 1;
        }
        proof {
            assert(output_hrefs(outputs@).subrange(0, k as int) =~= output_hrefs(outputs@));
            lemma_distinct_views(dsts@, output_hrefs(outputs@), k as int);
        }
        if strings_distinct(&dsts) {
            Ok(())
        } else {
            Err(SpecError::DuplicateOutputDst)
        }
    }
}

/// Keys of the restreams `r`.
pub open spec fn restream_keys(r: Seq<Restream>) -> Seq<Seq<char>> {
    r.map_values(|x: Restream| x.key@)
}

impl Spec {
    /// Checks that the restreams of a specification have distinct keys.
    pub fn check_restreams(restreams: &Vec<Restream>) -> (r: Result<(), SpecError>)
        ensures
            r is Ok <==> all_distinct(restream_keys(restreams@)),
            r is Err ==> r == Err::<(), SpecError>(SpecError::DuplicateRestreamKey),
    {
        let mut keys: Vec<String> = Vec::new();
        let mut k: usize = 0;
        while k < restreams.len()
            invariant
                k <= restreams@.len(),
                keys@.len() == k,
                forall|j: int| 0 <= j < k ==> (#[trigger] keys@[j])@ == restream_keys(restreams@)[j],
            decreases restreams@.len() - k,
        {
            let ghost before = keys@;
            keys.push(restreams[k].key.as_str().to_owned());
            proof {
            }
            k = k + 1;
        }
        proof {
            assert(restream_keys(restreams@).subrange(0, k as int) =~= restream_keys(restreams@));
            lemma_distinct_views(keys@, restream_keys(restreams@), k as int);
        }
        if strings_distinct(&keys) {
            Ok(())
        } else {
            Err(SpecError::DuplicateRestreamKey)
        }
    }
}

/// Whether the endpoints `e` have distinct kinds, one of them RTMP.
pub open spec fn endpoint_kinds_ok(e: Seq<InputEndpoint>) -> bool {
    &&& forall|i: int, j: int| 0 <= i < j < e.len() ==> (#[trigger] e[i]).kind != (#[trigger] e[j]).kind
    &&& exists|i: int| 0 <= i < e.len() && (#[trigger] e[i]).kind == InputEndpointKind::Rtmp
}

/// Keys of the inputs under the source `o`, in depth-first order.
pub open spec fn src_keys(o: Option<InputSrc>) -> Seq<Seq<char>>
    decreases o,
{
    match o {
        Some(InputSrc::FailoverInputs(v)) => forest_keys(v@),
        _ => Seq::empty(),
    }
}

/// Keys of the inputs `s` and of the inputs under them, in depth-first
/// order.
pub open spec fn forest_keys(s: Seq<Input>) -> Seq<Seq<char>>
    decreases s,
{
    if s.len() == 0 {
        Seq::empty()
    } else {
        forest_keys(s.drop_last()) + seq![s.last().key@] + src_keys(s.last().src)
    }
}

/// URLs of the remote sources under the source `o`, in depth-first order.
pub open spec fn src_urls(o: Option<InputSrc>) -> Seq<Seq<char>>
    decreases o,
{
    match o {
        Some(InputSrc::RemoteUrl(u)) => seq![u.url().href@],
        Some(InputSrc::FailoverInputs(v)) => forest_urls(v@),
        None => Seq::empty(),
    }
}

/// URLs of the remote sources under the inputs `s`, in depth-first order.
pub open spec fn forest_urls(s: Seq<Input>) -> Seq<Seq<char>>
    decreases s,
{
    if s.len() == 0 {
        Seq::empty()
    } else {
        forest_urls(s.drop_last()) + src_urls(s.last().src)
    }
}

/// Whether the input `i` and every input under it are valid: endpoint kinds
/// distinct with one RTMP, and, under each, input keys (its own included)
/// and remote URLs distinct.
pub open spec fn input_ok(i: Input) -> bool
    decreases i,
{
    &&& endpoint_kinds_ok(i.endpoints@)
    &&& all_distinct(seq![i.key@] + src_keys(i.src))
    &&& all_distinct(src_urls(i.src))
    &&& match i.src {
        Some(InputSrc::FailoverInputs(v)) => forest_ok(v@),
        _ => true,
    }
}

/// Whether every input of `s` is valid.
pub open spec fn forest_ok(s: Seq<Input>) -> bool
    decreases s,
{
    s.len() > 0 ==> forest_ok(s.drop_last()) && input_ok(s.last())
}

/// Appends to `keys` and `urls` the input keys and remote URLs under `o`.
fn collect_src(o: &Option<InputSrc>, keys: &mut Vec<String>, urls: &mut Vec<String>)
    ensures
        string_views(final(keys)@) == string_views(old(keys)@) + src_keys(*o),
        string_views(final(urls)@) == string_views(old(urls)@) + src_urls(*o),
    decreases *o,
{
    match o {
        Some(InputSrc::RemoteUrl(u)) => {
            let ghost before = urls@;
            urls.push(u.as_str().to_owned());
            assert(string_views(urls@) =~= string_views(before) + src_urls(*o));
        },
        Some(InputSrc::FailoverInputs(v)) => {
            let ghost k0 = keys@;
            let ghost u0 = urls@;
            proof {
                assert(decreases_to!(*o => o->Some_0));
                assert(decreases_to!(o->Some_0 => *v));
                assert(decreases_to!(*v => v@));
            }
            let mut k: usize = 0;
            while k < v.len()
                invariant
                    k <= v@.len(),
                    *o == Some(InputSrc::FailoverInputs(*v)),
                    decreases_to!(*o => v@),
                    string_views(keys@) == string_views(k0) + forest_keys(v@.subrange(0, k as int)),
                    string_views(urls@) == string_views(u0) + forest_urls(v@.subrange(0, k as int)),
                decreases v@.len() - k,
            {
                proof {
                    assert(decreases_to!(v@ => v@[k as int]));
                    assert(decreases_to!(v@[k as int] => v@[k as int].src));
                    assert(v@.subrange(0, k + 1).drop_last() =~= v@.subrange(0, k as int));
                }
                let ghost kb = keys@;
                keys.push(v[k].key.as_str().to_owned());
                assert(string_views(keys@) =~= string_views(kb) + seq![v@[k as int].key@]);
                collect_src(&v[k].src, keys, urls);
                proof {
                    assert(string_views(keys@) =~= string_views(k0) + forest_keys(v@.subrange(0, k + 1)));
                    assert(string_views(urls@) =~= string_views(u0) + forest_urls(v@.subrange(0, k + 1)));
                }
                k = k + 1;
            }
            proof {
                assert(v@.subrange(0, k as int) =~= v@);
            }
        },
        None => {
            assert(string_views(keys@) =~= string_views(keys@) + src_keys(*o));
            assert(string_views(urls@) =~= string_views(urls@) + src_urls(*o));
        },
    }
}

/// Finds whether the endpoints have distinct kinds and one RTMP among them.
fn check_endpoint_kinds(e: &Vec<InputEndpoint>) -> (r: Result<(), SpecError>)
    ensures
        r is Ok <==> endpoint_kinds_ok(e@),
        r == Err::<(), SpecError>(SpecError::DuplicateEndpointKind) <==>
            exists|i: int, j: int| 0 <= i < j < e@.len() && (#[trigger] e@[i]).kind == (#[trigger] e@[j]).kind,
        r is Err ==> r == Err::<(), SpecError>(SpecError::DuplicateEndpointKind)
            || r == Err::<(), SpecError>(SpecError::NoRtmpEndpoint),
{
    let mut j: usize = 0;
    while j < e.len()
        invariant
            j <= e@.len(),
            forall|a: int, b: int| 0 <= a < b < j ==> (#[trigger] e@[a]).kind != (#[trigger] e@[b]).kind,
        decreases e@.len() - j,
    {
        let mut i: usize = 0;
        while i < j
            invariant
                i <= j < e@.len(),
                forall|a: int| 0 <= a < i ==> (#[trigger] e@[a]).kind != e@[j as int].kind,
            decreases j - i,
        {
            if e[i].kind == e[j].kind {
                return Err(SpecError::DuplicateEndpointKind);
            }
            i = i + 1;
        }
        j = j + 1;
    }
    let mut i: usize = 0;
    while i < e.len()
        invariant
            i <= e@.len(),
            forall|a: int| 0 <= a < i ==> (#[trigger] e@[a]).kind != InputEndpointKind::Rtmp,
            forall|a: int, b: int| 0 <= a < b < e@.len() ==> (#[trigger] e@[a]).kind != (#[trigger] e@[b]).kind,
        decreases e@.len() - i,
    {
        if e[i].kind == InputEndpointKind::Rtmp {
            return Ok(());
        }
        i = i + 1;
    }
    Err(SpecError::NoRtmpEndpoint)
}

impl Input {
    /// Checks this input and every input under it: endpoint kinds distinct
    /// with one RTMP among them, and input keys and remote URLs distinct
    /// under each. Inputs under a failover source are checked first.
    pub fn check(&self) -> (r: Result<(), SpecError>)
        ensures
            r is Ok <==> input_ok(*self),
        decreases *self,
    {
        match &self.src {
            Some(InputSrc::FailoverInputs(v)) => {
                proof {
                    assert(decreases_to!(*self => self.src));
                    assert(decreases_to!(self.src => self.src->Some_0));
                    assert(decreases_to!(self.src->Some_0 => *v));
                    assert(decreases_to!(*v => v@));
                }
                let mut k: usize = 0;
                while k < v.len()
                    invariant
                        k <= v@.len(),
                        self.src == Some(InputSrc::FailoverInputs(*v)),
                        decreases_to!(*self => v@),
                        forest_ok(v@.subrange(0, k as int)),
                    decreases v@.len() - k,
                {
                    proof {
                        assert(decreases_to!(v@ => v@[k as int]));
                    }
                    let c = v[k].check();
                    proof {
                        assert(v@.subrange(0, k + 1).drop_last() =~= v@.subrange(0, k as int));
                    }
                    if c.is_err() {
                        proof {
                            if forest_ok(v@) {
                                lemma_forest_ok_elem(v@, k as int);
                            }
                        }
                        return c;
                    }
                    k = k + 1;
                }
                proof {
                    assert(v@.subrange(0, k as int) =~= v@);
                }
            },
            _ => {},
        }
        let e = check_endpoint_kinds(&self.endpoints);
        if e.is_err() {
            return e;
        }
        let mut keys: Vec<String> = Vec::new();
        keys.push(self.key.as_str().to_owned());
        let mut urls: Vec<String> = Vec::new();
        let ghost k1 = keys@;
        collect_src(&self.src, &mut keys, &mut urls);
        proof {
            assert(string_views(k1) =~= seq![self.key@]);
            assert(string_views(Seq::<String>::empty()) =~= Seq::<Seq<char>>::empty());
            assert(src_urls(self.src) =~= Seq::<Seq<char>>::empty() + src_urls(self.src));
            lemma_distinct_views(keys@, string_views(keys@), keys@.len() as int);
            lemma_distinct_views(urls@, string_views(urls@), urls@.len() as int);
            assert(string_views(keys@).subrange(0, keys@.len() as int) =~= string_views(keys@));
            assert(string_views(urls@).subrange(0, urls@.len() as int) =~= string_views(urls@));
        }
        if !strings_distinct(&keys) {
            return Err(SpecError::DuplicateInputKey);
        }
        if !strings_distinct(&urls) {
            return Err(SpecError::DuplicateRemoteUrl);
        }
        Ok(())
    }
}

/// Every input of a valid forest is valid.
pub proof fn lemma_forest_ok_elem(s: Seq<Input>, k: int)
    requires
        0 <= k < s.len(),
        forest_ok(s),
    ensures
        input_ok(s[k]),
    decreases s.len(),
{
    if k < s.len() - 1 {
        lemma_forest_ok_elem(s.drop_last(), k);
    }
}

} // verus!
