//! The configuration tree: restreams, inputs, endpoints, outputs and mixins.
use vstd::prelude::*;
use crate::ids::{
    copy_label, EndpointId, InputId, InputKey, Label, MixinId, OutputId, RestreamId,
    RestreamKey, Status,
};
use crate::urls::{InputSrcUrl, MixinSrcUrl, OutputDstUrl, UrlParts};
use crate::v1;
use crate::volume::{Delay, Volume};

verus! {

/// Kind of an input endpoint.
#[derive(Clone, Copy, Debug, PartialEq, Eq, Structural, Hash)]
pub enum InputEndpointKind {
    /// RTMP endpoint: accepts a live stream and serves it for playing.
    Rtmp,
    /// HLS endpoint: only serves a live stream for playing.
    Hls,
}

/// URL on the local media server of the endpoint of kind `kind` of the input
/// `input` of the restream `restream`.
pub open spec fn endpoint_url(kind: InputEndpointKind, restream: Seq<char>, input: Seq<char>) -> Seq<char> {
    "rtmp://127.0.0.1:1935/"@ + restream + (if kind == InputEndpointKind::Hls {
        "?vhost=hls"@
    } else {
        Seq::empty()
    }) + "/"@ + input
}

impl InputEndpointKind {
    /// Returns the RTMP URL on the local media server of this endpoint kind
    /// for the given restream and input.
    pub fn rtmp_url(self, restream: &RestreamKey, input: &InputKey) -> (r: String)
        ensures
            r@ == endpoint_url(self, restream@, input@),
    {
        let mut r = String::from_str("rtmp://127.0.0.1:1935/");
        r.append(restream.as_str());
        if self == InputEndpointKind::Hls {
            r.append("?vhost=hls");
        }
        r.append("/");
        r.append(input.as_str());
        proof {
            if self == InputEndpointKind::Hls {
                assert(r@ =~= endpoint_url(self, restream@, input@));
            } else {
                assert(r@ =~= endpoint_url(self, restream@, input@));
            }
        }
        r
    }
}

/// Views of an optional label.
pub open spec fn label_view(l: Option<Label>) -> Option<Seq<char>> {
    match l {
        Some(x) => Some(x@),
        None => None,
    }
}

/// Endpoint of an input serving a live stream for outputs and clients.
#[derive(Debug)]
pub struct InputEndpoint {
    /// Unique ID of this endpoint.
    pub id: EndpointId,
    /// Kind of this endpoint.
    pub kind: InputEndpointKind,
    /// Optional label of this endpoint.
    pub label: Option<Label>,
    /// Whether this endpoint actually serves a live stream.
    pub status: Status,
    /// Client of the media server publishing to this endpoint.
    pub srs_publisher_id: Option<String>,
    /// Clients of the media server playing from this endpoint.
    pub srs_player_ids: Vec<String>,
}

impl InputEndpoint {
    /// Whether this endpoint has no runtime state: offline, no publisher and
    /// no players.
    pub open spec fn is_idle(self) -> bool {
        &&& self.status == Status::Offline
        &&& self.srs_publisher_id is None
        &&& self.srs_player_ids@.len() == 0
    }

    /// Creates a new endpoint out of the given specification.
    pub fn new(spec: v1::InputEndpoint) -> (r: Self)
        ensures
            r.kind == spec.kind,
            label_view(r.label) == label_view(spec.label),
            r.is_idle(),
    {
        InputEndpoint {
            id: EndpointId::random(),
            kind: spec.kind,
            label: spec.label,
            status: Status::Offline,
            srs_publisher_id: None,
            srs_player_ids: Vec::new(),
        }
    }

    /// Applies the given specification to this endpoint.
    pub fn apply(&mut self, new: v1::InputEndpoint)
        ensures
            final(self).kind == new.kind,
            label_view(final(self).label) == label_view(new.label),
            final(self).id == old(self).id,
            final(self).status == old(self).status,
            final(self).srs_publisher_id == old(self).srs_publisher_id,
            final(self).srs_player_ids == old(self).srs_player_ids,
    {
        self.kind = new.kind;
        self.label = new.label;
    }

    /// Exports this endpoint as a specification.
    pub fn export(&self) -> (r: v1::InputEndpoint)
        ensures
            r.kind == self.kind,
            label_view(r.label) == label_view(self.label),
    {
        v1::InputEndpoint { kind: self.kind, label: copy_label(&self.label) }
    }

    /// Indicates whether this is an RTMP endpoint.
    pub fn is_rtmp(&self) -> (r: bool)
        ensures
            r == (self.kind == InputEndpointKind::Rtmp),
    {
        self.kind == InputEndpointKind::Rtmp
    }

    /// Forgets the publisher and the players of this endpoint and sets it
    /// offline.
    pub fn reset(&mut self)
        ensures
            final(self).is_idle(),
            final(self).id == old(self).id,
            final(self).kind == old(self).kind,
            final(self).label == old(self).label,
    {
        self.srs_publisher_id = None;
        self.srs_player_ids = Vec::new();
        self.status = Status::Offline;
    }
}

/// Source to pull a live stream by an input from.
#[derive(Debug)]
pub enum InputSrc {
    /// Remote endpoint.
    Remote(RemoteInputSrc),
    /// Several local inputs forming a failover source.
    Failover(FailoverInputSrc),
}

/// Remote upstream source to pull a live stream from.
#[derive(Debug)]
pub struct RemoteInputSrc {
    /// URL of this source.
    pub url: InputSrcUrl,
    /// Optional label of this source.
    pub label: Option<Label>,
}

/// Failover source of several inputs: the first one serving a live stream
/// is pulled from.
#[derive(Debug)]
pub struct FailoverInputSrc {
    /// Inputs forming this source, in order of preference.
    pub inputs: Vec<Input>,
}

/// Upstream source that a restream receives a live stream from.
#[derive(Debug)]
pub struct Input {
    /// Unique ID of this input.
    pub id: InputId,
    /// Key of this input, used to form its endpoint URLs.
    pub key: InputKey,
    /// Endpoints serving the live stream.
    pub endpoints: Vec<InputEndpoint>,
    /// Source to pull a live stream from; none means it is pushed.
    pub src: Option<InputSrc>,
    /// Whether this input is allowed to receive a live stream.
    pub enabled: bool,
}

/// Whether two URLs have the same parts.
pub open spec fn same_url(a: UrlParts, b: UrlParts) -> bool {
    &&& a.href@ == b.href@
    &&& a.scheme@ == b.scheme@
    &&& a.has_host == b.has_host
    &&& a.path@ == b.path@
}

/// Whether the endpoints `e` are those described by `s`, in the same order.
pub open spec fn endpoints_match(e: Seq<InputEndpoint>, s: Seq<v1::InputEndpoint>) -> bool {
    &&& e.len() == s.len()
    &&& forall|k: int| 0 <= k < e.len() ==> #[trigger] e[k].kind == s[k].kind
        && label_view(e[k].label) == label_view(s[k].label)
}

/// Whether the input `i` is the one described by `s`, up to IDs and runtime
/// state; the `enabled` flags are compared only when `strict` holds.
pub open spec fn input_matches(i: Input, s: v1::Input, strict: bool) -> bool
    decreases i,
{
    &&& i.key@ == s.key@
    &&& strict ==> i.enabled == s.enabled
    &&& endpoints_match(i.endpoints@, s.endpoints@)
    &&& match (i.src, s.src) {
        (None, None) => true,
        (Some(InputSrc::Remote(r)), Some(v1::InputSrc::RemoteUrl(u))) => same_url(r.url.url(), u.url()),
        (Some(InputSrc::Failover(f)), Some(v1::InputSrc::FailoverInputs(v))) => inputs_match(f.inputs@, v@, strict),
        _ => false,
    }
}

/// Whether the inputs `a` are those described by `b`, in the same order.
pub open spec fn inputs_match(a: Seq<Input>, b: Seq<v1::Input>, strict: bool) -> bool
    decreases a,
{
    &&& a.len() == b.len()
    &&& a.len() > 0 ==> inputs_match(a.drop_last(), b.drop_last(), strict) && input_matches(a.last(), b.last(), strict)
}

/// Whether every input of the tree `i`, itself included, is enabled (or
/// disabled, as `on` says).
pub open spec fn tree_enabled(i: Input, on: bool) -> bool
    decreases i,
{
    &&& i.enabled == on
    &&& match i.src {
        Some(InputSrc::Failover(f)) => forest_enabled(f.inputs@, on),
        _ => true,
    }
}

/// Whether every input of the trees `s` is enabled (or disabled, as `on`
/// says).
pub open spec fn forest_enabled(s: Seq<Input>, on: bool) -> bool
    decreases s,
{
    s.len() > 0 ==> forest_enabled(s.drop_last(), on) && tree_enabled(s.last(), on)
}

/// Whether every endpoint of every input of the tree `i` is idle.
pub open spec fn tree_idle(i: Input) -> bool
    decreases i,
{
    &&& forall|k: int| 0 <= k < i.endpoints@.len() ==> (#[trigger] i.endpoints@[k]).is_idle()
    &&& match i.src {
        Some(InputSrc::Failover(f)) => forest_idle(f.inputs@),
        _ => true,
    }
}

/// Whether every endpoint of every input of the trees `s` is idle.
pub open spec fn forest_idle(s: Seq<Input>) -> bool
    decreases s,
{
    s.len() > 0 ==> forest_idle(s.drop_last()) && tree_idle(s.last())
}

/// Whether the endpoints `e` have distinct kinds, one of them RTMP.
pub open spec fn kinds_ok(e: Seq<InputEndpoint>) -> bool {
    &&& forall|i: int, j: int| 0 <= i < j < e.len() ==> (#[trigger] e[i]).kind != (#[trigger] e[j]).kind
    &&& exists|i: int| 0 <= i < e.len() && (#[trigger] e[i]).kind == InputEndpointKind::Rtmp
}

/// Whether the input `i` and every input under it have endpoints of distinct
/// kinds, one of them RTMP.
pub open spec fn input_wf(i: Input) -> bool
    decreases i,
{
    &&& kinds_ok(i.endpoints@)
    &&& match i.src {
        Some(InputSrc::Failover(f)) => forest_wf(f.inputs@),
        _ => true,
    }
}

/// Whether every input of `s` satisfies `input_wf`.
pub open spec fn forest_wf(s: Seq<Input>) -> bool
    decreases s,
{
    s.len() > 0 ==> forest_wf(s.drop_last()) && input_wf(s.last())
}

/// Every input of a well-formed forest is well-formed.
pub proof fn lemma_forest_wf_elem(s: Seq<Input>, k: int)
    requires
        0 <= k < s.len(),
        forest_wf(s),
    ensures
        input_wf(s[k]),
    decreases s.len(),
{
    if k < s.len() - 1 {
        lemma_forest_wf_elem(s.drop_last(), k);
    }
}

/// Whether some endpoint in `e` is an RTMP one and online.
pub open spec fn has_online_rtmp(e: Seq<InputEndpoint>) -> bool {
    exists|k: int| 0 <= k < e.len() && (#[trigger] e[k]).kind == InputEndpointKind::Rtmp
        && e[k].status == Status::Online
}

/// Whether some input in `s` has an online RTMP endpoint.
pub open spec fn some_input_online(s: Seq<Input>) -> bool {
    exists|k: int| 0 <= k < s.len() && has_online_rtmp((#[trigger] s[k]).endpoints@)
}

/// Whether the input `i` is ready to serve a live stream: some input of its
/// tree, at any depth of failover sources, has an online RTMP endpoint.
pub open spec fn ready_to_serve(i: Input) -> bool
    decreases i,
{
    ||| has_online_rtmp(i.endpoints@)
    ||| match i.src {
        Some(InputSrc::Failover(f)) => forest_ready(f.inputs@),
        _ => false,
    }
}

/// Whether some tree of `s` is ready to serve a live stream.
pub open spec fn forest_ready(s: Seq<Input>) -> bool
    decreases s,
{
    s.len() > 0 && (forest_ready(s.drop_last()) || ready_to_serve(s.last()))
}

/// A forest is ready wherever one of its trees is.
proof fn lemma_forest_ready_at(s: Seq<Input>, k: int)
    requires
        0 <= k < s.len(),
        ready_to_serve(s[k]),
    ensures
        forest_ready(s),
    decreases s.len(),
{
    if k < s.len() - 1 {
        lemma_forest_ready_at(s.drop_last(), k);
    }
}

/// A forest none of whose trees is ready is not ready.
proof fn lemma_forest_not_ready(s: Seq<Input>)
    requires
        forall|k: int| 0 <= k < s.len() ==> !ready_to_serve(#[trigger] s[k]),
    ensures
        !forest_ready(s),
    decreases s.len(),
{
    if s.len() > 0 {
        lemma_forest_not_ready(s.drop_last());
    }
}

/// Finds whether some endpoint in `e` is an online RTMP one.
pub(crate) fn find_online_rtmp_pub(e: &Vec<InputEndpoint>) -> (r: bool)
    ensures
        r == has_online_rtmp(e@),
{
    find_online_rtmp(e)
}

/// Finds whether some endpoint in `e` is an online RTMP one.
fn find_online_rtmp(e: &Vec<InputEndpoint>) -> (r: bool)
    ensures
        r == has_online_rtmp(e@),
{
    let mut k: usize = 0;
    while k < e.len()
        invariant
            k <= e@.len(),
            forall|j: int| 0 <= j < k ==> !((#[trigger] e@[j]).kind == InputEndpointKind::Rtmp
                && e@[j].status == Status::Online),
        decreases e@.len() - k,
    {
        if e[k].is_rtmp() && e[k].status == Status::Online {
            return true;
        }
        k = k + 1;
    }
    false
}

impl Input {
    /// Creates a new input out of the given specification, with fresh IDs and
    /// no runtime state.
    pub fn new(spec: v1::Input) -> (r: Self)
        ensures
            input_matches(r, spec, true),
            tree_idle(r),
        decreases spec,
    {
        let v1::Input { id: _, key, endpoints: spec_endpoints, src: spec_src, enabled } = spec;
        let mut endpoints: Vec<InputEndpoint> = Vec::new();
        let mut rest = spec_endpoints;
        let ghost all = rest@;
        while rest.len() > 0
            invariant
                endpoints@.len() + rest@.len() == all.len(),
                rest@ == all.subrange(endpoints@.len() as int, all.len() as int),
                endpoints_match(endpoints@, all.subrange(0, endpoints@.len() as int)),
                forall|k: int| 0 <= k < endpoints@.len() ==> (#[trigger] endpoints@[k]).is_idle(),
            decreases rest@.len(),
        {
            let e = rest.remove(0);
            let ghost before = endpoints@;
            endpoints.push(InputEndpoint::new(e));
            proof {
                assert(all.subrange(0, endpoints@.len() as int) =~= all.subrange(0, before.len() as int).push(e));
                assert(rest@ =~= all.subrange(endpoints@.len() as int, all.len() as int));
            }
        }
        proof {
            assert(all.subrange(0, endpoints@.len() as int) =~= all);
        }
        let src = match spec_src {
            None => None,
            Some(s) => {
                proof {
                    assert(decreases_to!(spec => spec.src));
                    assert(decreases_to!(spec.src => spec.src->Some_0));
                }
                Some(InputSrc::new(s))
            },
        };
        let r = Input { id: InputId::random(), key, endpoints, src, enabled };
        proof {
            assert(endpoints_match(r.endpoints@, spec.endpoints@));
        }
        r
    }

    /// Exports this input as a specification.
    pub fn export(&self) -> (r: v1::Input)
        ensures
            input_matches(*self, r, true),
            r.id == Some(self.id),
        decreases *self,
    {
        let mut endpoints: Vec<v1::InputEndpoint> = Vec::new();
        let mut k: usize = 0;
        while k < self.endpoints.len()
            invariant
                k <= self.endpoints@.len(),
                endpoints@.len() == k,
                endpoints_match(self.endpoints@.subrange(0, k as int), endpoints@),
            decreases self.endpoints@.len() - k,
        {
            let ghost before = endpoints@;
            endpoints.push(self.endpoints[k].export());
            proof {
                assert(self.endpoints@.subrange(0, k + 1) =~= self.endpoints@.subrange(0, k as int).push(self.endpoints@[k as int]));
            }
            k = k + 1;
        }
        proof {
            assert(self.endpoints@.subrange(0, k as int) =~= self.endpoints@);
        }
        let src = match &self.src {
            None => None,
            Some(s) => {
                proof {
                    assert(decreases_to!(*self => self.src));
                    assert(decreases_to!(self.src => self.src->Some_0));
                }
                Some(s.export())
            },
        };
        v1::Input { id: Some(self.id), key: self.key.copied(), endpoints, src, enabled: self.enabled }
    }

    /// Enables this input and every input of its failover source.
    ///
    /// Returns `false` if all of them were enabled already.
    pub fn enable(&mut self) -> (changed: bool)
        ensures
            tree_enabled(*final(self), true),
            changed == !tree_enabled(*old(self), true),
            final(self).id == old(self).id,
            final(self).key@ == old(self).key@,
        decreases *old(self),
    {
        self.toggle(true)
    }

    /// Disables this input and every input of its failover source, forgetting
    /// the clients of their endpoints and setting those offline.
    ///
    /// Returns `false` if all of them were disabled already.
    pub fn disable(&mut self) -> (changed: bool)
        ensures
            tree_enabled(*final(self), false),
            tree_idle(*final(self)),
            changed == !tree_enabled(*old(self), false),
            final(self).id == old(self).id,
            final(self).key@ == old(self).key@,
        decreases *old(self),
    {
        self.toggle(false)
    }

    pub(crate) fn toggle(&mut self, on: bool) -> (changed: bool)
        ensures
            tree_enabled(*final(self), on),
            !on ==> tree_idle(*final(self)),
            changed == !tree_enabled(*old(self), on),
            final(self).id == old(self).id,
            final(self).key@ == old(self).key@,
            final(self).endpoints@.len() == old(self).endpoints@.len(),
            on ==> final(self).endpoints == old(self).endpoints,
            input_wf(*old(self)) ==> input_wf(*final(self)),
        decreases *old(self),
    {
        let mut changed = self.enabled != on;
        self.enabled = on;
        if !on {
            let mut k: usize = 0;
            let ghost n = self.endpoints@.len();
            while k < self.endpoints.len()
                invariant
                    k <= self.endpoints@.len(),
                    self.endpoints@.len() == n,
                    forall|j: int| 0 <= j < k ==> (#[trigger] self.endpoints@[j]).is_idle(),
                    forall|j: int| 0 <= j < n ==> (#[trigger] self.endpoints@[j]).kind == old(self).endpoints@[j].kind,
                    self.src == old(self).src,
                    self.id == old(self).id,
                    self.key == old(self).key,
                    self.enabled == on,
                decreases self.endpoints@.len() - k,
            {
                self.endpoints[k].reset();
                k = k + 1;
            }
            proof {
                if kinds_ok(old(self).endpoints@) {
                    let w = choose|i: int| 0 <= i < old(self).endpoints@.len()
                        && (#[trigger] old(self).endpoints@[i]).kind == InputEndpointKind::Rtmp;
                    assert(self.endpoints@[w].kind == InputEndpointKind::Rtmp);
                    assert(kinds_ok(self.endpoints@));
                }
            }
        }
        let ghost mid = *self;
        match &mut self.src {
            Some(InputSrc::Failover(f)) => {
                let ghost orig = f.inputs@;
                proof {
                    assert(old(self).src == Some(InputSrc::Failover(*f)));
                    assert(decreases_to!(*old(self) => old(self).src));
                    assert(decreases_to!(old(self).src => old(self).src->Some_0));
                    assert(decreases_to!(old(self).src->Some_0 => old(self).src->Some_0->Failover_0));
                    assert(decreases_to!(old(self).src->Some_0->Failover_0 => old(self).src->Some_0->Failover_0.inputs));
                    assert(decreases_to!(old(self).src->Some_0->Failover_0.inputs => orig));
                }
                let mut k: usize = 0;
                let mut sub_changed = false;
                while k < f.inputs.len()
                    invariant
                        k <= f.inputs@.len(),
                        f.inputs@.len() == orig.len(),
                        forall|j: int| k <= j < orig.len() ==> f.inputs@[j] == orig[j],
                        decreases_to!(*old(self) => orig),
                        forest_enabled(f.inputs@.subrange(0, k as int), on),
                        !on ==> forest_idle(f.inputs@.subrange(0, k as int)),
                        sub_changed == !forest_enabled(orig.subrange(0, k as int), on),
                        forest_wf(orig) ==> forest_wf(f.inputs@.subrange(0, k as int)),
                    decreases f.inputs@.len() - k,
                {
                    proof {
                        assert(decreases_to!(orig => orig[k as int]));
                    }
                    let ghost prev = f.inputs@;
                    proof {
                        if forest_wf(orig) {
                            lemma_forest_wf_elem(orig, k as int);
                        }
                    }
                    let c = f.inputs[k].toggle(on);
                    sub_changed = sub_changed || c;
                    proof {
                        assert(f.inputs@.subrange(0, k as int) =~= prev.subrange(0, k as int));
                        assert(f.inputs@.subrange(0, k + 1).drop_last() =~= f.inputs@.subrange(0, k as int));
                        assert(orig.subrange(0, k + 1).drop_last() =~= orig.subrange(0, k as int));
                    }
                    k = k + 1;
                }
                proof {
                    assert(f.inputs@.subrange(0, k as int) =~= f.inputs@);
                    assert(orig.subrange(0, k as int) =~= orig);
                }
                changed = changed || sub_changed;
            },
            _ => {},
        }
        changed
    }

    /// Indicates whether this input is ready to serve a live stream: it, or
    /// one of the inputs of its failover source, has an online RTMP endpoint.
    pub fn is_ready_to_serve(&self) -> (r: bool)
        ensures
            r == ready_to_serve(*self),
        decreases *self,
    {
        if find_online_rtmp(&self.endpoints) {
            return true;
        }
        match &self.src {
            Some(InputSrc::Failover(s)) => {
                proof {
                    assert(decreases_to!(*self => self.src));
                    assert(decreases_to!(self.src => self.src->Some_0));
                    assert(decreases_to!(self.src->Some_0 => *s));
                    assert(decreases_to!(*s => s.inputs));
                    assert(decreases_to!(s.inputs => s.inputs@));
                }
                let mut k: usize = 0;
                while k < s.inputs.len()
                    invariant
                        k <= s.inputs@.len(),
                        self.src == Some(InputSrc::Failover(*s)),
                        !has_online_rtmp(self.endpoints@),
                        decreases_to!(*self => s.inputs@),
                        forall|j: int| 0 <= j < k ==> !ready_to_serve(#[trigger] s.inputs@[j]),
                    decreases s.inputs@.len() - k,
                {
                    proof {
                        assert(decreases_to!(s.inputs@ => s.inputs@[k as int]));
                    }
                    if s.inputs[k].is_ready_to_serve() {
                        proof {
                            lemma_forest_ready_at(s.inputs@, k as int);
                        }
                        return true;
                    }
                    k = k + 1;
                }
                proof {
                    lemma_forest_not_ready(s.inputs@);
                }
                false
            },
            _ => false,
        }
    }
}

impl InputSrc {
    /// Creates a new source out of the given specification.
    pub fn new(spec: v1::InputSrc) -> (r: Self)
        ensures
            src_matches(r, spec, true),
            src_idle(r),
        decreases spec,
    {
        match spec {
            v1::InputSrc::RemoteUrl(url) => InputSrc::Remote(RemoteInputSrc { url, label: None }),
            v1::InputSrc::FailoverInputs(news) => {
                let ghost all = news@;
                proof {
                    assert(decreases_to!(spec => news));
                    assert(decreases_to!(news => all));
                }
                let mut rest = news;
                let mut inputs: Vec<Input> = Vec::new();
                while rest.len() > 0
                    invariant
                        inputs@.len() + rest@.len() == all.len(),
                        rest@ == all.subrange(inputs@.len() as int, all.len() as int),
                        inputs_match(inputs@, all.subrange(0, inputs@.len() as int), true),
                        forest_idle(inputs@),
                        decreases_to!(spec => all),
                    decreases rest@.len(),
                {
                    let ghost before = inputs@;
                    let i = rest.remove(0);
                    proof {
                        assert(i == all[before.len() as int]);
                        assert(decreases_to!(all => all[before.len() as int]));
                    }
                    inputs.push(Input::new(i));
                    proof {
                        assert(all.subrange(0, inputs@.len() as int).drop_last() =~= all.subrange(0, before.len() as int));
                        assert(inputs@.drop_last() =~= before);
                        assert(rest@ =~= all.subrange(inputs@.len() as int, all.len() as int));
                    }
                }
                proof {
                    assert(all.subrange(0, inputs@.len() as int) =~= all);
                }
                InputSrc::Failover(FailoverInputSrc { inputs })
            },
        }
    }

    /// Exports this source as a specification.
    pub fn export(&self) -> (r: v1::InputSrc)
        ensures
            src_matches(*self, r, true),
        decreases *self,
    {
        match self {
            InputSrc::Remote(i) => v1::InputSrc::RemoteUrl(i.url.copied()),
            InputSrc::Failover(s) => {
                proof {
                    assert(decreases_to!(*self => s.inputs));
                    assert(decreases_to!(s.inputs => s.inputs@));
                }
                let mut out: Vec<v1::Input> = Vec::new();
                let mut k: usize = 0;
                while k < s.inputs.len()
                    invariant
                        k <= s.inputs@.len(),
                        out@.len() == k,
                        inputs_match(s.inputs@.subrange(0, k as int), out@, true),
                        decreases_to!(*self => s.inputs@),
                    decreases s.inputs@.len() - k,
                {
                    proof {
                        assert(decreases_to!(s.inputs@ => s.inputs@[k as int]));
                    }
                    let ghost before = out@;
                    out.push(s.inputs[k].export());
                    proof {
                        assert(s.inputs@.subrange(0, k + 1).drop_last() =~= s.inputs@.subrange(0, k as int));
                        assert(out@.drop_last() =~= before);
                    }
                    k = k + 1;
                }
                proof {
                    assert(s.inputs@.subrange(0, k as int) =~= s.inputs@);
                }
                v1::InputSrc::FailoverInputs(out)
            },
        }
    }
}

/// A strict match of an input is also a lenient one.
pub proof fn lemma_input_match_lenient(i: Input, s: v1::Input)
    requires
        input_matches(i, s, true),
    ensures
        input_matches(i, s, false),
    decreases i,
{
    match (i.src, s.src) {
        (Some(InputSrc::Failover(f)), Some(v1::InputSrc::FailoverInputs(v))) => {
            assert(decreases_to!(i => i.src));
            assert(decreases_to!(i.src => i.src->Some_0));
            assert(decreases_to!(i.src->Some_0 => f));
            assert(decreases_to!(f => f.inputs));
            assert(decreases_to!(f.inputs => f.inputs@));
            lemma_inputs_match_lenient(f.inputs@, v@);
        },
        _ => {},
    }
}

/// A strict match of a sequence of inputs is also a lenient one.
pub proof fn lemma_inputs_match_lenient(a: Seq<Input>, b: Seq<v1::Input>)
    requires
        inputs_match(a, b, true),
    ensures
        inputs_match(a, b, false),
    decreases a,
{
    if a.len() > 0 {
        lemma_inputs_match_lenient(a.drop_last(), b.drop_last());
        lemma_input_match_lenient(a.last(), b.last());
    }
}

/// Whether the source `r` is the one described by `s`, up to IDs and runtime
/// state.
pub open spec fn src_matches(r: InputSrc, s: v1::InputSrc, strict: bool) -> bool {
    match (r, s) {
        (InputSrc::Remote(x), v1::InputSrc::RemoteUrl(u)) => same_url(x.url.url(), u.url()),
        (InputSrc::Failover(f), v1::InputSrc::FailoverInputs(v)) => inputs_match(f.inputs@, v@, strict),
        _ => false,
    }
}

/// Whether every endpoint under the source `r` is idle.
pub open spec fn src_idle(r: InputSrc) -> bool {
    match r {
        InputSrc::Failover(f) => forest_idle(f.inputs@),
        _ => true,
    }
}

/// An equal copy of a URL.
pub fn copy_url(u: &UrlParts) -> (r: UrlParts)
    ensures
        same_url(r, *u),
        r.host == u.host,
        r.port == u.port,
        crate::urls::pairs_view(r.query@) == crate::urls::pairs_view(u.query@),
{
    let mut query: Vec<(String, String)> = Vec::new();
    let mut k: usize = 0;
    while k < u.query.len()
        invariant
            k <= u.query@.len(),
            query@.len() == k,
            forall|j: int| 0 <= j < k ==> (#[trigger] query@[j]).0@ == u.query@[j].0@ && query@[j].1@ == u.query@[j].1@,
        decreases u.query@.len() - k,
    {
        let p = (u.query[k].0.clone(), u.query[k].1.clone());
        query.push(p);
        k = k + 1;
    }
    assert(crate::urls::pairs_view(query@) =~= crate::urls::pairs_view(u.query@));
    let host = match &u.host {
        Some(h) => Some(h.clone()),
        None => None,
    };
    UrlParts { href: u.href.clone(), scheme: u.scheme.clone(), has_host: u.has_host, path: u.path.clone(), host, port: u.port, query }
}

/// Puts `v` in place of `*x` and hands the previous value back.
fn swap_out<T>(x: &mut T, v: T) -> (r: T)
    ensures
        r == *old(x),
        *final(x) == v,
{
    let mut v = v;
    std::mem::swap(x, &mut v);
    v
}

/// Takes the items out of `v`, leaving it empty.
pub fn take_vec<T>(v: &mut Vec<T>) -> (r: Vec<T>)
    ensures
        r == *old(v),
        final(v)@.len() == 0,
{
    swap_out(v, Vec::new())
}

/// Finds the position of the endpoint of the given kind.
pub(crate) fn find_endpoint_of_kind(v: &Vec<InputEndpoint>, kind: InputEndpointKind) -> (r: Option<usize>)
    ensures
        r matches Some(k) ==> k < v@.len() && v@[k as int].kind == kind
            && forall|j: int| 0 <= j < k ==> (#[trigger] v@[j]).kind != kind,
        r is None ==> forall|k: int| 0 <= k < v@.len() ==> (#[trigger] v@[k]).kind != kind,
{
    let mut k: usize = 0;
    while k < v.len()
        invariant
            k <= v@.len(),
            forall|j: int| 0 <= j < k ==> (#[trigger] v@[j]).kind != kind,
        decreases v@.len() - k,
    {
        if v[k].kind == kind {
            return Some(k);
        }
        k = k + 1;
    }
    None
}

/// Finds the position of the input with the given key.
fn find_input_of_key(v: &Vec<Input>, key: &InputKey) -> (r: Option<usize>)
    ensures
        r matches Some(k) ==> k < v@.len() && v@[k as int].key@ == key@,
        r is None ==> forall|k: int| 0 <= k < v@.len() ==> (#[trigger] v@[k]).key@ != key@,
{
    let mut k: usize = 0;
    while k < v.len()
        invariant
            k <= v@.len(),
            forall|j: int| 0 <= j < k ==> (#[trigger] v@[j]).key@ != key@,
        decreases v@.len() - k,
    {
        if v[k].key.same_as(key) {
            return Some(k);
        }
        k = k + 1;
    }
    None
}

impl Input {
    /// Applies the given specification to this input, keeping the IDs and
    /// runtime state of the endpoints and failover inputs matched by kind and
    /// by key. The `enabled` flags already set are kept.
    ///
    /// Where the key changes, the input gets disabled, or it switches between
    /// pulling and being pushed to, the clients of its endpoints are
    /// forgotten.
    pub fn apply(&mut self, new: v1::Input)
        ensures
            input_matches(*final(self), new, false),
            final(self).id == old(self).id,
            final(self).enabled == old(self).enabled,
            opt_src_kept(final(self).src, old(self).src, new.src),
            forall|p: int| #![trigger final(self).endpoints@[p]] 0 <= p < final(self).endpoints@.len()
                && (forall|j: int| 0 <= j < old(self).endpoints@.len() ==> (#[trigger] old(self).endpoints@[j]).kind != final(self).endpoints@[p].kind)
                ==> final(self).endpoints@[p].is_idle(),
            spec_kinds_distinct(new.endpoints@) ==> forall|p: int| #![trigger final(self).endpoints@[p]] 0 <= p < final(self).endpoints@.len()
                && (exists|j: int| 0 <= j < old(self).endpoints@.len() && (#[trigger] old(self).endpoints@[j]).kind == final(self).endpoints@[p].kind)
                ==> exists|j: int| 0 <= j < old(self).endpoints@.len() && (#[trigger] old(self).endpoints@[j]).kind == final(self).endpoints@[p].kind
                    && final(self).endpoints@[p].id == old(self).endpoints@[j].id
                    && final(self).endpoints@[p].status == old(self).endpoints@[j].status,
        decreases new,
    {
        let ghost orig = self.endpoints@;
        let ghost dist = spec_kinds_distinct(new.endpoints@);
        let kick = !self.key.same_as(&new.key) || !new.enabled
            || (self.src.is_none() && new.src.is_some())
            || (self.src.is_some() && new.src.is_none());
        let v1::Input { id: _, key, endpoints: news, src: new_src, enabled: _ } = new;
        self.key = key;
        let mut olds = swap_out(&mut self.endpoints, Vec::new());
        if kick {
            let mut k: usize = 0;
            let ghost n = olds@.len();
            while k < olds.len()
                invariant
                    k <= olds@.len(),
                    olds@.len() == n,
                    n == orig.len(),
                    forall|x: int| 0 <= x < n ==> (#[trigger] olds@[x]).id == orig[x].id && olds@[x].status == orig[x].status
                        && olds@[x].kind == orig[x].kind,
                decreases olds@.len() - k,
            {
                olds[k].srs_publisher_id = None;
                olds[k].srs_player_ids = Vec::new();
                k = k + 1;
            }
        }
        let ghost all = news@;
        let ghost mut idx: Seq<int> = Seq::new(orig.len(), |i: int| i);
        proof {
            assert forall|j: int| #![trigger orig[j]] 0 <= j < orig.len()
                implies exists|x: int| 0 <= x < idx.len() && #[trigger] idx[x] == j by {
                assert(idx[j] == j);
            }
        }
        let mut rest = news;
        while rest.len() > 0
            invariant
                self.endpoints@.len() + rest@.len() == all.len(),
                rest@ == all.subrange(self.endpoints@.len() as int, all.len() as int),
                endpoints_match(self.endpoints@, all.subrange(0, self.endpoints@.len() as int)),
                self.id == old(self).id,
                self.enabled == old(self).enabled,
                self.key@ == new.key@,
                self.src == old(self).src,
                all == new.endpoints@,
                dist == spec_kinds_distinct(all),
                orig == old(self).endpoints@,
                idx.len() == olds@.len(),
                forall|x: int| 0 <= x < olds@.len() ==> 0 <= #[trigger] idx[x] < orig.len()
                    && olds@[x].id == orig[idx[x]].id && olds@[x].status == orig[idx[x]].status && olds@[x].kind == orig[idx[x]].kind,
                forall|j: int| #![trigger orig[j]] 0 <= j < orig.len()
                    && (forall|p: int| 0 <= p < self.endpoints@.len() ==> (#[trigger] all[p]).kind != orig[j].kind)
                    ==> exists|x: int| 0 <= x < idx.len() && #[trigger] idx[x] == j,
                forall|p: int| #![trigger self.endpoints@[p]] 0 <= p < self.endpoints@.len()
                    && (forall|j: int| 0 <= j < orig.len() ==> (#[trigger] orig[j]).kind != self.endpoints@[p].kind)
                    ==> self.endpoints@[p].is_idle(),
                dist ==> forall|p: int| #![trigger self.endpoints@[p]] 0 <= p < self.endpoints@.len()
                    && (exists|j: int| 0 <= j < orig.len() && (#[trigger] orig[j]).kind == self.endpoints@[p].kind)
                    ==> exists|j: int| 0 <= j < orig.len() && (#[trigger] orig[j]).kind == self.endpoints@[p].kind
                        && self.endpoints@[p].id == orig[j].id && self.endpoints@[p].status == orig[j].status,
            decreases rest@.len(),
        {
            let e = rest.remove(0);
            let ghost before = self.endpoints@;
            let ghost olds0 = olds@;
            let ghost idx0 = idx;
            let ghost i = before.len();
            proof {
                assert(e == all[i as int]);
            }
            match find_endpoint_of_kind(&olds, e.kind) {
                Some(n) => {
                    let mut old_e = olds.swap_remove(n);
                    proof {
                        idx = idx.update(n as int, idx[idx.len() - 1]).drop_last();
                        assert forall|x: int| 0 <= x < olds@.len() implies 0 <= #[trigger] idx[x] < orig.len()
                            && olds@[x].id == orig[idx[x]].id && olds@[x].status == orig[idx[x]].status && olds@[x].kind == orig[idx[x]].kind by {
                            if x == n {
                                assert(olds@[x] == olds0[olds0.len() - 1]);
                                assert(idx[x] == idx0[idx0.len() - 1]);
                            } else {
                                assert(olds@[x] == olds0[x]);
                                assert(idx[x] == idx0[x]);
                            }
                        }
                        assert forall|j: int| #![trigger orig[j]] 0 <= j < orig.len()
                            && (forall|p: int| 0 <= p < i + 1 ==> (#[trigger] all[p]).kind != orig[j].kind)
                            implies exists|x: int| 0 <= x < idx.len() && #[trigger] idx[x] == j by {
                            assert(forall|p: int| 0 <= p < i ==> (#[trigger] all[p]).kind != orig[j].kind);
                            let x0 = choose|x: int| 0 <= x < idx0.len() && #[trigger] idx0[x] == j;
                            assert(all[i as int].kind != orig[j].kind);
                            assert(x0 != n);
                            if x0 == idx0.len() - 1 {
                                assert(idx[n as int] == j);
                            } else {
                                assert(idx[x0] == j);
                            }
                        }
                    }
                    let ghost jn = idx0[n as int];
                    old_e.apply(e);
                    self.endpoints.push(old_e);
                    proof {
                        assert(self.endpoints@[i as int].id == orig[jn].id && self.endpoints@[i as int].status == orig[jn].status);
                        assert(orig[jn].kind == all[i as int].kind);
                    }
                },
                None => {
                    self.endpoints.push(InputEndpoint::new(e));
                    proof {
                        if dist {
                            assert forall|j: int| 0 <= j < orig.len() implies (#[trigger] orig[j]).kind != all[i as int].kind by {
                                if orig[j].kind == all[i as int].kind {
                                    assert forall|p: int| 0 <= p < i implies (#[trigger] all[p]).kind != orig[j].kind by {
                                        assert(all[p].kind != all[i as int].kind);
                                    }
                                    let x0 = choose|x: int| 0 <= x < idx.len() && #[trigger] idx[x] == j;
                                    assert(olds@[x0].kind == orig[j].kind);
                                }
                            }
                        }
                        assert forall|j: int| #![trigger orig[j]] 0 <= j < orig.len()
                            && (forall|p: int| 0 <= p < i + 1 ==> (#[trigger] all[p]).kind != orig[j].kind)
                            implies exists|x: int| 0 <= x < idx.len() && #[trigger] idx[x] == j by {
                            assert(forall|p: int| 0 <= p < i ==> (#[trigger] all[p]).kind != orig[j].kind);
                        }
                    }
                },
            }
            proof {
                assert forall|p: int| 0 <= p < i implies #[trigger] self.endpoints@[p] == before[p] by {}
                assert(self.endpoints@[i as int].kind == all[i as int].kind);
                assert(all.subrange(0, self.endpoints@.len() as int) =~= all.subrange(0, before.len() as int).push(e));
                assert(rest@ =~= all.subrange(self.endpoints@.len() as int, all.len() as int));
            }
        }
        proof {
            assert(all.subrange(0, self.endpoints@.len() as int) =~= all);
        }
        let taken = swap_out(&mut self.src, None);
        match (taken, new_src) {
            (Some(mut old_src), Some(s)) => {
                proof {
                    assert(decreases_to!(new => new.src));
                    assert(decreases_to!(new.src => new.src->Some_0));
                }
                old_src.apply(s);
                self.src = Some(old_src);
                proof {
                    assert(opt_src_kept(self.src, old(self).src, new.src));
                }
            },
            (None, Some(s)) => {
                proof {
                    assert(decreases_to!(new => new.src));
                    assert(decreases_to!(new.src => new.src->Some_0));
                }
                let created = InputSrc::new(s);
                proof {
                    lemma_src_match_lenient(created, s);
                }
                self.src = Some(created);
            },
            (_, _) => {
                self.src = None;
            },
        }
    }
}

/// Keys of the specified inputs `v`, in order.
pub open spec fn spec_input_keys(v: Seq<v1::Input>) -> Seq<Seq<char>> {
    v.map_values(|x: v1::Input| x.key@)
}

/// Whether the inputs `f`, set from specifications with distinct keys over
/// the inputs `o`, keep the ID and `enabled` flag of the old input with the
/// same key.
pub open spec fn inputs_kept(f: Seq<Input>, o: Seq<Input>) -> bool {
    forall|p: int| #![trigger f[p]] 0 <= p < f.len()
        && (exists|j: int| 0 <= j < o.len() && (#[trigger] o[j]).key@ == f[p].key@)
        ==> exists|j: int| 0 <= j < o.len() && (#[trigger] o[j]).key@ == f[p].key@
            && f[p].id == o[j].id && f[p].enabled == o[j].enabled
}

/// Whether the source `f`, set from the specification `s` over the source
/// `o`, keeps the inputs of a failover source that it stays (what
/// `inputs_kept` says, with distinct keys in `s`).
pub open spec fn src_kept(f: InputSrc, o: InputSrc, s: v1::InputSrc) -> bool {
    match (o, f, s) {
        (InputSrc::Failover(a), InputSrc::Failover(b), v1::InputSrc::FailoverInputs(v)) =>
            v1::all_distinct(spec_input_keys(v@)) ==> inputs_kept(b.inputs@, a.inputs@),
        _ => true,
    }
}

/// `src_kept` of optional sources, which holds where one is missing.
pub open spec fn opt_src_kept(f: Option<InputSrc>, o: Option<InputSrc>, s: Option<v1::InputSrc>) -> bool {
    match (o, f, s) {
        (Some(a), Some(b), Some(v)) => src_kept(b, a, v),
        _ => true,
    }
}

/// Whether the specified endpoints have distinct kinds.
pub open spec fn spec_kinds_distinct(e: Seq<v1::InputEndpoint>) -> bool {
    forall|i: int, j: int| 0 <= i < j < e.len() ==> (#[trigger] e[i]).kind != (#[trigger] e[j]).kind
}

/// A strict match of a source is also a lenient one.
pub proof fn lemma_src_match_lenient(r: InputSrc, s: v1::InputSrc)
    requires
        src_matches(r, s, true),
    ensures
        src_matches(r, s, false),
{
    match (r, s) {
        (InputSrc::Failover(f), v1::InputSrc::FailoverInputs(v)) => {
            lemma_inputs_match_lenient(f.inputs@, v@);
        },
        _ => {},
    }
}

impl InputSrc {
    /// Applies the given specification to this source. Failover inputs are
    /// matched by key: matched ones keep their IDs and runtime state.
    pub fn apply(&mut self, new: v1::InputSrc)
        ensures
            src_matches(*final(self), new, false),
            src_kept(*final(self), *old(self), new),
        decreases new,
    {
        let taken = swap_out(self, InputSrc::Failover(FailoverInputSrc { inputs: Vec::new() }));
        match (taken, new) {
            (InputSrc::Remote(mut r), v1::InputSrc::RemoteUrl(url)) => {
                r.url = url;
                *self = InputSrc::Remote(r);
            },
            (InputSrc::Failover(f), v1::InputSrc::FailoverInputs(news)) => {
                let ghost all = news@;
                proof {
                    assert(decreases_to!(new => news));
                    assert(decreases_to!(news => all));
                }
                let mut olds = f.inputs;
                let ghost oo = olds@;
                let ghost dd = v1::all_distinct(spec_input_keys(all));
                let ghost mut idx: Seq<int> = Seq::new(oo.len(), |i: int| i);
                let mut rest = news;
                let mut inputs: Vec<Input> = Vec::new();
                while rest.len() > 0
                    invariant
                        inputs@.len() + rest@.len() == all.len(),
                        rest@ == all.subrange(inputs@.len() as int, all.len() as int),
                        inputs_match(inputs@, all.subrange(0, inputs@.len() as int), false),
                        decreases_to!(new => all),
                        idx.len() == olds@.len(),
                        forall|x: int| 0 <= x < olds@.len() ==> 0 <= #[trigger] idx[x] < oo.len() && olds@[x] == oo[idx[x]],
                        forall|j: int| #![trigger oo[j]] 0 <= j < oo.len()
                            && (forall|p: int| 0 <= p < inputs@.len() ==> (#[trigger] all[p]).key@ != oo[j].key@)
                            ==> exists|x: int| 0 <= x < olds@.len() && #[trigger] olds@[x] == oo[j],
                        dd == v1::all_distinct(spec_input_keys(all)),
                        dd ==> inputs_kept(inputs@, oo),
                    decreases rest@.len(),
                {
                    let ghost before = inputs@;
                    let ghost olds0 = olds@;
                    let ghost n0 = inputs@.len() as int;
                    let i = rest.remove(0);
                    proof {
                        assert(i == all[before.len() as int]);
                        assert(decreases_to!(all => all[before.len() as int]));
                    }
                    match find_input_of_key(&olds, &i.key) {
                        Some(n) => {
                            let mut old_i = olds.swap_remove(n);
                            let ghost j0 = idx[n as int];
                            proof {
                                let idx0 = idx;
                                idx = idx.update(n as int, idx[idx.len() - 1]).drop_last();
                                assert forall|x: int| 0 <= x < olds@.len() implies 0 <= #[trigger] idx[x] < oo.len() && olds@[x] == oo[idx[x]] by {
                                    if x == n {
                                        assert(olds@[x] == olds0[olds0.len() - 1]);
                                        assert(idx[x] == idx0[idx0.len() - 1]);
                                    } else {
                                        assert(olds@[x] == olds0[x]);
                                        assert(idx[x] == idx0[x]);
                                    }
                                }
                                assert forall|j: int| #![trigger oo[j]] 0 <= j < oo.len()
                                    && (forall|p: int| 0 <= p < n0 + 1 ==> (#[trigger] all[p]).key@ != oo[j].key@)
                                    implies exists|x: int| 0 <= x < olds@.len() && #[trigger] olds@[x] == oo[j] by {
                                    assert(forall|p: int| 0 <= p < n0 ==> (#[trigger] all[p]).key@ != oo[j].key@);
                                    let x0 = choose|x: int| 0 <= x < olds0.len() && #[trigger] olds0[x] == oo[j];
                                    assert(all[n0].key@ != oo[j].key@);
                                    assert(x0 != n);
                                    if x0 == olds0.len() - 1 {
                                        assert(olds@[n as int] == oo[j]);
                                    } else {
                                        assert(olds@[x0] == oo[j]);
                                    }
                                }
                                assert(old_i == oo[j0]);
                            }
                            old_i.apply(i);
                            inputs.push(old_i);
                            proof {
                                assert(inputs@[n0].key@ == oo[j0].key@);
                                assert forall|p: int| 0 <= p < n0 implies #[trigger] inputs@[p] == before[p] by {}
                            }
                        },
                        None => {
                            let created = Input::new(i);
                            proof {
                                lemma_input_match_lenient(created, i);
                            }
                            inputs.push(created);
                            proof {
                                assert forall|p: int| 0 <= p < n0 implies #[trigger] inputs@[p] == before[p] by {}
                                if dd {
                                    assert forall|j: int| 0 <= j < oo.len() implies (#[trigger] oo[j]).key@ != inputs@[n0].key@ by {
                                        if oo[j].key@ == inputs@[n0].key@ {
                                            assert forall|p: int| 0 <= p < n0 implies (#[trigger] all[p]).key@ != oo[j].key@ by {
                                                assert(spec_input_keys(all)[p] != spec_input_keys(all)[n0]);
                                            }
                                            let x0 = choose|x: int| 0 <= x < olds@.len() && #[trigger] olds@[x] == oo[j];
                                            assert(olds@[x0].key@ != i.key@);
                                        }
                                    }
                                }
                                assert forall|j: int| #![trigger oo[j]] 0 <= j < oo.len()
                                    && (forall|p: int| 0 <= p < n0 + 1 ==> (#[trigger] all[p]).key@ != oo[j].key@)
                                    implies exists|x: int| 0 <= x < olds@.len() && #[trigger] olds@[x] == oo[j] by {
                                    assert(forall|p: int| 0 <= p < n0 ==> (#[trigger] all[p]).key@ != oo[j].key@);
                                }
                            }
                        },
                    }
                    proof {
                        assert(all.subrange(0, inputs@.len() as int).drop_last() =~= all.subrange(0, before.len() as int));
                        assert(inputs@.drop_last() =~= before);
                        assert(rest@ =~= all.subrange(inputs@.len() as int, all.len() as int));
                    }
                }
                proof {
                    assert(all.subrange(0, inputs@.len() as int) =~= all);
                }
                *self = InputSrc::Failover(FailoverInputSrc { inputs });
            },
            (_, n) => {
                let created = InputSrc::new(n);
                proof {
                    lemma_src_match_lenient(created, n);
                }
                *self = created;
            },
        }
    }
}

/// Additional audio source for an output, mixed in before re-streaming.
#[derive(Debug)]
pub struct Mixin {
    /// Unique ID of this mixin.
    pub id: MixinId,
    /// URL of the source to be mixed in.
    pub src: MixinSrcUrl,
    /// Volume rate of this mixin's audio.
    pub volume: Volume,
    /// Delay before this mixin is mixed in.
    pub delay: Delay,
    /// Whether this mixin actually provides a live stream.
    pub status: Status,
    /// Whether the output audio is side-chained with this mixin.
    pub sidechain: bool,
}

/// Whether the mixin `m` is the one described by `s`, up to its ID and status.
pub open spec fn mixin_matches(m: Mixin, s: v1::Mixin) -> bool {
    &&& same_url(m.src.url(), s.src.url())
    &&& m.volume.level == s.volume.level
    &&& m.volume.muted == s.volume.muted
    &&& m.delay == s.delay
    &&& m.sidechain == s.sidechain
}

/// Whether the mixins `a` are those described by `b`, in the same order.
pub open spec fn mixins_match(a: Seq<Mixin>, b: Seq<v1::Mixin>) -> bool {
    &&& a.len() == b.len()
    &&& forall|k: int| 0 <= k < a.len() ==> #[trigger] mixin_matches(a[k], b[k])
}

impl Mixin {
    /// Creates a new mixin out of the given specification.
    pub fn new(spec: v1::Mixin) -> (r: Self)
        ensures
            mixin_matches(r, spec),
            r.status == Status::Offline,
    {
        let volume = Volume::new(&spec.volume);
        Mixin {
            id: MixinId::random(),
            src: spec.src,
            volume,
            delay: spec.delay,
            status: Status::Offline,
            sidechain: spec.sidechain,
        }
    }

    /// Applies the given specification to this mixin.
    pub fn apply(&mut self, new: v1::Mixin)
        ensures
            mixin_matches(*final(self), new),
            final(self).id == old(self).id,
            final(self).status == old(self).status,
    {
        self.volume = Volume::new(&new.volume);
        self.src = new.src;
        self.delay = new.delay;
        self.sidechain = new.sidechain;
    }

    /// Exports this mixin as a specification.
    pub fn export(&self) -> (r: v1::Mixin)
        ensures
            mixin_matches(*self, r),
    {
        v1::Mixin {
            src: self.src.copied(),
            volume: self.volume.export(),
            delay: self.delay,
            sidechain: self.sidechain,
        }
    }
}

/// Downstream destination that a restream re-streams a live stream to.
#[derive(Debug)]
pub struct Output {
    /// Unique ID of this output.
    pub id: OutputId,
    /// Downstream URL to re-stream onto.
    pub dst: OutputDstUrl,
    /// Optional label of this output.
    pub label: Option<Label>,
    /// URL of a preview of the stream.
    pub preview_url: Option<UrlParts>,
    /// Volume rate of this output's own audio when mixed with its mixins.
    pub volume: Volume,
    /// Mixins to mix this output with.
    pub mixins: Vec<Mixin>,
    /// Whether this output is allowed to re-stream.
    pub enabled: bool,
    /// Whether this output actually re-streams.
    pub status: Status,
}

/// Whether two optional URLs are the same.
pub open spec fn same_opt_url(a: Option<UrlParts>, b: Option<UrlParts>) -> bool {
    match (a, b) {
        (Some(x), Some(y)) => same_url(x, y),
        (None, None) => true,
        _ => false,
    }
}

/// Whether the output `o` is the one described by `s`, up to IDs and runtime
/// state; the `enabled` flags are compared only when `strict` holds.
pub open spec fn output_matches(o: Output, s: v1::Output, strict: bool) -> bool {
    &&& same_url(o.dst.url(), s.dst.url())
    &&& label_view(o.label) == label_view(s.label)
    &&& same_opt_url(o.preview_url, s.preview_url)
    &&& o.volume.level == s.volume.level
    &&& o.volume.muted == s.volume.muted
    &&& mixins_match(o.mixins@, s.mixins@)
    &&& strict ==> o.enabled == s.enabled
}

/// Whether the outputs `a` are those described by `b`, in the same order.
pub open spec fn outputs_match(a: Seq<Output>, b: Seq<v1::Output>, strict: bool) -> bool {
    &&& a.len() == b.len()
    &&& forall|k: int| 0 <= k < a.len() ==> #[trigger] output_matches(a[k], b[k], strict)
}

/// An equal copy of an optional URL.
fn copy_opt_url(u: &Option<UrlParts>) -> (r: Option<UrlParts>)
    ensures
        same_opt_url(r, *u),
{
    match u {
        Some(x) => Some(copy_url(x)),
        None => None,
    }
}

/// Finds the position of the mixin with the given source.
fn find_mixin_of_src(v: &Vec<Mixin>, src: &MixinSrcUrl) -> (r: Option<usize>)
    ensures
        r matches Some(k) ==> k < v@.len() && v@[k as int].src.url().href@ == src.url().href@,
        r is None ==> forall|k: int| 0 <= k < v@.len() ==> (#[trigger] v@[k]).src.url().href@ != src.url().href@,
{
    let mut k: usize = 0;
    while k < v.len()
        invariant
            k <= v@.len(),
            forall|j: int| 0 <= j < k ==> (#[trigger] v@[j]).src.url().href@ != src.url().href@,
        decreases v@.len() - k,
    {
        if v[k].src.parts().same_as(src.parts()) {
            return Some(k);
        }
        k = k + 1;
    }
    None
}

/// Builds the mixins described by `news`, taking over the IDs and statuses
/// of those in `olds` with the same source.
/// Whether the mixins `f`, set from a specification with distinct sources
/// over the mixins `o`, keep the ID and status of the old mixin with the
/// same source URL.
pub open spec fn mixins_kept(f: Seq<Mixin>, o: Seq<Mixin>) -> bool {
    forall|p: int| #![trigger f[p]] 0 <= p < f.len()
        && (exists|j: int| 0 <= j < o.len() && (#[trigger] o[j]).src.url().href@ == f[p].src.url().href@)
        ==> exists|j: int| 0 <= j < o.len() && (#[trigger] o[j]).src.url().href@ == f[p].src.url().href@
            && f[p].id == o[j].id && f[p].status == o[j].status
}

fn merge_mixins(olds: Vec<Mixin>, news: Vec<v1::Mixin>) -> (r: Vec<Mixin>)
    ensures
        mixins_match(r@, news@),
        v1::all_distinct(v1::mixin_hrefs(news@)) ==> mixins_kept(r@, olds@),
        olds@.len() == 0 ==> forall|k: int| 0 <= k < r@.len() ==> (#[trigger] r@[k]).status == Status::Offline,
{
    let ghost fresh = olds@.len() == 0;
    let ghost all = news@;
    let ghost oo = olds@;
    let ghost dd = v1::all_distinct(v1::mixin_hrefs(all));
    let mut olds = olds;
    let mut rest = news;
    let mut out: Vec<Mixin> = Vec::new();
    let ghost mut idx: Seq<int> = Seq::new(oo.len(), |i: int| i);
    while rest.len() > 0
        invariant
            out@.len() + rest@.len() == all.len(),
            rest@ == all.subrange(out@.len() as int, all.len() as int),
            mixins_match(out@, all.subrange(0, out@.len() as int)),
            fresh ==> olds@.len() == 0,
            fresh ==> forall|k: int| 0 <= k < out@.len() ==> (#[trigger] out@[k]).status == Status::Offline,
            idx.len() == olds@.len(),
            forall|x: int| 0 <= x < olds@.len() ==> 0 <= #[trigger] idx[x] < oo.len() && olds@[x] == oo[idx[x]],
            forall|j: int| #![trigger oo[j]] 0 <= j < oo.len()
                && (forall|p: int| 0 <= p < out@.len() ==> (#[trigger] all[p]).src.url().href@ != oo[j].src.url().href@)
                ==> exists|x: int| 0 <= x < olds@.len() && #[trigger] olds@[x] == oo[j],
            dd == v1::all_distinct(v1::mixin_hrefs(all)),
            dd ==> mixins_kept(out@, oo),
        decreases rest@.len(),
    {
        let m = rest.remove(0);
        let ghost before = out@;
        let ghost olds0 = olds@;
        let ghost n0 = out@.len() as int;
        proof {
            assert(all[n0] == m);
        }
        match find_mixin_of_src(&olds, &m.src) {
            Some(n) => {
                let mut old_m = olds.swap_remove(n);
                let ghost j0 = idx[n as int];
                proof {
                    let idx0 = idx;
                    idx = idx.update(n as int, idx[idx.len() - 1]).drop_last();
                    assert forall|x: int| 0 <= x < olds@.len() implies 0 <= #[trigger] idx[x] < oo.len() && olds@[x] == oo[idx[x]] by {
                        if x == n {
                            assert(olds@[x] == olds0[olds0.len() - 1]);
                            assert(idx[x] == idx0[idx0.len() - 1]);
                        } else {
                            assert(olds@[x] == olds0[x]);
                            assert(idx[x] == idx0[x]);
                        }
                    }
                    assert forall|j: int| #![trigger oo[j]] 0 <= j < oo.len()
                        && (forall|p: int| 0 <= p < n0 + 1 ==> (#[trigger] all[p]).src.url().href@ != oo[j].src.url().href@)
                        implies exists|x: int| 0 <= x < olds@.len() && #[trigger] olds@[x] == oo[j] by {
                        assert(forall|p: int| 0 <= p < n0 ==> (#[trigger] all[p]).src.url().href@ != oo[j].src.url().href@);
                        let x0 = choose|x: int| 0 <= x < olds0.len() && #[trigger] olds0[x] == oo[j];
                        assert(all[n0].src.url().href@ != oo[j].src.url().href@);
                        assert(x0 != n);
                        if x0 == olds0.len() - 1 {
                            assert(olds@[n as int] == oo[j]);
                        } else {
                            assert(olds@[x0] == oo[j]);
                        }
                    }
                    assert(old_m == oo[j0]);
                }
                old_m.apply(m);
                out.push(old_m);
                proof {
                    assert(out@[n0].src.url().href@ == oo[j0].src.url().href@);
                    assert forall|p: int| 0 <= p < n0 implies #[trigger] out@[p] == before[p] by {}
                }
            },
            None => {
                out.push(Mixin::new(m));
                proof {
                    assert forall|p: int| 0 <= p < n0 implies #[trigger] out@[p] == before[p] by {}
                    if dd {
                        assert forall|j: int| 0 <= j < oo.len() implies (#[trigger] oo[j]).src.url().href@ != out@[n0].src.url().href@ by {
                            if oo[j].src.url().href@ == out@[n0].src.url().href@ {
                                assert forall|p: int| 0 <= p < n0 implies (#[trigger] all[p]).src.url().href@ != oo[j].src.url().href@ by {
                                    assert(v1::mixin_hrefs(all)[p] != v1::mixin_hrefs(all)[n0]);
                                }
                                let x0 = choose|x: int| 0 <= x < olds@.len() && #[trigger] olds@[x] == oo[j];
                                assert(olds@[x0].src.url().href@ != m.src.url().href@);
                            }
                        }
                    }
                    assert forall|j: int| #![trigger oo[j]] 0 <= j < oo.len()
                        && (forall|p: int| 0 <= p < n0 + 1 ==> (#[trigger] all[p]).src.url().href@ != oo[j].src.url().href@)
                        implies exists|x: int| 0 <= x < olds@.len() && #[trigger] olds@[x] == oo[j] by {
                        assert(forall|p: int| 0 <= p < n0 ==> (#[trigger] all[p]).src.url().href@ != oo[j].src.url().href@);
                    }
                }
            },
        }
        proof {
            assert(all.subrange(0, out@.len() as int) =~= all.subrange(0, before.len() as int).push(m));
            assert(rest@ =~= all.subrange(out@.len() as int, all.len() as int));
            assert forall|k: int| 0 <= k < out@.len() implies #[trigger] mixin_matches(out@[k], all.subrange(0, out@.len() as int)[k]) by {
                if k < before.len() {
                    assert(mixin_matches(before[k], all.subrange(0, before.len() as int)[k]));
                }
            }
        }
    }
    proof {
        assert(all.subrange(0, out@.len() as int) =~= all);
    }
    out
}

impl Output {
    /// Creates a new output out of the given specification.
    pub fn new(spec: v1::Output) -> (r: Self)
        ensures
            output_matches(r, spec, true),
            r.status == Status::Offline,
            forall|k: int| 0 <= k < r.mixins@.len() ==> (#[trigger] r.mixins@[k]).status == Status::Offline,
    {
        let volume = Volume::new(&spec.volume);
        let v1::Output { id: _, dst, label, preview_url, volume: _, mixins, enabled } = spec;
        let mixins = merge_mixins(Vec::new(), mixins);
        Output {
            id: OutputId::random(),
            dst,
            label,
            preview_url: copy_opt_url(&preview_url),
            volume,
            mixins,
            enabled,
            status: Status::Offline,
        }
    }

    /// Applies the given specification to this output. With `replace` the
    /// mixins become those of the specification (keeping the IDs of those
    /// with the same source); otherwise new mixins are merged into the
    /// existing ones. The `enabled` flag is kept.
    pub fn apply(&mut self, new: v1::Output, replace: bool)
        ensures
            replace ==> output_matches(*final(self), new, false),
            same_url(final(self).dst.url(), new.dst.url()),
            final(self).volume.level == new.volume.level,
            final(self).volume.muted == new.volume.muted,
            final(self).id == old(self).id,
            final(self).enabled == old(self).enabled,
            final(self).status == old(self).status,
            final(self).mixins@.len() >= old(self).mixins@.len() || replace,
            replace && v1::all_distinct(v1::mixin_hrefs(new.mixins@)) ==> mixins_kept(final(self).mixins@, old(self).mixins@),
    {
        self.volume = Volume::new(&new.volume);
        let v1::Output { id: _, dst, label, preview_url, volume: _, mixins, enabled: _ } = new;
        self.dst = dst;
        self.label = label;
        self.preview_url = copy_opt_url(&preview_url);
        let olds = swap_out(&mut self.mixins, Vec::new());
        if replace {
            self.mixins = merge_mixins(olds, mixins);
        } else {
            let mut olds = olds;
            let mut rest = mixins;
            let ghost n = olds@.len();
            while rest.len() > 0
                invariant
                    olds@.len() >= n,
                decreases rest@.len(),
            {
                let m = rest.remove(0);
                match find_mixin_of_src(&olds, &m.src) {
                    Some(k) => {
                        olds[k].apply(m);
                    },
                    None => {
                        olds.push(Mixin::new(m));
                    },
                }
            }
            self.mixins = olds;
        }
    }

    /// Exports this output as a specification.
    pub fn export(&self) -> (r: v1::Output)
        ensures
            output_matches(*self, r, true),
            r.id == Some(self.id),
    {
        let mut mixins: Vec<v1::Mixin> = Vec::new();
        let mut k: usize = 0;
        while k < self.mixins.len()
            invariant
                k <= self.mixins@.len(),
                mixins_match(self.mixins@.subrange(0, k as int), mixins@),
            decreases self.mixins@.len() - k,
        {
            let ghost before = mixins@;
            mixins.push(self.mixins[k].export());
            proof {
                assert forall|j: int| 0 <= j <= k implies #[trigger] mixin_matches(self.mixins@.subrange(0, k + 1)[j], mixins@[j]) by {
                    if j < k {
                        assert(mixin_matches(self.mixins@.subrange(0, k as int)[j], before[j]));
                    }
                }
            }
            k = k + 1;
        }
        proof {
            assert(self.mixins@.subrange(0, k as int) =~= self.mixins@);
        }
        v1::Output {
            id: Some(self.id),
            dst: self.dst.copied(),
            label: copy_label(&self.label),
            preview_url: copy_opt_url(&self.preview_url),
            volume: self.volume.export(),
            mixins,
            enabled: self.enabled,
        }
    }
}

/// Re-stream of a live stream from one input to many outputs.
#[derive(Debug)]
pub struct Restream {
    /// Unique ID of this restream.
    pub id: RestreamId,
    /// Unique key of this restream, used to form its endpoint URLs.
    pub key: RestreamKey,
    /// Optional label of this restream.
    pub label: Option<Label>,
    /// Input that a live stream is received from.
    pub input: Input,
    /// Outputs that a live stream is re-streamed to.
    pub outputs: Vec<Output>,
}

/// Whether the restream `r` has no runtime state yet: its endpoints are
/// idle, its outputs and their mixins offline.
pub open spec fn restream_fresh(r: Restream) -> bool {
    &&& tree_idle(r.input)
    &&& forall|k: int| 0 <= k < r.outputs@.len() ==> output_fresh(#[trigger] r.outputs@[k])
}

/// Whether the output `o` and its mixins are offline.
pub open spec fn output_fresh(o: Output) -> bool {
    &&& o.status == Status::Offline
    &&& forall|j: int| 0 <= j < o.mixins@.len() ==> (#[trigger] o.mixins@[j]).status == Status::Offline
}

/// Whether the restream `r` is the one described by `s`, up to IDs and
/// runtime state; the `enabled` flags are compared only when `strict` holds.
pub open spec fn restream_matches(r: Restream, s: v1::Restream, strict: bool) -> bool {
    &&& r.key@ == s.key@
    &&& label_view(r.label) == label_view(s.label)
    &&& input_matches(r.input, s.input, strict)
    &&& outputs_match(r.outputs@, s.outputs@, strict)
}

/// Finds the position of the output with the given destination.
fn find_output_of_dst(v: &Vec<Output>, dst: &OutputDstUrl) -> (r: Option<usize>)
    ensures
        r matches Some(k) ==> k < v@.len() && v@[k as int].dst.url().href@ == dst.url().href@,
        r is None ==> forall|k: int| 0 <= k < v@.len() ==> (#[trigger] v@[k]).dst.url().href@ != dst.url().href@,
{
    let mut k: usize = 0;
    while k < v.len()
        invariant
            k <= v@.len(),
            forall|j: int| 0 <= j < k ==> (#[trigger] v@[j]).dst.url().href@ != dst.url().href@,
        decreases v@.len() - k,
    {
        if v[k].dst.parts().same_as(dst.parts()) {
            return Some(k);
        }
        k = k + 1;
    }
    None
}

/// Whether the restream `f`, merged from a specification into `o`, keeps
/// what `o` holds at run time: its ID, its input's ID and `enabled` flag,
/// and every output of `o` at its place, with its ID, status and `enabled`
/// flag.
pub open spec fn restream_stays(f: Restream, o: Restream) -> bool {
    &&& f.id == o.id
    &&& f.input.id == o.input.id
    &&& f.input.enabled == o.input.enabled
    &&& f.outputs@.len() >= o.outputs@.len()
    &&& forall|j: int| 0 <= j < o.outputs@.len() ==> (#[trigger] f.outputs@[j]).id == o.outputs@[j].id
        && f.outputs@[j].status == o.outputs@[j].status && f.outputs@[j].enabled == o.outputs@[j].enabled
}

/// Whether the outputs `f`, set from the specifications `s` (with distinct
/// destinations) over the outputs `o`, keep the ID, status and `enabled`
/// flag of the old output with the same destination URL, and, where the
/// mixins of `s` have distinct sources, what `mixins_kept` says of theirs.
pub open spec fn outputs_kept(f: Seq<Output>, o: Seq<Output>, s: Seq<v1::Output>) -> bool {
    forall|p: int| #![trigger f[p]] 0 <= p < f.len()
        && (exists|j: int| 0 <= j < o.len() && (#[trigger] o[j]).dst.url().href@ == f[p].dst.url().href@)
        ==> exists|j: int| 0 <= j < o.len() && (#[trigger] o[j]).dst.url().href@ == f[p].dst.url().href@
            && f[p].id == o[j].id && f[p].status == o[j].status && f[p].enabled == o[j].enabled
            && (v1::all_distinct(v1::mixin_hrefs(s[p].mixins@)) ==> mixins_kept(f[p].mixins@, o[j].mixins@))
}

/// Whether the restream `f`, set from the specification `s` over the
/// restream `o`, keeps what `o` holds at run time: its ID, its input's ID
/// and `enabled` flag, the ID and status of each endpoint of a kind `o`'s
/// input had, with distinct destinations what `outputs_kept` says, and the
/// inputs of a failover source that stays (`opt_src_kept`).
pub open spec fn restream_kept(f: Restream, o: Restream, s: v1::Restream) -> bool {
    &&& f.id == o.id
    &&& f.input.id == o.input.id
    &&& f.input.enabled == o.input.enabled
    &&& spec_kinds_distinct(s.input.endpoints@) ==> forall|p: int| #![trigger f.input.endpoints@[p]] 0 <= p < f.input.endpoints@.len()
        && (exists|j: int| 0 <= j < o.input.endpoints@.len() && (#[trigger] o.input.endpoints@[j]).kind == f.input.endpoints@[p].kind)
        ==> exists|j: int| 0 <= j < o.input.endpoints@.len() && (#[trigger] o.input.endpoints@[j]).kind == f.input.endpoints@[p].kind
            && f.input.endpoints@[p].id == o.input.endpoints@[j].id
            && f.input.endpoints@[p].status == o.input.endpoints@[j].status
    &&& v1::all_distinct(v1::output_hrefs(s.outputs@)) ==> outputs_kept(f.outputs@, o.outputs@, s.outputs@)
    &&& opt_src_kept(f.input.src, o.input.src, s.input.src)
}

impl Restream {
    /// Creates a new restream out of the given specification, with fresh IDs
    /// and no runtime state.
    pub fn new(spec: v1::Restream) -> (r: Self)
        ensures
            restream_matches(r, spec, true),
            restream_fresh(r),
    {
        let v1::Restream { id: _, key, label, input, outputs: news } = spec;
        let ghost all = news@;
        let mut rest = news;
        let mut outputs: Vec<Output> = Vec::new();
        while rest.len() > 0
            invariant
                outputs@.len() + rest@.len() == all.len(),
                rest@ == all.subrange(outputs@.len() as int, all.len() as int),
                outputs_match(outputs@, all.subrange(0, outputs@.len() as int), true),
                forall|k: int| 0 <= k < outputs@.len() ==> output_fresh(#[trigger] outputs@[k]),
            decreases rest@.len(),
        {
            let o = rest.remove(0);
            let ghost before = outputs@;
            outputs.push(Output::new(o));
            proof {
                assert(all.subrange(0, outputs@.len() as int) =~= all.subrange(0, before.len() as int).push(o));
                assert(rest@ =~= all.subrange(outputs@.len() as int, all.len() as int));
                assert forall|k: int| 0 <= k < outputs@.len() implies #[trigger] output_matches(outputs@[k], all.subrange(0, outputs@.len() as int)[k], true) by {
                    if k < before.len() {
                        assert(output_matches(before[k], all.subrange(0, before.len() as int)[k], true));
                    }
                }
            }
        }
        proof {
            assert(all.subrange(0, outputs@.len() as int) =~= all);
        }
        Restream { id: RestreamId::random(), key, label, input: Input::new(input), outputs }
    }

    /// Applies the given specification to this restream. With `replace` the
    /// outputs become those of the specification (keeping the IDs of those
    /// with the same destination); otherwise new outputs are merged into the
    /// existing ones. The `enabled` flags are kept.
    pub fn apply(&mut self, new: v1::Restream, replace: bool)
        ensures
            replace ==> restream_matches(*final(self), new, false),
            final(self).key@ == new.key@,
            label_view(final(self).label) == label_view(new.label),
            input_matches(final(self).input, new.input, false),
            final(self).id == old(self).id,
            !replace && new.outputs@.len() == 0 ==> final(self).outputs == old(self).outputs,
            replace ==> restream_kept(*final(self), *old(self), new),
            !replace ==> restream_stays(*final(self), *old(self)),
    {
        let ghost sn = new;
        let v1::Restream { id: _, key, label, input, outputs: news } = new;
        self.key = key;
        self.label = label;
        self.input.apply(input);
        let olds = swap_out(&mut self.outputs, Vec::new());
        let mut olds = olds;
        let ghost all = news@;
        let ghost oo = olds@;
        let ghost dd = v1::all_distinct(v1::output_hrefs(all));
        let mut rest = news;
        if replace {
            let mut outputs: Vec<Output> = Vec::new();
            let ghost mut idx: Seq<int> = Seq::new(oo.len(), |i: int| i);
            while rest.len() > 0
                invariant
                    outputs@.len() + rest@.len() == all.len(),
                    rest@ == all.subrange(outputs@.len() as int, all.len() as int),
                    outputs_match(outputs@, all.subrange(0, outputs@.len() as int), false),
                    idx.len() == olds@.len(),
                    forall|x: int| 0 <= x < olds@.len() ==> 0 <= #[trigger] idx[x] < oo.len() && olds@[x] == oo[idx[x]],
                    forall|j: int| #![trigger oo[j]] 0 <= j < oo.len()
                        && (forall|p: int| 0 <= p < outputs@.len() ==> (#[trigger] all[p]).dst.url().href@ != oo[j].dst.url().href@)
                        ==> exists|x: int| 0 <= x < olds@.len() && #[trigger] olds@[x] == oo[j],
                    dd == v1::all_distinct(v1::output_hrefs(all)),
                    dd ==> outputs_kept(outputs@, oo, all),
                decreases rest@.len(),
            {
                let o = rest.remove(0);
                let ghost before = outputs@;
                let ghost olds0 = olds@;
                let ghost n0 = outputs@.len() as int;
                proof {
                    assert(all[n0] == o);
                }
                match find_output_of_dst(&olds, &o.dst) {
                    Some(n) => {
                        let mut old_o = olds.swap_remove(n);
                        let ghost j0 = idx[n as int];
                        proof {
                            let idx0 = idx;
                            idx = idx.update(n as int, idx[idx.len() - 1]).drop_last();
                            assert forall|x: int| 0 <= x < olds@.len() implies 0 <= #[trigger] idx[x] < oo.len() && olds@[x] == oo[idx[x]] by {
                                if x == n {
                                    assert(olds@[x] == olds0[olds0.len() - 1]);
                                    assert(idx[x] == idx0[idx0.len() - 1]);
                                } else {
                                    assert(olds@[x] == olds0[x]);
                                    assert(idx[x] == idx0[x]);
                                }
                            }
                            assert forall|j: int| #![trigger oo[j]] 0 <= j < oo.len()
                                && (forall|p: int| 0 <= p < n0 + 1 ==> (#[trigger] all[p]).dst.url().href@ != oo[j].dst.url().href@)
                                implies exists|x: int| 0 <= x < olds@.len() && #[trigger] olds@[x] == oo[j] by {
                                assert(forall|p: int| 0 <= p < n0 ==> (#[trigger] all[p]).dst.url().href@ != oo[j].dst.url().href@);
                                let x0 = choose|x: int| 0 <= x < olds0.len() && #[trigger] olds0[x] == oo[j];
                                assert(all[n0].dst.url().href@ != oo[j].dst.url().href@);
                                assert(x0 != n);
                                if x0 == olds0.len() - 1 {
                                    assert(olds@[n as int] == oo[j]);
                                } else {
                                    assert(olds@[x0] == oo[j]);
                                }
                            }
                            assert(old_o == oo[j0]);
                        }
                        old_o.apply(o, true);
                        outputs.push(old_o);
                        proof {
                            assert(outputs@[n0].dst.url().href@ == oo[j0].dst.url().href@);
                            assert forall|p: int| 0 <= p < n0 implies #[trigger] outputs@[p] == before[p] by {}
                        }
                    },
                    None => {
                        outputs.push(Output::new(o));
                        proof {
                            assert forall|p: int| 0 <= p < n0 implies #[trigger] outputs@[p] == before[p] by {}
                            if dd {
                                assert forall|j: int| 0 <= j < oo.len() implies (#[trigger] oo[j]).dst.url().href@ != outputs@[n0].dst.url().href@ by {
                                    if oo[j].dst.url().href@ == outputs@[n0].dst.url().href@ {
                                        assert forall|p: int| 0 <= p < n0 implies (#[trigger] all[p]).dst.url().href@ != oo[j].dst.url().href@ by {
                                            assert(v1::output_hrefs(all)[p] != v1::output_hrefs(all)[n0]);
                                        }
                                        let x0 = choose|x: int| 0 <= x < olds@.len() && #[trigger] olds@[x] == oo[j];
                                        assert(olds@[x0].dst.url().href@ != o.dst.url().href@);
                                    }
                                }
                            }
                            assert forall|j: int| #![trigger oo[j]] 0 <= j < oo.len()
                                && (forall|p: int| 0 <= p < n0 + 1 ==> (#[trigger] all[p]).dst.url().href@ != oo[j].dst.url().href@)
                                implies exists|x: int| 0 <= x < olds@.len() && #[trigger] olds@[x] == oo[j] by {
                                assert(forall|p: int| 0 <= p < n0 ==> (#[trigger] all[p]).dst.url().href@ != oo[j].dst.url().href@);
                            }
                        }
                    },
                }
                proof {
                    assert(all.subrange(0, outputs@.len() as int) =~= all.subrange(0, before.len() as int).push(o));
                    assert(rest@ =~= all.subrange(outputs@.len() as int, all.len() as int));
                    assert forall|k: int| 0 <= k < outputs@.len() implies #[trigger] output_matches(outputs@[k], all.subrange(0, outputs@.len() as int)[k], false) by {
                        if k < before.len() {
                            assert(output_matches(before[k], all.subrange(0, before.len() as int)[k], false));
                        }
                    }
                }
            }
            proof {
                assert(all.subrange(0, outputs@.len() as int) =~= all);
            }
            self.outputs = outputs;
        } else {
            while rest.len() > 0
                invariant
                    all.len() == 0 ==> olds == old(self).outputs,
                    all.len() == 0 ==> rest@.len() == 0,
                    rest@.len() <= all.len(),
                    olds@.len() >= oo.len(),
                    forall|j: int| 0 <= j < oo.len() ==> (#[trigger] olds@[j]).id == oo[j].id
                        && olds@[j].status == oo[j].status && olds@[j].enabled == oo[j].enabled,
                decreases rest@.len(),
            {
                let o = rest.remove(0);
                let ghost olds0 = olds@;
                match find_output_of_dst(&olds, &o.dst) {
                    Some(k) => {
                        olds[k].apply(o, false);
                        proof {
                            assert forall|j: int| 0 <= j < oo.len() implies (#[trigger] olds@[j]).id == oo[j].id
                                && olds@[j].status == oo[j].status && olds@[j].enabled == oo[j].enabled by {
                                assert(olds@[j].id == olds0[j].id);
                            }
                        }
                    },
                    None => {
                        olds.push(Output::new(o));
                        proof {
                            assert forall|j: int| 0 <= j < oo.len() implies (#[trigger] olds@[j]).id == oo[j].id
                                && olds@[j].status == oo[j].status && olds@[j].enabled == oo[j].enabled by {
                                assert(olds@[j] == olds0[j]);
                            }
                        }
                    },
                }
            }
            self.outputs = olds;
        }
    }

    /// Exports this restream as a specification.
    pub fn export(&self) -> (r: v1::Restream)
        ensures
            restream_matches(*self, r, true),
            r.id == Some(self.id),
    {
        let mut outputs: Vec<v1::Output> = Vec::new();
        let mut k: usize = 0;
        while k < self.outputs.len()
            invariant
                k <= self.outputs@.len(),
                outputs_match(self.outputs@.subrange(0, k as int), outputs@, true),
            decreases self.outputs@.len() - k,
        {
            let ghost before = outputs@;
            outputs.push(self.outputs[k].export());
            proof {
                assert forall|j: int| 0 <= j <= k implies #[trigger] output_matches(self.outputs@.subrange(0, k + 1)[j], outputs@[j], true) by {
                    if j < k {
                        assert(output_matches(self.outputs@.subrange(0, k as int)[j], before[j], true));
                    }
                }
            }
            k = k + 1;
        }
        proof {
            assert(self.outputs@.subrange(0, k as int) =~= self.outputs@);
        }
        v1::Restream {
            id: Some(self.id),
            key: self.key.copied(),
            label: copy_label(&self.label),
            input: self.input.export(),
            outputs,
        }
    }

    /// Returns the URL on the local media server of the first RTMP endpoint
    /// of the main input of this restream, if it has one.
    pub fn main_input_rtmp_endpoint_url(&self) -> (r: Option<String>)
        ensures
            r is Some <==> exists|k: int| 0 <= k < self.input.endpoints@.len()
                && (#[trigger] self.input.endpoints@[k]).kind == InputEndpointKind::Rtmp,
            r matches Some(u) ==> u@ == endpoint_url(InputEndpointKind::Rtmp, self.key@, self.input.key@),
    {
        match find_endpoint_of_kind(&self.input.endpoints, InputEndpointKind::Rtmp) {
            Some(k) => Some(InputEndpointKind::Rtmp.rtmp_url(&self.key, &self.input.key)),
            None => None,
        }
    }
}

/// Server settings, not related to restreams.
#[derive(Debug)]
pub struct Settings {
    /// Hash of the password protecting the main API.
    pub password_hash: Option<String>,
    /// Hash of the password protecting the single-output API.
    pub password_output_hash: Option<String>,
    /// Title of the server.
    pub title: Option<String>,
    /// Whether deletion of inputs and outputs is to be confirmed.
    pub delete_confirmation: Option<bool>,
    /// Whether enabling and disabling is to be confirmed.
    pub enable_confirmation: Option<bool>,
}

/// An equal copy of an optional string.
pub fn copy_opt_string(s: &Option<String>) -> (r: Option<String>)
    ensures
        r == *s,
{
    match s {
        Some(x) => Some(x.clone()),
        None => None,
    }
}

impl Settings {
    /// Exports these settings as a specification.
    pub fn export(&self) -> (r: v1::Settings)
        ensures
            r.title == self.title,
            r.delete_confirmation == self.delete_confirmation,
            r.enable_confirmation == self.enable_confirmation,
    {
        v1::Settings {
            title: copy_opt_string(&self.title),
            delete_confirmation: self.delete_confirmation,
            enable_confirmation: self.enable_confirmation,
        }
    }

    /// Applies the given specification to these settings; the password hashes
    /// are kept.
    pub fn apply(&mut self, new: v1::Settings)
        ensures
            final(self).title == new.title,
            final(self).delete_confirmation == new.delete_confirmation,
            final(self).enable_confirmation == new.enable_confirmation,
            final(self).password_hash == old(self).password_hash,
            final(self).password_output_hash == old(self).password_output_hash,
    {
        self.title = new.title;
        self.delete_confirmation = new.delete_confirmation;
        self.enable_confirmation = new.enable_confirmation;
    }
}

impl Default for Settings {
    fn default() -> (r: Self)
        ensures
            r.password_hash is None,
            r.password_output_hash is None,
            r.title is None,
            r.delete_confirmation == Some(true),
            r.enable_confirmation == Some(true),
    {
        Settings {
            password_hash: None,
            password_output_hash: None,
            title: None,
            delete_confirmation: Some(true),
            enable_confirmation: Some(true),
        }
    }
}

} // verus!
