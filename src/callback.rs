//! Handling of the events that the embedded media server reports about
//! publishers and players of input endpoints.
use vstd::prelude::*;
use crate::ids::Status;
use crate::state::{
    find_endpoint_of_kind, forest_wf, input_wf, kinds_ok, lemma_forest_wf_elem, Input, InputEndpoint,
    InputEndpointKind, InputSrc,
};
use crate::store::{keys_distinct, lemma_restream_wf_elim, lemma_restream_wf_intro, lemma_replace_restream, restream_wf, State};
use crate::text::str_eq;

verus! {

/// Kind of an event reported by the media server.
#[derive(Clone, Copy, Debug, PartialEq, Eq, Structural)]
pub enum Event {
    /// A client connects to an application.
    OnConnect,
    /// A client starts publishing a stream.
    OnPublish,
    /// A client stops publishing a stream.
    OnUnpublish,
    /// A client starts playing a stream.
    OnPlay,
    /// A client stops playing a stream.
    OnStop,
    /// A client requests an HLS segment of a stream.
    OnHls,
}

/// An event reported by the media server.
#[derive(Debug)]
pub struct Request {
    /// Kind of the event.
    pub action: Event,
    /// Application of the stream: the key of a restream.
    pub app: String,
    /// Name of the stream: the key of an input of the restream.
    pub stream: Option<String>,
    /// Virtual host: `hls` for HLS endpoints, anything else for RTMP ones.
    pub vhost: String,
    /// Whether the client connects from a loopback address.
    pub ip_is_loopback: bool,
    /// ID of the client on the media server.
    pub client_id: String,
}

/// Reason for refusing an event.
#[derive(Clone, Copy, Debug, PartialEq, Eq, Structural)]
pub enum CallbackError {
    /// No restream matches the application (not found).
    AppNotFound,
    /// No input matches the stream (not found).
    StreamNotFound,
    /// The input has no endpoint of the requested kind (forbidden).
    VhostNotAllowed,
    /// External clients may only publish to RTMP endpoints of push inputs
    /// (forbidden).
    OnlyLocal,
    /// The HLS endpoint is not online yet (not ready).
    NotReady,
}

/// What an event does with the located endpoint.
#[derive(Clone, Copy, Debug, PartialEq, Eq, Structural)]
pub enum Op {
    /// A client publishes; `external` when it does not connect locally.
    Publish { external: bool },
    /// The publisher stops.
    Unpublish,
    /// A client starts playing.
    Play,
    /// A client stops playing.
    Stop,
    /// A client plays over HLS.
    Hls,
}

/// The first input of the tree `i`, in depth-first order, whose key is
/// `stream` (and which is enabled, when `enabled_only` says so; a disabled
/// match lets the search go on with the next sibling).
pub open spec fn lookup(i: Input, stream: Seq<char>, enabled_only: bool) -> Option<Input>
    decreases i,
{
    if i.key@ == stream {
        if !enabled_only || i.enabled { Some(i) } else { None }
    } else {
        match i.src {
            Some(InputSrc::Failover(f)) => lookup_forest(f.inputs@, stream, enabled_only),
            _ => None,
        }
    }
}

/// The first match of `lookup` among the trees `s`, in order.
pub open spec fn lookup_forest(s: Seq<Input>, stream: Seq<char>, enabled_only: bool) -> Option<Input>
    decreases s,
{
    if s.len() == 0 {
        None
    } else {
        match lookup_forest(s.drop_last(), stream, enabled_only) {
            Some(x) => Some(x),
            None => lookup(s.last(), stream, enabled_only),
        }
    }
}

/// Whether some input of the tree `i` with key `stream` has an endpoint of
/// kind `kind` satisfying `f`.
pub open spec fn tree_has_where(i: Input, stream: Seq<char>, kind: InputEndpointKind, f: spec_fn(InputEndpoint) -> bool) -> bool
    decreases i,
{
    ||| i.key@ == stream && exists|k: int| 0 <= k < i.endpoints@.len()
        && (#[trigger] i.endpoints@[k]).kind == kind && f(i.endpoints@[k])
    ||| match i.src {
        Some(InputSrc::Failover(s)) => forest_has_where(s.inputs@, stream, kind, f),
        _ => false,
    }
}

/// Whether some tree of `s` satisfies `tree_has_where`.
pub open spec fn forest_has_where(s: Seq<Input>, stream: Seq<char>, kind: InputEndpointKind, f: spec_fn(InputEndpoint) -> bool) -> bool
    decreases s,
{
    s.len() > 0 && (forest_has_where(s.drop_last(), stream, kind, f) || tree_has_where(s.last(), stream, kind, f))
}

/// Whether the endpoint at `j` is the first one of kind `kind` in `e`.
pub open spec fn first_of_kind(e: Seq<InputEndpoint>, kind: InputEndpointKind, j: int) -> bool {
    &&& 0 <= j < e.len()
    &&& e[j].kind == kind
    &&& forall|i: int| 0 <= i < j ==> (#[trigger] e[i]).kind != kind
}

/// Whether `op` is an external client publishing to an input that pulls, or
/// to an endpoint that is not RTMP.
pub open spec fn refused_external(x: Input, kind: InputEndpointKind, op: Op) -> bool {
    op matches Op::Publish { external } && external && (x.src is Some || kind != InputEndpointKind::Rtmp)
}

/// Whether `op` plays over HLS while the endpoint is not online.
pub open spec fn not_ready(x: Input, kind: InputEndpointKind, op: Op) -> bool {
    op == Op::Hls && exists|j: int| first_of_kind(x.endpoints@, kind, j) && x.endpoints@[j].status != Status::Online
}

/// Whether `op` succeeds on the located input `x` with endpoint kind `kind`.
pub open spec fn event_ok(x: Input, kind: InputEndpointKind, op: Op) -> bool {
    &&& has_kind(x.endpoints@, kind)
    &&& !refused_external(x, kind, op)
    &&& !not_ready(x, kind, op)
}

/// Whether the client `c` plays from the endpoint `e`.
pub open spec fn plays(e: InputEndpoint, c: Seq<char>) -> bool {
    exists|i: int| 0 <= i < e.srs_player_ids@.len() && (#[trigger] e.srs_player_ids@[i])@ == c
}

/// What a successful `op` by the client `c` leaves the endpoint like: a
/// publish makes it online with `c` as publisher, an unpublish makes it
/// offline without publisher, a play adds `c` to the players and a stop
/// removes it.
pub open spec fn op_effect(op: Op, c: Seq<char>) -> spec_fn(InputEndpoint) -> bool {
    |e: InputEndpoint| match op {
        Op::Publish { .. } => e.status == Status::Online && (e.srs_publisher_id matches Some(p) && p@ == c),
        Op::Unpublish => e.status == Status::Offline && e.srs_publisher_id is None,
        Op::Play | Op::Hls => plays(e, c),
        Op::Stop => !plays(e, c),
    }
}

/// Whether `e` has an endpoint of kind `kind`.
pub open spec fn has_kind(e: Seq<InputEndpoint>, kind: InputEndpointKind) -> bool {
    exists|k: int| 0 <= k < e.len() && (#[trigger] e[k]).kind == kind
}

/// Whether `v` holds `c`.
fn holds(v: &Vec<String>, c: &str) -> (r: bool)
    ensures
        r == exists|k: int| 0 <= k < v@.len() && (#[trigger] v@[k])@ == c@,
{
    let mut k: usize = 0;
    while k < v.len()
        invariant
            k <= v@.len(),
            forall|j: int| 0 <= j < k ==> (#[trigger] v@[j])@ != c@,
        decreases v@.len() - k,
    {
        if str_eq(v[k].as_str(), c) {
            return true;
        }
        k = k + 1;
    }
    false
}

/// Drops `c` from `v`.
fn drop_all(v: Vec<String>, c: &str) -> (r: Vec<String>)
    ensures
        forall|k: int| 0 <= k < r@.len() ==> (#[trigger] r@[k])@ != c@,
{
    let mut out: Vec<String> = Vec::new();
    let mut rest = v;
    while rest.len() > 0
        invariant
            forall|k: int| 0 <= k < out@.len() ==> (#[trigger] out@[k])@ != c@,
        decreases rest@.len(),
    {
        let x = rest.remove(0);
        if !str_eq(x.as_str(), c) {
            out.push(x);
        }
    }
    out
}

/// Whether the tree `b` is the tree `a` after an event on the endpoint of
/// kind `kind` of the input `stream` located in it (enabled only, when
/// `eo` says so): every other input and endpoint is unchanged, and the
/// endpoint keeps its ID, kind and label.
pub open spec fn only_at(a: Input, b: Input, stream: Seq<char>, eo: bool, kind: InputEndpointKind) -> bool
    decreases a,
{
    &&& b.id == a.id
    &&& b.key == a.key
    &&& b.enabled == a.enabled
    &&& if a.key@ == stream {
        &&& b.src == a.src
        &&& b.endpoints@.len() == a.endpoints@.len()
        &&& forall|j: int| 0 <= j < a.endpoints@.len() && !first_of_kind(a.endpoints@, kind, j)
            ==> #[trigger] b.endpoints@[j] == a.endpoints@[j]
        &&& forall|j: int| first_of_kind(a.endpoints@, kind, j) ==> (#[trigger] b.endpoints@[j]).id == a.endpoints@[j].id
            && b.endpoints@[j].kind == a.endpoints@[j].kind && b.endpoints@[j].label == a.endpoints@[j].label
    } else {
        &&& b.endpoints == a.endpoints
        &&& match (a.src, b.src) {
            (Some(InputSrc::Failover(f)), Some(InputSrc::Failover(g))) => forest_only_at(f.inputs@, g.inputs@, stream, eo, kind),
            _ => false,
        }
    }
}

/// `only_at` for the trees `s`: the first tree where the input is located
/// is changed as `only_at` says, the others are unchanged.
pub open spec fn forest_only_at(s: Seq<Input>, t: Seq<Input>, stream: Seq<char>, eo: bool, kind: InputEndpointKind) -> bool
    decreases s,
{
    &&& s.len() == t.len()
    &&& s.len() > 0
    &&& if lookup_forest(s.drop_last(), stream, eo) is Some {
        t.last() == s.last() && forest_only_at(s.drop_last(), t.drop_last(), stream, eo, kind)
    } else {
        t.drop_last() == s.drop_last() && only_at(s.last(), t.last(), stream, eo, kind)
    }
}

/// Changing only the first tree where the input is located gives
/// `forest_only_at`.
proof fn lemma_forest_only_at(s: Seq<Input>, k: int, c: Input, stream: Seq<char>, eo: bool, kind: InputEndpointKind)
    requires
        0 <= k < s.len(),
        lookup_forest(s.subrange(0, k), stream, eo) is None,
        lookup(s[k], stream, eo) is Some,
        only_at(s[k], c, stream, eo, kind),
    ensures
        forest_only_at(s, s.update(k, c), stream, eo, kind),
    decreases s.len(),
{
    let t = s.update(k, c);
    if k == s.len() - 1 {
        assert(s.drop_last() =~= s.subrange(0, k));
        assert(t.drop_last() =~= s.drop_last());
    } else {
        assert(s.drop_last().subrange(0, k) =~= s.subrange(0, k));
        assert(s.drop_last()[k] == s[k]);
        lemma_lookup_forest_first(s.drop_last(), k, stream, eo);
        assert(t.drop_last() =~= s.drop_last().update(k, c));
        lemma_forest_only_at(s.drop_last(), k, c, stream, eo, kind);
    }
}

/// Finds whether `op` on the endpoint of kind `kind` of `input` would
/// succeed, without performing it.
fn check_on(input: &Input, kind: InputEndpointKind, op: Op) -> (r: Result<(), CallbackError>)
    ensures
        r == Err::<(), CallbackError>(CallbackError::VhostNotAllowed) <==> !has_kind(input.endpoints@, kind),
        r == Err::<(), CallbackError>(CallbackError::OnlyLocal) <==> has_kind(input.endpoints@, kind)
            && refused_external(*input, kind, op),
        r == Err::<(), CallbackError>(CallbackError::NotReady) <==> has_kind(input.endpoints@, kind)
            && not_ready(*input, kind, op),
        r is Ok <==> event_ok(*input, kind, op),
        r is Err ==> r == Err::<(), CallbackError>(CallbackError::VhostNotAllowed)
            || r == Err::<(), CallbackError>(CallbackError::OnlyLocal)
            || r == Err::<(), CallbackError>(CallbackError::NotReady),
{
    let k = match find_endpoint_of_kind(&input.endpoints, kind) {
        Some(k) => k,
        None => return Err(CallbackError::VhostNotAllowed),
    };
    assert(has_kind(input.endpoints@, kind) && input.endpoints@[k as int].kind == kind);
    assert(first_of_kind(input.endpoints@, kind, k as int));
    assert forall|j: int| first_of_kind(input.endpoints@, kind, j) implies j == k by {
        if j < k {
            assert(input.endpoints@[j].kind != kind);
        } else if j > k {
            assert(input.endpoints@[k as int].kind != kind);
        }
    }
    match op {
        Op::Publish { external } => {
            if external && (input.src.is_some() || kind != InputEndpointKind::Rtmp) {
                return Err(CallbackError::OnlyLocal);
            }
        },
        Op::Hls => {
            if input.endpoints[k].status != Status::Online {
                return Err(CallbackError::NotReady);
            }
        },
        _ => {},
    }
    Ok(())
}

/// Finds what locating the input `stream` in the tree `input` and
/// performing `op` on its endpoint of kind `kind` would give, without
/// performing it.
fn evaluate(input: &Input, stream: &str, enabled_only: bool, kind: InputEndpointKind, op: Op) -> (r: Result<(), CallbackError>)
    ensures
        r == Err::<(), CallbackError>(CallbackError::StreamNotFound) <==> lookup(*input, stream@, enabled_only) is None,
        r != Err::<(), CallbackError>(CallbackError::AppNotFound),
        lookup(*input, stream@, enabled_only) matches Some(x) ==>
            (r == Err::<(), CallbackError>(CallbackError::VhostNotAllowed) <==> !has_kind(x.endpoints@, kind))
                && (r == Err::<(), CallbackError>(CallbackError::OnlyLocal) <==> has_kind(x.endpoints@, kind) && refused_external(x, kind, op))
                && (r == Err::<(), CallbackError>(CallbackError::NotReady) <==> has_kind(x.endpoints@, kind) && not_ready(x, kind, op))
                && (r is Ok <==> event_ok(x, kind, op)),
    decreases *input,
{
    if str_eq(input.key.as_str(), stream) {
        if enabled_only && !input.enabled {
            return Err(CallbackError::StreamNotFound);
        }
        return check_on(input, kind, op);
    }
    match &input.src {
        Some(InputSrc::Failover(f)) => {
            let ghost orig = f.inputs@;
            proof {
                assert(lookup(*input, stream@, enabled_only) == lookup_forest(orig, stream@, enabled_only));
                assert(decreases_to!(*input => input.src));
                assert(decreases_to!(input.src => input.src->Some_0));
                assert(decreases_to!(input.src->Some_0 => *f));
                assert(decreases_to!(*f => f.inputs));
                assert(decreases_to!(f.inputs => orig));
            }
            let mut k: usize = 0;
            let mut result: Result<(), CallbackError> = Err(CallbackError::StreamNotFound);
            proof {
                if orig.len() == 0 {
                    assert(orig.subrange(0, 0) =~= orig);
                }
            }
            while k < f.inputs.len()
                invariant_except_break
                    lookup_forest(orig.subrange(0, k as int), stream@, enabled_only) is None,
                    k == orig.len() ==> lookup_forest(orig, stream@, enabled_only) is None,
                    result == Err::<(), CallbackError>(CallbackError::StreamNotFound),
                invariant
                    k <= f.inputs@.len(),
                    f.inputs@ == orig,
                    decreases_to!(*input => orig),
                ensures
                    result == Err::<(), CallbackError>(CallbackError::StreamNotFound) <==> lookup_forest(orig, stream@, enabled_only) is None,
                    result != Err::<(), CallbackError>(CallbackError::AppNotFound),
                    lookup_forest(orig, stream@, enabled_only) matches Some(x) ==>
                        (result == Err::<(), CallbackError>(CallbackError::VhostNotAllowed) <==> !has_kind(x.endpoints@, kind))
                && (result == Err::<(), CallbackError>(CallbackError::OnlyLocal) <==> has_kind(x.endpoints@, kind) && refused_external(x, kind, op))
                && (result == Err::<(), CallbackError>(CallbackError::NotReady) <==> has_kind(x.endpoints@, kind) && not_ready(x, kind, op))
                && (result is Ok <==> event_ok(x, kind, op)),
                decreases f.inputs@.len() - k,
            {
                proof {
                    assert(decreases_to!(orig => orig[k as int]));
                    assert(orig.subrange(0, k + 1).drop_last() =~= orig.subrange(0, k as int));
                }
                let r = evaluate(&f.inputs[k], stream, enabled_only, kind, op);
                let missing = match r {
                    Err(CallbackError::StreamNotFound) => true,
                    _ => false,
                };
                if !missing {
                    proof {
                        lemma_lookup_forest_first(orig, k as int, stream@, enabled_only);
                    }
                    result = r;
                    break;
                }
                k = k + 1;
                proof {
                    if k == orig.len() {
                        assert(orig.subrange(0, k as int) =~= orig);
                    }
                }
            }
            result
        },
        _ => Err(CallbackError::StreamNotFound),
    }
}

/// Performs `op` on the endpoint of kind `kind` of `input`, which has been
/// located.
fn act_on(input: &mut Input, kind: InputEndpointKind, op: Op, client_id: &str) -> (r: Result<(), CallbackError>)
    ensures
        r == Err::<(), CallbackError>(CallbackError::VhostNotAllowed) <==> !has_kind(old(input).endpoints@, kind),
        r == Err::<(), CallbackError>(CallbackError::OnlyLocal) <==> has_kind(old(input).endpoints@, kind)
            && refused_external(*old(input), kind, op),
        r == Err::<(), CallbackError>(CallbackError::NotReady) <==> has_kind(old(input).endpoints@, kind)
            && not_ready(*old(input), kind, op),
        r is Ok <==> event_ok(*old(input), kind, op),
        r is Err ==> r == Err::<(), CallbackError>(CallbackError::VhostNotAllowed)
            || r == Err::<(), CallbackError>(CallbackError::OnlyLocal)
            || r == Err::<(), CallbackError>(CallbackError::NotReady),
        final(input).key == old(input).key,
        final(input).id == old(input).id,
        final(input).enabled == old(input).enabled,
        final(input).src == old(input).src,
        final(input).endpoints@.len() == old(input).endpoints@.len(),
        forall|k: int| 0 <= k < old(input).endpoints@.len() ==> (#[trigger] final(input).endpoints@[k]).kind == old(input).endpoints@[k].kind,
        forall|k: int| 0 <= k < old(input).endpoints@.len() && !first_of_kind(old(input).endpoints@, kind, k)
            ==> #[trigger] final(input).endpoints@[k] == old(input).endpoints@[k],
        forall|k: int| first_of_kind(old(input).endpoints@, kind, k) ==> (#[trigger] final(input).endpoints@[k]).id == old(input).endpoints@[k].id
            && final(input).endpoints@[k].label == old(input).endpoints@[k].label,
        r is Ok ==> exists|k: int| 0 <= k < final(input).endpoints@.len()
            && (#[trigger] final(input).endpoints@[k]).kind == kind && op_effect(op, client_id@)(final(input).endpoints@[k]),
{
    let k = match find_endpoint_of_kind(&input.endpoints, kind) {
        Some(k) => k,
        None => return Err(CallbackError::VhostNotAllowed),
    };
    assert(has_kind(input.endpoints@, kind) && input.endpoints@[k as int].kind == kind);
    assert(first_of_kind(input.endpoints@, kind, k as int));
    assert forall|j: int| first_of_kind(input.endpoints@, kind, j) implies j == k by {
        if j < k {
            assert(input.endpoints@[j].kind != kind);
        } else if j > k {
            assert(input.endpoints@[k as int].kind != kind);
        }
    }
    let ghost k0 = k;
    let pull = input.src.is_some();
    match op {
        Op::Publish { external } => {
            if external && (pull || kind != InputEndpointKind::Rtmp) {
                return Err(CallbackError::OnlyLocal);
            }
            input.endpoints[k].srs_publisher_id = Some(client_id.to_owned());
            input.endpoints[k].status = Status::Online;
        },
        Op::Unpublish => {
            input.endpoints[k].srs_publisher_id = None;
            input.endpoints[k].status = Status::Offline;
        },
        Op::Hls => {
            if input.endpoints[k].status != Status::Online {
                return Err(CallbackError::NotReady);
            }
            if !holds(&input.endpoints[k].srs_player_ids, client_id) {
                input.endpoints[k].srs_player_ids.push(client_id.to_owned());
                assert(input.endpoints@[k as int].srs_player_ids@.last()@ == client_id@);
            }
            assert(plays(input.endpoints@[k as int], client_id@));
        },
        Op::Play => {
            if !holds(&input.endpoints[k].srs_player_ids, client_id) {
                input.endpoints[k].srs_player_ids.push(client_id.to_owned());
                assert(input.endpoints@[k as int].srs_player_ids@.last()@ == client_id@);
            }
            assert(plays(input.endpoints@[k as int], client_id@));
        },
        Op::Stop => {
            let players = crate::state::take_vec(&mut input.endpoints[k].srs_player_ids);
            input.endpoints[k].srs_player_ids = drop_all(players, client_id);
        },
    }
    assert(op_effect(op, client_id@)(input.endpoints@[k as int]));
    Ok(())
}

/// Locates the input `stream` in the tree `input` and performs `op` on its
/// endpoint of kind `kind`.
fn act_in_tree(input: &mut Input, stream: &str, enabled_only: bool, kind: InputEndpointKind, op: Op, client_id: &str) -> (r: Result<(), CallbackError>)
    ensures
        r == Err::<(), CallbackError>(CallbackError::StreamNotFound) <==> lookup(*old(input), stream@, enabled_only) is None,
        r != Err::<(), CallbackError>(CallbackError::AppNotFound),
        lookup(*old(input), stream@, enabled_only) matches Some(x) ==>
            (r == Err::<(), CallbackError>(CallbackError::VhostNotAllowed) <==> !has_kind(x.endpoints@, kind))
                && (r == Err::<(), CallbackError>(CallbackError::OnlyLocal) <==> has_kind(x.endpoints@, kind) && refused_external(x, kind, op))
                && (r == Err::<(), CallbackError>(CallbackError::NotReady) <==> has_kind(x.endpoints@, kind) && not_ready(x, kind, op))
                && (r is Ok <==> event_ok(x, kind, op)),
        r is Ok ==> tree_has_where(*final(input), stream@, kind, op_effect(op, client_id@)),
        r is Ok ==> only_at(*old(input), *final(input), stream@, enabled_only, kind),
        input_wf(*old(input)) ==> input_wf(*final(input)),
        final(input).key == old(input).key,
        final(input).id == old(input).id,
        final(input).enabled == old(input).enabled,
    decreases *old(input),
{
    if str_eq(input.key.as_str(), stream) {
        if enabled_only && !input.enabled {
            return Err(CallbackError::StreamNotFound);
        }
        let ghost before = *input;
        let r = act_on(input, kind, op, client_id);
        proof {
            if kinds_ok(before.endpoints@) {
                let w = choose|i: int| 0 <= i < before.endpoints@.len()
                    && (#[trigger] before.endpoints@[i]).kind == InputEndpointKind::Rtmp;
                assert(input.endpoints@[w].kind == InputEndpointKind::Rtmp);
            }
        }
        return r;
    }
    let ghost before = *input;
    match &mut input.src {
        Some(InputSrc::Failover(f)) => {
            let ghost orig = f.inputs@;
            proof {
                assert(before.src == Some(InputSrc::Failover(*f)));
                assert(lookup(*old(input), stream@, enabled_only) == lookup_forest(orig, stream@, enabled_only));
                assert(decreases_to!(*old(input) => old(input).src));
                assert(decreases_to!(old(input).src => old(input).src->Some_0));
                assert(decreases_to!(old(input).src->Some_0 => old(input).src->Some_0->Failover_0));
                assert(decreases_to!(old(input).src->Some_0->Failover_0 => old(input).src->Some_0->Failover_0.inputs));
                assert(decreases_to!(old(input).src->Some_0->Failover_0.inputs => orig));
            }
            let mut k: usize = 0;
            let mut result: Result<(), CallbackError> = Err(CallbackError::StreamNotFound);
            proof {
                if orig.len() == 0 {
                    assert(orig.subrange(0, 0) =~= orig);
                }
            }
            while k < f.inputs.len()
                invariant_except_break
                    f.inputs@ == orig,
                    lookup_forest(orig.subrange(0, k as int), stream@, enabled_only) is None,
                    k == orig.len() ==> lookup_forest(orig, stream@, enabled_only) is None,
                    result == Err::<(), CallbackError>(CallbackError::StreamNotFound),
                invariant
                    k <= f.inputs@.len(),
                    f.inputs@.len() == orig.len(),
                    forall|j: int| 0 <= j < orig.len() ==> input_wf(orig[j]) ==> input_wf(#[trigger] f.inputs@[j]),
                    decreases_to!(*old(input) => orig),
                    lookup(*old(input), stream@, enabled_only) == lookup_forest(orig, stream@, enabled_only),
                ensures
                    result == Err::<(), CallbackError>(CallbackError::StreamNotFound) <==> lookup_forest(orig, stream@, enabled_only) is None,
                    result != Err::<(), CallbackError>(CallbackError::AppNotFound),
                    lookup_forest(orig, stream@, enabled_only) matches Some(x) ==>
                        (result == Err::<(), CallbackError>(CallbackError::VhostNotAllowed) <==> !has_kind(x.endpoints@, kind))
                && (result == Err::<(), CallbackError>(CallbackError::OnlyLocal) <==> has_kind(x.endpoints@, kind) && refused_external(x, kind, op))
                && (result == Err::<(), CallbackError>(CallbackError::NotReady) <==> has_kind(x.endpoints@, kind) && not_ready(x, kind, op))
                && (result is Ok <==> event_ok(x, kind, op)),
                    result is Ok ==> forest_has_where(f.inputs@, stream@, kind, op_effect(op, client_id@)),
                    result is Ok ==> forest_only_at(orig, f.inputs@, stream@, enabled_only, kind),
                decreases f.inputs@.len() - k,
            {
                proof {
                    assert(decreases_to!(orig => orig[k as int]));
                    assert(orig.subrange(0, k + 1).drop_last() =~= orig.subrange(0, k as int));
                }
                let pre = evaluate(&f.inputs[k], stream, enabled_only, kind, op);
                let missing = match pre {
                    Err(CallbackError::StreamNotFound) => true,
                    _ => false,
                };
                if !missing {
                    let ghost fk = f.inputs@;
                    let r = act_in_tree(&mut f.inputs[k], stream, enabled_only, kind, op, client_id);
                    proof {
                        lemma_lookup_forest_first(orig, k as int, stream@, enabled_only);
                        assert(f.inputs@ == orig.update(k as int, f.inputs@[k as int]));
                        if r is Ok {
                            lemma_forest_has_where_at(f.inputs@, k as int, stream@, kind, op_effect(op, client_id@));
                            lemma_forest_only_at(orig, k as int, f.inputs@[k as int], stream@, enabled_only, kind);
                        }
                    }
                    result = r;
                    break;
                }
                k = k + 1;
                proof {
                    if k == orig.len() {
                        assert(orig.subrange(0, k as int) =~= orig);
                    }
                }
            }
            proof {
                if result == Err::<(), CallbackError>(CallbackError::StreamNotFound) {
                    assert(orig.subrange(0, orig.len() as int) =~= orig);
                }
                if forest_wf(orig) {
                    lemma_forest_wf_pointwise(orig, f.inputs@);
                }
            }
            result
        },
        _ => Err(CallbackError::StreamNotFound),
    }
}

/// When the trees before `k` have no match, the forest's match is that of
/// the tree at `k`, if it has one.
proof fn lemma_lookup_forest_first(s: Seq<Input>, k: int, stream: Seq<char>, enabled_only: bool)
    requires
        0 <= k < s.len(),
        lookup_forest(s.subrange(0, k), stream, enabled_only) is None,
        lookup(s[k], stream, enabled_only) is Some,
    ensures
        lookup_forest(s, stream, enabled_only) == lookup(s[k], stream, enabled_only),
    decreases s.len(),
{
    if k < s.len() - 1 {
        assert(s.drop_last().subrange(0, k) =~= s.subrange(0, k));
        lemma_lookup_forest_first(s.drop_last(), k, stream, enabled_only);
    } else {
        assert(s.drop_last() =~= s.subrange(0, k));
    }
}

/// A forest has a status wherever one of its trees has it.
proof fn lemma_forest_has_where_at(s: Seq<Input>, k: int, stream: Seq<char>, kind: InputEndpointKind, f: spec_fn(InputEndpoint) -> bool)
    requires
        0 <= k < s.len(),
        tree_has_where(s[k], stream, kind, f),
    ensures
        forest_has_where(s, stream, kind, f),
    decreases s.len(),
{
    if k < s.len() - 1 {
        lemma_forest_has_where_at(s.drop_last(), k, stream, kind, f);
    }
}

/// A forest whose trees are each well-formed where those of a well-formed
/// forest were is well-formed.
proof fn lemma_forest_wf_pointwise(s: Seq<Input>, t: Seq<Input>)
    requires
        forest_wf(s),
        s.len() == t.len(),
        forall|j: int| 0 <= j < s.len() ==> input_wf(s[j]) ==> input_wf(#[trigger] t[j]),
    ensures
        forest_wf(t),
    decreases s.len(),
{
    if s.len() > 0 {
        lemma_forest_wf_elem(s, s.len() - 1);
        lemma_forest_wf_pointwise(s.drop_last(), t.drop_last());
    }
}

/// Position of the first restream whose key is `app` (and whose input is
/// enabled, when `enabled_only` says so).
fn find_app(state: &State, app: &str, enabled_only: bool) -> (r: Option<usize>)
    ensures
        r is None <==> forall|k: int| 0 <= k < state.restreams@.len() ==>
            !((#[trigger] state.restreams@[k]).key@ == app@ && (!enabled_only || state.restreams@[k].input.enabled)),
        r matches Some(k) ==> k < state.restreams@.len() && state.restreams@[k as int].key@ == app@
            && (!enabled_only || state.restreams@[k as int].input.enabled),
{
    let mut k: usize = 0;
    while k < state.restreams.len()
        invariant
            k <= state.restreams@.len(),
            forall|j: int| 0 <= j < k ==> !((#[trigger] state.restreams@[j]).key@ == app@ && (!enabled_only || state.restreams@[j].input.enabled)),
        decreases state.restreams@.len() - k,
    {
        if (!enabled_only || state.restreams[k].input.enabled) && str_eq(state.restreams[k].key.as_str(), app) {
            return Some(k);
        }
        k = k + 1;
    }
    None
}

/// Whether some restream has the key `app` (and an enabled input, when
/// `enabled_only` says so).
pub open spec fn app_exists(state: State, app: Seq<char>, enabled_only: bool) -> bool {
    exists|k: int| 0 <= k < state.restreams@.len() && (#[trigger] state.restreams@[k]).key@ == app
        && (!enabled_only || state.restreams@[k].input.enabled)
}

/// Whether the state holds, under the restream with key `app`, an input
/// `stream` with an endpoint of kind `kind` satisfying `f`.
pub open spec fn endpoint_has_where(state: State, app: Seq<char>, stream: Seq<char>, kind: InputEndpointKind, f: spec_fn(InputEndpoint) -> bool) -> bool {
    exists|k: int| 0 <= k < state.restreams@.len() && (#[trigger] state.restreams@[k]).key@ == app
        && tree_has_where(state.restreams@[k].input, stream, kind, f)
}

/// Whether `req` is an event that locates an endpoint: not a connection,
/// and an HLS request only on the HLS virtual host.
pub open spec fn main_case(req: Request) -> bool {
    req.action != Event::OnConnect && (req.action != Event::OnHls || vhost_kind(req.vhost@) == InputEndpointKind::Hls)
}

/// What the event `req` does with the located endpoint.
pub open spec fn req_op(req: Request) -> Op {
    match req.action {
        Event::OnPublish => Op::Publish { external: !req.ip_is_loopback },
        Event::OnUnpublish => Op::Unpublish,
        Event::OnPlay => Op::Play,
        Event::OnStop => Op::Stop,
        _ => Op::Hls,
    }
}

/// Whether the event `req` locates only enabled restreams and inputs.
pub open spec fn req_enabled_only(req: Request) -> bool {
    !(req.action == Event::OnUnpublish || req.action == Event::OnStop)
}

/// Whether the restream with key `app` located by `req` has the input
/// `stream` located by `req`, and `pred` holds of it.
pub open spec fn located_where(state: State, req: Request, pred: spec_fn(Input) -> bool) -> bool {
    exists|k: int| 0 <= k < state.restreams@.len() && (#[trigger] state.restreams@[k]).key@ == req.app@
        && (!req_enabled_only(req) || state.restreams@[k].input.enabled)
        && (lookup(state.restreams@[k].input, stream_of(req), req_enabled_only(req)) matches Some(x) && pred(x))
}

/// Kind of the endpoint that a virtual host names.
pub open spec fn vhost_kind(vhost: Seq<char>) -> InputEndpointKind {
    if vhost == "hls"@ { InputEndpointKind::Hls } else { InputEndpointKind::Rtmp }
}

/// The stream name of a request; none stands for the empty one.
pub open spec fn stream_of(req: Request) -> Seq<char> {
    match req.stream {
        Some(s) => s@,
        None => Seq::empty(),
    }
}

/// Handles an event of the media server against the state.
///
/// - `OnConnect` succeeds iff a restream with the key `app` has its input
///   enabled.
/// - `OnPublish` locates the enabled input `stream` under that restream and
///   its endpoint of the `vhost` kind; an external client may only publish to
///   an RTMP endpoint of an input without a source. The client becomes the
///   publisher and the endpoint goes online.
/// - `OnUnpublish` locates the input without the enabled filter, forgets the
///   publisher and sets the endpoint offline.
/// - `OnPlay` and `OnStop` add and remove the client among the players.
/// - `OnHls` is `OnPlay` on HLS endpoints only, refused while the endpoint is
///   not online.
pub fn on_callback(req: &Request, state: &mut State) -> (r: Result<(), CallbackError>)
    requires
        old(state).wf(),
    ensures
        final(state).wf(),
        final(state).restreams@.len() == old(state).restreams@.len(),
        r == Err::<(), CallbackError>(CallbackError::AppNotFound) <==> match req.action {
            Event::OnUnpublish | Event::OnStop => !app_exists(*old(state), req.app@, false),
            Event::OnHls => vhost_kind(req.vhost@) == InputEndpointKind::Hls && !app_exists(*old(state), req.app@, true),
            _ => !app_exists(*old(state), req.app@, true),
        },
        req.action == Event::OnConnect ==> *final(state) == *old(state) && (r is Ok <==> app_exists(*old(state), req.app@, true)),
        req.action == Event::OnHls && vhost_kind(req.vhost@) != InputEndpointKind::Hls
            ==> r == Err::<(), CallbackError>(CallbackError::VhostNotAllowed) && *final(state) == *old(state),
        main_case(*req) ==> (r is Ok <==> located_where(*old(state), *req, |x: Input| event_ok(x, vhost_kind(req.vhost@), req_op(*req)))),
        main_case(*req) ==> (r == Err::<(), CallbackError>(CallbackError::OnlyLocal) <==> located_where(*old(state), *req, |x: Input| has_kind(x.endpoints@, vhost_kind(req.vhost@)) && refused_external(x, vhost_kind(req.vhost@), req_op(*req)))),
        main_case(*req) ==> (r == Err::<(), CallbackError>(CallbackError::NotReady) <==> located_where(*old(state), *req, |x: Input| has_kind(x.endpoints@, vhost_kind(req.vhost@)) && not_ready(x, vhost_kind(req.vhost@), req_op(*req)))),
        main_case(*req) ==> (r is Ok ==> endpoint_has_where(*final(state), req.app@, stream_of(*req), vhost_kind(req.vhost@), op_effect(req_op(*req), req.client_id@))),
        r is Err ==> *final(state) == *old(state),
        main_case(*req) ==> (r is Ok ==> exists|k: int| 0 <= k < old(state).restreams@.len()
            && crate::store::others_unchanged(old(state).restreams@, final(state).restreams@, k)
            && final(state).restreams@[k].key == old(state).restreams@[k].key
            && final(state).restreams@[k].id == old(state).restreams@[k].id
            && final(state).restreams@[k].label == old(state).restreams@[k].label
            && final(state).restreams@[k].outputs == old(state).restreams@[k].outputs
            && (#[trigger] old(state).restreams@[k]).key@ == req.app@
            && only_at(old(state).restreams@[k].input, final(state).restreams@[k].input, stream_of(*req),
                req_enabled_only(*req), vhost_kind(req.vhost@))),
        main_case(*req) ==> (r == Err::<(), CallbackError>(CallbackError::AppNotFound) ==> *final(state) == *old(state)),
{
    proof {
        reveal_strlit("hls");
    }
    let kind = if str_eq(req.vhost.as_str(), "hls") { InputEndpointKind::Hls } else { InputEndpointKind::Rtmp };
    let (op, enabled_only) = match req.action {
        Event::OnConnect => {
            return match find_app(state, req.app.as_str(), true) {
                Some(_) => Ok(()),
                None => Err(CallbackError::AppNotFound),
            };
        },
        Event::OnPublish => (Op::Publish { external: !req.ip_is_loopback }, true),
        Event::OnUnpublish => (Op::Unpublish, false),
        Event::OnPlay => (Op::Play, true),
        Event::OnStop => (Op::Stop, false),
        Event::OnHls => {
            if kind != InputEndpointKind::Hls {
                return Err(CallbackError::VhostNotAllowed);
            }
            (Op::Hls, true)
        },
    };
    assert(op == req_op(*req) && enabled_only == req_enabled_only(*req));
    let k = match find_app(state, req.app.as_str(), enabled_only) {
        Some(k) => k,
        None => {
            proof {
                assert forall|f: spec_fn(Input) -> bool| !located_where(*old(state), *req, f) by {}
            }
            return Err(CallbackError::AppNotFound);
        },
    };
    let stream: &str = match &req.stream {
        Some(s) => s.as_str(),
        None => "",
    };
    proof {
        reveal_strlit("");
        assert(stream@ == stream_of(*req));
    }
    let ghost before = state.restreams@;
    let ghost x0 = lookup(before[k as int].input, stream@, enabled_only);
    proof {
        lemma_restream_wf_elim(before[k as int]);
        assert forall|f: spec_fn(Input) -> bool| located_where(*old(state), *req, f)
            <==> (x0 matches Some(x) && f(x)) by {
            if x0 matches Some(x) && f(x) {
                assert(before[k as int].key@ == req.app@);
            }
            if located_where(*old(state), *req, f) {
                let j = choose|j: int| 0 <= j < before.len() && (#[trigger] before[j]).key@ == req.app@
                    && (!req_enabled_only(*req) || before[j].input.enabled)
                    && (lookup(before[j].input, stream_of(*req), req_enabled_only(*req)) matches Some(x) && f(x));
                if j != k {
                    if j < k {
                        assert(before[j].key@ != before[k as int].key@);
                    } else {
                        assert(before[k as int].key@ != before[j].key@);
                    }
                }
            }
        }
    }
    let pre = evaluate(&state.restreams[k].input, stream, enabled_only, kind, op);
    if pre.is_err() {
        return pre;
    }
    let r = act_in_tree(&mut state.restreams[k].input, stream, enabled_only, kind, op, req.client_id.as_str());
    proof {
        let nr = state.restreams@[k as int];
        lemma_restream_wf_intro(nr);
        lemma_replace_restream(before, k as int, nr);
        assert(state.restreams@ == before.update(k as int, nr));
        assert(crate::store::others_unchanged(before, state.restreams@, k as int));
        assert(nr.outputs == before[k as int].outputs && nr.key == before[k as int].key && nr.id == before[k as int].id);
        if r is Ok {
            assert(tree_has_where(nr.input, stream_of(*req), kind, op_effect(op, req.client_id@)));
        }
    }
    r
}

} // verus!
