//! Properties of the state and of the process descriptors, stated over all
//! inputs and proved.
use vstd::prelude::*;
use crate::state::{
    endpoints_match, input_matches, input_wf, inputs_match, label_view, mixin_matches, mixins_match,
    output_matches, outputs_match, restream_matches, same_opt_url, same_url, Input, InputSrc,
    Restream,
};
use crate::store::{dsts_distinct, lemma_restream_wf_elim, mixins_wf, outputs_wf, State};
use crate::restreamer::{
    differ_in_volumes_only, has_id, ids_distinct, mixin_needs_restart, mixing_needs_restart, pool_holds,
    MixingRestreamer, PoolEntry,
};
use crate::v1;

verus! {

/// In a well-formed state no two restreams share a key.
pub proof fn lemma_restream_keys_distinct(s: State, i: int, j: int)
    requires
        s.wf(),
        0 <= i < j < s.restreams@.len(),
    ensures
        s.restreams@[i].key@ != s.restreams@[j].key@,
{
}

/// In a well-formed state every input, failover descendants included, has
/// endpoints of distinct kinds, one of them RTMP.
pub proof fn lemma_endpoint_kinds(s: State, k: int)
    requires
        s.wf(),
        0 <= k < s.restreams@.len(),
    ensures
        input_wf(s.restreams@[k].input),
{
    lemma_restream_wf_elim(s.restreams@[k]);
}

/// In a well-formed state the outputs of a restream have distinct
/// destinations.
pub proof fn lemma_output_dsts_distinct(s: State, k: int)
    requires
        s.wf(),
        0 <= k < s.restreams@.len(),
    ensures
        dsts_distinct(s.restreams@[k].outputs@),
{
    lemma_restream_wf_elim(s.restreams@[k]);
}

/// In a well-formed state every output has at most five mixins, with
/// distinct sources, at most three voice-chat ones and at most one
/// side-chained.
pub proof fn lemma_mixin_limits(s: State, k: int, n: int)
    requires
        s.wf(),
        0 <= k < s.restreams@.len(),
        0 <= n < s.restreams@[k].outputs@.len(),
    ensures
        mixins_wf(s.restreams@[k].outputs@[n].mixins@),
        s.restreams@[k].outputs@[n].mixins@.len() <= v1::MAX_MIXINS,
{
    lemma_restream_wf_elim(s.restreams@[k]);
}

/// Whether two input trees have the same configuration: keys, enabled
/// flags, endpoint kinds and labels, and sources, recursively; IDs and
/// runtime state aside.
pub open spec fn same_input(a: Input, b: Input) -> bool
    decreases a,
{
    &&& a.key@ == b.key@
    &&& a.enabled == b.enabled
    &&& a.endpoints@.len() == b.endpoints@.len()
    &&& forall|k: int| 0 <= k < a.endpoints@.len() ==> (#[trigger] a.endpoints@[k]).kind == b.endpoints@[k].kind
        && label_view(a.endpoints@[k].label) == label_view(b.endpoints@[k].label)
    &&& match (a.src, b.src) {
        (None, None) => true,
        (Some(InputSrc::Remote(x)), Some(InputSrc::Remote(y))) => same_url(x.url.url(), y.url.url()),
        (Some(InputSrc::Failover(f)), Some(InputSrc::Failover(g))) => same_inputs(f.inputs@, g.inputs@),
        _ => false,
    }
}

/// Whether two sequences of input trees have the same configurations.
pub open spec fn same_inputs(a: Seq<Input>, b: Seq<Input>) -> bool
    decreases a,
{
    &&& a.len() == b.len()
    &&& a.len() > 0 ==> same_inputs(a.drop_last(), b.drop_last()) && same_input(a.last(), b.last())
}

/// Whether two restreams have the same configuration, IDs and runtime state
/// aside.
pub open spec fn same_restream(a: Restream, b: Restream) -> bool {
    &&& a.key@ == b.key@
    &&& label_view(a.label) == label_view(b.label)
    &&& same_input(a.input, b.input)
    &&& a.outputs@.len() == b.outputs@.len()
    &&& forall|k: int| 0 <= k < a.outputs@.len() ==> {
        let (x, y) = (#[trigger] a.outputs@[k], b.outputs@[k]);
        &&& same_url(x.dst.url(), y.dst.url())
        &&& label_view(x.label) == label_view(y.label)
        &&& same_opt_url(x.preview_url, y.preview_url)
        &&& x.volume == y.volume
        &&& x.enabled == y.enabled
        &&& x.mixins@.len() == y.mixins@.len()
        &&& forall|j: int| 0 <= j < x.mixins@.len() ==> {
            &&& same_url((#[trigger] x.mixins@[j]).src.url(), y.mixins@[j].src.url())
            &&& x.mixins@[j].volume == y.mixins@[j].volume
            &&& x.mixins@[j].delay == y.mixins@[j].delay
            &&& x.mixins@[j].sidechain == y.mixins@[j].sidechain
        }
    }
}

/// Two inputs described by the same specification have the same
/// configuration.
pub proof fn lemma_same_input(a: Input, b: Input, s: v1::Input)
    requires
        input_matches(a, s, true),
        input_matches(b, s, true),
    ensures
        same_input(a, b),
    decreases a,
{
    assert forall|k: int| 0 <= k < a.endpoints@.len() implies (#[trigger] a.endpoints@[k]).kind == b.endpoints@[k].kind
        && label_view(a.endpoints@[k].label) == label_view(b.endpoints@[k].label) by {
        assert(a.endpoints@[k].kind == s.endpoints@[k].kind);
        assert(b.endpoints@[k].kind == s.endpoints@[k].kind);
    }
    match (a.src, b.src, s.src) {
        (Some(InputSrc::Failover(f)), Some(InputSrc::Failover(g)), Some(v1::InputSrc::FailoverInputs(v))) => {
            assert(decreases_to!(a => a.src));
            assert(decreases_to!(a.src => a.src->Some_0));
            assert(decreases_to!(a.src->Some_0 => f));
            assert(decreases_to!(f => f.inputs));
            assert(decreases_to!(f.inputs => f.inputs@));
            lemma_same_inputs(f.inputs@, g.inputs@, v@);
        },
        _ => {},
    }
}

/// Two sequences of inputs described by the same specifications have the
/// same configurations.
pub proof fn lemma_same_inputs(a: Seq<Input>, b: Seq<Input>, s: Seq<v1::Input>)
    requires
        inputs_match(a, s, true),
        inputs_match(b, s, true),
    ensures
        same_inputs(a, b),
    decreases a,
{
    if a.len() > 0 {
        lemma_same_inputs(a.drop_last(), b.drop_last(), s.drop_last());
        lemma_same_input(a.last(), b.last(), s.last());
    }
}

/// Importing an exported restream gives it back: a restream created from
/// the export `s` of a restream `a` has the configuration of `a`, up to the
/// IDs assigned to new items and runtime state.
pub proof fn lemma_import_export_round_trip(a: Restream, s: v1::Restream, b: Restream)
    requires
        restream_matches(a, s, true),
        restream_matches(b, s, true),
    ensures
        same_restream(a, b),
{
    lemma_same_input(a.input, b.input, s.input);
    assert forall|k: int| 0 <= k < a.outputs@.len() implies {
        let (x, y) = (#[trigger] a.outputs@[k], b.outputs@[k]);
        &&& same_url(x.dst.url(), y.dst.url())
        &&& label_view(x.label) == label_view(y.label)
        &&& same_opt_url(x.preview_url, y.preview_url)
        &&& x.volume == y.volume
        &&& x.enabled == y.enabled
        &&& x.mixins@.len() == y.mixins@.len()
        &&& forall|j: int| 0 <= j < x.mixins@.len() ==> {
            &&& same_url((#[trigger] x.mixins@[j]).src.url(), y.mixins@[j].src.url())
            &&& x.mixins@[j].volume == y.mixins@[j].volume
            &&& x.mixins@[j].delay == y.mixins@[j].delay
            &&& x.mixins@[j].sidechain == y.mixins@[j].sidechain
        }
    } by {
        let (x, y) = (a.outputs@[k], b.outputs@[k]);
        assert(output_matches(x, s.outputs@[k], true));
        assert(output_matches(y, s.outputs@[k], true));
        assert forall|j: int| 0 <= j < x.mixins@.len() implies {
            &&& same_url((#[trigger] x.mixins@[j]).src.url(), y.mixins@[j].src.url())
            &&& x.mixins@[j].volume == y.mixins@[j].volume
            &&& x.mixins@[j].delay == y.mixins@[j].delay
            &&& x.mixins@[j].sidechain == y.mixins@[j].sidechain
        } by {
            assert(mixin_matches(x.mixins@[j], s.outputs@[k].mixins@[j]));
            assert(mixin_matches(y.mixins@[j], s.outputs@[k].mixins@[j]));
        }
    }
}

/// Mixing processes that differ in any combination of volumes only never
/// need a restart: the running one takes the new volumes in place.
pub proof fn lemma_volume_changes_need_no_restart(a: MixingRestreamer, b: MixingRestreamer)
    requires
        differ_in_volumes_only(a, b),
    ensures
        !mixing_needs_restart(a, b),
{
    assert forall|k: int| 0 <= k < a.mixins@.len() implies !mixin_needs_restart(#[trigger] a.mixins@[k], b.mixins@[k]) by {
        assert(a.mixins@[k].url == b.mixins@[k].url);
    }
}

/// A pool holding exactly the IDs of `ids`, each once, has as many
/// processes as `ids` has IDs.
pub proof fn lemma_pool_size(p: Seq<PoolEntry>, ids: Set<u128>)
    requires
        ids_distinct(p),
        pool_holds(p, ids),
    ensures
        ids.finite(),
        p.len() == ids.len(),
{
    let s = p.map_values(|e: PoolEntry| e.id);
    assert(s.no_duplicates()) by {
        assert forall|i: int, j: int| 0 <= i < s.len() && 0 <= j < s.len() && i != j implies s[i] != s[j] by {
            if i < j {
                assert(p[i].id != p[j].id);
            } else {
                assert(p[j].id != p[i].id);
            }
        }
    }
    s.unique_seq_to_set();
    assert forall|id: u128| s.to_set().contains(id) <==> ids.contains(id) by {
        if ids.contains(id) {
            assert(has_id(p, id));
            let k = choose|k: int| 0 <= k < p.len() && (#[trigger] p[k]).id == id;
            assert(s[k] == id);
        }
        if s.to_set().contains(id) {
            let k = choose|k: int| 0 <= k < s.len() && s[k] == id;
            assert(p[k].id == id);
            assert(has_id(p, id));
        }
    }
    assert(s.to_set() =~= ids);
    vstd::seq_lib::seq_to_set_is_finite(s);
}

} // verus!
