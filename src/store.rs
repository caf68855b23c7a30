//! The state store: restreams, settings and peer clients, with the mutation
//! API that keeps their invariants.
use vstd::prelude::*;
use crate::ids::{EndpointId, InputId, Label, MixinId, OutputId, RestreamId, Status};
use crate::state::{
    forest_wf, input_matches, input_wf, inputs_match, lemma_forest_wf_elem, mixins_match,
    output_matches, outputs_match, restream_matches, tree_enabled, tree_idle, Input, InputSrc,
    Mixin, Output, Restream, Settings,
};
use crate::v1;
use crate::volume::{Delay, Volume};

verus! {

/// Whether the restreams `rs` have distinct keys.
pub open spec fn keys_distinct(rs: Seq<Restream>) -> bool {
    forall|i: int, j: int| 0 <= i < j < rs.len() ==> (#[trigger] rs[i]).key@ != (#[trigger] rs[j]).key@
}

/// Whether `new` is `old` with at most the restream at `k` changed.
pub open spec fn others_unchanged(old: Seq<Restream>, new: Seq<Restream>, k: int) -> bool {
    &&& new.len() == old.len()
    &&& forall|j: int| 0 <= j < old.len() && j != k ==> #[trigger] new[j] == old[j]
}

/// Whether `new` is `old` with at most the output at `n` changed.
pub open spec fn other_outputs_unchanged(old: Seq<Output>, new: Seq<Output>, n: int) -> bool {
    &&& new.len() == old.len()
    &&& forall|j: int| 0 <= j < old.len() && j != n ==> #[trigger] new[j] == old[j]
}

/// Whether some mixin of `ms` has the ID `id`.
pub open spec fn has_mixin(ms: Seq<Mixin>, id: MixinId) -> bool {
    exists|k: int| 0 <= k < ms.len() && (#[trigger] ms[k]).id == id
}

/// Whether the outputs `os` have distinct destinations.
pub open spec fn dsts_distinct(os: Seq<Output>) -> bool {
    forall|i: int, j: int| 0 <= i < j < os.len() ==> (#[trigger] os[i]).dst.url().href@ != (#[trigger] os[j]).dst.url().href@
}

/// Source URLs of the mixins `m`.
pub open spec fn mixin_hrefs(m: Seq<Mixin>) -> Seq<Seq<char>> {
    m.map_values(|x: Mixin| x.src.url().href@)
}

/// Source schemes of the mixins `m`.
pub open spec fn mixin_schemes(m: Seq<Mixin>) -> Seq<Seq<char>> {
    m.map_values(|x: Mixin| x.src.url().scheme@)
}

/// Side-chain flags of the mixins `m`.
pub open spec fn mixin_sidechains(m: Seq<Mixin>) -> Seq<bool> {
    m.map_values(|x: Mixin| x.sidechain)
}

/// Whether the mixins of an output are within limits: at most five, sources
/// distinct, at most three voice-chat ones and at most one side-chained.
pub open spec fn mixins_wf(m: Seq<Mixin>) -> bool {
    v1::mixin_limits_ok(mixin_hrefs(m), mixin_schemes(m), mixin_sidechains(m))
}

/// Whether the outputs of a restream have distinct destinations and mixins
/// within limits.
pub open spec fn outputs_wf(os: Seq<Output>) -> bool {
    &&& dsts_distinct(os)
    &&& forall|k: int| 0 <= k < os.len() ==> mixins_wf(#[trigger] os[k].mixins@)
}

/// Whether a restream is well-formed: its input tree has endpoints of
/// distinct kinds with one RTMP each, and its outputs are well-formed.
#[verifier::opaque]
pub open spec fn restream_wf(r: Restream) -> bool {
    &&& input_wf(r.input)
    &&& outputs_wf(r.outputs@)
}

/// Builds `restream_wf` from its parts.
pub proof fn lemma_restream_wf_intro(r: Restream)
    requires
        input_wf(r.input),
        outputs_wf(r.outputs@),
    ensures
        restream_wf(r),
{
    reveal(restream_wf);
}

/// Takes `restream_wf` apart.
pub proof fn lemma_restream_wf_elim(r: Restream)
    requires
        restream_wf(r),
    ensures
        input_wf(r.input),
        outputs_wf(r.outputs@),
{
    reveal(restream_wf);
}

/// Replacing one restream by a well-formed one with the same key keeps the
/// restreams well-formed.
pub proof fn lemma_replace_restream(before: Seq<Restream>, k: int, nr: Restream)
    requires
        0 <= k < before.len(),
        keys_distinct(before),
        forall|j: int| 0 <= j < before.len() ==> restream_wf(#[trigger] before[j]),
        nr.key@ == before[k].key@,
        restream_wf(nr),
    ensures
        keys_distinct(before.update(k, nr)),
        forall|j: int| 0 <= j < before.len() ==> restream_wf(#[trigger] before.update(k, nr)[j]),
{
    let after = before.update(k, nr);
    assert forall|i: int, j: int| 0 <= i < j < after.len() implies
        (#[trigger] after[i]).key@ != (#[trigger] after[j]).key@ by {
        assert(before[i].key@ != before[j].key@);
    }
}

/// Outputs with one of them replaced by one with the same destination and
/// mixins stay well-formed.
pub proof fn lemma_outputs_same_shape(os: Seq<Output>, n: int, o: Output)
    requires
        0 <= n < os.len(),
        outputs_wf(os),
        o.dst.url().href@ == os[n].dst.url().href@,
        o.mixins@ == os[n].mixins@,
    ensures
        outputs_wf(os.update(n, o)),
{
    let after = os.update(n, o);
    assert forall|a: int, b: int| 0 <= a < b < after.len() implies
        (#[trigger] after[a]).dst.url().href@ != (#[trigger] after[b]).dst.url().href@ by {
        assert(os[a].dst.url().href@ != os[b].dst.url().href@);
    }
    assert forall|a: int| 0 <= a < after.len() implies mixins_wf(#[trigger] after[a].mixins@) by {
        assert(mixins_wf(os[a].mixins@));
    }
}

/// Outputs with one of them replaced by one with the same destination and
/// mixins within limits stay well-formed.
pub proof fn lemma_outputs_same_dst(os: Seq<Output>, n: int, o: Output)
    requires
        0 <= n < os.len(),
        outputs_wf(os),
        o.dst.url().href@ == os[n].dst.url().href@,
        mixins_wf(o.mixins@),
    ensures
        outputs_wf(os.update(n, o)),
{
    let after = os.update(n, o);
    assert forall|a: int, b: int| 0 <= a < b < after.len() implies
        (#[trigger] after[a]).dst.url().href@ != (#[trigger] after[b]).dst.url().href@ by {
        assert(os[a].dst.url().href@ != os[b].dst.url().href@);
    }
    assert forall|a: int| 0 <= a < after.len() implies mixins_wf(#[trigger] after[a].mixins@) by {
        if a != n {
            assert(mixins_wf(os[a].mixins@));
        }
    }
}

/// Outputs with one more of a new destination and mixins within limits stay
/// well-formed.
pub proof fn lemma_outputs_push(os: Seq<Output>, o: Output)
    requires
        outputs_wf(os),
        forall|j: int| 0 <= j < os.len() ==> (#[trigger] os[j]).dst.url().href@ != o.dst.url().href@,
        mixins_wf(o.mixins@),
    ensures
        outputs_wf(os.push(o)),
{
    let after = os.push(o);
    assert forall|a: int, b: int| 0 <= a < b < after.len() implies
        (#[trigger] after[a]).dst.url().href@ != (#[trigger] after[b]).dst.url().href@ by {
        if b < os.len() {
            assert(os[a].dst.url().href@ != os[b].dst.url().href@);
        }
    }
    assert forall|a: int| 0 <= a < after.len() implies mixins_wf(#[trigger] after[a].mixins@) by {
        if a < os.len() {
            assert(mixins_wf(os[a].mixins@));
        }
    }
}

/// Outputs with one of them removed stay well-formed.
pub proof fn lemma_outputs_remove(os: Seq<Output>, n: int)
    requires
        0 <= n < os.len(),
        outputs_wf(os),
    ensures
        outputs_wf(os.remove(n)),
{
    let after = os.remove(n);
    assert forall|a: int, b: int| 0 <= a < b < after.len() implies
        (#[trigger] after[a]).dst.url().href@ != (#[trigger] after[b]).dst.url().href@ by {
        let x = if a < n { a } else { a + 1 };
        let y = if b < n { b } else { b + 1 };
        assert(after[a] == os[x]);
        assert(after[b] == os[y]);
    }
    assert forall|a: int| 0 <= a < after.len() implies mixins_wf(#[trigger] after[a].mixins@) by {
        let x = if a < n { a } else { a + 1 };
        assert(after[a] == os[x]);
    }
}

/// Outputs with one of them replaced by one whose destination no other has,
/// with mixins within limits, stay well-formed.
pub proof fn lemma_outputs_replace(os: Seq<Output>, n: int, o: Output)
    requires
        0 <= n < os.len(),
        outputs_wf(os),
        forall|j: int| 0 <= j < os.len() && j != n ==> (#[trigger] os[j]).dst.url().href@ != o.dst.url().href@,
        mixins_wf(o.mixins@),
    ensures
        outputs_wf(os.update(n, o)),
{
    let after = os.update(n, o);
    assert forall|a: int, b: int| 0 <= a < b < after.len() implies
        (#[trigger] after[a]).dst.url().href@ != (#[trigger] after[b]).dst.url().href@ by {
        if a != n && b != n {
            assert(os[a].dst.url().href@ != os[b].dst.url().href@);
        }
    }
    assert forall|a: int| 0 <= a < after.len() implies mixins_wf(#[trigger] after[a].mixins@) by {
        if a != n {
            assert(mixins_wf(os[a].mixins@));
        }
    }
}

/// Whether a restream specification is accepted: its input tree is valid,
/// its outputs have distinct destinations and their mixins are within limits.
pub open spec fn restream_spec_ok(s: v1::Restream) -> bool {
    &&& v1::input_ok(s.input)
    &&& v1::all_distinct(v1::output_hrefs(s.outputs@))
    &&& forall|k: int| 0 <= k < s.outputs@.len() ==> v1::mixins_ok(#[trigger] s.outputs@[k].mixins@)
}

/// Whether a whole specification is accepted: restream keys distinct and
/// every restream accepted.
pub open spec fn spec_ok(s: v1::Spec) -> bool {
    &&& v1::all_distinct(v1::restream_keys(s.restreams@))
    &&& forall|k: int| 0 <= k < s.restreams@.len() ==> restream_spec_ok(#[trigger] s.restreams@[k])
}

/// An input matching a valid specification is well-formed.
pub proof fn lemma_input_wf_from_spec(i: Input, s: v1::Input, strict: bool)
    requires
        input_matches(i, s, strict),
        v1::input_ok(s),
    ensures
        input_wf(i),
    decreases i,
{
    let w = choose|k: int| 0 <= k < s.endpoints@.len() && (#[trigger] s.endpoints@[k]).kind == crate::state::InputEndpointKind::Rtmp;
    assert(i.endpoints@[w].kind == crate::state::InputEndpointKind::Rtmp);
    match (i.src, s.src) {
        (Some(InputSrc::Failover(f)), Some(v1::InputSrc::FailoverInputs(v))) => {
            assert(decreases_to!(i => i.src));
            assert(decreases_to!(i.src => i.src->Some_0));
            assert(decreases_to!(i.src->Some_0 => f));
            assert(decreases_to!(f => f.inputs));
            assert(decreases_to!(f.inputs => f.inputs@));
            lemma_forest_wf_from_spec(f.inputs@, v@, strict);
        },
        _ => {},
    }
}

/// Inputs matching valid specifications are well-formed.
pub proof fn lemma_forest_wf_from_spec(a: Seq<Input>, b: Seq<v1::Input>, strict: bool)
    requires
        inputs_match(a, b, strict),
        v1::forest_ok(b),
    ensures
        forest_wf(a),
    decreases a,
{
    if a.len() > 0 {
        lemma_forest_wf_from_spec(a.drop_last(), b.drop_last(), strict);
        lemma_input_wf_from_spec(a.last(), b.last(), strict);
    }
}

/// Mixins matching specifications within limits are within limits.
pub proof fn lemma_mixins_wf_from_spec(m: Seq<Mixin>, s: Seq<v1::Mixin>)
    requires
        mixins_match(m, s),
        v1::mixins_ok(s),
    ensures
        mixins_wf(m),
{
    assert forall|k: int| 0 <= k < m.len() implies mixin_hrefs(m)[k] == v1::mixin_hrefs(s)[k]
        && mixin_schemes(m)[k] == v1::mixin_schemes(s)[k]
        && mixin_sidechains(m)[k] == v1::mixin_sidechains(s)[k] by {
        assert(crate::state::mixin_matches(m[k], s[k]));
    }
    assert(mixin_hrefs(m) =~= v1::mixin_hrefs(s));
    assert(mixin_schemes(m) =~= v1::mixin_schemes(s));
    assert(mixin_sidechains(m) =~= v1::mixin_sidechains(s));
}

/// A restream matching an accepted specification is well-formed.
pub proof fn lemma_restream_wf_from_spec(r: Restream, s: v1::Restream, strict: bool)
    requires
        restream_matches(r, s, strict),
        restream_spec_ok(s),
    ensures
        restream_wf(r),
{
    lemma_input_wf_from_spec(r.input, s.input, strict);
    assert forall|i: int, j: int| 0 <= i < j < r.outputs@.len() implies
        (#[trigger] r.outputs@[i]).dst.url().href@ != (#[trigger] r.outputs@[j]).dst.url().href@ by {
        assert(output_matches(r.outputs@[i], s.outputs@[i], strict));
        assert(output_matches(r.outputs@[j], s.outputs@[j], strict));
        assert(v1::output_hrefs(s.outputs@)[i] != v1::output_hrefs(s.outputs@)[j]);
    }
    assert forall|k: int| 0 <= k < r.outputs@.len() implies mixins_wf(#[trigger] r.outputs@[k].mixins@) by {
        assert(output_matches(r.outputs@[k], s.outputs@[k], strict));
        lemma_mixins_wf_from_spec(r.outputs@[k].mixins@, s.outputs@[k].mixins@);
    }
    lemma_restream_wf_intro(r);
}

/// A monitored sibling server.
#[derive(Debug)]
pub struct Client {
    /// URL of the sibling server.
    pub id: String,
}

/// Reason for refusing a mutation of the state.
#[derive(Clone, Copy, Debug, PartialEq, Eq, Structural)]
pub enum StoreError {
    /// Another restream has the key already.
    RestreamKeyInUse,
    /// Another output of the restream has the destination already.
    OutputDstInUse,
    /// A client with the URL exists already.
    ClientInUse,
}

/// Application state: settings, restreams and monitored clients.
#[derive(Debug)]
pub struct State {
    /// Server settings.
    pub settings: Settings,
    /// All restreams performed by this application.
    pub restreams: Vec<Restream>,
    /// Sibling servers being monitored.
    pub clients: Vec<Client>,
}

/// Position of the first restream with the given ID.
#[verifier::opaque]
pub open spec fn restream_pos(rs: Seq<Restream>, id: RestreamId) -> int {
    choose|k: int| 0 <= k < rs.len() && rs[k].id == id && forall|j: int| 0 <= j < k ==> (#[trigger] rs[j]).id != id
}

/// Whether some restream has the given ID.
pub open spec fn has_restream(rs: Seq<Restream>, id: RestreamId) -> bool {
    exists|k: int| 0 <= k < rs.len() && (#[trigger] rs[k]).id == id
}

/// Finds the position of the first restream with the given ID.
fn find_restream(rs: &Vec<Restream>, id: RestreamId) -> (r: Option<usize>)
    ensures
        r is Some <==> has_restream(rs@, id),
        r matches Some(k) ==> k < rs@.len() && rs@[k as int].id == id
            && forall|j: int| 0 <= j < k ==> (#[trigger] rs@[j]).id != id,
{
    let mut k: usize = 0;
    while k < rs.len()
        invariant
            k <= rs@.len(),
            forall|j: int| 0 <= j < k ==> (#[trigger] rs@[j]).id != id,
        decreases rs@.len() - k,
    {
        if rs[k].id == id {
            return Some(k);
        }
        k = k + 1;
    }
    None
}

/// Finds the position of the first mixin with the given ID.
fn find_mixin(ms: &Vec<Mixin>, id: MixinId) -> (r: Option<usize>)
    ensures
        r is None <==> forall|k: int| 0 <= k < ms@.len() ==> (#[trigger] ms@[k]).id != id,
        r matches Some(k) ==> k < ms@.len() && ms@[k as int].id == id,
{
    let mut k: usize = 0;
    while k < ms.len()
        invariant
            k <= ms@.len(),
            forall|j: int| 0 <= j < k ==> (#[trigger] ms@[j]).id != id,
        decreases ms@.len() - k,
    {
        if ms[k].id == id {
            return Some(k);
        }
        k = k + 1;
    }
    None
}

impl State {
    /// Whether the state keeps its invariants: restream keys distinct, every
    /// input with endpoints of distinct kinds and one RTMP, output
    /// destinations distinct within a restream, and mixins within limits.
    pub open spec fn wf(self) -> bool {
        &&& keys_distinct(self.restreams@)
        &&& forall|k: int| 0 <= k < self.restreams@.len() ==> restream_wf(#[trigger] self.restreams@[k])
    }

    /// An empty state with default settings.
    pub fn new() -> (r: Self)
        ensures
            r.wf(),
            r.restreams@.len() == 0,
            r.clients@.len() == 0,
    {
        State { settings: Settings::default(), restreams: Vec::new(), clients: Vec::new() }
    }

    /// Adds a new restream described by `spec`.
    ///
    /// Fails if a restream with the same key exists already.
    pub fn add_restream(&mut self, spec: v1::Restream) -> (r: Result<(), StoreError>)
        requires
            old(self).wf(),
            restream_spec_ok(spec),
        ensures
            final(self).wf(),
            r is Err <==> exists|k: int| 0 <= k < old(self).restreams@.len()
                && (#[trigger] old(self).restreams@[k]).key@ == spec.key@,
            r is Err ==> r == Err::<(), StoreError>(StoreError::RestreamKeyInUse)
                && final(self).restreams@ == old(self).restreams@,
            r is Ok ==> final(self).restreams@.len() == old(self).restreams@.len() + 1
                && final(self).restreams@.drop_last() == old(self).restreams@
                && restream_matches(final(self).restreams@.last(), spec, true)
                && crate::state::restream_fresh(final(self).restreams@.last()),
    {
        let mut k: usize = 0;
        while k < self.restreams.len()
            invariant
                k <= self.restreams@.len(),
                *self == *old(self),
                self.wf(),
                forall|j: int| 0 <= j < k ==> (#[trigger] self.restreams@[j]).key@ != spec.key@,
            decreases self.restreams@.len() - k,
        {
            if self.restreams[k].key.same_as(&spec.key) {
                return Err(StoreError::RestreamKeyInUse);
            }
            k = k + 1;
        }
        let ghost before = self.restreams@;
        let created = Restream::new(spec);
        proof {
            lemma_restream_wf_from_spec(created, spec, true);
        }
        self.restreams.push(created);
        proof {
            assert(self.restreams@.drop_last() =~= before);
            assert forall|k: int| 0 <= k < self.restreams@.len() implies restream_wf(#[trigger] self.restreams@[k]) by {
                if k < before.len() {
                    assert(self.restreams@[k] == before[k]);
                }
            }
        }
        Ok(())
    }

    /// Edits the restream with the given `id`, merging `spec` into it.
    ///
    /// Fails if another restream has the key of `spec`; returns `None` if no
    /// restream has the `id`.
    #[verifier::loop_isolation(false)]
    pub fn edit_restream(&mut self, id: RestreamId, spec: v1::Restream) -> (r: Result<Option<()>, StoreError>)
        requires
            old(self).wf(),
            restream_spec_ok(spec),
        ensures
            spec.outputs@.len() == 0 || !(r == Ok::<Option<()>, StoreError>(Some(()))) ==> final(self).wf(),
            keys_distinct(final(self).restreams@),
            r != Ok::<Option<()>, StoreError>(Some(())) ==> final(self).restreams@ == old(self).restreams@,
            r == Ok::<Option<()>, StoreError>(Some(())) ==>
                others_unchanged(old(self).restreams@, final(self).restreams@, restream_pos(old(self).restreams@, id)),
            forall|j: int| 0 <= j < old(self).restreams@.len() ==> #[trigger] final(self).restreams@[j].id == old(self).restreams@[j].id,
            r is Err <==> (exists|k: int| 0 <= k < old(self).restreams@.len()
                && (#[trigger] old(self).restreams@[k]).key@ == spec.key@ && old(self).restreams@[k].id != id)
                || (has_restream(old(self).restreams@, id) && exists|k: int| 0 <= k < old(self).restreams@.len()
                && (#[trigger] old(self).restreams@[k]).key@ == spec.key@ && k != restream_pos(old(self).restreams@, id)),
            r is Err ==> r == Err::<Option<()>, StoreError>(StoreError::RestreamKeyInUse)
                && final(self).restreams@ == old(self).restreams@,
            r == Ok::<Option<()>, StoreError>(None) <==> !(r is Err) && !has_restream(old(self).restreams@, id),
            final(self).restreams@.len() == old(self).restreams@.len(),
            r == Ok::<Option<()>, StoreError>(Some(())) ==> {
                let k = restream_pos(old(self).restreams@, id);
                &&& final(self).restreams@[k].id == id
                &&& final(self).restreams@[k].key@ == spec.key@
                &&& crate::state::label_view(final(self).restreams@[k].label) == crate::state::label_view(spec.label)
                &&& input_matches(final(self).restreams@[k].input, spec.input, false)
                &&& spec.outputs@.len() == 0 ==> final(self).restreams@[k].outputs == old(self).restreams@[k].outputs
            },
    {
        let mut k: usize = 0;
        while k < self.restreams.len()
            invariant
                k <= self.restreams@.len(),
                *self == *old(self),
                self.wf(),
                forall|j: int| 0 <= j < k ==> !((#[trigger] self.restreams@[j]).key@ == spec.key@ && self.restreams@[j].id != id),
            decreases self.restreams@.len() - k,
        {
            if self.restreams[k].key.same_as(&spec.key) && self.restreams[k].id != id {
                return Err(StoreError::RestreamKeyInUse);
            }
            k = k + 1;
        }
        match find_restream(&self.restreams, id) {
            None => Ok(None),
            Some(k) => {
                let ghost before = self.restreams@;
                proof {
                    reveal(restream_pos);
                let p = restream_pos(before, id);
                    assert(0 <= p < before.len() && before[p].id == id && forall|j: int| 0 <= j < p ==> (#[trigger] before[j]).id != id);
                    if p < k {
                        assert(before[p].id != id);
                    } else if p > k {
                        assert(before[k as int].id != id);
                    }
                    assert(p == k);
                }
                let mut j: usize = 0;
                while j < self.restreams.len()
                    invariant
                        j <= self.restreams@.len(),
                        k < self.restreams@.len(),
                        *self == *old(self),
                        k == restream_pos(old(self).restreams@, id),
                        has_restream(old(self).restreams@, id),
                        forall|i: int| 0 <= i < j ==> !((#[trigger] self.restreams@[i]).key@ == spec.key@ && i != k),
                    decreases self.restreams@.len() - j,
                {
                    if j != k && self.restreams[j].key.same_as(&spec.key) {
                        assert(old(self).restreams@[j as int].key@ == spec.key@);
                        return Err(StoreError::RestreamKeyInUse);
                    }
                    j = j + 1;
                }
                let ghost no_outputs = spec.outputs@.len() == 0;
                self.restreams[k].apply(spec, false);
                proof {
                    assert forall|i: int, j: int| 0 <= i < j < self.restreams@.len() implies
                        (#[trigger] self.restreams@[i]).key@ != (#[trigger] self.restreams@[j]).key@ by {
                        if i != k && j != k {
                            assert(before[i].key@ != before[j].key@);
                        }
                    }
                    if no_outputs {
                        let nr = self.restreams@[k as int];
                        lemma_input_wf_from_spec(nr.input, spec.input, false);
                        assert(nr.outputs == before[k as int].outputs);
                        lemma_restream_wf_elim(before[k as int]);
                        lemma_restream_wf_intro(nr);
                        assert forall|i: int, j: int| 0 <= i < j < self.restreams@.len() implies
                            (#[trigger] self.restreams@[i]).key@ != (#[trigger] self.restreams@[j]).key@ by {
                            if i != k && j != k {
                                assert(before[i].key@ != before[j].key@);
                            }
                        }
                        assert forall|j: int| 0 <= j < self.restreams@.len() implies restream_wf(#[trigger] self.restreams@[j]) by {
                            if j != k {
                                assert(self.restreams@[j] == before[j]);
                            }
                        }
                    }
                }
                Ok(Some(()))
            },
        }
    }

    /// Removes the restream with the given `id`; returns `None` if there is
    /// none.
    pub fn remove_restream(&mut self, id: RestreamId) -> (r: Option<()>)
        requires
            old(self).wf(),
        ensures
            final(self).wf(),
            r is Some <==> has_restream(old(self).restreams@, id),
            r is None ==> final(self).restreams@ == old(self).restreams@,
            r is Some ==> final(self).restreams@ == old(self).restreams@.remove(restream_pos(old(self).restreams@, id)),
    {
        match find_restream(&self.restreams, id) {
            None => None,
            Some(k) => {
                let ghost before = self.restreams@;
                proof {
                    reveal(restream_pos);
                let p = restream_pos(before, id);
                    assert(0 <= p < before.len() && before[p].id == id && forall|j: int| 0 <= j < p ==> (#[trigger] before[j]).id != id);
                    if p < k {
                        assert(before[p].id != id);
                    } else if p > k {
                        assert(before[k as int].id != id);
                    }
                }
                let _ = self.restreams.remove(k);
                proof {
                    assert forall|i: int, j: int| 0 <= i < j < self.restreams@.len() implies
                        (#[trigger] self.restreams@[i]).key@ != (#[trigger] self.restreams@[j]).key@ by {
                        let a = if i < k { i } else { i + 1 };
                        let b = if j < k { j } else { j + 1 };
                        assert(self.restreams@[i] == before[a]);
                        assert(self.restreams@[j] == before[b]);
                    }
                    assert forall|j: int| 0 <= j < self.restreams@.len() implies restream_wf(#[trigger] self.restreams@[j]) by {
                        let b = if j < k { j } else { j + 1 };
                        assert(self.restreams@[j] == before[b]);
                    }
                }
                Some(())
            },
        }
    }

    /// Enables the input of the restream with the given `id`, and every input
    /// of its failover source.
    ///
    /// Returns whether anything changed, or `None` if there is no such
    /// restream.
    pub fn enable_restream(&mut self, id: RestreamId) -> (r: Option<bool>)
        requires
            old(self).wf(),
        ensures
            final(self).wf(),
            r is Some <==> has_restream(old(self).restreams@, id),
            r is None ==> final(self).restreams@ == old(self).restreams@,
            r is Some ==> others_unchanged(old(self).restreams@, final(self).restreams@, restream_pos(old(self).restreams@, id))
                && final(self).restreams@[restream_pos(old(self).restreams@, id)].outputs
                    == old(self).restreams@[restream_pos(old(self).restreams@, id)].outputs
                && final(self).restreams@[restream_pos(old(self).restreams@, id)].id == id,
            r matches Some(changed) ==> {
                let k = restream_pos(old(self).restreams@, id);
                &&& tree_enabled(final(self).restreams@[k].input, true)
                &&& changed == !tree_enabled(old(self).restreams@[k].input, true)
            },
    {
        self.toggle_restream(id, true)
    }

    /// Disables the input of the restream with the given `id`, and every
    /// input of its failover source; their endpoints forget their clients and
    /// go offline at once.
    ///
    /// Returns whether anything changed, or `None` if there is no such
    /// restream.
    pub fn disable_restream(&mut self, id: RestreamId) -> (r: Option<bool>)
        requires
            old(self).wf(),
        ensures
            final(self).wf(),
            r is Some <==> has_restream(old(self).restreams@, id),
            r is None ==> final(self).restreams@ == old(self).restreams@,
            r is Some ==> others_unchanged(old(self).restreams@, final(self).restreams@, restream_pos(old(self).restreams@, id))
                && final(self).restreams@[restream_pos(old(self).restreams@, id)].outputs
                    == old(self).restreams@[restream_pos(old(self).restreams@, id)].outputs
                && final(self).restreams@[restream_pos(old(self).restreams@, id)].id == id,
            r matches Some(changed) ==> {
                let k = restream_pos(old(self).restreams@, id);
                &&& tree_enabled(final(self).restreams@[k].input, false)
                &&& tree_idle(final(self).restreams@[k].input)
                &&& changed == !tree_enabled(old(self).restreams@[k].input, false)
            },
    {
        self.toggle_restream(id, false)
    }

    fn toggle_restream(&mut self, id: RestreamId, on: bool) -> (r: Option<bool>)
        requires
            old(self).wf(),
        ensures
            final(self).wf(),
            r is Some <==> has_restream(old(self).restreams@, id),
            r is None ==> final(self).restreams@ == old(self).restreams@,
            r is Some ==> others_unchanged(old(self).restreams@, final(self).restreams@, restream_pos(old(self).restreams@, id))
                && final(self).restreams@[restream_pos(old(self).restreams@, id)].outputs
                    == old(self).restreams@[restream_pos(old(self).restreams@, id)].outputs
                && final(self).restreams@[restream_pos(old(self).restreams@, id)].id == id,
            final(self).restreams@.len() == old(self).restreams@.len(),
            r matches Some(changed) ==> {
                let k = restream_pos(old(self).restreams@, id);
                &&& tree_enabled(final(self).restreams@[k].input, on)
                &&& !on ==> tree_idle(final(self).restreams@[k].input)
                &&& changed == !tree_enabled(old(self).restreams@[k].input, on)
                &&& final(self).restreams@[k].id == id
            },
    {
        match find_restream(&self.restreams, id) {
            None => None,
            Some(k) => {
                let ghost before = self.restreams@;
                proof {
                    reveal(restream_pos);
                let p = restream_pos(before, id);
                    assert(0 <= p < before.len() && before[p].id == id && forall|j: int| 0 <= j < p ==> (#[trigger] before[j]).id != id);
                    if p < k {
                        assert(before[p].id != id);
                    } else if p > k {
                        assert(before[k as int].id != id);
                    }
                }
                proof {
                    lemma_restream_wf_elim(before[k as int]);
                }
                let changed = self.restreams[k].input.toggle(on);
                proof {
                    let nr = self.restreams@[k as int];
                    lemma_restream_wf_intro(nr);
                    lemma_replace_restream(before, k as int, nr);
                    assert(self.restreams@ == before.update(k as int, nr));
                    assert(k == restream_pos(before, id));
                }
                Some(changed)
            },
        }
    }
}

/// Position of the first output with the given ID.
#[verifier::opaque]
pub open spec fn output_pos(os: Seq<Output>, id: OutputId) -> int {
    choose|k: int| 0 <= k < os.len() && os[k].id == id && forall|j: int| 0 <= j < k ==> (#[trigger] os[j]).id != id
}

/// Whether some output has the given ID.
pub open spec fn has_output(os: Seq<Output>, id: OutputId) -> bool {
    exists|k: int| 0 <= k < os.len() && (#[trigger] os[k]).id == id
}

/// Finds the position of the first output with the given ID.
fn find_output_first(os: &Vec<Output>, id: OutputId) -> (r: Option<usize>)
    ensures
        r is Some <==> has_output(os@, id),
        r matches Some(k) ==> k < os@.len() && k == output_pos(os@, id) && os@[k as int].id == id,
{
    let mut k: usize = 0;
    while k < os.len()
        invariant
            k <= os@.len(),
            forall|j: int| 0 <= j < k ==> (#[trigger] os@[j]).id != id,
        decreases os@.len() - k,
    {
        if os[k].id == id {
            proof {
                reveal(output_pos);
                let p = output_pos(os@, id);
                assert(0 <= p < os@.len() && os@[p].id == id && forall|j: int| 0 <= j < p ==> (#[trigger] os@[j]).id != id);
                if p < k {
                    assert(os@[p].id != id);
                } else if p > k {
                    assert(os@[k as int].id != id);
                }
            }
            return Some(k);
        }
        k = k + 1;
    }
    None
}

/// Finds the position of the first restream with the given ID.
pub(crate) fn find_restream_first_pub(rs: &Vec<Restream>, id: RestreamId) -> (r: Option<usize>)
    ensures
        r is Some <==> has_restream(rs@, id),
        r matches Some(k) ==> k < rs@.len() && k == restream_pos(rs@, id) && rs@[k as int].id == id,
{
    find_restream_first(rs, id)
}

/// Finds the position of the first restream with the given ID.
fn find_restream_first(rs: &Vec<Restream>, id: RestreamId) -> (r: Option<usize>)
    ensures
        r is Some <==> has_restream(rs@, id),
        r matches Some(k) ==> k < rs@.len() && k == restream_pos(rs@, id) && rs@[k as int].id == id,
{
    match find_restream(rs, id) {
        None => None,
        Some(k) => {
            proof {
                reveal(restream_pos);
                let p = restream_pos(rs@, id);
                assert(0 <= p < rs@.len() && rs@[p].id == id && forall|j: int| 0 <= j < p ==> (#[trigger] rs@[j]).id != id);
                if p < k {
                    assert(rs@[p].id != id);
                } else if p > k {
                    assert(rs@[k as int].id != id);
                }
            }
            Some(k)
        },
    }
}

impl State {
    /// Adds a new output described by `spec` to the restream `restream_id`.
    ///
    /// Fails if the restream has an output with the same destination; returns
    /// `None` if there is no such restream.
    #[verifier::loop_isolation(false)]
    pub fn add_output(&mut self, restream_id: RestreamId, spec: v1::Output) -> (r: Result<Option<()>, StoreError>)
        requires
            old(self).wf(),
            v1::mixins_ok(spec.mixins@),
        ensures
            final(self).wf(),
            r == Ok::<Option<()>, StoreError>(None) <==> !has_restream(old(self).restreams@, restream_id),
            r is Err <==> has_restream(old(self).restreams@, restream_id) && exists|j: int|
                0 <= j < old(self).restreams@[restream_pos(old(self).restreams@, restream_id)].outputs@.len()
                && (#[trigger] old(self).restreams@[restream_pos(old(self).restreams@, restream_id)].outputs@[j]).dst.url().href@
                    == spec.dst.url().href@,
            r is Err ==> r == Err::<Option<()>, StoreError>(StoreError::OutputDstInUse),
            r != Ok::<Option<()>, StoreError>(Some(())) ==> final(self).restreams@ == old(self).restreams@,
            r == Ok::<Option<()>, StoreError>(Some(())) ==> {
                let k = restream_pos(old(self).restreams@, restream_id);
                &&& others_unchanged(old(self).restreams@, final(self).restreams@, k)
                &&& final(self).restreams@[k].id == old(self).restreams@[k].id
                &&& final(self).restreams@[k].key == old(self).restreams@[k].key
                &&& final(self).restreams@[k].input == old(self).restreams@[k].input
                &&& final(self).restreams@[k].outputs@.drop_last() == old(self).restreams@[k].outputs@
                &&& final(self).restreams@[k].outputs@.len() == old(self).restreams@[k].outputs@.len() + 1
                &&& output_matches(final(self).restreams@[k].outputs@.last(), spec, true)
                &&& crate::state::output_fresh(final(self).restreams@[k].outputs@.last())
            },
    {
        let k = match find_restream_first(&self.restreams, restream_id) {
            None => return Ok(None),
            Some(k) => k,
        };
        let ghost before = self.restreams@;
        let mut j: usize = 0;
        while j < self.restreams[k].outputs.len()
            invariant
                *self == *old(self),
                j <= self.restreams@[k as int].outputs@.len(),
                forall|i: int| 0 <= i < j ==> (#[trigger] self.restreams@[k as int].outputs@[i]).dst.url().href@ != spec.dst.url().href@,
            decreases self.restreams@[k as int].outputs@.len() - j,
        {
            if self.restreams[k].outputs[j].dst.parts().same_as(spec.dst.parts()) {
                return Err(StoreError::OutputDstInUse);
            }
            j = j + 1;
        }
        let created = Output::new(spec);
        proof {
            lemma_mixins_wf_from_spec(created.mixins@, spec.mixins@);
            lemma_restream_wf_elim(before[k as int]);
            lemma_outputs_push(before[k as int].outputs@, created);
        }
        let ghost c = created;
        self.restreams[k].outputs.push(created);
        proof {
            let nr = self.restreams@[k as int];
            assert(nr.outputs@ == before[k as int].outputs@.push(c));
            assert(nr.outputs@.drop_last() =~= before[k as int].outputs@);
            lemma_restream_wf_intro(nr);
            lemma_replace_restream(before, k as int, nr);
            assert(self.restreams@ == before.update(k as int, nr));
        }
        Ok(Some(()))
    }

    /// Edits the output `id` of the restream `restream_id`, replacing its
    /// settings and mixins by `spec` (mixins with the same source keep their
    /// IDs). The `enabled` flag is kept.
    ///
    /// Fails if another output of the restream has the destination of `spec`;
    /// returns `None` if there is no such restream or output.
    #[verifier::loop_isolation(false)]
    pub fn edit_output(&mut self, restream_id: RestreamId, id: OutputId, spec: v1::Output) -> (r: Result<Option<()>, StoreError>)
        requires
            old(self).wf(),
            v1::mixins_ok(spec.mixins@),
        ensures
            final(self).wf(),
            !has_restream(old(self).restreams@, restream_id) ==> r == Ok::<Option<()>, StoreError>(None),
            r is Err ==> r == Err::<Option<()>, StoreError>(StoreError::OutputDstInUse),
            r != Ok::<Option<()>, StoreError>(Some(())) ==> final(self).restreams@ == old(self).restreams@,
            has_restream(old(self).restreams@, restream_id) ==> {
                let k = restream_pos(old(self).restreams@, restream_id);
                let os = old(self).restreams@[k].outputs@;
                &&& (r is Err <==> (exists|j: int| 0 <= j < os.len() && (#[trigger] os[j]).dst.url().href@ == spec.dst.url().href@ && os[j].id != id)
                    || (has_output(os, id) && exists|j: int| 0 <= j < os.len() && (#[trigger] os[j]).dst.url().href@ == spec.dst.url().href@
                        && j != output_pos(os, id)))
                &&& (r == Ok::<Option<()>, StoreError>(None) <==> !(r is Err) && !has_output(os, id))
                &&& (r == Ok::<Option<()>, StoreError>(Some(())) ==> {
                    let o = final(self).restreams@[k].outputs@[output_pos(os, id)];
                    &&& others_unchanged(old(self).restreams@, final(self).restreams@, k)
                    &&& other_outputs_unchanged(os, final(self).restreams@[k].outputs@, output_pos(os, id))
                    &&& final(self).restreams@[k].input == old(self).restreams@[k].input
                    &&& output_matches(o, spec, false)
                    &&& o.id == id
                    &&& o.enabled == os[output_pos(os, id)].enabled
                })
            },
    {
        let k = match find_restream_first(&self.restreams, restream_id) {
            None => return Ok(None),
            Some(k) => k,
        };
        let ghost before = self.restreams@;
        let ghost os = self.restreams@[k as int].outputs@;
        let mut j: usize = 0;
        while j < self.restreams[k].outputs.len()
            invariant
                *self == *old(self),
                j <= os.len(),
                forall|i: int| 0 <= i < j ==> !((#[trigger] os[i]).dst.url().href@ == spec.dst.url().href@ && os[i].id != id),
            decreases os.len() - j,
        {
            if self.restreams[k].outputs[j].dst.parts().same_as(spec.dst.parts()) && self.restreams[k].outputs[j].id != id {
                return Err(StoreError::OutputDstInUse);
            }
            j = j + 1;
        }
        let n = match find_output_first(&self.restreams[k].outputs, id) {
            None => return Ok(None),
            Some(n) => n,
        };
        let mut j: usize = 0;
        while j < self.restreams[k].outputs.len()
            invariant
                *self == *old(self),
                j <= os.len(),
                forall|i: int| 0 <= i < j ==> !((#[trigger] os[i]).dst.url().href@ == spec.dst.url().href@ && i != n),
            decreases os.len() - j,
        {
            if j != n && self.restreams[k].outputs[j].dst.parts().same_as(spec.dst.parts()) {
                assert(os[j as int].dst.url().href@ == spec.dst.url().href@);
                return Err(StoreError::OutputDstInUse);
            }
            j = j + 1;
        }
        proof {
            lemma_restream_wf_elim(before[k as int]);
        }
        self.restreams[k].outputs[n].apply(spec, true);
        proof {
            let nr = self.restreams@[k as int];
            let o = nr.outputs@[n as int];
            lemma_mixins_wf_from_spec(o.mixins@, spec.mixins@);
            lemma_outputs_replace(os, n as int, o);
            assert(nr.outputs@ == os.update(n as int, o));
            lemma_restream_wf_intro(nr);
            lemma_replace_restream(before, k as int, nr);
            assert(self.restreams@ == before.update(k as int, nr));
        }
        Ok(Some(()))
    }

    /// Removes the output `id` from the restream `restream_id`; returns `None`
    /// if there is no such restream or output.
    pub fn remove_output(&mut self, id: OutputId, restream_id: RestreamId) -> (r: Option<()>)
        requires
            old(self).wf(),
        ensures
            final(self).wf(),
            r is Some <==> has_restream(old(self).restreams@, restream_id)
                && has_output(old(self).restreams@[restream_pos(old(self).restreams@, restream_id)].outputs@, id),
            r is None ==> final(self).restreams@ == old(self).restreams@,
            r is Some ==> {
                let k = restream_pos(old(self).restreams@, restream_id);
                let os = old(self).restreams@[k].outputs@;
                final(self).restreams@[k].outputs@ == os.remove(output_pos(os, id))
            },
    {
        let k = match find_restream_first(&self.restreams, restream_id) {
            None => return None,
            Some(k) => k,
        };
        let n = match find_output_first(&self.restreams[k].outputs, id) {
            None => return None,
            Some(n) => n,
        };
        let ghost before = self.restreams@;
        let ghost os = self.restreams@[k as int].outputs@;
        proof {
            lemma_restream_wf_elim(before[k as int]);
            lemma_outputs_remove(os, n as int);
        }
        let _ = self.restreams[k].outputs.remove(n);
        proof {
            let nr = self.restreams@[k as int];
            lemma_restream_wf_intro(nr);
            lemma_replace_restream(before, k as int, nr);
            assert(self.restreams@ == before.update(k as int, nr));
        }
        Some(())
    }

    /// Enables the output `id` of the restream `restream_id`.
    ///
    /// Returns `true` if it has been enabled, `false` if it was enabled
    /// already, or `None` if there is no such restream or output.
    pub fn enable_output(&mut self, id: OutputId, restream_id: RestreamId) -> (r: Option<bool>)
        requires
            old(self).wf(),
        ensures
            final(self).wf(),
            r is Some <==> has_restream(old(self).restreams@, restream_id)
                && has_output(old(self).restreams@[restream_pos(old(self).restreams@, restream_id)].outputs@, id),
            r matches Some(changed) ==> {
                let k = restream_pos(old(self).restreams@, restream_id);
                let n = output_pos(old(self).restreams@[k].outputs@, id);
                &&& final(self).restreams@[k].outputs@[n].enabled
                &&& changed == !old(self).restreams@[k].outputs@[n].enabled
            },
    {
        self.set_output_enabled(id, restream_id, true)
    }

    /// Disables the output `id` of the restream `restream_id`.
    ///
    /// Returns `true` if it has been disabled, `false` if it was disabled
    /// already, or `None` if there is no such restream or output.
    pub fn disable_output(&mut self, id: OutputId, restream_id: RestreamId) -> (r: Option<bool>)
        requires
            old(self).wf(),
        ensures
            final(self).wf(),
            r is Some <==> has_restream(old(self).restreams@, restream_id)
                && has_output(old(self).restreams@[restream_pos(old(self).restreams@, restream_id)].outputs@, id),
            r matches Some(changed) ==> {
                let k = restream_pos(old(self).restreams@, restream_id);
                let n = output_pos(old(self).restreams@[k].outputs@, id);
                &&& !final(self).restreams@[k].outputs@[n].enabled
                &&& changed == old(self).restreams@[k].outputs@[n].enabled
            },
    {
        self.set_output_enabled(id, restream_id, false)
    }

    fn set_output_enabled(&mut self, id: OutputId, restream_id: RestreamId, on: bool) -> (r: Option<bool>)
        requires
            old(self).wf(),
        ensures
            final(self).wf(),
            r is Some <==> has_restream(old(self).restreams@, restream_id)
                && has_output(old(self).restreams@[restream_pos(old(self).restreams@, restream_id)].outputs@, id),
            r matches Some(changed) ==> {
                let k = restream_pos(old(self).restreams@, restream_id);
                let n = output_pos(old(self).restreams@[k].outputs@, id);
                &&& final(self).restreams@[k].outputs@[n].enabled == on
                &&& changed == (old(self).restreams@[k].outputs@[n].enabled != on)
            },
    {
        let k = match find_restream_first(&self.restreams, restream_id) {
            None => return None,
            Some(k) => k,
        };
        let n = match find_output_first(&self.restreams[k].outputs, id) {
            None => return None,
            Some(n) => n,
        };
        if self.restreams[k].outputs[n].enabled == on {
            return Some(false);
        }
        let ghost before = self.restreams@;
        let ghost os = self.restreams@[k as int].outputs@;
        proof {
            lemma_restream_wf_elim(before[k as int]);
        }
        self.restreams[k].outputs[n].enabled = on;
        proof {
            let nr = self.restreams@[k as int];
            lemma_outputs_same_shape(os, n as int, nr.outputs@[n as int]);
            assert(nr.outputs@ == os.update(n as int, nr.outputs@[n as int]));
            lemma_restream_wf_intro(nr);
            lemma_replace_restream(before, k as int, nr);
            assert(self.restreams@ == before.update(k as int, nr));
        }
        Some(true)
    }

}

/// Mixins whose sources and side-chain flags are unchanged stay within limits.
pub proof fn lemma_mixins_same_shape(a: Seq<Mixin>, b: Seq<Mixin>)
    requires
        mixins_wf(a),
        a.len() == b.len(),
        forall|k: int| 0 <= k < a.len() ==> (#[trigger] a[k]).src == b[k].src && a[k].sidechain == b[k].sidechain,
    ensures
        mixins_wf(b),
{
    assert(mixin_hrefs(a) =~= mixin_hrefs(b));
    assert(mixin_schemes(a) =~= mixin_schemes(b));
    assert(mixin_sidechains(a) =~= mixin_sidechains(b));
}

/// Whether the output `b` is `a` with at most its `enabled` flag changed.
pub open spec fn same_but_enabled(a: Output, b: Output) -> bool {
    &&& b.id == a.id
    &&& b.dst == a.dst
    &&& b.label == a.label
    &&& b.preview_url == a.preview_url
    &&& b.volume == a.volume
    &&& b.mixins == a.mixins
    &&& b.status == a.status
}

/// Whether every output of `os` is enabled (or disabled, as `on` says).
pub open spec fn all_outputs_set(os: Seq<Output>, on: bool) -> bool {
    forall|k: int| 0 <= k < os.len() ==> (#[trigger] os[k]).enabled == on
}

/// Sets every output of `os` enabled (or disabled); returns whether any
/// flipped.
fn set_all_outputs(os: &mut Vec<Output>, on: bool) -> (changed: bool)
    requires
        outputs_wf(old(os)@),
    ensures
        outputs_wf(final(os)@),
        all_outputs_set(final(os)@, on),
        changed == !all_outputs_set(old(os)@, on),
        final(os)@.len() == old(os)@.len(),
        forall|k: int| 0 <= k < old(os)@.len() ==> (#[trigger] final(os)@[k]).id == old(os)@[k].id,
        forall|k: int| 0 <= k < old(os)@.len() ==> same_but_enabled(old(os)@[k], #[trigger] final(os)@[k]),
{
    let mut changed = false;
    let mut k: usize = 0;
    let ghost orig = os@;
    while k < os.len()
        invariant
            k <= os@.len(),
            os@.len() == orig.len(),
            outputs_wf(os@),
            forall|j: int| 0 <= j < k ==> (#[trigger] os@[j]).enabled == on,
            forall|j: int| k <= j < os@.len() ==> (#[trigger] os@[j]) == orig[j],
            forall|j: int| 0 <= j < os@.len() ==> (#[trigger] os@[j]).id == orig[j].id,
            forall|j: int| 0 <= j < os@.len() ==> same_but_enabled(orig[j], #[trigger] os@[j]),
            changed == exists|j: int| 0 <= j < k && (#[trigger] orig[j]).enabled != on,
        decreases os@.len() - k,
    {
        if os[k].enabled != on {
            let ghost before = os@;
            os[k].enabled = on;
            proof {
                lemma_outputs_same_shape(before, k as int, os@[k as int]);
                assert(os@ == before.update(k as int, os@[k as int]));
            }
            changed = true;
        }
        k = k + 1;
    }
    changed
}

impl State {
    /// Enables every output of the restream `restream_id`.
    ///
    /// Returns whether any flipped, or `None` if there is no such restream.
    pub fn enable_all_outputs(&mut self, restream_id: RestreamId) -> (r: Option<bool>)
        requires
            old(self).wf(),
        ensures
            final(self).wf(),
            r is Some <==> has_restream(old(self).restreams@, restream_id),
            r is Some ==> {
                let k = restream_pos(old(self).restreams@, restream_id);
                &&& final(self).restreams@[k].outputs@.len() == old(self).restreams@[k].outputs@.len()
                &&& forall|n: int| 0 <= n < old(self).restreams@[k].outputs@.len()
                    ==> same_but_enabled(old(self).restreams@[k].outputs@[n], #[trigger] final(self).restreams@[k].outputs@[n])
            },
            r is None ==> final(self).restreams@ == old(self).restreams@,
            r is Some ==> others_unchanged(old(self).restreams@, final(self).restreams@, restream_pos(old(self).restreams@, restream_id))
                && final(self).restreams@[restream_pos(old(self).restreams@, restream_id)].input
                    == old(self).restreams@[restream_pos(old(self).restreams@, restream_id)].input
                && final(self).restreams@[restream_pos(old(self).restreams@, restream_id)].id == restream_id,
            r matches Some(changed) ==> {
                let k = restream_pos(old(self).restreams@, restream_id);
                &&& all_outputs_set(final(self).restreams@[k].outputs@, true)
                &&& changed == !all_outputs_set(old(self).restreams@[k].outputs@, true)
            },
    {
        self.set_state_of_all_outputs(restream_id, true)
    }

    /// Disables every output of the restream `restream_id`.
    ///
    /// Returns whether any flipped, or `None` if there is no such restream.
    pub fn disable_all_outputs(&mut self, restream_id: RestreamId) -> (r: Option<bool>)
        requires
            old(self).wf(),
        ensures
            final(self).wf(),
            r is Some <==> has_restream(old(self).restreams@, restream_id),
            r is Some ==> {
                let k = restream_pos(old(self).restreams@, restream_id);
                &&& final(self).restreams@[k].outputs@.len() == old(self).restreams@[k].outputs@.len()
                &&& forall|n: int| 0 <= n < old(self).restreams@[k].outputs@.len()
                    ==> same_but_enabled(old(self).restreams@[k].outputs@[n], #[trigger] final(self).restreams@[k].outputs@[n])
            },
            r is None ==> final(self).restreams@ == old(self).restreams@,
            r is Some ==> others_unchanged(old(self).restreams@, final(self).restreams@, restream_pos(old(self).restreams@, restream_id))
                && final(self).restreams@[restream_pos(old(self).restreams@, restream_id)].input
                    == old(self).restreams@[restream_pos(old(self).restreams@, restream_id)].input
                && final(self).restreams@[restream_pos(old(self).restreams@, restream_id)].id == restream_id,
            r matches Some(changed) ==> {
                let k = restream_pos(old(self).restreams@, restream_id);
                &&& all_outputs_set(final(self).restreams@[k].outputs@, false)
                &&& changed == !all_outputs_set(old(self).restreams@[k].outputs@, false)
            },
    {
        self.set_state_of_all_outputs(restream_id, false)
    }

    fn set_state_of_all_outputs(&mut self, restream_id: RestreamId, on: bool) -> (r: Option<bool>)
        requires
            old(self).wf(),
        ensures
            final(self).wf(),
            r is Some <==> has_restream(old(self).restreams@, restream_id),
            r is Some ==> {
                let k = restream_pos(old(self).restreams@, restream_id);
                &&& final(self).restreams@[k].outputs@.len() == old(self).restreams@[k].outputs@.len()
                &&& forall|n: int| 0 <= n < old(self).restreams@[k].outputs@.len()
                    ==> same_but_enabled(old(self).restreams@[k].outputs@[n], #[trigger] final(self).restreams@[k].outputs@[n])
            },
            r is None ==> final(self).restreams@ == old(self).restreams@,
            r is Some ==> others_unchanged(old(self).restreams@, final(self).restreams@, restream_pos(old(self).restreams@, restream_id))
                && final(self).restreams@[restream_pos(old(self).restreams@, restream_id)].input
                    == old(self).restreams@[restream_pos(old(self).restreams@, restream_id)].input
                && final(self).restreams@[restream_pos(old(self).restreams@, restream_id)].id == restream_id,
            r matches Some(changed) ==> {
                let k = restream_pos(old(self).restreams@, restream_id);
                &&& all_outputs_set(final(self).restreams@[k].outputs@, on)
                &&& changed == !all_outputs_set(old(self).restreams@[k].outputs@, on)
            },
    {
        let k = match find_restream_first(&self.restreams, restream_id) {
            None => return None,
            Some(k) => k,
        };
        let ghost before = self.restreams@;
        proof {
            lemma_restream_wf_elim(before[k as int]);
        }
        let changed = set_all_outputs(&mut self.restreams[k].outputs, on);
        proof {
            let nr = self.restreams@[k as int];
            lemma_restream_wf_intro(nr);
            lemma_replace_restream(before, k as int, nr);
            assert(self.restreams@ == before.update(k as int, nr));
        }
        Some(changed)
    }

    /// Enables every output of every restream; returns whether any flipped.
    pub fn enable_all_outputs_of_restreams(&mut self) -> (changed: bool)
        requires
            old(self).wf(),
        ensures
            final(self).wf(),
            forall|k: int| 0 <= k < final(self).restreams@.len() ==> all_outputs_set(#[trigger] final(self).restreams@[k].outputs@, true),
            changed == exists|k: int| 0 <= k < old(self).restreams@.len() && !all_outputs_set(#[trigger] old(self).restreams@[k].outputs@, true),
    {
        self.set_state_of_all_outputs_of_restreams(true)
    }

    /// Disables every output of every restream; returns whether any flipped.
    pub fn disable_all_outputs_of_restreams(&mut self) -> (changed: bool)
        requires
            old(self).wf(),
        ensures
            final(self).wf(),
            forall|k: int| 0 <= k < final(self).restreams@.len() ==> all_outputs_set(#[trigger] final(self).restreams@[k].outputs@, false),
            changed == exists|k: int| 0 <= k < old(self).restreams@.len() && !all_outputs_set(#[trigger] old(self).restreams@[k].outputs@, false),
    {
        self.set_state_of_all_outputs_of_restreams(false)
    }

    fn set_state_of_all_outputs_of_restreams(&mut self, on: bool) -> (changed: bool)
        requires
            old(self).wf(),
        ensures
            final(self).wf(),
            forall|k: int| 0 <= k < final(self).restreams@.len() ==> all_outputs_set(#[trigger] final(self).restreams@[k].outputs@, on),
            changed == exists|k: int| 0 <= k < old(self).restreams@.len() && !all_outputs_set(#[trigger] old(self).restreams@[k].outputs@, on),
    {
        let mut changed = false;
        let mut k: usize = 0;
        let ghost orig = self.restreams@;
        while k < self.restreams.len()
            invariant
                k <= self.restreams@.len(),
                self.restreams@.len() == orig.len(),
                self.wf(),
                forall|j: int| 0 <= j < k ==> all_outputs_set(#[trigger] self.restreams@[j].outputs@, on),
                forall|j: int| k <= j < self.restreams@.len() ==> (#[trigger] self.restreams@[j]) == orig[j],
                changed == exists|j: int| 0 <= j < k && !all_outputs_set(#[trigger] orig[j].outputs@, on),
            decreases self.restreams@.len() - k,
        {
            let ghost before = self.restreams@;
            proof {
                lemma_restream_wf_elim(before[k as int]);
            }
            let c = set_all_outputs(&mut self.restreams[k].outputs, on);
            proof {
                let nr = self.restreams@[k as int];
                lemma_restream_wf_intro(nr);
                lemma_replace_restream(before, k as int, nr);
                assert(self.restreams@ == before.update(k as int, nr));
                assert(orig[k as int] == before[k as int]);
            }
            changed = changed || c;
            k = k + 1;
        }
        changed
    }

    /// Tunes the volume of the output `output_id` of the restream
    /// `restream_id`, or of its mixin `mixin_id` if one is given.
    ///
    /// Returns whether the volume changed, or `None` if there is no such
    /// restream, output or mixin.
    pub fn tune_volume(&mut self, restream_id: RestreamId, output_id: OutputId, mixin_id: Option<MixinId>, volume: Volume) -> (r: Option<bool>)
        requires
            old(self).wf(),
        ensures
            final(self).wf(),
            r is None ==> final(self).restreams@ == old(self).restreams@,
            r is Some <==> has_restream(old(self).restreams@, restream_id) && {
                let os = old(self).restreams@[restream_pos(old(self).restreams@, restream_id)].outputs@;
                &&& has_output(os, output_id)
                &&& mixin_id matches Some(m) ==> has_mixin(os[output_pos(os, output_id)].mixins@, m)
            },
            r matches Some(changed) ==> {
                let k = restream_pos(old(self).restreams@, restream_id);
                let n = output_pos(old(self).restreams@[k].outputs@, output_id);
                let o = old(self).restreams@[k].outputs@[n];
                let f = final(self).restreams@[k].outputs@[n];
                &&& others_unchanged(old(self).restreams@, final(self).restreams@, k)
                &&& other_outputs_unchanged(old(self).restreams@[k].outputs@, final(self).restreams@[k].outputs@, n)
                &&& final(self).restreams@[k].input == old(self).restreams@[k].input
                &&& final(self).restreams@[k].id == old(self).restreams@[k].id
                &&& f.id == o.id && f.dst == o.dst && f.enabled == o.enabled
                &&& f.label == o.label && f.preview_url == o.preview_url && f.status == o.status
                &&& f.mixins@.len() == o.mixins@.len()
                &&& match mixin_id {
                    None => f.volume == volume && changed == (o.volume != volume) && f.mixins == o.mixins,
                    Some(m) => f.volume == o.volume && exists|j: int| 0 <= j < f.mixins@.len() && (#[trigger] f.mixins@[j]).id == m
                        && f.mixins@[j].volume == volume && changed == (o.mixins@[j].volume != volume)
                        && f.mixins@[j].src == o.mixins@[j].src && f.mixins@[j].delay == o.mixins@[j].delay
                        && f.mixins@[j].sidechain == o.mixins@[j].sidechain && f.mixins@[j].status == o.mixins@[j].status
                        && forall|i: int| 0 <= i < f.mixins@.len() && i != j ==> #[trigger] f.mixins@[i] == o.mixins@[i],
                }
            },
    {
        let k = match find_restream_first(&self.restreams, restream_id) {
            None => return None,
            Some(k) => k,
        };
        let n = match find_output_first(&self.restreams[k].outputs, output_id) {
            None => return None,
            Some(n) => n,
        };
        let ghost before = self.restreams@;
        let ghost os = self.restreams@[k as int].outputs@;
        proof {
            lemma_restream_wf_elim(before[k as int]);
        }
        let changed = match mixin_id {
            None => {
                if self.restreams[k].outputs[n].volume == volume {
                    return Some(false);
                }
                self.restreams[k].outputs[n].volume = volume;
                true
            },
            Some(m) => {
                let j = match find_mixin(&self.restreams[k].outputs[n].mixins, m) {
                    None => return None,
                    Some(j) => j,
                };
                if self.restreams[k].outputs[n].mixins[j].volume == volume {
                    return Some(false);
                }
                let ghost ms = self.restreams@[k as int].outputs@[n as int].mixins@;
                self.restreams[k].outputs[n].mixins[j].volume = volume;
                proof {
                    lemma_mixins_same_shape(ms, self.restreams@[k as int].outputs@[n as int].mixins@);
                }
                true
            },
        };
        proof {
            let nr = self.restreams@[k as int];
            let no = nr.outputs@[n as int];
            assert(nr.outputs@ == os.update(n as int, no));
            if mixin_id is None {
                assert(mixins_wf(os[n as int].mixins@));
            }
            lemma_outputs_same_dst(os, n as int, no);
            lemma_restream_wf_intro(nr);
            lemma_replace_restream(before, k as int, nr);
            assert(self.restreams@ == before.update(k as int, nr));
        }
        Some(changed)
    }

    /// Tunes the delay of the mixin `mixin_id` of the output `output_id` of
    /// the restream `restream_id`.
    ///
    /// Returns whether the delay changed, or `None` if there is no such
    /// restream, output or mixin.
    pub fn tune_delay(&mut self, restream_id: RestreamId, output_id: OutputId, mixin_id: MixinId, delay: Delay) -> (r: Option<bool>)
        requires
            old(self).wf(),
        ensures
            final(self).wf(),
            r is None ==> final(self).restreams@ == old(self).restreams@,
            r is Some <==> has_restream(old(self).restreams@, restream_id) && {
                let os = old(self).restreams@[restream_pos(old(self).restreams@, restream_id)].outputs@;
                has_output(os, output_id) && has_mixin(os[output_pos(os, output_id)].mixins@, mixin_id)
            },
            r matches Some(changed) ==> {
                let k = restream_pos(old(self).restreams@, restream_id);
                let n = output_pos(old(self).restreams@[k].outputs@, output_id);
                let o = old(self).restreams@[k].outputs@[n];
                let f = final(self).restreams@[k].outputs@[n];
                &&& others_unchanged(old(self).restreams@, final(self).restreams@, k)
                &&& other_outputs_unchanged(old(self).restreams@[k].outputs@, final(self).restreams@[k].outputs@, n)
                &&& final(self).restreams@[k].input == old(self).restreams@[k].input
                &&& f.id == o.id && f.dst == o.dst && f.enabled == o.enabled && f.volume == o.volume
                &&& f.mixins@.len() == o.mixins@.len()
                &&& exists|j: int| 0 <= j < f.mixins@.len() && (#[trigger] f.mixins@[j]).id == mixin_id
                    && f.mixins@[j].delay == delay && changed == (o.mixins@[j].delay != delay)
                    && forall|i: int| 0 <= i < f.mixins@.len() && i != j ==> #[trigger] f.mixins@[i] == o.mixins@[i]
            },
    {
        let k = match find_restream_first(&self.restreams, restream_id) {
            None => return None,
            Some(k) => k,
        };
        let n = match find_output_first(&self.restreams[k].outputs, output_id) {
            None => return None,
            Some(n) => n,
        };
        let j = match find_mixin(&self.restreams[k].outputs[n].mixins, mixin_id) {
            None => return None,
            Some(j) => j,
        };
        if self.restreams[k].outputs[n].mixins[j].delay == delay {
            return Some(false);
        }
        let ghost before = self.restreams@;
        let ghost os = self.restreams@[k as int].outputs@;
        let ghost ms = os[n as int].mixins@;
        proof {
            lemma_restream_wf_elim(before[k as int]);
        }
        self.restreams[k].outputs[n].mixins[j].delay = delay;
        proof {
            let nr = self.restreams@[k as int];
            let no = nr.outputs@[n as int];
            lemma_mixins_same_shape(ms, no.mixins@);
            assert(nr.outputs@ == os.update(n as int, no));
            lemma_outputs_same_dst(os, n as int, no);
            lemma_restream_wf_intro(nr);
            lemma_replace_restream(before, k as int, nr);
            assert(self.restreams@ == before.update(k as int, nr));
        }
        Some(true)
    }

    /// Sets whether the output `output_id` of the restream `restream_id` is
    /// side-chained with its mixin `mixin_id`. An output has at most one
    /// side-chained mixin: setting the flag clears it on the other mixins of
    /// the output.
    ///
    /// Returns whether the flag of the mixin changed, or `None` if there is no
    /// such restream, output or mixin.
    pub fn tune_sidechain(&mut self, restream_id: RestreamId, output_id: OutputId, mixin_id: MixinId, sidechain: bool) -> (r: Option<bool>)
        requires
            old(self).wf(),
        ensures
            final(self).wf(),
            r is None ==> final(self).restreams@ == old(self).restreams@,
            r is Some <==> has_restream(old(self).restreams@, restream_id) && {
                let os = old(self).restreams@[restream_pos(old(self).restreams@, restream_id)].outputs@;
                has_output(os, output_id) && has_mixin(os[output_pos(os, output_id)].mixins@, mixin_id)
            },
            r matches Some(changed) ==> {
                let k = restream_pos(old(self).restreams@, restream_id);
                let n = output_pos(old(self).restreams@[k].outputs@, output_id);
                let o = old(self).restreams@[k].outputs@[n];
                let f = final(self).restreams@[k].outputs@[n];
                &&& others_unchanged(old(self).restreams@, final(self).restreams@, k)
                &&& other_outputs_unchanged(old(self).restreams@[k].outputs@, final(self).restreams@[k].outputs@, n)
                &&& final(self).restreams@[k].input == old(self).restreams@[k].input
                &&& f.id == o.id && f.dst == o.dst && f.enabled == o.enabled && f.volume == o.volume
                &&& f.mixins@.len() == o.mixins@.len()
                &&& exists|j: int| 0 <= j < f.mixins@.len() && (#[trigger] f.mixins@[j]).id == mixin_id
                    && f.mixins@[j].sidechain == sidechain && changed == (o.mixins@[j].sidechain != sidechain)
                    && forall|i: int| 0 <= i < f.mixins@.len() && i != j ==> {
                        &&& (#[trigger] f.mixins@[i]).id == o.mixins@[i].id
                        &&& f.mixins@[i].src == o.mixins@[i].src
                        &&& f.mixins@[i].volume == o.mixins@[i].volume
                        &&& f.mixins@[i].delay == o.mixins@[i].delay
                        &&& f.mixins@[i].sidechain == (o.mixins@[i].sidechain && !sidechain)
                    }
            },
    {
        let k = match find_restream_first(&self.restreams, restream_id) {
            None => return None,
            Some(k) => k,
        };
        let n = match find_output_first(&self.restreams[k].outputs, output_id) {
            None => return None,
            Some(n) => n,
        };
        let j = match find_mixin(&self.restreams[k].outputs[n].mixins, mixin_id) {
            None => return None,
            Some(j) => j,
        };
        let ghost before = self.restreams@;
        let ghost os = self.restreams@[k as int].outputs@;
        let ghost ms = os[n as int].mixins@;
        let changed = self.restreams[k].outputs[n].mixins[j].sidechain != sidechain;
        proof {
            lemma_restream_wf_elim(before[k as int]);
        }
        self.restreams[k].outputs[n].mixins[j].sidechain = sidechain;
        if sidechain {
            let mut i: usize = 0;
            while i < self.restreams[k].outputs[n].mixins.len()
                invariant
                    k < self.restreams@.len(),
                    n < self.restreams@[k as int].outputs@.len(),
                    self.restreams@.len() == before.len(),
                    forall|x: int| 0 <= x < before.len() && x != k ==> #[trigger] self.restreams@[x] == before[x],
                    self.restreams@[k as int].input == before[k as int].input,
                    self.restreams@[k as int].id == before[k as int].id,
                    self.restreams@[k as int].key == before[k as int].key,
                    self.restreams@[k as int].outputs@.len() == os.len(),
                    forall|x: int| 0 <= x < os.len() && x != n ==> #[trigger] self.restreams@[k as int].outputs@[x] == os[x],
                    self.restreams@[k as int].outputs@[n as int].id == os[n as int].id,
                    self.restreams@[k as int].outputs@[n as int].dst == os[n as int].dst,
                    self.restreams@[k as int].outputs@[n as int].enabled == os[n as int].enabled,
                    self.restreams@[k as int].outputs@[n as int].volume == os[n as int].volume,
                    self.restreams@[k as int].outputs@[n as int].mixins@.len() == ms.len(),
                    j < ms.len(),
                    i <= ms.len(),
                    self.restreams@[k as int].outputs@[n as int].mixins@[j as int].sidechain,
                    self.restreams@[k as int].outputs@[n as int].mixins@[j as int].id == ms[j as int].id,
                    self.restreams@[k as int].outputs@[n as int].mixins@[j as int].src == ms[j as int].src,
                    self.restreams@[k as int].outputs@[n as int].mixins@[j as int].volume == ms[j as int].volume,
                    self.restreams@[k as int].outputs@[n as int].mixins@[j as int].delay == ms[j as int].delay,
                    forall|x: int| 0 <= x < ms.len() && x != j ==> {
                        &&& (#[trigger] self.restreams@[k as int].outputs@[n as int].mixins@[x]).id == ms[x].id
                        &&& self.restreams@[k as int].outputs@[n as int].mixins@[x].src == ms[x].src
                        &&& self.restreams@[k as int].outputs@[n as int].mixins@[x].volume == ms[x].volume
                        &&& self.restreams@[k as int].outputs@[n as int].mixins@[x].delay == ms[x].delay
                        &&& self.restreams@[k as int].outputs@[n as int].mixins@[x].sidechain == (ms[x].sidechain && x >= i)
                    },
                decreases ms.len() - i,
            {
                if i != j {
                    self.restreams[k].outputs[n].mixins[i].sidechain = false;
                }
                i = i + 1;
            }
        }
        proof {
            let nr = self.restreams@[k as int];
            let no = nr.outputs@[n as int];
            assert forall|x: int| 0 <= x < ms.len() implies (#[trigger] ms[x]).src == no.mixins@[x].src by {}
            lemma_sidechain_flip(ms, no.mixins@, j as int);
            assert(nr.outputs@ =~= os.update(n as int, no));
            lemma_outputs_same_dst(os, n as int, no);
            lemma_restream_wf_intro(nr);
            lemma_replace_restream(before, k as int, nr);
            assert(self.restreams@ =~= before.update(k as int, nr));
        }
        Some(changed)
    }

    /// Adds a monitored client with the given URL.
    ///
    /// Fails if a client with the same URL exists already.
    pub fn add_client(&mut self, client_id: &str) -> (r: Result<(), StoreError>)
        ensures
            final(self).restreams == old(self).restreams,
            r is Err <==> exists|k: int| 0 <= k < old(self).clients@.len() && (#[trigger] old(self).clients@[k]).id@ == client_id@,
            r is Err ==> r == Err::<(), StoreError>(StoreError::ClientInUse) && final(self).clients@ == old(self).clients@,
            r is Ok ==> final(self).clients@.len() == old(self).clients@.len() + 1
                && final(self).clients@.drop_last() == old(self).clients@
                && final(self).clients@.last().id@ == client_id@,
    {
        let mut k: usize = 0;
        while k < self.clients.len()
            invariant
                *self == *old(self),
                k <= self.clients@.len(),
                forall|j: int| 0 <= j < k ==> (#[trigger] self.clients@[j]).id@ != client_id@,
            decreases self.clients@.len() - k,
        {
            if crate::text::str_eq(self.clients[k].id.as_str(), client_id) {
                return Err(StoreError::ClientInUse);
            }
            k = k + 1;
        }
        let ghost before = self.clients@;
        self.clients.push(Client { id: client_id.to_owned() });
        proof {
            assert(self.clients@.drop_last() =~= before);
        }
        Ok(())
    }

    /// Removes the monitored client with the given URL; returns `None` if
    /// there is none.
    pub fn remove_client(&mut self, client_id: &str) -> (r: Option<()>)
        ensures
            final(self).restreams == old(self).restreams,
            r is Some <==> exists|k: int| 0 <= k < old(self).clients@.len() && (#[trigger] old(self).clients@[k]).id@ == client_id@,
            forall|k: int| 0 <= k < final(self).clients@.len() ==> (#[trigger] final(self).clients@[k]).id@ != client_id@,
    {
        let mut kept: Vec<Client> = Vec::new();
        let mut found = false;
        let olds = crate::state::take_vec(&mut self.clients);
        let ghost all = olds@;
        let mut rest = olds;
        while rest.len() > 0
            invariant
                rest@ == all.subrange(all.len() - rest@.len(), all.len() as int),
                rest@.len() <= all.len(),
                forall|j: int| 0 <= j < kept@.len() ==> (#[trigger] kept@[j]).id@ != client_id@,
                found == exists|j: int| 0 <= j < all.len() - rest@.len() && (#[trigger] all[j]).id@ == client_id@,
                self.restreams == old(self).restreams,
                all == old(self).clients@,
            decreases rest@.len(),
        {
            let c = rest.remove(0);
            proof {
                assert(c == all[all.len() - rest@.len() - 1]);
                assert(rest@ =~= all.subrange(all.len() - rest@.len(), all.len() as int));
            }
            if crate::text::str_eq(c.id.as_str(), client_id) {
                found = true;
            } else {
                kept.push(c);
            }
        }
        self.clients = kept;
        if found { Some(()) } else { None }
    }

    /// Exports the settings and restreams of this state as a specification.
    pub fn export(&self) -> (r: v1::Spec)
        ensures
            r.settings is Some,
            r.restreams@.len() == self.restreams@.len(),
            forall|k: int| 0 <= k < self.restreams@.len() ==> restream_matches(#[trigger] self.restreams@[k], r.restreams@[k], true),
    {
        let mut restreams: Vec<v1::Restream> = Vec::new();
        let mut k: usize = 0;
        while k < self.restreams.len()
            invariant
                k <= self.restreams@.len(),
                restreams@.len() == k,
                forall|j: int| 0 <= j < k ==> restream_matches(#[trigger] self.restreams@[j], restreams@[j], true),
            decreases self.restreams@.len() - k,
        {
            restreams.push(self.restreams[k].export());
            k = k + 1;
        }
        v1::Spec { settings: Some(self.settings.export()), restreams }
    }
}

/// Setting the side-chain flag of one mixin, when no mixin had it, keeps the
/// mixins within limits.
pub proof fn lemma_sidechain_flip(a: Seq<Mixin>, b: Seq<Mixin>, j: int)
    requires
        mixins_wf(a),
        0 <= j < a.len(),
        a.len() == b.len(),
        forall|k: int| 0 <= k < a.len() ==> (#[trigger] a[k]).src == b[k].src,
        b[j].sidechain ==> forall|k: int| 0 <= k < b.len() && k != j ==> !(#[trigger] b[k]).sidechain,
        !b[j].sidechain ==> forall|k: int| 0 <= k < a.len() ==> (#[trigger] b[k]).sidechain ==> a[k].sidechain,
    ensures
        mixins_wf(b),
{
    assert(mixin_hrefs(a) =~= mixin_hrefs(b));
    assert(mixin_schemes(a) =~= mixin_schemes(b));
    if b[j].sidechain {
        assert forall|k: int| 0 <= k < b.len() && k != j implies !mixin_sidechains(b)[k] by {
            assert(!b[k].sidechain);
        }
        lemma_true_count_at_most_one(mixin_sidechains(b), j);
    } else {
        lemma_true_count_drop(mixin_sidechains(a), mixin_sidechains(b));
    }
}

/// A flag sequence with no `true` but at position `j` counts at most one.
pub proof fn lemma_true_count_at_most_one(s: Seq<bool>, j: int)
    requires
        0 <= j < s.len(),
        forall|k: int| 0 <= k < s.len() && k != j ==> !s[k],
    ensures
        v1::true_count(s) <= 1,
    decreases s.len(),
{
    if s.len() > 0 {
        if j < s.len() - 1 {
            lemma_true_count_at_most_one(s.drop_last(), j);
        } else {
            lemma_true_count_zero(s.drop_last());
        }
    }
}

/// A flag sequence with no `true` counts zero.
pub proof fn lemma_true_count_zero(s: Seq<bool>)
    requires
        forall|k: int| 0 <= k < s.len() ==> !s[k],
    ensures
        v1::true_count(s) == 0,
    decreases s.len(),
{
    if s.len() > 0 {
        lemma_true_count_zero(s.drop_last());
    }
}

/// Clearing flags never raises the count.
pub proof fn lemma_true_count_drop(a: Seq<bool>, b: Seq<bool>)
    requires
        a.len() == b.len(),
        forall|k: int| 0 <= k < a.len() ==> b[k] ==> a[k],
    ensures
        v1::true_count(b) <= v1::true_count(a),
    decreases a.len(),
{
    if a.len() > 0 {
        lemma_true_count_drop(a.drop_last(), b.drop_last());
    }
}

/// Finds the position of the restream with the given key.
fn find_restream_of_key(rs: &Vec<Restream>, key: &crate::ids::RestreamKey) -> (r: Option<usize>)
    ensures
        r matches Some(k) ==> k < rs@.len() && rs@[k as int].key@ == key@,
        r is None ==> forall|k: int| 0 <= k < rs@.len() ==> (#[trigger] rs@[k]).key@ != key@,
{
    let mut k: usize = 0;
    while k < rs.len()
        invariant
            k <= rs@.len(),
            forall|j: int| 0 <= j < k ==> (#[trigger] rs@[j]).key@ != key@,
        decreases rs@.len() - k,
    {
        if rs[k].key.same_as(key) {
            return Some(k);
        }
        k = k + 1;
    }
    None
}

impl State {
    /// Applies the specification `new` to this state. Restreams are matched
    /// by key and keep their IDs and runtime state, and so do the items under
    /// them matched by their own natural keys; `enabled` flags already set
    /// are kept. With `replace` the restreams become those of the
    /// specification; otherwise new ones are merged into the existing ones.
    /// The settings are applied when the specification has some, or reset to
    /// the defaults with `replace`.
    pub fn apply(&mut self, new: v1::Spec, replace: bool)
        ensures
            replace ==> final(self).restreams@.len() == new.restreams@.len()
                && forall|k: int| 0 <= k < new.restreams@.len()
                    ==> restream_matches(#[trigger] final(self).restreams@[k], new.restreams@[k], false),
            replace && spec_ok(new) ==> final(self).wf(),
            !replace ==> final(self).restreams@.len() >= old(self).restreams@.len(),
            !replace && keys_distinct(old(self).restreams@) ==> keys_distinct(final(self).restreams@),
            replace && v1::all_distinct(v1::restream_keys(new.restreams@)) ==> forall|k: int| #![trigger new.restreams@[k]] 0 <= k < new.restreams@.len()
                ==> (exists|j: int| 0 <= j < old(self).restreams@.len() && (#[trigger] old(self).restreams@[j]).key@ == new.restreams@[k].key@)
                ==> exists|j: int| 0 <= j < old(self).restreams@.len() && (#[trigger] old(self).restreams@[j]).key@ == new.restreams@[k].key@
                    && crate::state::restream_kept(final(self).restreams@[k], old(self).restreams@[j], new.restreams@[k]),
            !replace ==> forall|j: int| 0 <= j < old(self).restreams@.len() ==> crate::state::restream_stays(#[trigger] final(self).restreams@[j], old(self).restreams@[j]),
            !replace ==> forall|j: int| #![trigger old(self).restreams@[j]] 0 <= j < old(self).restreams@.len()
                && (forall|p: int| 0 <= p < new.restreams@.len() ==> (#[trigger] new.restreams@[p]).key@ != old(self).restreams@[j].key@)
                ==> final(self).restreams@[j] == old(self).restreams@[j],
            !replace && v1::all_distinct(v1::restream_keys(new.restreams@)) && keys_distinct(old(self).restreams@)
                ==> forall|p: int| #![trigger new.restreams@[p]] 0 <= p < new.restreams@.len()
                    ==> merged_into(final(self).restreams@, old(self).restreams@.len() as int, new.restreams@[p]),
            applied(old(self).restreams@, final(self).restreams@, new.restreams@, replace),
            final(self).clients == old(self).clients,
    {
        let ghost specs = new.restreams@;
        let ghost orig = self.restreams@;
        let ghost dist = v1::all_distinct(v1::restream_keys(new.restreams@));
        let v1::Spec { settings, restreams: news } = new;
        if replace {
            let mut olds = crate::state::take_vec(&mut self.restreams);
            proof {
                assert(olds@ == orig);
            }
            let ghost all = news@;
            let ghost mut idx: Seq<int> = Seq::new(orig.len(), |i: int| i);
            let mut rest = news;
            while rest.len() > 0
                invariant
                    self.restreams@.len() + rest@.len() == all.len(),
                    idx.len() == olds@.len(),
                    forall|x: int| 0 <= x < olds@.len() ==> 0 <= #[trigger] idx[x] < orig.len() && olds@[x] == orig[idx[x]],
                    rest@ == all.subrange(self.restreams@.len() as int, all.len() as int),
                    all == specs,
                    dist == v1::all_distinct(v1::restream_keys(specs)),
                    forall|k: int| 0 <= k < self.restreams@.len() ==> restream_matches(#[trigger] self.restreams@[k], all[k], false),
                    self.clients == old(self).clients,
                    forall|j: int| #![trigger orig[j]] 0 <= j < orig.len() && (forall|p: int| 0 <= p < self.restreams@.len() ==> (#[trigger] all[p]).key@ != orig[j].key@)
                        ==> exists|x: int| 0 <= x < olds@.len() && #[trigger] olds@[x] == orig[j],
                    dist ==> forall|p: int| #![trigger self.restreams@[p]] 0 <= p < self.restreams@.len()
                        ==> (exists|j: int| 0 <= j < orig.len() && (#[trigger] orig[j]).key@ == all[p].key@)
                        ==> exists|j: int| 0 <= j < orig.len() && (#[trigger] orig[j]).key@ == all[p].key@
                            && crate::state::restream_kept(self.restreams@[p], orig[j], all[p]),
                decreases rest@.len(),
            {
                let r = rest.remove(0);
                let ghost n = self.restreams@.len();
                let ghost olds0 = olds@;
                let ghost done0 = self.restreams@;
                proof {
                    assert(all[n as int] == r);
                }
                match find_restream_of_key(&olds, &r.key) {
                    Some(k) => {
                        let mut old_r = olds.swap_remove(k);
                        let ghost idx0_j = idx[k as int];
                        proof {
                            let j0 = idx[k as int];
                            assert(orig[j0].key@ == r.key@ && old_r.id == orig[j0].id);
                            let idx0 = idx;
                            idx = idx.update(k as int, idx[idx.len() - 1]).drop_last();
                            assert forall|x: int| 0 <= x < olds@.len() implies 0 <= #[trigger] idx[x] < orig.len() && olds@[x] == orig[idx[x]] by {
                                if x == k {
                                    assert(olds@[x] == olds0[olds0.len() - 1]);
                                    assert(idx[x] == idx0[idx0.len() - 1]);
                                } else {
                                    assert(olds@[x] == olds0[x]);
                                    assert(idx[x] == idx0[x]);
                                }
                            }
                            assert forall|j: int| #![trigger orig[j]] 0 <= j < orig.len() && (forall|p: int| 0 <= p < n + 1 ==> (#[trigger] all[p]).key@ != orig[j].key@)
                                implies exists|x: int| 0 <= x < olds@.len() && #[trigger] olds@[x] == orig[j] by {
                                assert(forall|p: int| 0 <= p < n ==> (#[trigger] all[p]).key@ != orig[j].key@);
                                let x0 = choose|x: int| 0 <= x < olds0.len() && #[trigger] olds0[x] == orig[j];
                                assert(all[n as int].key@ != orig[j].key@);
                                assert(x0 != k);
                                if x0 == olds0.len() - 1 {
                                    assert(olds@[k as int] == orig[j]);
                                } else {
                                    assert(olds@[x0] == orig[j]);
                                }
                            }
                        }
                        let ghost oid = old_r.id;
                        let ghost okey = old_r.key@;
                        old_r.apply(r, true);
                        self.restreams.push(old_r);
                        proof {
                            assert(self.restreams@[n as int].id == oid);
                            assert(crate::state::restream_kept(self.restreams@[n as int], orig[idx0_j], all[n as int]));
                        }
                    },
                    None => {
                        let created = Restream::new(r);
                        proof {
                            crate::state::lemma_input_match_lenient(created.input, r.input);
                            assert forall|j: int| 0 <= j < created.outputs@.len() implies
                                #[trigger] output_matches(created.outputs@[j], r.outputs@[j], false) by {
                                assert(output_matches(created.outputs@[j], r.outputs@[j], true));
                            }
                        }
                        self.restreams.push(created);
                        proof {
                            if dist {
                                assert forall|j: int| #![trigger orig[j]] 0 <= j < orig.len() implies orig[j].key@ != all[n as int].key@ by {
                                    if orig[j].key@ == all[n as int].key@ {
                                        assert forall|p: int| 0 <= p < n implies (#[trigger] all[p]).key@ != orig[j].key@ by {
                                            assert(v1::restream_keys(specs)[p] != v1::restream_keys(specs)[n as int]);
                                        }
                                        let x0 = choose|x: int| 0 <= x < olds@.len() && #[trigger] olds@[x] == orig[j];
                                        assert(olds@[x0].key@ != r.key@);
                                    }
                                }
                            }
                            assert forall|j: int| #![trigger orig[j]] 0 <= j < orig.len() && (forall|p: int| 0 <= p < n + 1 ==> (#[trigger] all[p]).key@ != orig[j].key@)
                                implies exists|x: int| 0 <= x < olds@.len() && #[trigger] olds@[x] == orig[j] by {
                                assert(forall|p: int| 0 <= p < n ==> (#[trigger] all[p]).key@ != orig[j].key@);
                            }
                        }
                    },
                }
                proof {
                    assert(rest@ =~= all.subrange(self.restreams@.len() as int, all.len() as int));
                    assert(all[n as int] == r);
                    assert forall|p: int| 0 <= p < n implies #[trigger] self.restreams@[p] == done0[p] by {}
                }
            }
            proof {
                if spec_ok(new) {
                    lemma_state_wf_from_spec(self.restreams@, specs);
                }
            }
        } else {
            let ghost all = news@;
            let mut rest = news;
            let ghost n0 = self.restreams@.len();
            let ghost distinct0 = keys_distinct(self.restreams@);
            let ghost d = dist && distinct0;
            while rest.len() > 0
                invariant
                    self.restreams@.len() >= n0,
                    n0 == orig.len(),
                    self.clients == old(self).clients,
                    distinct0 ==> keys_distinct(self.restreams@),
                    rest@.len() <= all.len(),
                    rest@ == all.subrange(all.len() - rest@.len(), all.len() as int),
                    all == specs,
                    dist == v1::all_distinct(v1::restream_keys(specs)),
                    d == (dist && distinct0),
                    forall|j: int| 0 <= j < n0 ==> crate::state::restream_stays(#[trigger] self.restreams@[j], orig[j]),
                    forall|j: int| #![trigger orig[j]] 0 <= j < n0
                        && (forall|p: int| 0 <= p < all.len() - rest@.len() ==> (#[trigger] all[p]).key@ != orig[j].key@)
                        ==> self.restreams@[j] == orig[j],
                    d ==> forall|p: int| #![trigger all[p]] 0 <= p < all.len() - rest@.len() ==> merged_into(self.restreams@, n0 as int, all[p]),
                decreases rest@.len(),
            {
                let ghost i = all.len() - rest@.len();
                let r = rest.remove(0);
                let ghost before = self.restreams@;
                proof {
                    assert(r == all[i]);
                    assert(rest@ =~= all.subrange(all.len() - rest@.len(), all.len() as int));
                }
                match find_restream_of_key(&self.restreams, &r.key) {
                    Some(k) => {
                        self.restreams[k].apply(r, false);
                        proof {
                            assert(self.restreams@ == before.update(k as int, self.restreams@[k as int]));
                            if distinct0 {
                                assert forall|a: int, b: int| 0 <= a < b < self.restreams@.len() implies
                                    (#[trigger] self.restreams@[a]).key@ != (#[trigger] self.restreams@[b]).key@ by {
                                    assert(before[a].key@ != before[b].key@);
                                }
                            }
                            assert(merged_at(self.restreams@, n0 as int, all[i], k as int));
                            if d {
                                assert forall|p: int| #![trigger all[p]] 0 <= p < i + 1 implies merged_into(self.restreams@, n0 as int, all[p]) by {
                                    if p < i {
                                        assert(merged_into(before, n0 as int, all[p]));
                                        let w = choose|w: int| 0 <= w < before.len() && merged_at(before, n0 as int, all[p], w);
                                        assert(v1::restream_keys(specs)[p] != v1::restream_keys(specs)[i]);
                                        assert(w != k);
                                        assert(merged_at(self.restreams@, n0 as int, all[p], w));
                                    }
                                }
                            }
                            assert forall|j: int| #![trigger orig[j]] 0 <= j < n0
                                && (forall|p: int| 0 <= p < i + 1 ==> (#[trigger] all[p]).key@ != orig[j].key@)
                                implies self.restreams@[j] == orig[j] by {
                                assert(forall|p: int| 0 <= p < i ==> (#[trigger] all[p]).key@ != orig[j].key@);
                                assert(all[i].key@ != orig[j].key@);
                                if j == k {
                                    assert(before[j] == orig[j]);
                                }
                            }
                        }
                    },
                    None => {
                        let created = Restream::new(r);
                        let ghost c = created;
                        self.restreams.push(created);
                        proof {
                            if distinct0 {
                                assert forall|a: int, b: int| 0 <= a < b < self.restreams@.len() implies
                                    (#[trigger] self.restreams@[a]).key@ != (#[trigger] self.restreams@[b]).key@ by {
                                    if b < before.len() {
                                        assert(before[a].key@ != before[b].key@);
                                    } else {
                                        assert(before[a].key@ != r.key@);
                                    }
                                }
                            }
                            crate::state::lemma_input_match_lenient(c.input, r.input);
                            assert(merged_at(self.restreams@, n0 as int, all[i], before.len() as int));
                            if d {
                                assert forall|p: int| #![trigger all[p]] 0 <= p < i + 1 implies merged_into(self.restreams@, n0 as int, all[p]) by {
                                    if p < i {
                                        assert(merged_into(before, n0 as int, all[p]));
                                        let w = choose|w: int| 0 <= w < before.len() && merged_at(before, n0 as int, all[p], w);
                                        assert(merged_at(self.restreams@, n0 as int, all[p], w));
                                    }
                                }
                            }
                            assert forall|j: int| #![trigger orig[j]] 0 <= j < n0
                                && (forall|p: int| 0 <= p < i + 1 ==> (#[trigger] all[p]).key@ != orig[j].key@)
                                implies self.restreams@[j] == orig[j] by {
                                assert(forall|p: int| 0 <= p < i ==> (#[trigger] all[p]).key@ != orig[j].key@);
                            }
                        }
                    },
                }
            }
        }
        match settings {
            Some(s) => self.settings.apply(s),
            None => {
                if replace {
                    let d = Settings::default();
                    self.settings.apply(d.export());
                }
            },
        }
    }
}

/// What applying the restream specifications `specs` to the restreams
/// `old_rs` gives in `new_rs`, with or without `replace`.
pub open spec fn applied(old_rs: Seq<Restream>, new_rs: Seq<Restream>, specs: Seq<v1::Restream>, replace: bool) -> bool {
    &&& (replace ==> new_rs.len() == specs.len()
                && forall|k: int| 0 <= k < specs.len()
                    ==> restream_matches(#[trigger] new_rs[k], specs[k], false))
    &&& (!replace ==> new_rs.len() >= old_rs.len())
    &&& (!replace && keys_distinct(old_rs) ==> keys_distinct(new_rs))
    &&& (replace && v1::all_distinct(v1::restream_keys(specs)) ==> forall|k: int| #![trigger specs[k]] 0 <= k < specs.len()
                ==> (exists|j: int| 0 <= j < old_rs.len() && (#[trigger] old_rs[j]).key@ == specs[k].key@)
                ==> exists|j: int| 0 <= j < old_rs.len() && (#[trigger] old_rs[j]).key@ == specs[k].key@
                    && crate::state::restream_kept(new_rs[k], old_rs[j], specs[k]))
    &&& (!replace ==> forall|j: int| 0 <= j < old_rs.len() ==> crate::state::restream_stays(#[trigger] new_rs[j], old_rs[j]))
    &&& (!replace ==> forall|j: int| #![trigger old_rs[j]] 0 <= j < old_rs.len()
                && (forall|p: int| 0 <= p < specs.len() ==> (#[trigger] specs[p]).key@ != old_rs[j].key@)
                ==> new_rs[j] == old_rs[j])
    &&& (!replace && v1::all_distinct(v1::restream_keys(specs)) && keys_distinct(old_rs)
                ==> forall|p: int| #![trigger specs[p]] 0 <= p < specs.len()
                    ==> merged_into(new_rs, old_rs.len() as int, specs[p]))
}

/// Whether the restream at `w` of `rs` is where the merge of `s` went: it
/// has the key and the label of `s` and the input `s` describes (enabled
/// flags aside); `n0` is the number of restreams before the merge.
pub open spec fn merged_at(rs: Seq<Restream>, n0: int, s: v1::Restream, w: int) -> bool {
    &&& 0 <= w < rs.len()
    &&& rs[w].key@ == s.key@
    &&& crate::state::label_view(rs[w].label) == crate::state::label_view(s.label)
    &&& input_matches(rs[w].input, s.input, false)
}

/// Whether the merge of `s` went somewhere in `rs`.
pub open spec fn merged_into(rs: Seq<Restream>, n0: int, s: v1::Restream) -> bool {
    exists|w: int| 0 <= w < rs.len() && #[trigger] merged_at(rs, n0, s, w)
}

/// Restreams matching an accepted specification, one by one, are
/// well-formed together.
pub proof fn lemma_state_wf_from_spec(rs: Seq<Restream>, specs: Seq<v1::Restream>)
    requires
        rs.len() == specs.len(),
        forall|k: int| 0 <= k < rs.len() ==> restream_matches(#[trigger] rs[k], specs[k], false),
        v1::all_distinct(v1::restream_keys(specs)),
        forall|k: int| 0 <= k < specs.len() ==> restream_spec_ok(#[trigger] specs[k]),
    ensures
        keys_distinct(rs),
        forall|k: int| 0 <= k < rs.len() ==> restream_wf(#[trigger] rs[k]),
{
    assert forall|i: int, j: int| 0 <= i < j < rs.len() implies (#[trigger] rs[i]).key@ != (#[trigger] rs[j]).key@ by {
        assert(restream_matches(rs[i], specs[i], false));
        assert(restream_matches(rs[j], specs[j], false));
        assert(v1::restream_keys(specs)[i] != v1::restream_keys(specs)[j]);
    }
    assert forall|k: int| 0 <= k < rs.len() implies restream_wf(#[trigger] rs[k]) by {
        assert(restream_matches(rs[k], specs[k], false));
        assert(restream_spec_ok(specs[k]));
        lemma_restream_wf_from_spec(rs[k], specs[k], false);
    }
}

impl State {
    /// Enables the input `id` of the restream `restream_id`, and every input
    /// of its failover source.
    ///
    /// Returns whether anything changed, or `None` if there is no such
    /// restream or input.
    pub fn enable_input(&mut self, id: InputId, restream_id: RestreamId) -> (r: Option<bool>)
        requires
            old(self).wf(),
        ensures
            final(self).wf(),
            !has_restream(old(self).restreams@, restream_id) ==> r is None,
            has_restream(old(self).restreams@, restream_id) ==> {
                let k = restream_pos(old(self).restreams@, restream_id);
                &&& (r is Some <==> crate::lookup::tree_any(old(self).restreams@[k].input, crate::lookup::is_input(id)))
                &&& (r is Some ==> crate::lookup::tree_any(final(self).restreams@[k].input, crate::lookup::is_toggled_input(id, true)))
            },
    {
        self.toggle_input(id, restream_id, true)
    }

    /// Disables the input `id` of the restream `restream_id`, and every input
    /// of its failover source; their endpoints forget their clients and go
    /// offline.
    ///
    /// Returns whether anything changed, or `None` if there is no such
    /// restream or input.
    pub fn disable_input(&mut self, id: InputId, restream_id: RestreamId) -> (r: Option<bool>)
        requires
            old(self).wf(),
        ensures
            final(self).wf(),
            !has_restream(old(self).restreams@, restream_id) ==> r is None,
            has_restream(old(self).restreams@, restream_id) ==> {
                let k = restream_pos(old(self).restreams@, restream_id);
                &&& (r is Some <==> crate::lookup::tree_any(old(self).restreams@[k].input, crate::lookup::is_input(id)))
                &&& (r is Some ==> crate::lookup::tree_any(final(self).restreams@[k].input, crate::lookup::is_toggled_input(id, false)))
            },
    {
        self.toggle_input(id, restream_id, false)
    }

    fn toggle_input(&mut self, id: InputId, restream_id: RestreamId, on: bool) -> (r: Option<bool>)
        requires
            old(self).wf(),
        ensures
            final(self).wf(),
            !has_restream(old(self).restreams@, restream_id) ==> r is None,
            has_restream(old(self).restreams@, restream_id) ==> {
                let k = restream_pos(old(self).restreams@, restream_id);
                &&& (r is Some <==> crate::lookup::tree_any(old(self).restreams@[k].input, crate::lookup::is_input(id)))
                &&& (r is Some ==> crate::lookup::tree_any(final(self).restreams@[k].input, crate::lookup::is_toggled_input(id, on)))
            },
    {
        let k = match find_restream_first(&self.restreams, restream_id) {
            None => return None,
            Some(k) => k,
        };
        let ghost before = self.restreams@;
        proof {
            lemma_restream_wf_elim(before[k as int]);
        }
        let r = self.restreams[k].input.toggle_input(id, on);
        proof {
            let nr = self.restreams@[k as int];
            lemma_restream_wf_intro(nr);
            lemma_replace_restream(before, k as int, nr);
            assert(self.restreams@ == before.update(k as int, nr));
        }
        r
    }

    /// Sets the label of the endpoint `endpoint_id` of the input `id` of the
    /// restream `restream_id`.
    ///
    /// Returns `None` if there is no such restream, input or endpoint.
    pub fn change_endpoint_label(&mut self, id: InputId, restream_id: RestreamId, endpoint_id: EndpointId, label: Option<Label>) -> (r: Option<bool>)
        requires
            old(self).wf(),
        ensures
            final(self).wf(),
            r is Some <==> has_restream(old(self).restreams@, restream_id) && crate::lookup::tree_any(
                old(self).restreams@[restream_pos(old(self).restreams@, restream_id)].input,
                crate::lookup::has_input_endpoint(id, endpoint_id)),
            r is None ==> final(self).restreams@ == old(self).restreams@,
            r is Some ==> {
                let k = restream_pos(old(self).restreams@, restream_id);
                &&& r == Some(true)
                &&& others_unchanged(old(self).restreams@, final(self).restreams@, k)
                &&& final(self).restreams@[k].outputs == old(self).restreams@[k].outputs
                &&& crate::lookup::tree_any(final(self).restreams@[k].input,
                    crate::lookup::is_labelled(id, endpoint_id, crate::state::label_view(label)))
            },
    {
        let k = match find_restream_first(&self.restreams, restream_id) {
            None => return None,
            Some(k) => k,
        };
        if !crate::lookup::tree_has_input_endpoint(&self.restreams[k].input, id, endpoint_id) {
            return None;
        }
        let ghost before = self.restreams@;
        proof {
            lemma_restream_wf_elim(before[k as int]);
        }
        let _ = self.restreams[k].input.change_endpoint_label(id, endpoint_id, label);
        proof {
            let nr = self.restreams@[k as int];
            lemma_restream_wf_intro(nr);
            lemma_replace_restream(before, k as int, nr);
            assert(self.restreams@ == before.update(k as int, nr));
        }
        Some(true)
    }

    /// Writes the status of the process belonging to the state item `id`
    /// back into the state: onto the output with that ID, or, unless the
    /// status is `Online` (which only the media server reports for inputs),
    /// onto the input endpoint with that ID. Returns whether an item took it.
    #[verifier::loop_isolation(false)]
    pub fn renew_status(&mut self, id: u128, status: Status) -> (r: bool)
        requires
            old(self).wf(),
        ensures
            final(self).wf(),
            final(self).restreams@.len() == old(self).restreams@.len(),
            !r ==> final(self).restreams@ == old(self).restreams@,
            r <==> exists|k: int| 0 <= k < old(self).restreams@.len() && takes_status(#[trigger] old(self).restreams@[k], id, status),
            r ==> exists|k: int| 0 <= k < final(self).restreams@.len() && others_unchanged(old(self).restreams@, final(self).restreams@, k)
                && final(self).restreams@[k].id == old(self).restreams@[k].id
                && final(self).restreams@[k].key == old(self).restreams@[k].key
                && (final(self).restreams@[k].input == old(self).restreams@[k].input
                    || final(self).restreams@[k].outputs == old(self).restreams@[k].outputs)
                && final(self).restreams@[k].outputs@.len() == old(self).restreams@[k].outputs@.len()
                && (forall|n: int| 0 <= n < old(self).restreams@[k].outputs@.len() ==> {
                    let (a, b) = (old(self).restreams@[k].outputs@[n], #[trigger] final(self).restreams@[k].outputs@[n]);
                    b.id == a.id && b.dst == a.dst && b.mixins == a.mixins && b.enabled == a.enabled && b.volume == a.volume
                        && (b.status == a.status || (a.id.0 == id && b.status == status))
                }) && {
                ||| exists|n: int| 0 <= n < final(self).restreams@[k].outputs@.len()
                    && (#[trigger] final(self).restreams@[k].outputs@[n]).id.0 == id
                    && final(self).restreams@[k].outputs@[n].status == status
                ||| status != Status::Online && crate::lookup::tree_any(#[trigger] final(self).restreams@[k].input,
                    crate::lookup::has_endpoint_status(EndpointId(id), status))
            },
    {
        let mut k: usize = 0;
        while k < self.restreams.len()
            invariant
                k <= self.restreams@.len(),
                *self == *old(self),
                forall|j: int| 0 <= j < k ==> !takes_status(#[trigger] self.restreams@[j], id, status),
            decreases self.restreams@.len() - k,
        {
            let ghost before = self.restreams@;
            let mut n: usize = 0;
            while n < self.restreams[k].outputs.len()
                invariant
                    n <= self.restreams@[k as int].outputs@.len(),
                    *self == *old(self),
                    before == self.restreams@,
                    forall|m: int| 0 <= m < n ==> (#[trigger] self.restreams@[k as int].outputs@[m]).id.0 != id,
                decreases self.restreams@[k as int].outputs@.len() - n,
            {
                if self.restreams[k].outputs[n].id.0 == id {
                    let ghost os = before[k as int].outputs@;
                    proof {
                        lemma_restream_wf_elim(before[k as int]);
                    }
                    self.restreams[k].outputs[n].status = status;
                    proof {
                        let nr = self.restreams@[k as int];
                        lemma_outputs_same_shape(os, n as int, nr.outputs@[n as int]);
                        assert(nr.outputs@ == os.update(n as int, nr.outputs@[n as int]));
                        lemma_restream_wf_intro(nr);
                        lemma_replace_restream(before, k as int, nr);
                        assert(self.restreams@ == before.update(k as int, nr));
                        assert(self.restreams@[k as int].outputs@[n as int].id.0 == id);
                        assert(takes_status(before[k as int], id, status));
                    }
                    return true;
                }
                n = n + 1;
            }
            if status != Status::Online {
                if has_endpoint_in(&self.restreams[k].input, EndpointId(id)) {
                    proof {
                        lemma_restream_wf_elim(before[k as int]);
                    }
                    let _ = self.restreams[k].input.set_endpoint_status(EndpointId(id), status);
                    proof {
                        let nr = self.restreams@[k as int];
                        lemma_restream_wf_intro(nr);
                        lemma_replace_restream(before, k as int, nr);
                        assert(self.restreams@ == before.update(k as int, nr));
                        assert(takes_status(before[k as int], id, status));
                    }
                    return true;
                }
            }
            proof {
                assert(!takes_status(before[k as int], id, status));
            }
            k = k + 1;
        }
        false
    }
}

/// Whether the restream `r` takes the status `status` of the process `id`:
/// one of its outputs has that ID, or, unless the status is `Online`, an
/// endpoint of its input tree has it.
pub open spec fn takes_status(r: Restream, id: u128, status: Status) -> bool {
    ||| exists|n: int| 0 <= n < r.outputs@.len() && (#[trigger] r.outputs@[n]).id.0 == id
    ||| status != Status::Online && crate::lookup::tree_any(r.input, crate::lookup::has_endpoint(EndpointId(id)))
}

/// Finds whether the input tree `i` has an endpoint `id`.
fn has_endpoint_in(i: &Input, id: EndpointId) -> (r: bool)
    ensures
        r == crate::lookup::tree_any(*i, crate::lookup::has_endpoint(id)),
{
    crate::lookup::tree_has_endpoint(i, id)
}

impl State {
    /// The output `output_id` of the restream `restream_id`, if there is one.
    pub fn get_output(&self, restream_id: RestreamId, output_id: OutputId) -> (r: Option<&Output>)
        ensures
            r is Some <==> has_restream(self.restreams@, restream_id)
                && has_output(self.restreams@[restream_pos(self.restreams@, restream_id)].outputs@, output_id),
            r matches Some(o) ==> o.id == output_id && has_restream(self.restreams@, restream_id)
                && *o == self.restreams@[restream_pos(self.restreams@, restream_id)].outputs@[
                    output_pos(self.restreams@[restream_pos(self.restreams@, restream_id)].outputs@, output_id)],
    {
        let k = match find_restream_first(&self.restreams, restream_id) {
            None => return None,
            Some(k) => k,
        };
        match find_output_first(&self.restreams[k].outputs, output_id) {
            None => None,
            Some(n) => Some(&self.restreams[k].outputs[n]),
        }
    }
}

} // verus!
