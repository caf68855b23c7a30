//! Operations on an input tree that locate an input or an endpoint by ID.
use vstd::prelude::*;
use crate::ids::{EndpointId, InputId, Label, Status};
use crate::state::{
    forest_wf, input_wf, kinds_ok, lemma_forest_wf_elem, tree_enabled, Input, InputEndpointKind,
    InputSrc,
};

verus! {

/// Whether some input of the tree `i` satisfies `f`.
pub open spec fn tree_any(i: Input, f: spec_fn(Input) -> bool) -> bool
    decreases i,
{
    ||| f(i)
    ||| match i.src {
        Some(InputSrc::Failover(s)) => forest_any(s.inputs@, f),
        _ => false,
    }
}

/// Whether some input of the trees `s` satisfies `f`.
pub open spec fn forest_any(s: Seq<Input>, f: spec_fn(Input) -> bool) -> bool
    decreases s,
{
    s.len() > 0 && (forest_any(s.drop_last(), f) || tree_any(s.last(), f))
}

/// Whether the input `i` has an endpoint `id` in status `st`.
pub open spec fn has_endpoint_status(id: EndpointId, st: Status) -> spec_fn(Input) -> bool {
    |i: Input| exists|k: int| 0 <= k < i.endpoints@.len() && (#[trigger] i.endpoints@[k]).id == id && i.endpoints@[k].status == st
}

/// Whether the input `i` has an endpoint `id`.
pub open spec fn has_endpoint(id: EndpointId) -> spec_fn(Input) -> bool {
    |i: Input| exists|k: int| 0 <= k < i.endpoints@.len() && (#[trigger] i.endpoints@[k]).id == id
}

/// Whether the input `i` is the input `id`.
pub open spec fn is_input(id: InputId) -> spec_fn(Input) -> bool {
    |i: Input| i.id == id
}

/// Whether the input `i` is the input `id` with its whole tree enabled (or
/// disabled, as `on` says).
pub open spec fn is_toggled_input(id: InputId, on: bool) -> spec_fn(Input) -> bool {
    |i: Input| i.id == id && tree_enabled(i, on)
}

/// Whether the input `i` is the input `id`, with an endpoint `e` labelled
/// `label`.
pub open spec fn is_labelled(id: InputId, e: EndpointId, label: Option<Seq<char>>) -> spec_fn(Input) -> bool {
    |i: Input| i.id == id && exists|k: int| 0 <= k < i.endpoints@.len() && (#[trigger] i.endpoints@[k]).id == e
        && crate::state::label_view(i.endpoints@[k].label) == label
}

/// Whether the input `i` is the input `id` with an endpoint `e`.
pub open spec fn has_input_endpoint(id: InputId, e: EndpointId) -> spec_fn(Input) -> bool {
    |i: Input| i.id == id && exists|k: int| 0 <= k < i.endpoints@.len() && (#[trigger] i.endpoints@[k]).id == e
}

/// A forest satisfies `tree_any` wherever one of its trees does.
pub(crate) proof fn lemma_forest_any_at(s: Seq<Input>, k: int, f: spec_fn(Input) -> bool)
    requires
        0 <= k < s.len(),
        tree_any(s[k], f),
    ensures
        forest_any(s, f),
    decreases s.len(),
{
    if k < s.len() - 1 {
        lemma_forest_any_at(s.drop_last(), k, f);
    }
}

/// A forest none of whose trees satisfies `tree_any` does not either.
proof fn lemma_forest_none(s: Seq<Input>, f: spec_fn(Input) -> bool)
    requires
        forall|k: int| 0 <= k < s.len() ==> !tree_any(#[trigger] s[k], f),
    ensures
        !forest_any(s, f),
    decreases s.len(),
{
    if s.len() > 0 {
        lemma_forest_none(s.drop_last(), f);
    }
}

/// A forest whose trees are each well-formed where those of a well-formed
/// forest were is well-formed.
proof fn lemma_forest_wf_pointwise(s: Seq<Input>, t: Seq<Input>)
    requires
        forest_wf(s),
        s.len() == t.len(),
        forall|j: int| 0 <= j < s.len() ==> input_wf(s[j]) ==> input_wf(#[trigger] t[j]),
    ensures
        forest_wf(t),
    decreases s.len(),
{
    if s.len() > 0 {
        lemma_forest_wf_elem(s, s.len() - 1);
        lemma_forest_wf_pointwise(s.drop_last(), t.drop_last());
    }
}

impl Input {
    /// Sets the status of the endpoint `id`, wherever it is in this input
    /// tree; returns whether there is one.
    pub fn set_endpoint_status(&mut self, id: EndpointId, status: Status) -> (found: bool)
        ensures
            found == tree_any(*old(self), has_endpoint(id)),
            found ==> tree_any(*final(self), has_endpoint_status(id, status)),
            input_wf(*old(self)) ==> input_wf(*final(self)),
            final(self).id == old(self).id,
            final(self).key == old(self).key,
            final(self).enabled == old(self).enabled,
        decreases *old(self),
    {
        let ghost before = *self;
        let mut k: usize = 0;
        while k < self.endpoints.len()
            invariant
                k <= self.endpoints@.len(),
                *self == before,
                before == *old(self),
                forall|j: int| 0 <= j < k ==> (#[trigger] self.endpoints@[j]).id != id,
            decreases self.endpoints@.len() - k,
        {
            if self.endpoints[k].id == id {
                self.endpoints[k].status = status;
                proof {
                    assert(has_endpoint(id)(before));
                    assert(tree_any(before, has_endpoint(id)));
                    assert(has_endpoint_status(id, status)(*self));
                    assert(tree_any(*self, has_endpoint_status(id, status)));
                    if kinds_ok(before.endpoints@) {
                        let w = choose|i: int| 0 <= i < before.endpoints@.len()
                            && (#[trigger] before.endpoints@[i]).kind == InputEndpointKind::Rtmp;
                        assert(self.endpoints@[w].kind == InputEndpointKind::Rtmp);
                    }
                    assert(self.src == before.src);
                    if input_wf(before) {
                        assert(kinds_ok(self.endpoints@));
                        assert(input_wf(*self));
                    }
                }
                return true;
            }
            k = k + 1;
        }
        proof {
            assert(!has_endpoint(id)(before));
        }
        match &mut self.src {
            Some(InputSrc::Failover(f)) => {
                let ghost orig = f.inputs@;
                proof {
                    assert(before.src == Some(InputSrc::Failover(*f)));
                    assert(decreases_to!(*old(self) => old(self).src));
                    assert(decreases_to!(old(self).src => old(self).src->Some_0));
                    assert(decreases_to!(old(self).src->Some_0 => old(self).src->Some_0->Failover_0));
                    assert(decreases_to!(old(self).src->Some_0->Failover_0 => old(self).src->Some_0->Failover_0.inputs));
                    assert(decreases_to!(old(self).src->Some_0->Failover_0.inputs => orig));
                }
                let mut j: usize = 0;
                let mut found = false;
                proof {
                    if orig.len() == 0 {
                        lemma_forest_none(orig, has_endpoint(id));
                    }
                }
                while j < f.inputs.len()
                    invariant_except_break
                        forall|i: int| j <= i < orig.len() ==> f.inputs@[i] == orig[i],
                        forall|i: int| 0 <= i < j ==> !tree_any(#[trigger] orig[i], has_endpoint(id)),
                        j == orig.len() ==> !forest_any(orig, has_endpoint(id)),
                        !found,
                    invariant
                        j <= f.inputs@.len(),
                        f.inputs@.len() == orig.len(),
                        forall|i: int| 0 <= i < orig.len() ==> input_wf(orig[i]) ==> input_wf(#[trigger] f.inputs@[i]),
                        decreases_to!(*old(self) => orig),
                    ensures
                        found == forest_any(orig, has_endpoint(id)),
                        found ==> forest_any(f.inputs@, has_endpoint_status(id, status)),
                    decreases f.inputs@.len() - j,
                {
                    proof {
                        assert(decreases_to!(orig => orig[j as int]));
                    }
                    if f.inputs[j].set_endpoint_status(id, status) {
                        proof {
                            lemma_forest_any_at(orig, j as int, has_endpoint(id));
                            lemma_forest_any_at(f.inputs@, j as int, has_endpoint_status(id, status));
                        }
                        found = true;
                        break;
                    }
                    j = j + 1;
                    proof {
                        if j == orig.len() {
                            lemma_forest_none(orig, has_endpoint(id));
                        }
                    }
                }
                proof {
                    if forest_wf(orig) {
                        lemma_forest_wf_pointwise(orig, f.inputs@);
                    }
                }
                found
            },
            _ => false,
        }
    }
}

impl Input {
    /// Enables (or disables, as `on` says) the input `id` of this tree and
    /// every input of its failover source. Returns whether anything changed,
    /// or `None` if there is no such input.
    pub fn toggle_input(&mut self, id: InputId, on: bool) -> (r: Option<bool>)
        ensures
            r is Some <==> tree_any(*old(self), is_input(id)),
            r is Some ==> tree_any(*final(self), is_toggled_input(id, on)),
            input_wf(*old(self)) ==> input_wf(*final(self)),
            final(self).id == old(self).id,
            final(self).key@ == old(self).key@,
        decreases *old(self),
    {
        if self.id == id {
            let changed = self.toggle(on);
            proof {
                assert(is_input(id)(*old(self)));
                assert(tree_any(*old(self), is_input(id)));
                assert(is_toggled_input(id, on)(*self));
                assert(tree_any(*self, is_toggled_input(id, on)));
            }
            return Some(changed);
        }
        let ghost before = *self;
        proof {
            assert(!is_input(id)(before));
        }
        match &mut self.src {
            Some(InputSrc::Failover(f)) => {
                let ghost orig = f.inputs@;
                proof {
                    assert(before.src == Some(InputSrc::Failover(*f)));
                    assert(decreases_to!(*old(self) => old(self).src));
                    assert(decreases_to!(old(self).src => old(self).src->Some_0));
                    assert(decreases_to!(old(self).src->Some_0 => old(self).src->Some_0->Failover_0));
                    assert(decreases_to!(old(self).src->Some_0->Failover_0 => old(self).src->Some_0->Failover_0.inputs));
                    assert(decreases_to!(old(self).src->Some_0->Failover_0.inputs => orig));
                }
                let mut j: usize = 0;
                let mut result: Option<bool> = None;
                proof {
                    if orig.len() == 0 {
                        lemma_forest_none(orig, is_input(id));
                    }
                }
                while j < f.inputs.len()
                    invariant_except_break
                        forall|i: int| j <= i < orig.len() ==> f.inputs@[i] == orig[i],
                        forall|i: int| 0 <= i < j ==> !tree_any(#[trigger] orig[i], is_input(id)),
                        j == orig.len() ==> !forest_any(orig, is_input(id)),
                        result is None,
                    invariant
                        j <= f.inputs@.len(),
                        f.inputs@.len() == orig.len(),
                        forall|i: int| 0 <= i < orig.len() ==> input_wf(orig[i]) ==> input_wf(#[trigger] f.inputs@[i]),
                        decreases_to!(*old(self) => orig),
                    ensures
                        result is Some == forest_any(orig, is_input(id)),
                        result is Some ==> forest_any(f.inputs@, is_toggled_input(id, on)),
                    decreases f.inputs@.len() - j,
                {
                    proof {
                        assert(decreases_to!(orig => orig[j as int]));
                    }
                    let r = f.inputs[j].toggle_input(id, on);
                    if r.is_some() {
                        proof {
                            lemma_forest_any_at(orig, j as int, is_input(id));
                            lemma_forest_any_at(f.inputs@, j as int, is_toggled_input(id, on));
                        }
                        result = r;
                        break;
                    }
                    j = j + 1;
                    proof {
                        if j == orig.len() {
                            lemma_forest_none(orig, is_input(id));
                        }
                    }
                }
                proof {
                    if forest_wf(orig) {
                        lemma_forest_wf_pointwise(orig, f.inputs@);
                    }
                }
                result
            },
            _ => None,
        }
    }

    /// Sets the label of the endpoint `endpoint_id` of the input `id` of this
    /// tree; returns whether there is such an input with such an endpoint.
    pub fn change_endpoint_label(&mut self, id: InputId, endpoint_id: EndpointId, label: Option<Label>) -> (found: bool)
        ensures
            found == tree_any(*old(self), has_input_endpoint(id, endpoint_id)),
            found ==> tree_any(*final(self), is_labelled(id, endpoint_id, crate::state::label_view(label))),
            input_wf(*old(self)) ==> input_wf(*final(self)),
            final(self).id == old(self).id,
            final(self).key == old(self).key,
            final(self).enabled == old(self).enabled,
        decreases *old(self),
    {
        let ghost before = *self;
        let ghost lv = crate::state::label_view(label);
        if self.id == id {
            let mut k: usize = 0;
            while k < self.endpoints.len()
                invariant
                    k <= self.endpoints@.len(),
                    *self == before,
                    before == *old(self),
                    before.id == id,
                    lv == crate::state::label_view(label),
                    forall|j: int| 0 <= j < k ==> (#[trigger] self.endpoints@[j]).id != endpoint_id,
                decreases self.endpoints@.len() - k,
            {
                if self.endpoints[k].id == endpoint_id {
                    self.endpoints[k].label = label;
                    proof {
                        assert(has_input_endpoint(id, endpoint_id)(before));
                        assert(tree_any(before, has_input_endpoint(id, endpoint_id)));
                        assert(self.id == id);
                        assert(self.endpoints@[k as int].id == endpoint_id);
                        assert(crate::state::label_view(self.endpoints@[k as int].label) == lv);
                        assert(is_labelled(id, endpoint_id, lv)(*self));
                        assert(tree_any(*self, is_labelled(id, endpoint_id, lv)));
                        if input_wf(before) {
                            if kinds_ok(before.endpoints@) {
                                let w = choose|i: int| 0 <= i < before.endpoints@.len()
                                    && (#[trigger] before.endpoints@[i]).kind == InputEndpointKind::Rtmp;
                                assert(self.endpoints@[w].kind == InputEndpointKind::Rtmp);
                            }
                            assert(kinds_ok(self.endpoints@));
                            assert(input_wf(*self));
                        }
                    }
                    return true;
                }
                k = k + 1;
            }
        }
        proof {
            assert(!has_input_endpoint(id, endpoint_id)(before));
        }
        match &mut self.src {
            Some(InputSrc::Failover(f)) => {
                let ghost orig = f.inputs@;
                proof {
                    assert(before.src == Some(InputSrc::Failover(*f)));
                    assert(decreases_to!(*old(self) => old(self).src));
                    assert(decreases_to!(old(self).src => old(self).src->Some_0));
                    assert(decreases_to!(old(self).src->Some_0 => old(self).src->Some_0->Failover_0));
                    assert(decreases_to!(old(self).src->Some_0->Failover_0 => old(self).src->Some_0->Failover_0.inputs));
                    assert(decreases_to!(old(self).src->Some_0->Failover_0.inputs => orig));
                }
                let mut j: usize = 0;
                let mut found = false;
                proof {
                    if orig.len() == 0 {
                        lemma_forest_none(orig, has_input_endpoint(id, endpoint_id));
                    }
                }
                while j < f.inputs.len()
                    invariant_except_break
                        forall|i: int| j <= i < orig.len() ==> f.inputs@[i] == orig[i],
                        forall|i: int| 0 <= i < j ==> !tree_any(#[trigger] orig[i], has_input_endpoint(id, endpoint_id)),
                        j == orig.len() ==> !forest_any(orig, has_input_endpoint(id, endpoint_id)),
                        !found,
                    invariant
                        j <= f.inputs@.len(),
                        f.inputs@.len() == orig.len(),
                        forall|i: int| 0 <= i < orig.len() ==> input_wf(orig[i]) ==> input_wf(#[trigger] f.inputs@[i]),
                        decreases_to!(*old(self) => orig),
                        lv == crate::state::label_view(label),
                    ensures
                        found == forest_any(orig, has_input_endpoint(id, endpoint_id)),
                        found ==> forest_any(f.inputs@, is_labelled(id, endpoint_id, lv)),
                    decreases f.inputs@.len() - j,
                {
                    proof {
                        assert(decreases_to!(orig => orig[j as int]));
                    }
                    let label_copy = crate::ids::copy_label(&label);
                    assert(crate::state::label_view(label_copy) == lv);
                    if f.inputs[j].change_endpoint_label(id, endpoint_id, label_copy) {
                        proof {
                            lemma_forest_any_at(orig, j as int, has_input_endpoint(id, endpoint_id));
                            lemma_forest_any_at(f.inputs@, j as int, is_labelled(id, endpoint_id, lv));
                        }
                        found = true;
                        break;
                    }
                    j = j + 1;
                    proof {
                        if j == orig.len() {
                            lemma_forest_none(orig, has_input_endpoint(id, endpoint_id));
                        }
                    }
                }
                proof {
                    if forest_wf(orig) {
                        lemma_forest_wf_pointwise(orig, f.inputs@);
                    }
                }
                found
            },
            _ => false,
        }
    }
}

/// Finds whether the tree `i` has the input `id` with the endpoint `e`.
pub fn tree_has_input_endpoint(i: &Input, id: InputId, e: EndpointId) -> (r: bool)
    ensures
        r == tree_any(*i, has_input_endpoint(id, e)),
    decreases *i,
{
    if i.id == id {
        let mut k: usize = 0;
        while k < i.endpoints.len()
            invariant
                k <= i.endpoints@.len(),
                i.id == id,
                forall|j: int| 0 <= j < k ==> (#[trigger] i.endpoints@[j]).id != e,
            decreases i.endpoints@.len() - k,
        {
            if i.endpoints[k].id == e {
                assert(has_input_endpoint(id, e)(*i));
                return true;
            }
            k = k + 1;
        }
    }
    assert(!has_input_endpoint(id, e)(*i));
    match &i.src {
        Some(InputSrc::Failover(f)) => {
            proof {
                assert(decreases_to!(*i => i.src));
                assert(decreases_to!(i.src => i.src->Some_0));
                assert(decreases_to!(i.src->Some_0 => *f));
                assert(decreases_to!(*f => f.inputs));
                assert(decreases_to!(f.inputs => f.inputs@));
                if f.inputs@.len() == 0 {
                    lemma_forest_none(f.inputs@, has_input_endpoint(id, e));
                }
            }
            let mut j: usize = 0;
            while j < f.inputs.len()
                invariant
                    j <= f.inputs@.len(),
                    i.src == Some(InputSrc::Failover(*f)),
                    !has_input_endpoint(id, e)(*i),
                    decreases_to!(*i => f.inputs@),
                    forall|k: int| 0 <= k < j ==> !tree_any(#[trigger] f.inputs@[k], has_input_endpoint(id, e)),
                    j == f.inputs@.len() ==> !forest_any(f.inputs@, has_input_endpoint(id, e)),
                decreases f.inputs@.len() - j,
            {
                proof {
                    assert(decreases_to!(f.inputs@ => f.inputs@[j as int]));
                }
                if tree_has_input_endpoint(&f.inputs[j], id, e) {
                    proof {
                        lemma_forest_any_at(f.inputs@, j as int, has_input_endpoint(id, e));
                    }
                    return true;
                }
                j = j + 1;
                proof {
                    if j == f.inputs@.len() {
                        lemma_forest_none(f.inputs@, has_input_endpoint(id, e));
                    }
                }
            }
            false
        },
        _ => false,
    }
}

/// Finds whether the tree `i` holds an input `id`.
fn tree_any_input_has_id(i: &Input, id: InputId) -> (r: bool)
    ensures
        r == tree_any(*i, is_input(id)),
    decreases *i,
{
    if i.id == id {
        assert(is_input(id)(*i));
        return true;
    }
    match &i.src {
        Some(InputSrc::Failover(f)) => {
            proof {
                assert(decreases_to!(*i => i.src));
                assert(decreases_to!(i.src => i.src->Some_0));
                assert(decreases_to!(i.src->Some_0 => *f));
                assert(decreases_to!(*f => f.inputs));
                assert(decreases_to!(f.inputs => f.inputs@));
                if f.inputs@.len() == 0 {
                    lemma_forest_none(f.inputs@, is_input(id));
                }
            }
            let mut j: usize = 0;
            while j < f.inputs.len()
                invariant
                    j <= f.inputs@.len(),
                    i.src == Some(InputSrc::Failover(*f)),
                    decreases_to!(*i => f.inputs@),
                    forall|k: int| 0 <= k < j ==> !tree_any(#[trigger] f.inputs@[k], is_input(id)),
                    j == f.inputs@.len() ==> !forest_any(f.inputs@, is_input(id)),
                decreases f.inputs@.len() - j,
            {
                proof {
                    assert(decreases_to!(f.inputs@ => f.inputs@[j as int]));
                }
                if tree_any_input_has_id(&f.inputs[j], id) {
                    proof {
                        lemma_forest_any_at(f.inputs@, j as int, is_input(id));
                    }
                    return true;
                }
                j = j + 1;
                proof {
                    if j == f.inputs@.len() {
                        lemma_forest_none(f.inputs@, is_input(id));
                    }
                }
            }
            false
        },
        _ => false,
    }
}

/// Finds whether the tree `i` has an endpoint `id`.
pub fn tree_has_endpoint(i: &Input, id: EndpointId) -> (r: bool)
    ensures
        r == tree_any(*i, has_endpoint(id)),
    decreases *i,
{
    let mut k: usize = 0;
    while k < i.endpoints.len()
        invariant
            k <= i.endpoints@.len(),
            forall|j: int| 0 <= j < k ==> (#[trigger] i.endpoints@[j]).id != id,
        decreases i.endpoints@.len() - k,
    {
        if i.endpoints[k].id == id {
            assert(has_endpoint(id)(*i));
            return true;
        }
        k = k + 1;
    }
    assert(!has_endpoint(id)(*i));
    match &i.src {
        Some(InputSrc::Failover(f)) => {
            proof {
                assert(decreases_to!(*i => i.src));
                assert(decreases_to!(i.src => i.src->Some_0));
                assert(decreases_to!(i.src->Some_0 => *f));
                assert(decreases_to!(*f => f.inputs));
                assert(decreases_to!(f.inputs => f.inputs@));
                if f.inputs@.len() == 0 {
                    lemma_forest_none(f.inputs@, has_endpoint(id));
                }
            }
            let mut j: usize = 0;
            while j < f.inputs.len()
                invariant
                    j <= f.inputs@.len(),
                    i.src == Some(InputSrc::Failover(*f)),
                    !has_endpoint(id)(*i),
                    decreases_to!(*i => f.inputs@),
                    forall|k: int| 0 <= k < j ==> !tree_any(#[trigger] f.inputs@[k], has_endpoint(id)),
                    j == f.inputs@.len() ==> !forest_any(f.inputs@, has_endpoint(id)),
                decreases f.inputs@.len() - j,
            {
                proof {
                    assert(decreases_to!(f.inputs@ => f.inputs@[j as int]));
                }
                if tree_has_endpoint(&f.inputs[j], id) {
                    proof {
                        lemma_forest_any_at(f.inputs@, j as int, has_endpoint(id));
                    }
                    return true;
                }
                j = j + 1;
                proof {
                    if j == f.inputs@.len() {
                        lemma_forest_none(f.inputs@, has_endpoint(id));
                    }
                }
            }
            false
        },
        _ => false,
    }
}

} // verus!
