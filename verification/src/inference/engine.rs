//! Holds the models and routes each inference to the current one.

use vstd::prelude::*;

use super::context::{InferenceContext, InferenceResult};
use super::traits::{InferenceError, InferenceModel};
use crate::text::{eq_ignore_ascii_case, str_eq_ignore_ascii_case};

verus! {

/// The position of the first of `names` that equals `name` without regard to
/// ASCII case.
pub open spec fn first_name_match(names: Seq<Seq<char>>, name: Seq<char>) -> Option<int> {
    if exists|i: int| 0 <= i < names.len() && eq_ignore_ascii_case(#[trigger] names[i], name) {
        Some(
            choose|i: int|
                0 <= i < names.len() && eq_ignore_ascii_case(#[trigger] names[i], name) && (forall|j: int|
                    0 <= j < i ==> !eq_ignore_ascii_case(#[trigger] names[j], name)),
        )
    } else {
        None
    }
}

/// The text that stands for the current model's name when there is no model.
pub open spec fn no_model_name() -> Seq<char> {
    "<no model>"@
}

/// One call on an engine, by what it does to the engine: adding a model,
/// making the model at an index current, or leaving the engine as it was (a
/// refused switch, or a call that only reads).
pub enum EngineCall<M> {
    Add(M),
    Select(usize),
    Keep,
}

/// Whether the engine `after` is what `call` makes of the engine `before`.
pub open spec fn call_effect<M: InferenceModel>(before: InferenceEngine<M>, after: InferenceEngine<M>, call: EngineCall<M>) -> bool {
    match call {
        EngineCall::Add(m) => after.models() == before.models().push(m) && after.current() == (if before.models().len() == 0 {
            0
        } else {
            before.current()
        }),
        EngineCall::Select(i) => after.models() == before.models() && i < before.models().len() && after.current() == i,
        EngineCall::Keep => after.models() == before.models() && after.current() == before.current(),
    }
}

/// The models that the calls add, in order.
pub open spec fn added_models<M>(calls: Seq<EngineCall<M>>) -> Seq<M>
    decreases calls.len(),
{
    if calls.len() == 0 {
        Seq::empty()
    } else {
        let r = added_models(calls.drop_last());
        match calls.last() {
            EngineCall::Add(m) => r.push(m),
            _ => r,
        }
    }
}

/// A list of models, one of them current.
pub struct InferenceEngine<M: InferenceModel> {
    models: Vec<M>,
    current: usize,
}

impl<M: InferenceModel> InferenceEngine<M> {
    #[verifier::type_invariant]
    spec fn inv(self) -> bool {
        self.models.len() > 0 ==> self.current < self.models.len()
    }

    /// The models, in the order they were added.
    pub closed spec fn models(&self) -> Seq<M> {
        self.models@
    }

    /// The index of the current model.
    pub closed spec fn current(&self) -> int {
        self.current as int
    }

    /// The models' names, in order.
    pub open spec fn names(&self) -> Seq<Seq<char>> {
        self.models().map_values(|m: M| m.model_name())
    }

    /// Creates an engine without models.
    pub fn new() -> (e: Self)
        ensures
            e.models().len() == 0,
            e.current() == 0,
    {
        InferenceEngine { models: Vec::new(), current: 0 }
    }

    /// Adds a model after the others; the current model stays the same (or
    /// is the first one when there was none).
    pub fn add_model(&mut self, model: M)
        ensures
            final(self).models() == old(self).models().push(model),
            old(self).models().len() > 0 ==> final(self).current() == old(self).current(),
            old(self).models().len() == 0 ==> final(self).current() == 0,
            call_effect(*old(self), *final(self), EngineCall::Add(model)),
    {
        proof {
            use_type_invariant(&*self);
        }
        let mut models: Vec<M> = Vec::new();
        std::mem::swap(&mut models, &mut self.models);
        if models.len() == 0 {
            self.current = 0;
        }
        models.push(model);
        self.models = models;
    }

    /// Makes the model at `index` current; fails, changing nothing, when
    /// there is no model at `index`.
    pub fn set_model(&mut self, index: usize) -> (r: Result<(), InferenceError>)
        ensures
            final(self).models() == old(self).models(),
            r is Ok <==> index < old(self).models().len(),
            r is Ok ==> final(self).current() == index,
            r matches Err(e) ==> final(self).current() == old(self).current() && e == (
            InferenceError::ModelIndexOutOfRange { index, available: old(self).models().len() as usize }),
            call_effect(*old(self), *final(self), if r is Ok { EngineCall::Select(index) } else { EngineCall::Keep }),
    {
        proof {
            use_type_invariant(&*self);
        }
        if index >= self.models.len() {
            return Err(InferenceError::ModelIndexOutOfRange { index, available: self.models.len() });
        }
        self.current = index;
        Ok(())
    }

    /// Makes current the first model whose name equals `name` without regard
    /// to ASCII case; fails, changing nothing, when no model has that name.
    pub fn set_model_by_name(&mut self, name: &str) -> (r: Result<(), InferenceError>)
        ensures
            final(self).models() == old(self).models(),
            r is Ok <==> first_name_match(old(self).names(), name@) is Some,
            r is Ok ==> final(self).current() == first_name_match(old(self).names(), name@)->0,
            r matches Err(e) ==> final(self).current() == old(self).current() && (e matches InferenceError::ModelNotFound { name: n } && n@ == name@),
            call_effect(
                *old(self),
                *final(self),
                if r is Ok {
                    EngineCall::Select(first_name_match(old(self).names(), name@)->0 as usize)
                } else {
                    EngineCall::Keep
                },
            ),
    {
        proof {
            use_type_invariant(&*self);
        }
        let ghost names = self.names();
        let mut i: usize = 0;
        while i < self.models.len()
            invariant
                i <= self.models.len(),
                self.models() == old(self).models(),
                self.current() == old(self).current(),
                names == old(self).names(),
                names == self.names(),
                names.len() == self.models.len(),
                forall|j: int| 0 <= j < i ==> !eq_ignore_ascii_case(#[trigger] names[j], name@),
            decreases self.models.len() - i,
        {
            let found = str_eq_ignore_ascii_case(self.models[i].name(), name);
            assert(names[i as int] == self.models@[i as int].model_name());
            if found {
                proof {
                    let k = i as int;
                    assert(eq_ignore_ascii_case(names[k], name@));
                    let c = choose|c: int|
                        0 <= c < names.len() && eq_ignore_ascii_case(#[trigger] names[c], name@) && (forall|j: int|
                            0 <= j < c ==> !eq_ignore_ascii_case(#[trigger] names[j], name@));
                    assert(c == k) by {
                        if c < k {
                        } else if c > k {
                            assert(!eq_ignore_ascii_case(names[k], name@));
                        }
                    }
                }
                self.current = i;
                return Ok(());
            }
            i = i + 1;
        }
        Err(InferenceError::ModelNotFound { name: name.to_owned() })
    }

    /// The current model's name, or `<no model>` when there is no model.
    pub fn current_model_name(&self) -> (r: &str)
        ensures
            r@ == (if self.models().len() > 0 {
                self.names()[self.current()]
            } else {
                no_model_name()
            }),
            self.models().len() > 0 ==> 0 <= self.current() < self.models().len(),
    {
        proof {
            use_type_invariant(self);
        }
        if self.current < self.models.len() {
            self.models[self.current].name()
        } else {
            "<no model>"
        }
    }

    /// The names of all models, in order.
    pub fn model_names(&self) -> (r: Vec<String>)
        ensures
            r.deep_view() == self.names(),
    {
        let mut r: Vec<String> = Vec::new();
        let mut i: usize = 0;
        while i < self.models.len()
            invariant
                i <= self.models.len(),
                r.deep_view() == self.names().take(i as int),
            decreases self.models.len() - i,
        {
            let n = self.models[i].name().to_owned();
            let ghost prev = r.deep_view();
            assert(self.names()[i as int] == self.models()[i as int].model_name());
            r.push(n);
            assert(r.deep_view() =~= prev.push(n@));
            assert(r.deep_view() =~= self.names().take(i + 1));
            i = i + 1;
        }
        assert(self.names().take(i as int) =~= self.names());
        r
    }

    /// Whether `outcome` is what the engine may give for `context`: a refusal
    /// when there is no model, else an answer of the current model.
    pub open spec fn answers(&self, context: InferenceContext, outcome: Result<InferenceResult, InferenceError>) -> bool {
        if self.models().len() == 0 {
            outcome matches Err(InferenceError::NoModelLoaded)
        } else {
            self.models()[self.current()].answers(context, outcome)
        }
    }

    /// Runs the current model on `context`; fails when there is no model.
    pub fn infer(&self, context: &InferenceContext) -> (r: Result<InferenceResult, InferenceError>)
        ensures
            self.answers(*context, r),
    {
        proof {
            use_type_invariant(self);
        }
        if self.current >= self.models.len() {
            return Err(InferenceError::NoModelLoaded);
        }
        self.models[self.current].infer(context)
    }
}

impl<M: InferenceModel> Default for InferenceEngine<M> {
    fn default() -> (e: Self)
        ensures
            e.models().len() == 0,
            e.current() == 0,
    {
        Self::new()
    }
}

/// Switching by name picks the first model whose name equals the name asked
/// for, ASCII case aside; it fails only when no model has that name.
pub proof fn lemma_first_name_match(names: Seq<Seq<char>>, name: Seq<char>)
    ensures
        first_name_match(names, name) matches Some(i) ==> {
            &&& 0 <= i < names.len()
            &&& eq_ignore_ascii_case(names[i], name)
            &&& forall|j: int| 0 <= j < i ==> !eq_ignore_ascii_case(#[trigger] names[j], name)
        },
        first_name_match(names, name) is None <==> forall|i: int|
            0 <= i < names.len() ==> !eq_ignore_ascii_case(#[trigger] names[i], name),
{
    if exists|i: int| 0 <= i < names.len() && eq_ignore_ascii_case(#[trigger] names[i], name) {
        let w = choose|i: int| 0 <= i < names.len() && eq_ignore_ascii_case(#[trigger] names[i], name);
        lemma_least_match(names, name, w);
    }
}

proof fn lemma_least_match(names: Seq<Seq<char>>, name: Seq<char>, w: int)
    requires
        0 <= w < names.len(),
        eq_ignore_ascii_case(names[w], name),
    ensures
        exists|i: int|
            0 <= i < names.len() && eq_ignore_ascii_case(#[trigger] names[i], name) && (forall|j: int|
                0 <= j < i ==> !eq_ignore_ascii_case(#[trigger] names[j], name)),
    decreases w,
{
    if exists|j: int| 0 <= j < w && eq_ignore_ascii_case(#[trigger] names[j], name) {
        let j = choose|j: int| 0 <= j < w && eq_ignore_ascii_case(#[trigger] names[j], name);
        lemma_least_match(names, name, j);
    } else {
        assert(0 <= w < names.len() && eq_ignore_ascii_case(names[w], name) && (forall|j: int|
            0 <= j < w ==> !eq_ignore_ascii_case(#[trigger] names[j], name)));
    }
}

/// Over any sequence of calls from an engine without models: the models are
/// those added, in the order added; the current index stays among them; and
/// without a successful switch the first model added stays current.
pub proof fn lemma_call_sequence<M: InferenceModel>(trace: Seq<InferenceEngine<M>>, calls: Seq<EngineCall<M>>)
    requires
        trace.len() == calls.len() + 1,
        trace[0].models().len() == 0,
        trace[0].current() == 0,
        forall|j: int| 0 <= j < calls.len() ==> call_effect(trace[j], trace[j + 1], #[trigger] calls[j]),
    ensures
        trace.last().models() == added_models(calls),
        trace.last().names() == added_models(calls).map_values(|m: M| m.model_name()),
        trace.last().models().len() > 0 ==> 0 <= trace.last().current() < trace.last().models().len(),
        (forall|j: int| 0 <= j < calls.len() ==> !(#[trigger] calls[j] is Select)) ==> trace.last().current() == 0,
    decreases calls.len(),
{
    if calls.len() > 0 {
        let t = trace.drop_last();
        let c = calls.drop_last();
        assert forall|j: int| 0 <= j < c.len() implies call_effect(t[j], t[j + 1], #[trigger] c[j]) by {
            assert(calls[j] == c[j]);
        }
        lemma_call_sequence(t, c);
        let k = calls.len() - 1;
        assert(call_effect(trace[k], trace[k + 1], calls[k]));
        assert(t.last() == trace[k]);
        if forall|j: int| 0 <= j < calls.len() ==> !(#[trigger] calls[j] is Select) {
            assert forall|j: int| 0 <= j < c.len() implies !(#[trigger] c[j] is Select) by {
                assert(calls[j] == c[j]);
            }
            assert(!(calls[k] is Select));
        }
    }
    assert(trace.last().names() =~= added_models(calls).map_values(|m: M| m.model_name()));
}

} // verus!
