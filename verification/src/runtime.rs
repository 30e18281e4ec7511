//! Running prompts through an engine: the model aliases of the command line,
//! a single inference, and the runtime's settings.

use std::sync::Arc;

use vstd::prelude::*;

use crate::inference::context::{InferenceContext, InferenceResult};
use crate::inference::engine::{first_name_match, InferenceEngine};
use crate::inference::models::{LocalModel, MarkovModel, RuleBasedModel};
use crate::inference::traits::{InferenceError, InferenceModel};
use crate::text::{
    chars_of, eq_ignore_ascii_case, line_bounds, lines, lowercase, same_text, string_of, to_lowercase,
    trim, trim_bounds, words, CharClass,
};
use crate::tokenizer::{encode_ids, vocab_extend, Tokenizer, WordTokenizer};

verus! {

/// Whether a fresh tokenizer can number every distinct word of `text`.
pub open spec fn fits_fresh_vocab(text: Seq<char>) -> bool {
    vocab_extend(Seq::empty(), words(text)).len() < u32::MAX
}

/// `context` holds `prompt` and the ids that a fresh tokenizer gives it.
pub open spec fn fresh_context(context: InferenceContext, prompt: Seq<char>) -> bool {
    context.prompt@ == prompt && context.tokens@ == encode_ids(Seq::empty(), words(prompt))
}

/// Tokenizes `prompt` with a fresh tokenizer and runs the engine on it.
pub fn infer_once<M: InferenceModel>(engine: &InferenceEngine<M>, prompt: &str) -> (r: Result<InferenceResult, InferenceError>)
    requires
        fits_fresh_vocab(prompt@),
    ensures
        exists|c: InferenceContext| fresh_context(c, prompt@) && engine.answers(c, r),
{
    let mut tokenizer = WordTokenizer::new();
    let tokens = tokenizer.encode(prompt);
    let context = InferenceContext::new(prompt.to_owned(), tokens);
    let r = engine.infer(&context);
    assert(fresh_context(context, prompt@));
    r
}

/// Runs `infer_once` when a fresh tokenizer can number the prompt's words;
/// gives nothing back otherwise.
pub fn try_infer_once<M: InferenceModel>(engine: &InferenceEngine<M>, prompt: &str) -> (r: Option<Result<InferenceResult, InferenceError>>)
    ensures
        r is None <==> !fits_fresh_vocab(prompt@),
        r matches Some(o) ==> exists|c: InferenceContext| fresh_context(c, prompt@) && engine.answers(c, o),
{
    let probe = WordTokenizer::new();
    if probe.can_encode_text(prompt) {
        Some(infer_once(engine, prompt))
    } else {
        None
    }
}

/// An alias of the command line that names no model.
#[derive(Debug, Clone)]
pub struct UnknownModelAlias {
    pub alias: String,
}

/// The model that an alias names, case aside: `rule`, `rules`, `rule_based`,
/// `rulebased` and `rulebasedmodel` name `RuleBasedModel`; `markov` and
/// `markovmodel` name `MarkovModel`.
pub open spec fn model_for_alias(alias: Seq<char>) -> Option<Seq<char>> {
    let a = lowercase(alias);
    if a == "rule"@ || a == "rules"@ || a == "rule_based"@ || a == "rulebased"@ || a == "rulebasedmodel"@ {
        Some("RuleBasedModel"@)
    } else if a == "markov"@ || a == "markovmodel"@ {
        Some("MarkovModel"@)
    } else {
        None
    }
}

/// The name of the model that `alias` names.
pub fn normalize_model_name(alias: &str) -> (r: Result<&'static str, UnknownModelAlias>)
    ensures
        match (r, model_for_alias(alias@)) {
            (Ok(name), Some(n)) => name@ == n,
            (Err(e), None) => e.alias@ == alias@,
            _ => false,
        },
{
    let a = to_lowercase(alias);
    if same_text(&a, "rule") || same_text(&a, "rules") || same_text(&a, "rule_based") || same_text(&a, "rulebased")
        || same_text(&a, "rulebasedmodel") {
        Ok("RuleBasedModel")
    } else if same_text(&a, "markov") || same_text(&a, "markovmodel") {
        Ok("MarkovModel")
    } else {
        Err(UnknownModelAlias { alias: alias.to_owned() })
    }
}

/// The engine that the runtime shares among its workers, and how many
/// workers it starts.
pub struct RuntimeManager<M: InferenceModel> {
    engine: Arc<InferenceEngine<M>>,
    pool_size: usize,
}

impl<M: InferenceModel> RuntimeManager<M> {
    /// A runtime for `engine` with `pool_size` workers.
    pub fn new(engine: Arc<InferenceEngine<M>>, pool_size: usize) -> (r: Self)
        ensures
            r.engine_view() == engine,
            r.pool_size_view() == pool_size,
    {
        Self { engine, pool_size }
    }

    /// The shared engine.
    pub closed spec fn engine_view(&self) -> Arc<InferenceEngine<M>> {
        self.engine
    }

    /// The number of workers to start.
    pub closed spec fn pool_size_view(&self) -> usize {
        self.pool_size
    }

    /// The shared engine.
    pub fn engine(&self) -> (e: &Arc<InferenceEngine<M>>)
        ensures
            *e == self.engine_view(),
    {
        &self.engine
    }

    /// The number of workers to start.
    pub fn pool_size(&self) -> (n: usize)
        ensures
            n == self.pool_size_view(),
    {
        self.pool_size
    }
}

/// The prompts of a batch: each line trimmed of whitespace, with its index
/// among all lines; blank lines are left out.
pub open spec fn batch_spec(ls: Seq<Seq<char>>) -> Seq<(int, Seq<char>)>
    decreases ls.len(),
{
    if ls.len() == 0 {
        Seq::empty()
    } else {
        let r = batch_spec(ls.drop_last());
        let t = trim(ls.last());
        if t.len() > 0 {
            r.push(((ls.len() - 1) as int, t))
        } else {
            r
        }
    }
}

/// The prompts of a batch file: each line trimmed of whitespace, with its
/// index among the lines; blank lines are left out.
pub fn batch_prompts(content: &str) -> (r: Vec<(usize, String)>)
    ensures
        r@.map_values(|p: (usize, String)| (p.0 as int, p.1@)) == batch_spec(lines(content@)),
{
    let cs = chars_of(content);
    let bounds = line_bounds(&cs);
    let ghost ls = lines(cs@);
    let mut out: Vec<(usize, String)> = Vec::new();
    let mut j: usize = 0;
    assert(out@.map_values(|p: (usize, String)| (p.0 as int, p.1@)) =~= batch_spec(ls.take(0)));
    while j < bounds.len()
        invariant
            j <= bounds.len(),
            cs@ == content@,
            ls == lines(cs@),
            bounds.len() == ls.len(),
            forall|q: int|
                0 <= q < bounds.len() ==> {
                    &&& (#[trigger] bounds@[q]).0 <= bounds@[q].1 <= cs.len()
                    &&& cs@.subrange(bounds@[q].0 as int, bounds@[q].1 as int) == ls[q]
                },
            out@.map_values(|p: (usize, String)| (p.0 as int, p.1@)) == batch_spec(ls.take(j as int)),
        decreases bounds.len() - j,
    {
        let (lo, hi) = bounds[j];
        let (a, b) = trim_bounds(&cs, lo, hi, &CharClass::Whitespace);
        assert(ls.take(j + 1).drop_last() =~= ls.take(j as int));
        assert(ls.take(j + 1).last() == ls[j as int]);
        if a < b {
            let t = string_of(&cs, a, b);
            let ghost prev = out@;
            out.push((j, t));
            assert(out@.map_values(|p: (usize, String)| (p.0 as int, p.1@)) =~= prev.map_values(
                |p: (usize, String)| (p.0 as int, p.1@),
            ).push((j as int, t@)));
        }
        j = j + 1;
    }
    assert(ls.take(j as int) =~= ls);
    out
}

/// The id of the record of batch line `index`: the clock id plus the index;
/// nothing where the sum does not fit in `u64`.
pub fn batch_record_id(base: u64, index: usize) -> (r: Option<u64>)
    ensures
        r == (if base + index <= u64::MAX { Some((base + index) as u64) } else { None::<u64> }),
{
    if index as u128 > (u64::MAX - base) as u128 {
        None
    } else {
        Some(base + index as u64)
    }
}

/// An engine with the rule model and then the Markov model, the model that
/// `alias` names made current.
pub fn build_engine(rules: RuleBasedModel, markov: MarkovModel, alias: &str) -> (r: Result<InferenceEngine<LocalModel>, UnknownModelAlias>)
    ensures
        match (r, model_for_alias(alias@)) {
            (Ok(e), Some(n)) => e.models() == seq![LocalModel::RuleBased(rules), LocalModel::Markov(markov)]
                && e.names() == seq!["RuleBasedModel"@, "MarkovModel"@] && e.names()[e.current()] == n,
            (Err(x), None) => x.alias@ == alias@,
            _ => false,
        },
{
    let ghost rg = rules;
    let ghost mg = markov;
    let mut engine = InferenceEngine::new();
    engine.add_model(LocalModel::RuleBased(rules));
    engine.add_model(LocalModel::Markov(markov));
    let name = match normalize_model_name(alias) {
        Ok(n) => n,
        Err(e) => return Err(e),
    };
    let ghost names = engine.names();
    proof {
        reveal_strlit("RuleBasedModel");
        reveal_strlit("MarkovModel");
        assert(engine.models() =~= seq![LocalModel::RuleBased(rg), LocalModel::Markov(mg)]);
        assert(names =~= seq!["RuleBasedModel"@, "MarkovModel"@]);
        if name@ == "RuleBasedModel"@ {
            assert(eq_ignore_ascii_case(names[0], name@));
            assert(first_name_match(names, name@) == Some(0int));
        } else {
            assert(name@ == "MarkovModel"@);
            assert(eq_ignore_ascii_case(names[1], name@));
            assert(!eq_ignore_ascii_case(names[0], name@));
            assert(first_name_match(names, name@) == Some(1int));
        }
    }
    match engine.set_model_by_name(name) {
        Ok(()) => Ok(engine),
        Err(_) => {
            assert(false);
            Err(UnknownModelAlias { alias: alias.to_owned() })
        },
    }
}

/// Why a benchmark was refused.
#[derive(Debug, Clone, Copy, PartialEq, Eq)]
pub enum BenchmarkError {
    /// A benchmark needs at least one request.
    NoRequests,
    /// The responses hold more bytes than `usize` counts.
    TooManyBytes,
}

/// A benchmark runs at least one request.
pub fn check_requests(requests: usize) -> (r: Result<(), BenchmarkError>)
    ensures
        r is Ok <==> requests > 0,
        r matches Err(e) ==> e == BenchmarkError::NoRequests,
{
    if requests == 0 {
        Err(BenchmarkError::NoRequests)
    } else {
        Ok(())
    }
}

/// The sum of `lengths`.
pub open spec fn sum_of(lengths: Seq<usize>) -> int
    decreases lengths.len(),
{
    if lengths.len() == 0 {
        0
    } else {
        sum_of(lengths.drop_last()) + lengths.last()
    }
}

proof fn lemma_sum_grows(lengths: Seq<usize>, n: int)
    requires
        0 <= n <= lengths.len(),
    ensures
        sum_of(lengths.take(n)) <= sum_of(lengths),
    decreases lengths.len() - n,
{
    if n < lengths.len() {
        assert(lengths.drop_last().take(n) =~= lengths.take(n));
        lemma_sum_grows(lengths.drop_last(), n);
    } else {
        assert(lengths.take(n) =~= lengths);
    }
}

/// The total number of response bytes of a benchmark; refused where it does
/// not fit in `usize`.
pub fn total_response_bytes(lengths: &[usize]) -> (r: Result<usize, BenchmarkError>)
    ensures
        r is Ok <==> sum_of(lengths@) <= usize::MAX,
        r matches Ok(t) ==> t == sum_of(lengths@),
        r matches Err(e) ==> e == BenchmarkError::TooManyBytes,
{
    let mut total: usize = 0;
    let mut i: usize = 0;
    while i < lengths.len()
        invariant
            i <= lengths.len(),
            total == sum_of(lengths@.take(i as int)),
        decreases lengths.len() - i,
    {
        assert(lengths@.take(i + 1).drop_last() =~= lengths@.take(i as int));
        if lengths[i] > usize::MAX - total {
            proof {
                lemma_sum_grows(lengths@, i + 1);
            }
            return Err(BenchmarkError::TooManyBytes);
        }
        total = total + lengths[i];
        i = i + 1;
    }
    assert(lengths@.take(i as int) =~= lengths@);
    Ok(total)
}

/// The prompts of a batch are exactly its lines that are not blank, each
/// trimmed of whitespace and paired with its own line index, in the order of
/// the lines.
pub proof fn lemma_batch_lines(ls: Seq<Seq<char>>)
    ensures
        forall|e: int|
            0 <= e < batch_spec(ls).len() ==> 0 <= (#[trigger] batch_spec(ls)[e]).0 < ls.len() && batch_spec(
                ls,
            )[e].1 == trim(ls[batch_spec(ls)[e].0]) && batch_spec(ls)[e].1.len() > 0,
        forall|e: int, f: int|
            0 <= e < f < batch_spec(ls).len() ==> (#[trigger] batch_spec(ls)[e]).0 < (#[trigger] batch_spec(
                ls,
            )[f]).0,
        forall|k: int|
            0 <= k < ls.len() && (#[trigger] trim(ls[k])).len() > 0 ==> exists|e: int|
                0 <= e < batch_spec(ls).len() && (#[trigger] batch_spec(ls)[e]).0 == k,
    decreases ls.len(),
{
    if ls.len() > 0 {
        let p = ls.drop_last();
        lemma_batch_lines(p);
        let r = batch_spec(p);
        assert forall|e: int| 0 <= e < r.len() implies (#[trigger] r[e]).0 < p.len() by {}
        assert forall|k: int| 0 <= k < p.len() implies ls[k] == p[k] by {}
        let n = ls.len() - 1;
        if trim(ls.last()).len() > 0 {
            let b = r.push((n as int, trim(ls.last())));
            assert(batch_spec(ls) == b);
            assert(ls[n] == ls.last());
            assert forall|k: int| 0 <= k < ls.len() && (#[trigger] trim(ls[k])).len() > 0 implies exists|e: int|
                0 <= e < b.len() && (#[trigger] b[e]).0 == k by {
                if k < n {
                    assert(trim(p[k]).len() > 0);
                    let e = choose|e: int| 0 <= e < r.len() && (#[trigger] r[e]).0 == k;
                    assert(b[e] == r[e]);
                } else {
                    assert(b[r.len() as int].0 == k);
                }
            }
        } else {
            assert(batch_spec(ls) == r);
            assert forall|k: int| 0 <= k < ls.len() && (#[trigger] trim(ls[k])).len() > 0 implies exists|e: int|
                0 <= e < r.len() && (#[trigger] r[e]).0 == k by {
                if k < n {
                    assert(trim(p[k]).len() > 0);
                } else {
                    assert(ls[k] == ls.last());
                }
            }
        }
    }
}

} // verus!
