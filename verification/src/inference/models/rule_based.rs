//! A keyword model: the first rule whose keyword occurs in the lowercased
//! prompt gives the answer.

use vstd::prelude::*;

use crate::inference::context::{InferenceContext, InferenceResult};
use crate::inference::traits::{InferenceError, InferenceModel};
use crate::text::{chars_of, contains_chars, contains_seq, lemma_contains_seq, lowercase, occurs_at, to_lowercase};

verus! {

/// What `serde_json::from_str::<HashMap<String, String>>` reads from `text`:
/// the map from each key to its string value when `text` is a JSON object whose
/// values are all strings, else `None`.
pub uninterp spec fn json_string_map(text: Seq<char>) -> Option<Map<Seq<char>, Seq<char>>>;

#[verifier::external_type_specification]
#[verifier::external_body]
pub struct ExJsonError(serde_json::Error);

/// The map that a list of (key, value) pairs gives, a later pair winning over
/// an earlier one with the same key.
pub open spec fn pairs_map(ps: Seq<(Seq<char>, Seq<char>)>) -> Map<Seq<char>, Seq<char>>
    decreases ps.len(),
{
    if ps.len() == 0 {
        Map::empty()
    } else {
        pairs_map(ps.drop_last()).insert(ps.last().0, ps.last().1)
    }
}

/// No key occurs twice among the pairs.
pub open spec fn keys_distinct(ps: Seq<(Seq<char>, Seq<char>)>) -> bool {
    forall|i: int, j: int| 0 <= i < j < ps.len() ==> (#[trigger] ps[i]).0 != (#[trigger] ps[j]).0
}

/// `serde_json::from_str` into a `HashMap<String, String>`, whose entries are
/// handed out as pairs. The pairs hold exactly the map's entries, each key
/// once; their order is that of the map's iteration, which the map's hasher
/// seeds anew in each process, and is not stated.
#[verifier::external_body]
fn parse_string_map(text: &str) -> (r: Result<Vec<(String, String)>, serde_json::Error>)
    ensures
        r matches Ok(v) ==> json_string_map(text@) == Some(pairs_map(v.deep_view())) && keys_distinct(
            v.deep_view(),
        ),
        r is Err ==> json_string_map(text@) is None,
{
    match serde_json::from_str::<std::collections::HashMap<String, String>>(text) {
        Ok(m) => Ok(m.into_iter().collect()),
        Err(e) => Err(e),
    }
}

/// Why a rule set could not be read.
#[derive(Debug, Clone)]
pub enum RulesError {
    /// The text is not a JSON object of string values.
    InvalidFormat,
}

/// The answer when no keyword matches.
pub open spec fn default_reply() -> Seq<char> {
    "Sorry, I don't understand."@
}

/// The answer of the first rule, in order, whose keyword occurs in `input`;
/// the default answer when none does.
pub open spec fn rule_reply(rules: Seq<(Seq<char>, Seq<char>)>, input: Seq<char>) -> Seq<char>
    decreases rules.len(),
{
    if rules.len() == 0 {
        default_reply()
    } else if contains_seq(input, rules[0].0) {
        rules[0].1
    } else {
        rule_reply(rules.drop_first(), input)
    }
}

/// Answers with the response of a rule whose keyword occurs in the prompt.
pub struct RuleBasedModel {
    rules: Vec<(String, String)>,
}

impl View for RuleBasedModel {
    type V = Seq<(Seq<char>, Seq<char>)>;

    /// The rules as (keyword, response) pairs, in the order they are tried.
    closed spec fn view(&self) -> Seq<(Seq<char>, Seq<char>)> {
        self.rules.deep_view()
    }
}

impl RuleBasedModel {
    #[verifier::type_invariant]
    spec fn inv(self) -> bool {
        keys_distinct(self.rules.deep_view())
    }

    /// The rules as a map from keyword to response.
    pub open spec fn rule_map(&self) -> Map<Seq<char>, Seq<char>> {
        pairs_map(self@)
    }

    /// Reads the rules from the text of a JSON object that maps each keyword
    /// to its response.
    pub fn from_json(text: &str) -> (r: Result<Self, RulesError>)
        ensures
            r matches Ok(m) ==> json_string_map(text@) == Some(m.rule_map()),
            r matches Err(e) ==> e is InvalidFormat && json_string_map(text@) is None,
    {
        match parse_string_map(text) {
            Ok(rules) => Ok(RuleBasedModel { rules }),
            Err(_) => Err(RulesError::InvalidFormat),
        }
    }

    /// The number of rules: as many as keywords, since no keyword occurs twice.
    pub fn rule_count(&self) -> (n: usize)
        ensures
            n == self@.len(),
            n == self.rule_map().dom().len(),
    {
        proof {
            use_type_invariant(self);
            lemma_pairs_map_len(self@);
        }
        self.rules.len()
    }
}

proof fn lemma_pairs_map_len(ps: Seq<(Seq<char>, Seq<char>)>)
    requires
        keys_distinct(ps),
    ensures
        pairs_map(ps).dom().finite(),
        pairs_map(ps).dom().len() == ps.len(),
        forall|k: Seq<char>| #[trigger] pairs_map(ps).dom().contains(k) <==> exists|i: int| 0 <= i < ps.len() && ps[i].0 == k,
    decreases ps.len(),
{
    if ps.len() > 0 {
        let pre = ps.drop_last();
        assert(keys_distinct(pre)) by {
            assert forall|i: int, j: int| 0 <= i < j < pre.len() implies (#[trigger] pre[i]).0 != (
            #[trigger] pre[j]).0 by {
                assert(ps[i] == pre[i] && ps[j] == pre[j]);
            }
        }
        lemma_pairs_map_len(pre);
        let last = ps.last();
        assert(!pairs_map(pre).dom().contains(last.0)) by {
            if pairs_map(pre).dom().contains(last.0) {
                let i = choose|i: int| 0 <= i < pre.len() && pre[i].0 == last.0;
                assert(ps[i] == pre[i]);
                assert(ps[ps.len() - 1] == last);
            }
        }
        assert forall|k: Seq<char>| #[trigger] pairs_map(ps).dom().contains(k) <==> exists|i: int|
            0 <= i < ps.len() && ps[i].0 == k by {
            if pairs_map(ps).dom().contains(k) && k != last.0 {
                let i = choose|i: int| 0 <= i < pre.len() && pre[i].0 == k;
                assert(ps[i] == pre[i]);
            }
            if exists|i: int| 0 <= i < ps.len() && ps[i].0 == k {
                let i = choose|i: int| 0 <= i < ps.len() && ps[i].0 == k;
                if i < ps.len() - 1 {
                    assert(ps[i] == pre[i]);
                }
            }
        }
    }
}

impl InferenceModel for RuleBasedModel {
    open spec fn model_name(&self) -> Seq<char> {
        "RuleBasedModel"@
    }

    /// Always an answer: the reply of the first rule whose keyword occurs in
    /// the lowercased prompt, with the prompt's tokens.
    open spec fn answers(&self, context: InferenceContext, outcome: Result<InferenceResult, InferenceError>) -> bool {
        &&& outcome matches Ok(res)
        &&& res.response@ == rule_reply(self@, lowercase(context.prompt@))
        &&& res.tokens@ == context.tokens@
    }

    fn name(&self) -> (r: &str) {
        "RuleBasedModel"
    }

    fn infer(&self, context: &InferenceContext) -> (r: Result<InferenceResult, InferenceError>) {
        let input = to_lowercase(context.prompt.as_str());
        let ic = chars_of(input.as_str());
        let mut i: usize = 0;
        assert(self@.skip(0) =~= self@);
        while i < self.rules.len()
            invariant
                i <= self.rules.len(),
                self@.len() == self.rules.len(),
                ic@ == lowercase(context.prompt@),
                rule_reply(self@, ic@) == rule_reply(self@.skip(i as int), ic@),
            decreases self.rules.len() - i,
        {
            let kc = chars_of(self.rules[i].0.as_str());
            assert(self@.skip(i as int)[0] == self@[i as int]);
            assert(self@.skip(i as int).drop_first() =~= self@.skip(i + 1));
            if contains_chars(&ic, &kc) {
                return Ok(InferenceResult::new(self.rules[i].1.clone(), context.tokens.clone()));
            }
            i = i + 1;
        }
        Ok(InferenceResult::new("Sorry, I don't understand.".to_owned(), context.tokens.clone()))
    }
}

/// The reply is the response of the first rule whose keyword occurs in the
/// input, and the default reply when no keyword occurs.
pub proof fn lemma_rule_reply(rules: Seq<(Seq<char>, Seq<char>)>, input: Seq<char>)
    ensures
        (forall|i: int| 0 <= i < rules.len() ==> !contains_seq(input, #[trigger] rules[i].0)) ==> rule_reply(
            rules,
            input,
        ) == default_reply(),
        forall|i: int|
            0 <= i < rules.len() && contains_seq(input, #[trigger] rules[i].0) && (forall|j: int|
                0 <= j < i ==> !contains_seq(input, #[trigger] rules[j].0)) ==> rule_reply(rules, input)
                == rules[i].1,
    decreases rules.len(),
{
    if rules.len() > 0 {
        let rest = rules.drop_first();
        lemma_rule_reply(rest, input);
        assert forall|i: int|
            0 <= i < rules.len() && contains_seq(input, #[trigger] rules[i].0) && (forall|j: int|
                0 <= j < i ==> !contains_seq(input, #[trigger] rules[j].0)) implies rule_reply(rules, input)
            == rules[i].1 by {
            if i > 0 {
                assert(!contains_seq(input, rules[0].0));
                assert(rest[i - 1] == rules[i]);
                assert forall|j: int| 0 <= j < i - 1 implies !contains_seq(input, #[trigger] rest[j].0) by {
                    assert(rest[j] == rules[j + 1]);
                }
            }
        }
        if forall|i: int| 0 <= i < rules.len() ==> !contains_seq(input, #[trigger] rules[i].0) {
            assert(!contains_seq(input, rules[0].0));
            assert forall|i: int| 0 <= i < rest.len() implies !contains_seq(input, #[trigger] rest[i].0) by {
                assert(rest[i] == rules[i + 1]);
            }
        }
    }
}

proof fn lemma_pairs_map_value(ps: Seq<(Seq<char>, Seq<char>)>, i: int)
    requires
        keys_distinct(ps),
        0 <= i < ps.len(),
    ensures
        pairs_map(ps).dom().contains(ps[i].0),
        pairs_map(ps)[ps[i].0] == ps[i].1,
    decreases ps.len(),
{
    let pre = ps.drop_last();
    if i < ps.len() - 1 {
        assert(keys_distinct(pre)) by {
            assert forall|a: int, b: int| 0 <= a < b < pre.len() implies (#[trigger] pre[a]).0 != (
            #[trigger] pre[b]).0 by {
                assert(ps[a] == pre[a] && ps[b] == pre[b]);
            }
        }
        assert(pre[i] == ps[i]);
        lemma_pairs_map_value(pre, i);
        assert(ps[i].0 != ps[ps.len() - 1].0);
    }
}

/// When the keyword of exactly one rule occurs in the input, the reply is
/// that keyword's response in the rule map, whatever the order of the rules.
pub proof fn lemma_single_match(rules: Seq<(Seq<char>, Seq<char>)>, input: Seq<char>, keyword: Seq<char>)
    requires
        keys_distinct(rules),
        pairs_map(rules).dom().contains(keyword),
        contains_seq(input, keyword),
        forall|k: Seq<char>|
            #[trigger] pairs_map(rules).dom().contains(k) && k != keyword ==> !contains_seq(input, k),
    ensures
        rule_reply(rules, input) == pairs_map(rules)[keyword],
{
    lemma_pairs_map_len(rules);
    let i = choose|i: int| 0 <= i < rules.len() && rules[i].0 == keyword;
    assert forall|j: int| 0 <= j < i implies !contains_seq(input, #[trigger] rules[j].0) by {
        lemma_pairs_map_value(rules, j);
        assert(rules[j].0 != rules[i].0);
    }
    lemma_rule_reply(rules, input);
    lemma_pairs_map_value(rules, i);
}

/// Whatever the rule model answers: it always answers, with the prompt's
/// tokens; the response is that of the first rule whose keyword occurs
/// anywhere in the whole lowercased prompt, and "Sorry, I don't understand."
/// when no keyword occurs in it.
pub proof fn lemma_rule_answers(
    m: RuleBasedModel,
    context: InferenceContext,
    outcome: Result<InferenceResult, InferenceError>,
)
    requires
        m.answers(context, outcome),
    ensures
        outcome is Ok,
        outcome->Ok_0.tokens@ == context.tokens@,
        forall|i: int|
            0 <= i < m@.len() && contains_seq(lowercase(context.prompt@), #[trigger] m@[i].0) && (forall|j: int|
                0 <= j < i ==> !contains_seq(lowercase(context.prompt@), #[trigger] m@[j].0))
                ==> outcome->Ok_0.response@ == m@[i].1,
        (forall|i: int| 0 <= i < m@.len() ==> !contains_seq(lowercase(context.prompt@), #[trigger] m@[i].0))
            ==> outcome->Ok_0.response@ == "Sorry, I don't understand."@,
{
    lemma_rule_reply(m@, lowercase(context.prompt@));
}

/// A model with one rule answers that rule's response whenever its keyword
/// stands, character by character, anywhere in the lowercased prompt, at any
/// position and in a prompt of any length; and the default answer when it
/// stands nowhere.
pub proof fn lemma_one_rule_anywhere(
    m: RuleBasedModel,
    context: InferenceContext,
    outcome: Result<InferenceResult, InferenceError>,
    at: int,
)
    requires
        m.answers(context, outcome),
        m@.len() == 1,
    ensures
        occurs_at(lowercase(context.prompt@), m@[0].0, at) ==> outcome->Ok_0.response@ == m@[0].1,
        (forall|k: int| !#[trigger] occurs_at(lowercase(context.prompt@), m@[0].0, k))
            ==> outcome->Ok_0.response@ == "Sorry, I don't understand."@,
{
    lemma_contains_seq(lowercase(context.prompt@), m@[0].0);
    lemma_rule_answers(m, context, outcome);
    if occurs_at(lowercase(context.prompt@), m@[0].0, at) {
        assert(contains_seq(lowercase(context.prompt@), m@[0].0));
    }
}

} // verus!
