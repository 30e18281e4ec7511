//! A Markov text model: from a corpus it learns which words follow which, and
//! it continues a prompt by walking from word to word at random.

use rand::prelude::IndexedRandom;

use vstd::prelude::*;

use crate::inference::context::{InferenceContext, InferenceResult};
use crate::inference::traits::{InferenceError, InferenceModel};
use crate::text::{
    chars_of, in_class, is_alphanumeric, join, join_strings, lemma_trim_by_prepend, lemma_trim_by_span,
    line_bounds, lines, lowercase, split_whitespace, string_of, to_lowercase, trim_by, trim_str, words,
    CharClass,
};

verus! {

/// The most words that one inference adds to the prompt.
pub const MAX_GENERATE: usize = 15;

/// A corpus word made canonical: stripped of the characters at both ends that
/// are neither alphabetic nor numeric, then lowercased.
pub open spec fn normalize_word(w: Seq<char>) -> Seq<char> {
    lowercase(trim_by(w, CharClass::NonAlphanumeric))
}

/// The canonical forms of `ws` that are not empty, in order.
pub open spec fn canonical_words(ws: Seq<Seq<char>>) -> Seq<Seq<char>>
    decreases ws.len(),
{
    if ws.len() == 0 {
        Seq::empty()
    } else {
        let r = canonical_words(ws.drop_last());
        let w = normalize_word(ws.last());
        if w.len() > 0 {
            r.push(w)
        } else {
            r
        }
    }
}

/// Each word of `ws` but the last, paired with the word after it.
pub open spec fn adjacent_pairs(ws: Seq<Seq<char>>) -> Seq<(Seq<char>, Seq<char>)> {
    if ws.len() < 2 {
        Seq::empty()
    } else {
        Seq::new((ws.len() - 1) as nat, |i: int| (ws[i], ws[i + 1]))
    }
}

/// The word transitions of the lines `ls`: within each line, each canonical
/// word followed by the next one; line after line.
pub open spec fn line_transitions(ls: Seq<Seq<char>>) -> Seq<(Seq<char>, Seq<char>)>
    decreases ls.len(),
{
    if ls.len() == 0 {
        Seq::empty()
    } else {
        line_transitions(ls.drop_last()) + adjacent_pairs(canonical_words(words(ls.last())))
    }
}

/// The word transitions of a corpus text.
pub open spec fn corpus_transitions(text: Seq<char>) -> Seq<(Seq<char>, Seq<char>)> {
    line_transitions(lines(text))
}

/// The words that follow `k` in the transitions `ps`, in order.
pub open spec fn successors(ps: Seq<(Seq<char>, Seq<char>)>, k: Seq<char>) -> Seq<Seq<char>>
    decreases ps.len(),
{
    if ps.len() == 0 {
        Seq::empty()
    } else {
        let r = successors(ps.drop_last(), k);
        if ps.last().0 == k {
            r.push(ps.last().1)
        } else {
            r
        }
    }
}

/// The table of the transitions `ps`: each word that some transition starts
/// from, with the words that follow it.
pub open spec fn transition_table(ps: Seq<(Seq<char>, Seq<char>)>) -> Map<Seq<char>, Seq<Seq<char>>> {
    Map::new(|k: Seq<char>| exists|i: int| 0 <= i < ps.len() && ps[i].0 == k, |k: Seq<char>| successors(ps, k))
}

/// The map that a list of (word, successors) entries stands for.
pub open spec fn entries_table(e: Seq<(Seq<char>, Seq<Seq<char>>)>) -> Map<Seq<char>, Seq<Seq<char>>> {
    Map::new(
        |k: Seq<char>| exists|i: int| 0 <= i < e.len() && e[i].0 == k,
        |k: Seq<char>| e[choose|i: int| 0 <= i < e.len() && e[i].0 == k].1,
    )
}

/// No word has two entries.
pub open spec fn entry_keys_distinct(e: Seq<(Seq<char>, Seq<Seq<char>>)>) -> bool {
    forall|i: int, j: int| 0 <= i < j < e.len() ==> (#[trigger] e[i]).0 != (#[trigger] e[j]).0
}

/// Whether some word may follow `w` in `table`.
pub open spec fn has_successor(table: Map<Seq<char>, Seq<Seq<char>>>, w: Seq<char>) -> bool {
    table.dom().contains(w) && table[w].len() > 0
}

/// The words of a prompt as the model reads them: split at whitespace and
/// lowercased.
pub open spec fn prompt_words(prompt: Seq<char>) -> Seq<Seq<char>> {
    words(prompt).map_values(|w: Seq<char>| lowercase(w))
}

/// Whether the word at `k` in `out` may follow the word before it.
pub open spec fn follows(table: Map<Seq<char>, Seq<Seq<char>>>, out: Seq<Seq<char>>, k: int) -> bool {
    k > 0 && has_successor(table, out[k - 1]) && table[out[k - 1]].contains(out[k])
}

/// Whether `out` is a walk that the model may generate from `start`: it
/// begins with `start`, adds at most `MAX_GENERATE` words, each one a word
/// that may follow the word before it, and stops early only where there is
/// no word at all or the last word has no successor.
pub open spec fn valid_walk(
    table: Map<Seq<char>, Seq<Seq<char>>>,
    start: Seq<Seq<char>>,
    out: Seq<Seq<char>>,
) -> bool {
    &&& start.is_prefix_of(out)
    &&& out.len() <= start.len() + MAX_GENERATE
    &&& forall|k: int| start.len() <= k < out.len() ==> #[trigger] follows(table, out, k)
    &&& out.len() < start.len() + MAX_GENERATE ==> (out.len() == 0 || !has_successor(
        table,
        out.last(),
    ))
}

/// `IndexedRandom::choose` with the thread-local generator of `rand::rng`:
/// nothing exactly when the slice is empty, else one of its elements. Which
/// element comes back is left to chance and is not stated.
#[verifier::external_body]
fn choose_word(candidates: &[String]) -> (r: Option<&String>)
    ensures
        r is None <==> candidates@.len() == 0,
        r matches Some(w) ==> candidates@.contains(*w),
{
    candidates.choose(&mut rand::rng())
}

/// Continues text by choosing, word after word, one of the words that
/// followed the last one in the corpus.
pub struct MarkovModel {
    transitions: Vec<(String, Vec<String>)>,
}

impl View for MarkovModel {
    type V = Map<Seq<char>, Seq<Seq<char>>>;

    /// Each known word with the words that followed it in the corpus, in
    /// corpus order, repeats included.
    closed spec fn view(&self) -> Map<Seq<char>, Seq<Seq<char>>> {
        entries_table(self.transitions.deep_view())
    }
}

proof fn lemma_successors_absent(ps: Seq<(Seq<char>, Seq<char>)>, k: Seq<char>)
    requires
        forall|i: int| 0 <= i < ps.len() ==> (#[trigger] ps[i]).0 != k,
    ensures
        successors(ps, k) == Seq::<Seq<char>>::empty(),
    decreases ps.len(),
{
    if ps.len() > 0 {
        let pre = ps.drop_last();
        assert forall|i: int| 0 <= i < pre.len() implies (#[trigger] pre[i]).0 != k by {
            assert(pre[i] == ps[i]);
        }
        lemma_successors_absent(pre, k);
        assert(ps[ps.len() - 1].0 != k);
    }
}

/// Adding one transition to a list adds its word to the table, or appends
/// the follower to the word's successors.
proof fn lemma_table_push(ps: Seq<(Seq<char>, Seq<char>)>, k: Seq<char>, v: Seq<char>)
    ensures
        transition_table(ps.push((k, v))) == transition_table(ps).insert(
            k,
            if transition_table(ps).dom().contains(k) {
                transition_table(ps)[k].push(v)
            } else {
                seq![v]
            },
        ),
{
    let qs = ps.push((k, v));
    let t = transition_table(ps);
    assert(qs.drop_last() =~= ps);
    if !t.dom().contains(k) {
        assert forall|i: int| 0 <= i < ps.len() implies (#[trigger] ps[i]).0 != k by {
            if ps[i].0 == k {
                assert(t.dom().contains(k));
            }
        }
        lemma_successors_absent(ps, k);
        assert(Seq::<Seq<char>>::empty().push(v) =~= seq![v]);
    }
    assert forall|w: Seq<char>| #[trigger] transition_table(qs).dom().contains(w) <==> t.insert(
        k,
        if t.dom().contains(k) {
            t[k].push(v)
        } else {
            seq![v]
        },
    ).dom().contains(w) by {
        if w != k && transition_table(qs).dom().contains(w) {
            let i = choose|i: int| 0 <= i < qs.len() && qs[i].0 == w;
            assert(i < ps.len());
            assert(ps[i] == qs[i]);
        }
        if w != k && t.dom().contains(w) {
            let i = choose|i: int| 0 <= i < ps.len() && ps[i].0 == w;
            assert(qs[i] == ps[i]);
        }
        if w == k {
            assert(qs[ps.len() as int].0 == k);
        }
    }
    assert(transition_table(qs) =~= t.insert(
        k,
        if t.dom().contains(k) {
            t[k].push(v)
        } else {
            seq![v]
        },
    ));
}

/// With distinct words, the table has one word per entry.
proof fn lemma_entries_len(e: Seq<(Seq<char>, Seq<Seq<char>>)>)
    requires
        entry_keys_distinct(e),
    ensures
        entries_table(e).dom().finite(),
        entries_table(e).dom().len() == e.len(),
{
    let ks = e.map_values(|p: (Seq<char>, Seq<Seq<char>>)| p.0);
    assert forall|w: Seq<char>| entries_table(e).dom().contains(w) <==> ks.to_set().contains(w) by {
        if entries_table(e).dom().contains(w) {
            let i = choose|i: int| 0 <= i < e.len() && e[i].0 == w;
            assert(ks[i] == w);
        }
        if ks.to_set().contains(w) {
            let i = choose|i: int| 0 <= i < ks.len() && ks[i] == w;
            assert(e[i].0 == w);
        }
    }
    assert(entries_table(e).dom() =~= ks.to_set());
    assert(ks.no_duplicates()) by {
        assert forall|i: int, j: int| 0 <= i < ks.len() && 0 <= j < ks.len() && i != j implies ks[i]
            != ks[j] by {
            if i < j {
                assert(e[i].0 != e[j].0);
            } else {
                assert(e[j].0 != e[i].0);
            }
        }
    }
    ks.unique_seq_to_set();
}

impl MarkovModel {
    #[verifier::type_invariant]
    spec fn inv(self) -> bool {
        entry_keys_distinct(self.transitions.deep_view())
    }

    /// The entry index of `word`, if it has one.
    fn find_entry(&self, word: &String) -> (r: Option<usize>)
        ensures
            r matches Some(i) ==> i < self.transitions.len() && self.transitions.deep_view()[i as int].0
                == word@,
            r is None ==> !self@.dom().contains(word@),
    {
        let mut i: usize = 0;
        while i < self.transitions.len()
            invariant
                i <= self.transitions.len(),
                self.transitions.deep_view().len() == self.transitions.len(),
                forall|j: int| 0 <= j < i ==> (#[trigger] self.transitions.deep_view()[j]).0 != word@,
            decreases self.transitions.len() - i,
        {
            assert(self.transitions.deep_view()[i as int].0 == self.transitions[i as int].0@);
            if self.transitions[i].0 == *word {
                return Some(i);
            }
            i = i + 1;
        }
        None
    }

    /// Records that `next` followed `current` once more.
    fn add_transition(&mut self, current: String, next: String)
        ensures
            final(self)@ == old(self)@.insert(
                current@,
                if old(self)@.dom().contains(current@) {
                    old(self)@[current@].push(next@)
                } else {
                    seq![next@]
                },
            ),
    {
        proof {
            use_type_invariant(&*self);
        }
        let ghost e0 = self.transitions.deep_view();
        let mut entries: Vec<(String, Vec<String>)> = Vec::new();
        match self.find_entry(&current) {
            Some(i) => {
                std::mem::swap(&mut entries, &mut self.transitions);
                let mut entry: (String, Vec<String>) = (String::new(), Vec::new());
                entries.set_and_swap(i, &mut entry);
                let ghost old_succ = entry.1.deep_view();
                entry.1.push(next);
                assert(entry.1.deep_view() =~= old_succ.push(next@));
                entries.set_and_swap(i, &mut entry);
                proof {
                    let e1 = entries.deep_view();
                    assert(e1 =~= e0.update(i as int, (current@, e0[i as int].1.push(next@))));
                    assert(entry_keys_distinct(e1)) by {
                        assert forall|a: int, b: int| 0 <= a < b < e1.len() implies (#[trigger] e1[a]).0
                            != (#[trigger] e1[b]).0 by {
                            assert(e0[a].0 != e0[b].0);
                        }
                    }
                    assert(e0[i as int].0 == current@);
                    assert forall|a: int| 0 <= a < e0.len() && e0[a].0 == current@ implies a == i by {
                        if a != i {
                            if a < i {
                                assert(e0[a].0 != e0[i as int].0);
                            } else {
                                assert(e0[i as int].0 != e0[a].0);
                            }
                        }
                    }
                    assert(entries_table(e0).dom().contains(current@));
                    assert forall|w: Seq<char>| #[trigger] entries_table(e1).dom().contains(w) implies entries_table(e1)[w] == entries_table(e0).insert(current@, entries_table(e0)[current@].push(next@))[w] by {
                        let a = choose|a: int| 0 <= a < e1.len() && e1[a].0 == w;
                        let b = choose|b: int| 0 <= b < e0.len() && e0[b].0 == w;
                        assert(e0[a].0 == w);
                        if a != b {
                            if a < b {
                                assert(e0[a].0 != e0[b].0);
                            } else {
                                assert(e0[b].0 != e0[a].0);
                            }
                        }
                    }
                    assert forall|w: Seq<char>| #[trigger] entries_table(e1).dom().contains(w) <==> entries_table(e0).dom().contains(w) by {
                        if entries_table(e0).dom().contains(w) {
                            let b = choose|b: int| 0 <= b < e0.len() && e0[b].0 == w;
                            assert(e1[b].0 == e0[b].0);
                        }
                        if entries_table(e1).dom().contains(w) {
                            let a = choose|a: int| 0 <= a < e1.len() && e1[a].0 == w;
                            assert(e1[a].0 == e0[a].0);
                        }
                    }
                    assert(entries_table(e1) =~= entries_table(e0).insert(current@, entries_table(e0)[current@].push(next@)));
                }
                self.transitions = entries;
            },
            None => {
                std::mem::swap(&mut entries, &mut self.transitions);
                let mut succ: Vec<String> = Vec::new();
                succ.push(next);
                let ghost nv = next@;
                assert(succ.deep_view() =~= seq![nv]);
                entries.push((current, succ));
                proof {
                    let e1 = entries.deep_view();
                    assert(e1 =~= e0.push((current@, seq![nv])));
                    assert(entry_keys_distinct(e1)) by {
                        assert forall|a: int, b: int| 0 <= a < b < e1.len() implies (#[trigger] e1[a]).0
                            != (#[trigger] e1[b]).0 by {
                            if b < e0.len() {
                                assert(e0[a].0 != e0[b].0);
                            } else {
                                assert(e1[a] == e0[a]);
                                assert(!entries_table(e0).dom().contains(current@));
                            }
                        }
                    }
                    assert forall|w: Seq<char>| #[trigger] entries_table(e1).dom().contains(w) implies entries_table(e1)[w] == entries_table(e0).insert(current@, seq![nv])[w] by {
                        let a = choose|a: int| 0 <= a < e1.len() && e1[a].0 == w;
                        if w != current@ {
                            let b = choose|b: int| 0 <= b < e0.len() && e0[b].0 == w;
                            assert(e1[b] == e0[b]);
                            if a != b {
                                if a < b {
                                    assert(e1[a].0 != e1[b].0);
                                } else {
                                    assert(e1[b].0 != e1[a].0);
                                }
                            }
                        } else {
                            if a != e0.len() {
                                assert(e1[a] == e0[a]);
                                assert(entries_table(e0).dom().contains(current@));
                            }
                        }
                    }
                    assert forall|w: Seq<char>| #[trigger] entries_table(e1).dom().contains(w) <==> entries_table(e0).insert(current@, seq![nv]).dom().contains(w) by {
                        if entries_table(e0).dom().contains(w) {
                            let b = choose|b: int| 0 <= b < e0.len() && e0[b].0 == w;
                            assert(e1[b] == e0[b]);
                        }
                        if w == current@ {
                            assert(e1[e0.len() as int].0 == w);
                        }
                        if entries_table(e1).dom().contains(w) && w != current@ {
                            let a = choose|a: int| 0 <= a < e1.len() && e1[a].0 == w;
                            assert(e1[a] == e0[a]);
                        }
                    }
                    assert(entries_table(e1) =~= entries_table(e0).insert(current@, seq![nv]));
                }
                self.transitions = entries;
            },
        }
    }

    /// The number of words that some word followed in the corpus.
    pub fn state_count(&self) -> (n: usize)
        ensures
            n == self@.dom().len(),
    {
        proof {
            use_type_invariant(self);
            lemma_entries_len(self.transitions.deep_view());
        }
        self.transitions.len()
    }

    /// Learns the word transitions of a corpus: within each line, each
    /// canonical word is followed by the next one.
    pub fn from_corpus(text: &str) -> (m: Self)
        ensures
            m@ == transition_table(corpus_transitions(text@)),
    {
        let cs = chars_of(text);
        let bounds = line_bounds(&cs);
        let ghost ls = lines(cs@);
        let mut model = MarkovModel { transitions: Vec::new() };
        proof {
            assert(model@ =~= transition_table(Seq::empty()));
            assert(ls.take(0) =~= Seq::<Seq<char>>::empty());
        }
        let mut j: usize = 0;
        while j < bounds.len()
            invariant
                j <= bounds.len(),
                cs@ == text@,
                ls == lines(cs@),
                bounds.len() == ls.len(),
                forall|q: int|
                    0 <= q < bounds.len() ==> {
                        &&& (#[trigger] bounds@[q]).0 <= bounds@[q].1 <= cs.len()
                        &&& cs@.subrange(bounds@[q].0 as int, bounds@[q].1 as int) == ls[q]
                    },
                model@ == transition_table(line_transitions(ls.take(j as int))),
            decreases bounds.len() - j,
        {
            let (lo, hi) = bounds[j];
            let line = string_of(&cs, lo, hi);
            let ws = canonical_line_words(line.as_str());
            let ghost cw = ws.deep_view();
            let ghost done = line_transitions(ls.take(j as int));
            assert(cw == canonical_words(words(ls[j as int])));
            assert(adjacent_pairs(cw).take(0) =~= Seq::<(Seq<char>, Seq<char>)>::empty());
            assert(done + adjacent_pairs(cw).take(0) =~= done);
            let mut m: usize = 0;
            while m + 1 < ws.len()
                invariant
                    cw == ws.deep_view(),
                    m + 1 <= ws.len() || m == 0,
                    model@ == transition_table(done + adjacent_pairs(cw).take(m as int)),
                decreases ws.len() - m,
            {
                let ghost before = done + adjacent_pairs(cw).take(m as int);
                proof {
                    lemma_table_push(before, cw[m as int], cw[m + 1]);
                    assert(adjacent_pairs(cw)[m as int] == (cw[m as int], cw[m + 1]));
                    assert(done + adjacent_pairs(cw).take(m + 1) =~= before.push((cw[m as int], cw[m + 1])));
                }
                model.add_transition(ws[m].clone(), ws[m + 1].clone());
                m = m + 1;
            }
            proof {
                assert(adjacent_pairs(cw).take(m as int) =~= adjacent_pairs(cw));
                assert(ls.take(j + 1).drop_last() =~= ls.take(j as int));
                assert(ls.take(j + 1).last() == ls[j as int]);
            }
            j = j + 1;
        }
        assert(ls.take(j as int) =~= ls);
        model
    }

    /// The word that follows `current`, chosen at random among the words that
    /// followed it in the corpus; nothing when none did.
    fn next_word(&self, current: &str) -> (r: Option<String>)
        ensures
            r is None <==> !has_successor(self@, current@),
            r matches Some(w) ==> self@[current@].contains(w@),
    {
        proof {
            use_type_invariant(self);
        }
        let key = current.to_owned();
        match self.find_entry(&key) {
            None => None,
            Some(i) => {
                let ghost e = self.transitions.deep_view();
                proof {
                    let a = choose|a: int| 0 <= a < e.len() && e[a].0 == current@;
                    if a != i {
                        if a < i {
                            assert(e[a].0 != e[i as int].0);
                        } else {
                            assert(e[i as int].0 != e[a].0);
                        }
                    }
                    assert(self@[current@] == e[i as int].1);
                    assert(e[i as int].1 == self.transitions[i as int].1.deep_view());
                }
                let candidates = self.transitions[i].1.as_slice();
                match choose_word(candidates) {
                    None => None,
                    Some(w) => {
                        proof {
                            let k = choose|k: int| 0 <= k < candidates@.len() && candidates@[k] == *w;
                            assert(self@[current@][k] == w@);
                        }
                        Some(w.clone())
                    },
                }
            },
        }
    }

    /// Continues the prompt: its lowercased words, then at most
    /// `MAX_GENERATE` words chosen one after another, each among the words
    /// that followed the word before it in the corpus.
    pub fn generate(&self, prompt: &str) -> (out: Vec<String>)
        ensures
            valid_walk(self@, prompt_words(prompt@), out.deep_view()),
    {
        let ws = split_whitespace(prompt);
        let mut out: Vec<String> = Vec::new();
        let mut i: usize = 0;
        while i < ws.len()
            invariant
                i <= ws.len(),
                ws.deep_view() == words(prompt@),
                out.deep_view() == prompt_words(prompt@).take(i as int),
            decreases ws.len() - i,
        {
            let w = to_lowercase(ws[i].as_str());
            let ghost prev = out.deep_view();
            assert(ws.deep_view()[i as int] == ws[i as int]@);
            assert(prompt_words(prompt@)[i as int] == lowercase(words(prompt@)[i as int]));
            out.push(w);
            assert(out.deep_view() =~= prev.push(w@));
            assert(out.deep_view() =~= prompt_words(prompt@).take(i + 1));
            i = i + 1;
        }
        assert(prompt_words(prompt@).take(i as int) =~= prompt_words(prompt@));
        let ghost start = out.deep_view();
        let mut n: usize = 0;
        let mut stopped = false;
        while n < MAX_GENERATE && !stopped
            invariant
                n <= MAX_GENERATE,
                start == prompt_words(prompt@),
                start.is_prefix_of(out.deep_view()),
                out.len() == start.len() + n,
                forall|k: int| start.len() <= k < out.len() ==> #[trigger] follows(self@, out.deep_view(), k),
                stopped ==> (out.len() == 0 || !has_successor(self@, out.deep_view().last())),
            decreases MAX_GENERATE - n, if stopped { 0int } else { 1int },
        {
            if out.len() == 0 {
                stopped = true;
            } else {
                let ghost prev = out.deep_view();
                let last = out[out.len() - 1].clone();
                assert(last@ == prev.last());
                match self.next_word(last.as_str()) {
                    None => {
                        stopped = true;
                    },
                    Some(w) => {
                        out.push(w);
                        assert(out.deep_view() =~= prev.push(w@));
                        assert forall|k: int| start.len() <= k < out.len() implies #[trigger] follows(self@, out.deep_view(), k) by {
                            if k < prev.len() {
                                assert(follows(self@, prev, k));
                            }
                        }
                        n = n + 1;
                    },
                }
            }
        }
        out
    }
}

/// The canonical, non-empty words of one corpus line.
fn canonical_line_words(line: &str) -> (r: Vec<String>)
    ensures
        r.deep_view() == canonical_words(words(line@)),
{
    let ws = split_whitespace(line);
    let ghost wsv = ws.deep_view();
    let mut out: Vec<String> = Vec::new();
    let mut i: usize = 0;
    assert(wsv.take(0) =~= Seq::<Seq<char>>::empty());
    while i < ws.len()
        invariant
            i <= ws.len(),
            wsv == ws.deep_view(),
            wsv == words(line@),
            out.deep_view() == canonical_words(wsv.take(i as int)),
        decreases ws.len() - i,
    {
        let t = trim_str(ws[i].as_str(), CharClass::NonAlphanumeric);
        let w = to_lowercase(t.as_str());
        assert(wsv.take(i + 1).drop_last() =~= wsv.take(i as int));
        assert(wsv.take(i + 1).last() == wsv[i as int]);
        assert(w@ == normalize_word(wsv[i as int]));
        if !w.as_str().is_empty() {
            let ghost prev = out.deep_view();
            out.push(w);
            assert(out.deep_view() =~= prev.push(w@));
        }
        i = i + 1;
    }
    assert(wsv.take(i as int) =~= wsv);
    out
}

impl InferenceModel for MarkovModel {
    open spec fn model_name(&self) -> Seq<char> {
        "MarkovModel"@
    }

    /// Always an answer: a walk that the model may generate from the
    /// prompt's words, joined by single spaces, with the prompt's tokens.
    open spec fn answers(&self, context: InferenceContext, outcome: Result<InferenceResult, InferenceError>) -> bool {
        &&& outcome matches Ok(res)
        &&& res.tokens@ == context.tokens@
        &&& exists|out: Seq<Seq<char>>|
            valid_walk(self@, prompt_words(context.prompt@), out) && res.response@ == join(
                out,
                seq![' '],
            )
    }

    fn name(&self) -> (r: &str) {
        "MarkovModel"
    }

    fn infer(&self, context: &InferenceContext) -> (r: Result<InferenceResult, InferenceError>) {
        let out = self.generate(context.prompt.as_str());
        let sep = " ";
        proof {
            reveal_strlit(" ");
            assert(sep@ =~= seq![' ']);
        }
        let response = join_strings(&out, sep);
        let r = InferenceResult::new(response, context.tokens.clone());
        assert(valid_walk(self@, prompt_words(context.prompt@), out.deep_view()));
        Ok(r)
    }
}

/// Whether some transition goes from `k` to `w`.
pub open spec fn has_transition(ps: Seq<(Seq<char>, Seq<char>)>, k: Seq<char>, w: Seq<char>) -> bool {
    exists|i: int| 0 <= i < ps.len() && ps[i].0 == k && ps[i].1 == w
}

/// Every word of a transition table has at least one successor, and each
/// successor is a word that followed it in some transition; so a walk stops
/// early only at a word that never had a follower.
pub proof fn lemma_table_successors(ps: Seq<(Seq<char>, Seq<char>)>, k: Seq<char>)
    ensures
        transition_table(ps).dom().contains(k) ==> transition_table(ps)[k].len() > 0,
        forall|m: int|
            0 <= m < successors(ps, k).len() ==> has_transition(ps, k, #[trigger] successors(ps, k)[m]),
    decreases ps.len(),
{
    if ps.len() > 0 {
        let pre = ps.drop_last();
        lemma_table_successors(pre, k);
        if transition_table(ps).dom().contains(k) && ps.last().0 != k {
            let i = choose|i: int| 0 <= i < ps.len() && ps[i].0 == k;
            assert(i < pre.len());
            assert(pre[i] == ps[i]);
            assert(transition_table(pre).dom().contains(k));
        }
        assert forall|m: int| 0 <= m < successors(ps, k).len() implies has_transition(ps, k, #[trigger] successors(ps, k)[m]) by {
            if m < successors(pre, k).len() {
                assert(successors(ps, k)[m] == successors(pre, k)[m]);
                assert(has_transition(pre, k, successors(pre, k)[m]));
                let i = choose|i: int| 0 <= i < pre.len() && pre[i].0 == k && pre[i].1 == successors(pre, k)[m];
                assert(ps[i] == pre[i]);
            } else {
                assert(ps.last().0 == k);
                assert(successors(ps, k)[m] == ps.last().1);
                let i = ps.len() - 1;
                assert(0 <= i < ps.len() && ps[i].0 == k && ps[i].1 == successors(ps, k)[m]);
            }
        }
    }
}

/// The canonical form of a word keeps exactly its run from the first to the
/// last alphanumeric character, lowercased: nothing that is neither
/// alphabetic nor numeric survives at either end, and a word of such
/// characters alone becomes the lowercase of the empty text.
pub proof fn lemma_normalize_word_span(w: Seq<char>, lo: int, hi: int)
    requires
        0 <= lo <= hi <= w.len(),
        forall|i: int| 0 <= i < lo ==> !is_alphanumeric(#[trigger] w[i]),
        forall|i: int| hi <= i < w.len() ==> !is_alphanumeric(#[trigger] w[i]),
        lo < hi ==> is_alphanumeric(w[lo]) && is_alphanumeric(w[hi - 1]),
    ensures
        normalize_word(w) == lowercase(w.subrange(lo, hi)),
{
    assert forall|i: int| 0 <= i < lo implies in_class(CharClass::NonAlphanumeric, #[trigger] w[i]) by {}
    assert forall|i: int| hi <= i < w.len() implies in_class(CharClass::NonAlphanumeric, #[trigger] w[i]) by {}
    lemma_trim_by_span(w, CharClass::NonAlphanumeric, lo, hi);
}

/// A word and the same word after a leading character that is neither
/// alphabetic nor numeric (a quote, a bracket) have the same canonical form,
/// so they are one state of the model.
pub proof fn lemma_normalize_word_leading(w: Seq<char>, c: char)
    requires
        !is_alphanumeric(c),
    ensures
        normalize_word(seq![c] + w) == normalize_word(w),
{
    lemma_trim_by_prepend(w, CharClass::NonAlphanumeric, c);
}

/// What a generated walk is: the prompt's words first, unchanged; then at
/// most fifteen more words, each one of the recorded followers of the word
/// before it; and when the last prompt word has a follower, at least one word
/// is added, one of those followers.
pub proof fn lemma_walk(table: Map<Seq<char>, Seq<Seq<char>>>, start: Seq<Seq<char>>, out: Seq<Seq<char>>)
    requires
        valid_walk(table, start, out),
    ensures
        out.len() >= start.len(),
        out.take(start.len() as int) == start,
        out.len() <= start.len() + 15,
        forall|j: int|
            start.len() <= j + 1 < out.len() ==> table.dom().contains(#[trigger] out[j]) && table[out[j]].contains(
                out[j + 1],
            ),
        start.len() > 0 && table.dom().contains(start.last()) && table[start.last()].len() > 0 ==> out.len()
            > start.len() && table[start.last()].contains(out[start.len() as int]),
{
    assert(out.take(start.len() as int) =~= start);
    assert forall|j: int| start.len() <= j + 1 < out.len() implies table.dom().contains(#[trigger] out[j])
        && table[out[j]].contains(out[j + 1]) by {
        assert(follows(table, out, j + 1));
    }
    if start.len() > 0 && table.dom().contains(start.last()) && table[start.last()].len() > 0 {
        if out.len() == start.len() {
            assert(out.last() == start.last());
        }
        assert(out[start.len() - 1] == start.last());
    }
}

/// The canonical words of a list are its words' canonical forms, in order,
/// with the empty ones left out; when none is empty, they are all of them.
pub proof fn lemma_canonical_words(ws: Seq<Seq<char>>)
    ensures
        forall|i: int| 0 <= i < canonical_words(ws).len() ==> (#[trigger] canonical_words(ws)[i]).len() > 0,
        (forall|i: int| 0 <= i < ws.len() ==> (#[trigger] normalize_word(ws[i])).len() > 0) ==> canonical_words(ws)
            == ws.map_values(|w: Seq<char>| normalize_word(w)),
    decreases ws.len(),
{
    if ws.len() > 0 {
        let p = ws.drop_last();
        lemma_canonical_words(p);
        let r = canonical_words(p);
        let w = normalize_word(ws.last());
        if w.len() > 0 {
            assert forall|i: int| 0 <= i < r.push(w).len() implies (#[trigger] r.push(w)[i]).len() > 0 by {
                if i < r.len() {
                    assert(r.push(w)[i] == r[i]);
                }
            }
        }
        if forall|i: int| 0 <= i < ws.len() ==> (#[trigger] normalize_word(ws[i])).len() > 0 {
            assert forall|i: int| 0 <= i < p.len() implies (#[trigger] normalize_word(p[i])).len() > 0 by {
                assert(p[i] == ws[i]);
            }
            assert(normalize_word(ws[ws.len() - 1]).len() > 0);
            assert(ws.last() == ws[ws.len() - 1]);
            assert(r.push(w) =~= ws.map_values(|w: Seq<char>| normalize_word(w)));
        }
    }
}

/// Within each line of the corpus, every canonical word is recorded with the
/// canonical word right after it as one of its followers.
pub proof fn lemma_corpus_pair(text: Seq<char>, l: int, i: int)
    requires
        0 <= l < lines(text).len(),
        0 <= i < canonical_words(words(lines(text)[l])).len() - 1,
    ensures
        transition_table(corpus_transitions(text)).dom().contains(canonical_words(words(lines(text)[l]))[i]),
        transition_table(corpus_transitions(text))[canonical_words(words(lines(text)[l]))[i]].contains(
            canonical_words(words(lines(text)[l]))[i + 1],
        ),
{
    let ls = lines(text);
    let cw = canonical_words(words(ls[l]));
    lemma_line_transitions_hold(ls, l, i);
    let ps = corpus_transitions(text);
    let q = choose|q: int| 0 <= q < ps.len() && ps[q] == (cw[i], cw[i + 1]);
    lemma_table_successors(ps, cw[i]);
    lemma_successor_listed(ps, cw[i], q);
}

proof fn lemma_line_transitions_hold(ls: Seq<Seq<char>>, l: int, i: int)
    requires
        0 <= l < ls.len(),
        0 <= i < canonical_words(words(ls[l])).len() - 1,
    ensures
        exists|q: int|
            0 <= q < line_transitions(ls).len() && #[trigger] line_transitions(ls)[q] == (
                canonical_words(words(ls[l]))[i],
                canonical_words(words(ls[l]))[i + 1],
            ),
    decreases ls.len(),
{
    let p = ls.drop_last();
    let cw = canonical_words(words(ls[l]));
    if l < ls.len() - 1 {
        assert(p[l] == ls[l]);
        lemma_line_transitions_hold(p, l, i);
        let q = choose|q: int|
            0 <= q < line_transitions(p).len() && #[trigger] line_transitions(p)[q] == (cw[i], cw[i + 1]);
        assert(line_transitions(ls)[q] == line_transitions(p)[q]);
    } else {
        assert(ls.last() == ls[l]);
        let a = adjacent_pairs(cw);
        let q = line_transitions(p).len() + i;
        assert(a[i] == (cw[i], cw[i + 1]));
        assert(line_transitions(ls)[q] == a[i]);
    }
}

proof fn lemma_successor_listed(ps: Seq<(Seq<char>, Seq<char>)>, k: Seq<char>, q: int)
    requires
        0 <= q < ps.len(),
        ps[q].0 == k,
    ensures
        successors(ps, k).contains(ps[q].1),
    decreases ps.len(),
{
    let p = ps.drop_last();
    if q < ps.len() - 1 {
        assert(p[q] == ps[q]);
        lemma_successor_listed(p, k, q);
        let r = successors(p, k);
        let t = choose|t: int| 0 <= t < r.len() && r[t] == ps[q].1;
        if ps.last().0 == k {
            assert(r.push(ps.last().1)[t] == r[t]);
        }
    } else {
        assert(ps.last() == ps[q]);
        let r = successors(p, k);
        assert(r.push(ps.last().1)[r.len() as int] == ps[q].1);
    }
}

} // verus!
