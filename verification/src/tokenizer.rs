//! A word tokenizer: each distinct whitespace-separated word gets the next free
//! id, starting at 1, and keeps it; decoding maps ids back to words.

use vstd::prelude::*;

use crate::text::{join, join_strings, split_whitespace, words};

verus! {

/// The id of `w` in `vocab` is its position there plus one; this is that position.
pub open spec fn position(vocab: Seq<Seq<char>>, w: Seq<char>) -> int {
    choose|i: int| 0 <= i < vocab.len() && vocab[i] == w
}

/// The vocabulary after meeting the words `ws` in order: each word not yet
/// known is appended.
pub open spec fn vocab_extend(vocab: Seq<Seq<char>>, ws: Seq<Seq<char>>) -> Seq<Seq<char>>
    decreases ws.len(),
{
    if ws.len() == 0 {
        vocab
    } else {
        let v = vocab_extend(vocab, ws.drop_last());
        if v.contains(ws.last()) {
            v
        } else {
            v.push(ws.last())
        }
    }
}

/// The ids that the words `ws` get when they are encoded against `vocab`.
pub open spec fn encode_ids(vocab: Seq<Seq<char>>, ws: Seq<Seq<char>>) -> Seq<u32> {
    let fin = vocab_extend(vocab, ws);
    ws.map_values(|w: Seq<char>| (position(fin, w) + 1) as u32)
}

/// The text that stands for an unknown id.
pub open spec fn unknown_word() -> Seq<char> {
    seq!['<', 'U', 'N', 'K', '>']
}

/// The word that `id` stands for in `vocab`.
pub open spec fn decode_word(vocab: Seq<Seq<char>>, id: u32) -> Seq<char> {
    if 1 <= id <= vocab.len() {
        vocab[id - 1]
    } else {
        unknown_word()
    }
}

/// The words that `ids` stand for in `vocab`.
pub open spec fn decode_words(vocab: Seq<Seq<char>>, ids: Seq<u32>) -> Seq<Seq<char>> {
    ids.map_values(|id: u32| decode_word(vocab, id))
}

/// The text that `ids` decode to in `vocab`: their words, joined by spaces.
pub open spec fn decode_text(vocab: Seq<Seq<char>>, ids: Seq<u32>) -> Seq<char> {
    join(decode_words(vocab, ids), seq![' '])
}

/// A vocabulary is valid when no word occurs twice and every id fits in `u32`
/// with room for the next one.
pub open spec fn valid_vocab(vocab: Seq<Seq<char>>) -> bool {
    vocab.no_duplicates() && vocab.len() < u32::MAX
}

/// Turns text into token ids and back.
pub trait Tokenizer {
    /// Whether `text` can be encoded without running out of ids.
    spec fn can_encode(&self, text: Seq<char>) -> bool;

    /// Encodes `text` as token ids.
    fn encode(&mut self, text: &str) -> (tokens: Vec<u32>)
        requires
            old(self).can_encode(text@),
    ;

    /// Decodes token ids to text.
    fn decode(&self, tokens: &[u32]) -> (text: String);

    /// The number of words known.
    fn vocab_size(&self) -> (n: usize);
}

/// Splits text at whitespace and numbers the distinct words in the order they
/// are first met.
pub struct WordTokenizer {
    /// The known words, the word with id `i` at index `i - 1`.
    words: Vec<String>,
}

impl View for WordTokenizer {
    type V = Seq<Seq<char>>;

    /// The known words in id order.
    closed spec fn view(&self) -> Seq<Seq<char>> {
        self.words.deep_view()
    }
}

proof fn lemma_position(vocab: Seq<Seq<char>>, i: int)
    requires
        vocab.no_duplicates(),
        0 <= i < vocab.len(),
    ensures
        position(vocab, vocab[i]) == i,
{
}

proof fn lemma_position_push(vocab: Seq<Seq<char>>, w: Seq<char>, x: Seq<char>)
    requires
        vocab.no_duplicates(),
        vocab.push(x).no_duplicates(),
        vocab.contains(w),
    ensures
        position(vocab.push(x), w) == position(vocab, w),
{
    let i = choose|i: int| 0 <= i < vocab.len() && vocab[i] == w;
    lemma_position(vocab.push(x), i);
    lemma_position(vocab, i);
}

/// Meeting more words only appends to the vocabulary, which stays free of
/// duplicates, and holds every word met.
proof fn lemma_vocab_extend(vocab: Seq<Seq<char>>, ws: Seq<Seq<char>>)
    requires
        vocab.no_duplicates(),
    ensures
        vocab.is_prefix_of(vocab_extend(vocab, ws)),
        vocab_extend(vocab, ws).no_duplicates(),
        forall|k: int| 0 <= k < ws.len() ==> vocab_extend(vocab, ws).contains(#[trigger] ws[k]),
        forall|w: Seq<char>|
            #[trigger] vocab_extend(vocab, ws).contains(w) ==> vocab.contains(w) || ws.contains(w),
    decreases ws.len(),
{
    if ws.len() > 0 {
        let pre = ws.drop_last();
        lemma_vocab_extend(vocab, pre);
        let v = vocab_extend(vocab, pre);
        assert forall|k: int| 0 <= k < ws.len() implies vocab_extend(vocab, ws).contains(
            #[trigger] ws[k],
        ) by {
            if k < ws.len() - 1 {
                assert(pre[k] == ws[k]);
                assert(v.contains(pre[k]));
                if !v.contains(ws.last()) {
                    let j = choose|j: int| 0 <= j < v.len() && v[j] == pre[k];
                    assert(v.push(ws.last())[j] == ws[k]);
                }
            } else {
                if !v.contains(ws.last()) {
                    assert(v.push(ws.last())[v.len() as int] == ws.last());
                }
            }
        }
        assert forall|w: Seq<char>| #[trigger]
            vocab_extend(vocab, ws).contains(w) implies vocab.contains(w) || ws.contains(w) by {
            if v.contains(w) {
                if !vocab.contains(w) {
                    assert(pre.contains(w));
                    let j = choose|j: int| 0 <= j < pre.len() && pre[j] == w;
                    assert(ws[j] == w);
                }
            } else {
                assert(w == ws.last());
                assert(ws[ws.len() - 1] == w);
            }
        }
    }
}

/// Meeting the words of a prefix of `ws` gives a prefix of the vocabulary
/// that all of `ws` gives.
proof fn lemma_vocab_extend_prefix(vocab: Seq<Seq<char>>, ws: Seq<Seq<char>>, n: int)
    requires
        vocab.no_duplicates(),
        0 <= n <= ws.len(),
    ensures
        vocab_extend(vocab, ws.take(n)).is_prefix_of(vocab_extend(vocab, ws)),
    decreases ws.len() - n,
{
    if n < ws.len() {
        lemma_vocab_extend_prefix(vocab, ws.drop_last(), n);
        assert(ws.drop_last().take(n) =~= ws.take(n));
    } else {
        assert(ws.take(n) =~= ws);
    }
}

impl WordTokenizer {
    #[verifier::type_invariant]
    spec fn inv(self) -> bool {
        valid_vocab(self.words.deep_view())
    }

    /// Creates a tokenizer that knows no word.
    pub fn new() -> (t: Self)
        ensures
            t@ == Seq::<Seq<char>>::empty(),
    {
        let t = WordTokenizer { words: Vec::new() };
        assert(t@ =~= Seq::<Seq<char>>::empty());
        t
    }

    /// The id of `word`, if it is known.
    fn find_id(&self, word: &String) -> (r: Option<u32>)
        ensures
            r matches Some(id) ==> self@.contains(word@) && id == position(self@, word@) + 1,
            r is None ==> !self@.contains(word@),
    {
        proof {
            use_type_invariant(self);
        }
        let mut j: usize = 0;
        while j < self.words.len()
            invariant
                j <= self.words.len(),
                valid_vocab(self@),
                self.words.deep_view().len() == self.words.len(),
                forall|m: int| 0 <= m < j ==> self.words.deep_view()[m] != word@,
            decreases self.words.len() - j,
        {
            if self.words[j] == *word {
                proof {
                    assert(self@[j as int] == word@);
                    lemma_position(self@, j as int);
                }
                return Some((j + 1) as u32);
            }
            j = j + 1;
        }
        None
    }

    /// Gives `word`, which is not yet known, the next free id.
    fn add_word(&mut self, word: &String) -> (id: u32)
        requires
            !old(self)@.contains(word@),
            old(self)@.len() + 1 < u32::MAX,
        ensures
            final(self)@ == old(self)@.push(word@),
            id == old(self)@.len() + 1,
            id == position(final(self)@, word@) + 1,
    {
        proof {
            use_type_invariant(&*self);
        }
        let mut words: Vec<String> = Vec::new();
        std::mem::swap(&mut words, &mut self.words);
        let ghost before = words.deep_view();
        let id = (words.len() + 1) as u32;
        words.push(word.clone());
        proof {
            assert(words.deep_view() =~= before.push(word@));
            assert forall|a: int, b: int|
                0 <= a < b < words.deep_view().len() implies words.deep_view()[a]
                != words.deep_view()[b] by {
                if b == before.len() {
                    assert(before[a] == words.deep_view()[a]);
                }
            }
            lemma_position(words.deep_view(), before.len() as int);
        }
        self.words = words;
        id
    }

    /// Whether encoding `text` would leave fewer than `u32::MAX` known words,
    /// so that every new word gets an id.
    pub fn can_encode_text(&self, text: &str) -> (b: bool)
        ensures
            b == self.can_encode(text@),
    {
        proof {
            use_type_invariant(self);
        }
        let ws = split_whitespace(text);
        let ghost wsv = ws.deep_view();
        let ghost v = self@;
        let mut fresh: Vec<String> = Vec::new();
        let mut i: usize = 0;
        assert(wsv.take(0) =~= Seq::<Seq<char>>::empty());
        assert(v + fresh.deep_view() =~= v);
        while i < ws.len()
            invariant
                i <= ws.len(),
                wsv == ws.deep_view(),
                wsv == words(text@),
                v == self@,
                v == self.words.deep_view(),
                v.len() == self.words.len(),
                fresh.deep_view().len() == fresh.len(),
                valid_vocab(v),
                vocab_extend(v, wsv.take(i as int)) == v + fresh.deep_view(),
                self.words.len() + fresh.len() < u32::MAX,
            decreases ws.len() - i,
        {
            assert(wsv.take(i + 1).drop_last() =~= wsv.take(i as int));
            assert(wsv.take(i + 1).last() == wsv[i as int]);
            assert(ws[i as int]@ == wsv[i as int]);
            let known = self.find_id(&ws[i]);
            let mut j: usize = 0;
            let mut seen = false;
            while j < fresh.len()
                invariant
                    j <= fresh.len(),
                    i < ws.len(),
                    fresh.deep_view().len() == fresh.len(),
                    seen == (exists|m: int| 0 <= m < j && fresh.deep_view()[m] == ws[i as int]@),
                decreases fresh.len() - j,
            {
                assert(fresh.deep_view()[j as int] == fresh[j as int]@);
                if fresh[j] == ws[i] {
                    seen = true;
                }
                j = j + 1;
            }
            let ghost cur = v + fresh.deep_view();
            proof {
                if cur.contains(wsv[i as int]) {
                    let m = choose|m: int| 0 <= m < cur.len() && cur[m] == wsv[i as int];
                    if m >= v.len() {
                        assert(fresh.deep_view()[m - v.len()] == wsv[i as int]);
                    } else {
                        assert(v.contains(wsv[i as int]));
                    }
                }
                if v.contains(wsv[i as int]) {
                    let m = choose|m: int| 0 <= m < v.len() && v[m] == wsv[i as int];
                    assert(cur[m] == wsv[i as int]);
                }
                if seen {
                    let m = choose|m: int| 0 <= m < j && fresh.deep_view()[m] == ws[i as int]@;
                    assert(cur[v.len() + m] == wsv[i as int]);
                }
            }
            if known.is_none() && !seen {
                if self.words.len() + fresh.len() + 1 >= u32::MAX as usize {
                    proof {
                        lemma_vocab_extend(v, wsv);
                        lemma_vocab_extend_prefix(v, wsv, i + 1);
                        assert(vocab_extend(v, wsv.take(i + 1)) == cur.push(wsv[i as int]));
                    }
                    return false;
                }
                let ghost before = fresh.deep_view();
                fresh.push(ws[i].clone());
                assert(fresh.deep_view() =~= before.push(wsv[i as int]));
                assert(v + fresh.deep_view() =~= cur.push(wsv[i as int]));
            }
            i = i + 1;
        }
        assert(wsv.take(i as int) =~= wsv);
        true
    }

    /// Encodes `text` when every new word can get an id; otherwise changes
    /// nothing and gives nothing back.
    pub fn try_encode(&mut self, text: &str) -> (r: Option<Vec<u32>>)
        ensures
            old(self).can_encode(text@) ==> (r matches Some(t) && t@ == encode_ids(old(self)@, words(text@))
                && final(self)@ == vocab_extend(old(self)@, words(text@))),
            !old(self).can_encode(text@) ==> r is None && final(self)@ == old(self)@,
    {
        if self.can_encode_text(text) {
            Some(self.encode(text))
        } else {
            None
        }
    }

    /// The known words with their ids, in id order.
    pub fn vocab_entries(&self) -> (r: Vec<(String, u32)>)
        ensures
            r.len() == self@.len(),
            forall|k: int|
                0 <= k < r.len() ==> (#[trigger] r@[k]).0@ == self@[k] && r@[k].1 == k + 1,
    {
        proof {
            use_type_invariant(self);
        }
        let mut r: Vec<(String, u32)> = Vec::new();
        let mut j: usize = 0;
        while j < self.words.len()
            invariant
                j <= self.words.len() < u32::MAX,
                self.words.deep_view().len() == self.words.len(),
                r.len() == j,
                forall|k: int|
                    0 <= k < j ==> (#[trigger] r@[k]).0@ == self.words.deep_view()[k] && r@[k].1
                        == k + 1,
            decreases self.words.len() - j,
        {
            r.push((self.words[j].clone(), (j + 1) as u32));
            j = j + 1;
        }
        r
    }
}

impl Default for WordTokenizer {
    fn default() -> (t: Self)
        ensures
            t@ == Seq::<Seq<char>>::empty(),
    {
        Self::new()
    }
}

impl Tokenizer for WordTokenizer {
    /// Encoding `text` leaves fewer than `u32::MAX` known words: the next id
    /// after the last one still fits.
    open spec fn can_encode(&self, text: Seq<char>) -> bool {
        vocab_extend(self@, words(text)).len() < u32::MAX
    }

    /// The words of `text` are added to the vocabulary in order of first
    /// appearance, and each word's id comes back.
    fn encode(&mut self, text: &str) -> (tokens: Vec<u32>)
        ensures
            final(self)@ == vocab_extend(old(self)@, words(text@)),
            tokens@ == encode_ids(old(self)@, words(text@)),
    {
        proof {
            use_type_invariant(&*self);
        }
        let ws = split_whitespace(text);
        let ghost wsv = ws.deep_view();
        let ghost start = self@;
        proof {
            lemma_vocab_extend(start, wsv);
        }
        let mut tokens: Vec<u32> = Vec::new();
        let mut i: usize = 0;
        while i < ws.len()
            invariant
                i <= ws.len(),
                wsv == ws.deep_view(),
                wsv.len() == ws.len(),
                start.no_duplicates(),
                vocab_extend(start, wsv).len() < u32::MAX,
                self@ == vocab_extend(start, wsv.take(i as int)),
                tokens.len() == i,
                forall|k: int| 0 <= k < i ==> self@.contains(#[trigger] wsv[k]),
                forall|k: int| 0 <= k < i ==> #[trigger] tokens@[k] == position(self@, wsv[k]) + 1,
            decreases ws.len() - i,
        {
            proof {
                use_type_invariant(&*self);
                lemma_vocab_extend_prefix(start, wsv, i + 1);
                lemma_vocab_extend(start, wsv.take(i + 1));
                assert(wsv.take(i + 1).drop_last() =~= wsv.take(i as int));
                assert(wsv.take(i + 1).last() == wsv[i as int]);
            }
            let ghost before = self@;
            assert(ws[i as int]@ == wsv[i as int]);
            let id = match self.find_id(&ws[i]) {
                Some(id) => id,
                None => {
                    let id = self.add_word(&ws[i]);
                    proof {
                        assert forall|k: int| 0 <= k < i implies self@.contains(#[trigger] wsv[k])
                            && tokens@[k] == position(self@, wsv[k]) + 1 by {
                            assert(before.contains(wsv[k]));
                            assert(tokens@[k] == position(before, wsv[k]) + 1);
                            lemma_position_push(before, wsv[k], wsv[i as int]);
                            let j = choose|j: int| 0 <= j < before.len() && before[j] == wsv[k];
                            assert(self@[j] == wsv[k]);
                        }
                    }
                    id
                },
            };
            tokens.push(id);
            i = i + 1;
        }
        proof {
            assert(wsv.take(i as int) =~= wsv);
            use_type_invariant(&*self);
            assert(tokens@ =~= encode_ids(start, wsv));
        }
        tokens
    }

    /// Each id becomes its word, or `<UNK>` where no word has it; the words
    /// are joined by single spaces.
    fn decode(&self, tokens: &[u32]) -> (text: String)
        ensures
            text@ == decode_text(self@, tokens@),
    {
        let mut out: Vec<String> = Vec::new();
        let mut i: usize = 0;
        while i < tokens.len()
            invariant
                i <= tokens.len(),
                self.words.deep_view().len() == self.words.len(),
                out.deep_view() == decode_words(self@, tokens@.take(i as int)),
            decreases tokens.len() - i,
        {
            let id = tokens[i];
            let ghost prev = out.deep_view();
            let w = if 1 <= id && (id as usize) <= self.words.len() {
                self.words[(id - 1) as usize].clone()
            } else {
                proof {
                    reveal_strlit("<UNK>");
                }
                "<UNK>".to_owned()
            };
            assert(w@ == decode_word(self@, id));
            out.push(w);
            assert(out.deep_view() =~= prev.push(w@));
            assert(tokens@.take(i + 1) =~= tokens@.take(i as int).push(id));
            assert(out.deep_view() =~= decode_words(self@, tokens@.take(i + 1)));
            i = i + 1;
        }
        assert(tokens@.take(i as int) =~= tokens@);
        let sep = " ";
        proof {
            reveal_strlit(" ");
            assert(sep@ =~= seq![' ']);
        }
        join_strings(&out, sep)
    }

    /// The number of words known.
    fn vocab_size(&self) -> (n: usize)
        ensures
            n == self@.len(),
    {
        self.words.len()
    }
}

/// Decoding what was just encoded gives back the words of the text, joined by
/// single spaces: every word's id leads back to that word.
pub proof fn lemma_decode_encode(vocab: Seq<Seq<char>>, text: Seq<char>)
    requires
        valid_vocab(vocab),
        vocab_extend(vocab, words(text)).len() < u32::MAX,
    ensures
        decode_words(vocab_extend(vocab, words(text)), encode_ids(vocab, words(text))) == words(text),
        decode_text(vocab_extend(vocab, words(text)), encode_ids(vocab, words(text))) == join(
            words(text),
            seq![' '],
        ),
{
    let ws = words(text);
    let fin = vocab_extend(vocab, ws);
    lemma_vocab_extend(vocab, ws);
    let ids = encode_ids(vocab, ws);
    assert forall|k: int| 0 <= k < ws.len() implies decode_word(fin, #[trigger] ids[k]) == ws[k] by {
        assert(fin.contains(ws[k]));
        let p = position(fin, ws[k]);
        assert(0 <= p < fin.len() && fin[p] == ws[k]);
    }
    assert(decode_words(fin, ids) =~= ws);
}

/// Encoding a text a second time adds no word and gives the same ids.
pub proof fn lemma_encode_again(vocab: Seq<Seq<char>>, text: Seq<char>)
    requires
        valid_vocab(vocab),
    ensures
        vocab_extend(vocab_extend(vocab, words(text)), words(text)) == vocab_extend(
            vocab,
            words(text),
        ),
        encode_ids(vocab_extend(vocab, words(text)), words(text)) == encode_ids(vocab, words(text)),
{
    let ws = words(text);
    let fin = vocab_extend(vocab, ws);
    lemma_vocab_extend(vocab, ws);
    lemma_extend_known(fin, ws);
}

proof fn lemma_extend_known(vocab: Seq<Seq<char>>, ws: Seq<Seq<char>>)
    requires
        forall|k: int| 0 <= k < ws.len() ==> vocab.contains(#[trigger] ws[k]),
    ensures
        vocab_extend(vocab, ws) == vocab,
    decreases ws.len(),
{
    if ws.len() > 0 {
        let pre = ws.drop_last();
        assert forall|k: int| 0 <= k < pre.len() implies vocab.contains(#[trigger] pre[k]) by {
            assert(pre[k] == ws[k]);
        }
        lemma_extend_known(vocab, pre);
        assert(vocab.contains(ws[ws.len() - 1]));
    }
}

/// Two words of a text get the same id exactly when they are the same word.
pub proof fn lemma_ids_match_words(vocab: Seq<Seq<char>>, text: Seq<char>, a: int, b: int)
    requires
        valid_vocab(vocab),
        vocab_extend(vocab, words(text)).len() < u32::MAX,
        0 <= a < words(text).len(),
        0 <= b < words(text).len(),
    ensures
        (encode_ids(vocab, words(text))[a] == encode_ids(vocab, words(text))[b]) <==> (words(text)[a]
            == words(text)[b]),
{
    lemma_decode_encode(vocab, text);
    let ws = words(text);
    let fin = vocab_extend(vocab, ws);
    let ids = encode_ids(vocab, ws);
    assert(decode_words(fin, ids)[a] == ws[a]);
    assert(decode_words(fin, ids)[b] == ws[b]);
}

/// Encoding keeps the id of every known word, and afterwards the known words
/// are the words known before together with the words of the text, each once.
pub proof fn lemma_vocab_after_encode(vocab: Seq<Seq<char>>, text: Seq<char>)
    requires
        valid_vocab(vocab),
    ensures
        vocab.is_prefix_of(vocab_extend(vocab, words(text))),
        vocab_extend(vocab, words(text)).no_duplicates(),
        vocab_extend(vocab, words(text)).to_set() == vocab.to_set() + words(text).to_set(),
{
    let ws = words(text);
    let fin = vocab_extend(vocab, ws);
    lemma_vocab_extend(vocab, ws);
    assert forall|w: Seq<char>| fin.to_set().contains(w) <==> (vocab.to_set() + ws.to_set()).contains(w) by {
        if vocab.contains(w) {
            let j = choose|j: int| 0 <= j < vocab.len() && vocab[j] == w;
            assert(fin[j] == w);
        }
        if ws.contains(w) {
            let j = choose|j: int| 0 <= j < ws.len() && ws[j] == w;
            assert(fin.contains(ws[j]));
        }
    }
    assert(fin.to_set() =~= vocab.to_set() + ws.to_set());
}

/// A fresh tokenizer that has encoded a text knows as many words as the text
/// has distinct words.
pub proof fn lemma_fresh_vocab_size(text: Seq<char>)
    ensures
        vocab_extend(Seq::empty(), words(text)).len() == words(text).to_set().len(),
{
    let e = Seq::<Seq<char>>::empty();
    lemma_vocab_after_encode(e, text);
    let fin = vocab_extend(e, words(text));
    assert(e.to_set() + words(text).to_set() =~= words(text).to_set());
    fin.unique_seq_to_set();
}

/// The words of `ws` that `vocab` does not know, each once, in the order in
/// which they first appear.
pub open spec fn new_words(vocab: Seq<Seq<char>>, ws: Seq<Seq<char>>) -> Seq<Seq<char>> {
    vocab_extend(vocab, ws).skip(vocab.len() as int)
}

/// The index of the first appearance of `w` in `ws`.
pub open spec fn first_appearance(ws: Seq<Seq<char>>, w: Seq<char>) -> int {
    ws.index_of_first(w)->0
}

proof fn lemma_first_appearance_prefix(ws: Seq<Seq<char>>, x: Seq<char>)
    requires
        ws.len() > 0,
        ws.drop_last().contains(x),
    ensures
        ws.contains(x),
        first_appearance(ws, x) == first_appearance(ws.drop_last(), x),
        first_appearance(ws, x) < ws.len() - 1,
{
    let pre = ws.drop_last();
    let j = choose|j: int| 0 <= j < pre.len() && pre[j] == x;
    assert(ws[j] == x);
    ws.index_of_first_ensures(x);
    pre.index_of_first_ensures(x);
    let i1 = first_appearance(ws, x);
    let i2 = first_appearance(pre, x);
    assert(ws[i2] == x);
    if i1 > i2 {
        assert(ws[i2] != x);
    }
    assert(pre[i1] == x);
    if i2 > i1 {
        assert(pre[i1] != x);
    }
}

proof fn lemma_new_words(vocab: Seq<Seq<char>>, ws: Seq<Seq<char>>)
    requires
        vocab.no_duplicates(),
    ensures
        forall|k: int|
            0 <= k < new_words(vocab, ws).len() ==> ws.contains(#[trigger] new_words(vocab, ws)[k])
                && !vocab.contains(new_words(vocab, ws)[k]) && first_appearance(ws, new_words(vocab, ws)[k])
                < ws.len(),
        forall|a: int, b: int|
            0 <= a < b < new_words(vocab, ws).len() ==> first_appearance(ws, #[trigger] new_words(vocab, ws)[a])
                < first_appearance(ws, #[trigger] new_words(vocab, ws)[b]),
    decreases ws.len(),
{
    lemma_vocab_extend(vocab, ws);
    let fin = vocab_extend(vocab, ws);
    let nw = new_words(vocab, ws);
    if ws.len() > 0 {
        let pre = ws.drop_last();
        let y = ws.last();
        lemma_new_words(vocab, pre);
        lemma_vocab_extend(vocab, pre);
        let v = vocab_extend(vocab, pre);
        let np = new_words(vocab, pre);
        assert forall|k: int| 0 <= k < np.len() implies ws.contains(#[trigger] np[k]) && first_appearance(
            ws,
            np[k],
        ) == first_appearance(pre, np[k]) && first_appearance(ws, np[k]) < ws.len() - 1 by {
            lemma_first_appearance_prefix(ws, np[k]);
        }
        if v.contains(y) {
            assert(nw =~= np);
        } else {
            assert(nw =~= np.push(y));
            assert(!pre.contains(y)) by {
                if pre.contains(y) {
                    let j = choose|j: int| 0 <= j < pre.len() && pre[j] == y;
                    assert(v.contains(pre[j]));
                }
            }
            assert(ws[ws.len() - 1] == y);
            ws.index_of_first_ensures(y);
            assert(first_appearance(ws, y) == ws.len() - 1) by {
                let i = first_appearance(ws, y);
                if i < ws.len() - 1 {
                    assert(pre[i] == y);
                }
            }
            assert(!vocab.contains(y)) by {
                if vocab.contains(y) {
                    let j = choose|j: int| 0 <= j < vocab.len() && vocab[j] == y;
                    assert(v[j] == y);
                }
            }
        }
    }
}

/// Encoding keeps the ids of the words already known; the words not yet
/// known get the next ids, `n + 1`, `n + 2`, ... where `n` is the number of
/// words known, in the order of their first appearance, and every appearance
/// of a word gets that word's id; afterwards `n` plus the number of new words
/// are known.
pub proof fn lemma_encode_ids(vocab: Seq<Seq<char>>, text: Seq<char>)
    requires
        valid_vocab(vocab),
        vocab_extend(vocab, words(text)).len() < u32::MAX,
    ensures
        vocab_extend(vocab, words(text)) == vocab + new_words(vocab, words(text)),
        new_words(vocab, words(text)).no_duplicates(),
        forall|i: int|
            0 <= i < words(text).len() && vocab.contains(#[trigger] words(text)[i]) ==> encode_ids(
                vocab,
                words(text),
            )[i] == position(vocab, words(text)[i]) + 1,
        forall|i: int|
            0 <= i < words(text).len() && !vocab.contains(#[trigger] words(text)[i]) ==> new_words(
                vocab,
                words(text),
            ).contains(words(text)[i]) && encode_ids(vocab, words(text))[i] == vocab.len() + 1
                + position(new_words(vocab, words(text)), words(text)[i]),
        forall|k: int|
            0 <= k < new_words(vocab, words(text)).len() ==> !vocab.contains(
                #[trigger] new_words(vocab, words(text))[k],
            ),
        forall|a: int, b: int|
            0 <= a < b < new_words(vocab, words(text)).len() ==> first_appearance(
                words(text),
                #[trigger] new_words(vocab, words(text))[a],
            ) < first_appearance(words(text), #[trigger] new_words(vocab, words(text))[b]),
{
    let ws = words(text);
    let fin = vocab_extend(vocab, ws);
    let nw = new_words(vocab, ws);
    let n = vocab.len() as int;
    lemma_vocab_extend(vocab, ws);
    lemma_new_words(vocab, ws);
    assert(fin =~= vocab + nw);
    assert(nw.no_duplicates()) by {
        assert forall|a: int, b: int| 0 <= a < nw.len() && 0 <= b < nw.len() && a != b implies nw[a] != nw[b] by {
            assert(fin[n + a] == nw[a] && fin[n + b] == nw[b]);
        }
    }
    assert forall|i: int| 0 <= i < ws.len() && vocab.contains(#[trigger] ws[i]) implies encode_ids(vocab, ws)[i]
        == position(vocab, ws[i]) + 1 by {
        let j = position(vocab, ws[i]);
        assert(0 <= j < vocab.len() && vocab[j] == ws[i]);
        assert(fin[j] == ws[i]);
        lemma_position(fin, j);
    }
    assert forall|i: int| 0 <= i < ws.len() && !vocab.contains(#[trigger] ws[i]) implies nw.contains(ws[i])
        && encode_ids(vocab, ws)[i] == n + 1 + position(nw, ws[i]) by {
        assert(fin.contains(ws[i]));
        let p = position(fin, ws[i]);
        assert(0 <= p < fin.len() && fin[p] == ws[i]);
        if p < n {
            assert(vocab[p] == ws[i]);
        }
        assert(nw[p - n] == ws[i]);
        lemma_position(nw, p - n);
    }
}

/// Decoding maps each id to the word that has it, and every id that no word
/// has (0, or past the last id) to `<UNK>`; a single unknown id decodes to
/// exactly `<UNK>`.
pub proof fn lemma_decode_ids(vocab: Seq<Seq<char>>, ids: Seq<u32>)
    ensures
        decode_words(vocab, ids).len() == ids.len(),
        forall|k: int|
            0 <= k < ids.len() && 1 <= ids[k] <= vocab.len() ==> #[trigger] decode_words(vocab, ids)[k]
                == vocab[ids[k] - 1],
        forall|k: int|
            0 <= k < ids.len() && (ids[k] == 0 || ids[k] > vocab.len()) ==> #[trigger] decode_words(
                vocab,
                ids,
            )[k] == seq!['<', 'U', 'N', 'K', '>'],
        ids.len() == 1 && (ids[0] == 0 || ids[0] > vocab.len()) ==> decode_text(vocab, ids) == seq![
            '<',
            'U',
            'N',
            'K',
            '>',
        ],
{
}

} // verus!
