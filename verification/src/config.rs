//! The runtime's settings, read from `key = value` lines.

use vstd::prelude::*;

use crate::text::{
    chars_of, decimal, in_class, is_digit, lemma_parse_decimal, lemma_single_line, lemma_trim_by_span,
    line_bounds, lines, parse_usize_chars, parse_usize_spec, same_text, string_of, trim, trim_bounds, trim_by,
    CharClass,
};

verus! {

/// Where the runtime finds its files, and how many workers it starts.
#[derive(Debug, Clone)]
pub struct AppConfig {
    /// The JSON file of keyword rules.
    pub rules_path: String,
    /// The corpus of the Markov model.
    pub markov_corpus_path: String,
    /// The file that keeps the history.
    pub history_path: String,
    /// How many workers the demonstration starts; at least 1 when read from a file.
    pub worker_count: usize,
}

/// The settings as character sequences.
pub struct ConfigSpec {
    pub rules_path: Seq<char>,
    pub markov_corpus_path: Seq<char>,
    pub history_path: Seq<char>,
    pub worker_count: usize,
}

impl View for AppConfig {
    type V = ConfigSpec;

    open spec fn view(&self) -> ConfigSpec {
        ConfigSpec {
            rules_path: self.rules_path@,
            markov_corpus_path: self.markov_corpus_path@,
            history_path: self.history_path@,
            worker_count: self.worker_count,
        }
    }
}

/// The settings used where a file says nothing.
pub open spec fn default_config() -> ConfigSpec {
    ConfigSpec {
        rules_path: "assets/models/rules.json"@,
        markov_corpus_path: "assets/models/markov_corpus.txt"@,
        history_path: "history/history.json"@,
        worker_count: 4,
    }
}

/// The position of the first `=` in `line`.
pub open spec fn first_equals(line: Seq<char>) -> Option<int> {
    if exists|i: int| 0 <= i < line.len() && line[i] == '=' {
        Some(choose|i: int| 0 <= i < line.len() && line[i] == '=' && (forall|j: int| 0 <= j < i ==> #[trigger] line[j] != '='))
    } else {
        None
    }
}

/// The settings after one line: blank lines, lines that start with `#` and
/// lines without `=` change nothing; otherwise the trimmed text before the
/// first `=` names the setting and the trimmed text after it, without
/// surrounding quotes, is its value. Unknown names change nothing, and a
/// worker count that is not a number changes nothing; a count of 0 becomes 1.
pub open spec fn apply_line(c: ConfigSpec, raw: Seq<char>) -> ConfigSpec {
    let line = trim(raw);
    if line.len() == 0 || line[0] == '#' {
        c
    } else {
        match first_equals(line) {
            None => c,
            Some(p) => {
                let key = trim(line.take(p));
                let value = trim_by(trim(line.skip(p + 1)), CharClass::Quote);
                if key == "rules_path"@ {
                    ConfigSpec { rules_path: value, ..c }
                } else if key == "markov_corpus_path"@ {
                    ConfigSpec { markov_corpus_path: value, ..c }
                } else if key == "history_path"@ {
                    ConfigSpec { history_path: value, ..c }
                } else if key == "worker_count"@ {
                    match parse_usize_spec(value) {
                        Some(n) => ConfigSpec { worker_count: if n >= 1 { n } else { 1 }, ..c },
                        None => c,
                    }
                } else {
                    c
                }
            },
        }
    }
}

/// The settings after the lines `ls`, one after another.
pub open spec fn apply_lines(c: ConfigSpec, ls: Seq<Seq<char>>) -> ConfigSpec
    decreases ls.len(),
{
    if ls.len() == 0 {
        c
    } else {
        apply_line(apply_lines(c, ls.drop_last()), ls.last())
    }
}

/// The settings that a file's text gives.
pub open spec fn config_of(text: Seq<char>) -> ConfigSpec {
    apply_lines(default_config(), lines(text))
}

impl Default for AppConfig {
    fn default() -> (c: Self)
        ensures
            c@ == default_config(),
    {
        AppConfig {
            rules_path: "assets/models/rules.json".to_owned(),
            markov_corpus_path: "assets/models/markov_corpus.txt".to_owned(),
            history_path: "history/history.json".to_owned(),
            worker_count: 4,
        }
    }
}

impl AppConfig {
    /// Applies one line, `cs[lo..hi]`, to the settings.
    fn apply(&mut self, cs: &Vec<char>, lo: usize, hi: usize)
        requires
            lo <= hi <= cs.len(),
        ensures
            final(self)@ == apply_line(old(self)@, cs@.subrange(lo as int, hi as int)),
    {
        let ghost raw = cs@.subrange(lo as int, hi as int);
        let (a, b) = trim_bounds(cs, lo, hi, &CharClass::Whitespace);
        let ghost line = cs@.subrange(a as int, b as int);
        assert(line == trim(raw));
        if a == b || cs[a] == '#' {
            return;
        }
        let mut p = a;
        while p < b && cs[p] != '='
            invariant
                a <= p <= b <= cs.len(),
                forall|j: int| a <= j < p ==> cs@[j] != '=',
            decreases b - p,
        {
            p = p + 1;
        }
        if p == b {
            assert(first_equals(line) is None) by {
                if exists|i: int| 0 <= i < line.len() && line[i] == '=' {
                    let i = choose|i: int| 0 <= i < line.len() && line[i] == '=';
                    assert(cs@[a + i] == '=');
                }
            }
            return;
        }
        proof {
            let q = (p - a) as int;
            assert(line[q] == '=');
            let c = choose|c: int|
                0 <= c < line.len() && line[c] == '=' && (forall|j: int| 0 <= j < c ==> #[trigger] line[j] != '=');
            assert(c == q) by {
                if c < q {
                    assert(cs@[a + c] != '=');
                } else if c > q {
                    assert(line[q] != '=');
                }
            }
            assert(line.take(q) =~= cs@.subrange(a as int, p as int));
            assert(line.skip(q + 1) =~= cs@.subrange(p + 1, b as int));
        }
        let (ka, kb) = trim_bounds(cs, a, p, &CharClass::Whitespace);
        let (va, vb) = trim_bounds(cs, p + 1, b, &CharClass::Whitespace);
        let (qa, qb) = trim_bounds(cs, va, vb, &CharClass::Quote);
        let key = string_of(cs, ka, kb);
        let value = string_of(cs, qa, qb);
        if same_text(&key, "rules_path") {
            self.rules_path = value;
        } else if same_text(&key, "markov_corpus_path") {
            self.markov_corpus_path = value;
        } else if same_text(&key, "history_path") {
            self.history_path = value;
        } else if same_text(&key, "worker_count") {
            match parse_usize_chars(cs, qa, qb) {
                Some(n) => {
                    self.worker_count = if n >= 1 { n } else { 1 };
                },
                None => {},
            }
        }
    }

    /// Reads the settings from the text of a configuration file: the
    /// defaults, changed by each line in turn.
    pub fn parse(text: &str) -> (c: Self)
        ensures
            c@ == config_of(text@),
    {
        let cs = chars_of(text);
        let bounds = line_bounds(&cs);
        let ghost ls = lines(cs@);
        let mut c = AppConfig::default();
        let mut j: usize = 0;
        while j < bounds.len()
            invariant
                j <= bounds.len(),
                cs@ == text@,
                ls == lines(cs@),
                bounds.len() == ls.len(),
                forall|q: int|
                    0 <= q < bounds.len() ==> {
                        &&& (#[trigger] bounds@[q]).0 <= bounds@[q].1 <= cs.len()
                        &&& cs@.subrange(bounds@[q].0 as int, bounds@[q].1 as int) == ls[q]
                    },
                c@ == apply_lines(default_config(), ls.take(j as int)),
            decreases bounds.len() - j,
        {
            let (lo, hi) = bounds[j];
            c.apply(&cs, lo, hi);
            assert(ls.take(j + 1).drop_last() =~= ls.take(j as int));
            j = j + 1;
        }
        assert(ls.take(j as int) =~= ls);
        c
    }
}

/// A configuration read from a file always asks for at least one worker.
pub proof fn lemma_config_workers(text: Seq<char>)
    ensures
        config_of(text).worker_count >= 1,
{
    lemma_apply_lines_workers(default_config(), lines(text));
}

proof fn lemma_apply_lines_workers(c: ConfigSpec, ls: Seq<Seq<char>>)
    requires
        c.worker_count >= 1,
    ensures
        apply_lines(c, ls).worker_count >= 1,
    decreases ls.len(),
{
    if ls.len() > 0 {
        lemma_apply_lines_workers(c, ls.drop_last());
    }
}

/// A file whose one line sets `worker_count` to the decimal text of any number
/// `n` asks for exactly `n` workers, or 1 when `n` is 0, with no cap; every
/// other setting keeps its default.
pub proof fn lemma_worker_count_line(n: usize)
    ensures
        config_of("worker_count = "@ + decimal(n as nat)).worker_count == (if n >= 1 { n } else { 1 }),
        config_of("worker_count = "@ + decimal(n as nat)).rules_path == default_config().rules_path,
        config_of("worker_count = "@ + decimal(n as nat)).markov_corpus_path == default_config().markov_corpus_path,
        config_of("worker_count = "@ + decimal(n as nat)).history_path == default_config().history_path,
{
    reveal_strlit("worker_count = ");
    reveal_strlit("worker_count");
    reveal_strlit("rules_path");
    reveal_strlit("markov_corpus_path");
    reveal_strlit("history_path");
    let head = "worker_count = "@;
    let d = decimal(n as nat);
    let t = head + d;
    lemma_parse_decimal(n);
    assert(head.len() == 15);
    assert forall|i: int| 0 <= i < t.len() implies #[trigger] t[i] != '\n' by {
        if i >= 15 {
            assert(t[i] == d[i - 15]);
            assert(is_digit(d[i - 15]));
        }
    }
    lemma_single_line(t);
    let ls = lines(t);
    assert(ls.len() == 1);
    assert(ls.drop_last() =~= Seq::<Seq<char>>::empty());
    assert(apply_lines(default_config(), ls.drop_last()) == default_config());
    assert(ls.last() == t);
    assert(apply_lines(default_config(), lines(t)) == apply_line(default_config(), t));
    // the whole line is already trimmed
    assert(is_digit(t[t.len() - 1]));
    lemma_trim_by_span(t, CharClass::Whitespace, 0, t.len() as int);
    assert(t.subrange(0, t.len() as int) =~= t);
    assert(trim(t) == t);
    // the first `=` stands at position 13
    assert(t[13] == '=');
    assert forall|j: int| 0 <= j < 13 implies #[trigger] t[j] != '=' by {
        assert(t[j] == head[j]);
    }
    let c = choose|c: int| 0 <= c < t.len() && t[c] == '=' && (forall|j: int| 0 <= j < c ==> #[trigger] t[j] != '=');
    assert(c == 13) by {
        if c > 13 {
            assert(t[13] != '=');
        }
    }
    assert(first_equals(t) == Some(13int));
    // the key
    let k = t.take(13);
    assert forall|i: int| 12 <= i < k.len() implies in_class(CharClass::Whitespace, #[trigger] k[i]) by {
        assert(k[i] == ' ');
    }
    lemma_trim_by_span(k, CharClass::Whitespace, 0, 12);
    assert(k.subrange(0, 12) =~= "worker_count"@);
    assert(trim(k) == "worker_count"@);
    assert("worker_count"@ != "rules_path"@);
    assert("worker_count"@ != "markov_corpus_path"@);
    assert("worker_count"@[0] != "history_path"@[0]);
    // the value
    let v = t.skip(14);
    assert(v[0] == ' ');
    assert(v.subrange(1, v.len() as int) =~= d);
    assert(v[1] == d[0]);
    assert(v[v.len() - 1] == d[d.len() - 1]);
    assert(is_digit(d[0]) && is_digit(d[d.len() - 1]));
    lemma_trim_by_span(v, CharClass::Whitespace, 1, v.len() as int);
    assert(trim(v) == d);
    lemma_trim_by_span(d, CharClass::Quote, 0, d.len() as int);
    assert(d.subrange(0, d.len() as int) =~= d);
    assert(trim_by(trim(v), CharClass::Quote) == d);
}

proof fn lemma_key_value_line(key: Seq<char>, v: Seq<char>)
    requires
        key.len() > 0,
        v.len() > 0,
        forall|i: int| 0 <= i < key.len() ==> #[trigger] key[i] != '=' && key[i] != '\n',
        forall|i: int| 0 <= i < v.len() ==> #[trigger] v[i] != '\n',
        !in_class(CharClass::Whitespace, key[0]),
        !in_class(CharClass::Whitespace, key[key.len() - 1]),
        !in_class(CharClass::Whitespace, v[0]),
        !in_class(CharClass::Whitespace, v[v.len() - 1]),
        key[0] != '#',
    ensures
        config_of(key + " = "@ + v) == apply_line(default_config(), key + " = "@ + v),
        trim(key + " = "@ + v) == key + " = "@ + v,
        first_equals(key + " = "@ + v) == Some(key.len() + 1int),
        trim((key + " = "@ + v).take(key.len() + 1int)) == key,
        trim((key + " = "@ + v).skip(key.len() + 2int)) == v,
{
    reveal_strlit(" = ");
    let sep = " = "@;
    let t = key + sep + v;
    let n = key.len() as int;
    assert(sep.len() == 3);
    assert(t.len() == n + 3 + v.len());
    assert forall|i: int| 0 <= i < t.len() implies #[trigger] t[i] != '\n' by {
        if i < n {
            assert(t[i] == key[i]);
        } else if i < n + 3 {
            assert(t[i] == sep[i - n]);
        } else {
            assert(t[i] == v[i - n - 3]);
        }
    }
    lemma_single_line(t);
    let ls = lines(t);
    assert(ls.len() == 1);
    assert(ls.drop_last() =~= Seq::<Seq<char>>::empty());
    assert(apply_lines(default_config(), ls.drop_last()) == default_config());
    assert(ls.last() == t);
    assert(t[0] == key[0]);
    assert(t[t.len() - 1] == v[v.len() - 1]);
    lemma_trim_by_span(t, CharClass::Whitespace, 0, t.len() as int);
    assert(t.subrange(0, t.len() as int) =~= t);
    assert(t[n + 1] == '=');
    assert forall|j: int| 0 <= j < n + 1 implies #[trigger] t[j] != '=' by {
        if j < n {
            assert(t[j] == key[j]);
        }
    }
    let c = choose|c: int| 0 <= c < t.len() && t[c] == '=' && (forall|j: int| 0 <= j < c ==> #[trigger] t[j] != '=');
    assert(c == n + 1) by {
        if c > n + 1 {
            assert(t[n + 1] != '=');
        }
    }
    let k = t.take(n + 1);
    assert(k[n] == ' ');
    assert(k[0] == key[0] && k[n - 1] == key[n - 1]);
    assert forall|i: int| n <= i < k.len() implies in_class(CharClass::Whitespace, #[trigger] k[i]) by {}
    lemma_trim_by_span(k, CharClass::Whitespace, 0, n);
    assert(k.subrange(0, n) =~= key);
    let w = t.skip(n + 2);
    assert(w[0] == ' ');
    assert(w.subrange(1, w.len() as int) =~= v);
    assert(w[1] == v[0]);
    assert(w[w.len() - 1] == v[v.len() - 1]);
    assert forall|i: int| 0 <= i < 1 implies in_class(CharClass::Whitespace, #[trigger] w[i]) by {}
    lemma_trim_by_span(w, CharClass::Whitespace, 1, w.len() as int);
}

/// A one-line file `rules_path = v`, `markov_corpus_path = v` or
/// `history_path = v` sets that path to exactly `v` (any text on one line that
/// neither starts nor ends with whitespace or a double quote) and leaves every
/// other setting at its default.
pub proof fn lemma_path_lines(v: Seq<char>)
    requires
        v.len() > 0,
        forall|i: int| 0 <= i < v.len() ==> #[trigger] v[i] != '\n',
        !in_class(CharClass::Whitespace, v[0]) && v[0] != '"',
        !in_class(CharClass::Whitespace, v[v.len() - 1]) && v[v.len() - 1] != '"',
    ensures
        config_of("rules_path = "@ + v) == (ConfigSpec { rules_path: v, ..default_config() }),
        config_of("markov_corpus_path = "@ + v) == (ConfigSpec { markov_corpus_path: v, ..default_config() }),
        config_of("history_path = "@ + v) == (ConfigSpec { history_path: v, ..default_config() }),
{
    lemma_trim_by_span(v, CharClass::Quote, 0, v.len() as int);
    assert(v.subrange(0, v.len() as int) =~= v);
    reveal_strlit(" = ");
    assert(config_of("rules_path = "@ + v) == (ConfigSpec { rules_path: v, ..default_config() })) by {
        reveal_strlit("rules_path = ");
        reveal_strlit("rules_path");
        let r = "rules_path"@;
        assert("rules_path = "@ =~= r + " = "@);
        lemma_key_value_line(r, v);
    }
    assert(config_of("markov_corpus_path = "@ + v) == (ConfigSpec { markov_corpus_path: v, ..default_config() })) by {
        reveal_strlit("markov_corpus_path = ");
        reveal_strlit("markov_corpus_path");
        reveal_strlit("rules_path");
        let m = "markov_corpus_path"@;
        assert("markov_corpus_path = "@ =~= m + " = "@);
        lemma_key_value_line(m, v);
        assert(m != "rules_path"@);
    }
    assert(config_of("history_path = "@ + v) == (ConfigSpec { history_path: v, ..default_config() })) by {
        reveal_strlit("history_path = ");
        reveal_strlit("history_path");
        reveal_strlit("rules_path");
        reveal_strlit("markov_corpus_path");
        let h = "history_path"@;
        assert("history_path = "@ =~= h + " = "@);
        lemma_key_value_line(h, v);
        assert(h[0] != "rules_path"@[0]);
        assert(h != "markov_corpus_path"@);
    }
}

} // verus!
