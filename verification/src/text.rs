//! Text primitives shared by the tokenizer, the models and the parsers, each
//! stated over the character sequence that a string views as.

use vstd::prelude::*;

verus! {

// ---------------------------------------------------------------------------
// Character classes and case mapping
// ---------------------------------------------------------------------------

/// The Unicode `White_Space` property of a character: the controls U+0009 to
/// U+000D, the space, U+0085, the no-break space, U+1680, U+2000 to U+200A,
/// the line and paragraph separators, U+202F, U+205F and U+3000.
pub open spec fn is_white_space(c: char) -> bool {
    let x = c as u32;
    (0x09 <= x && x <= 0x0D) || x == 0x20 || x == 0x85 || x == 0xA0 || x == 0x1680 || (0x2000 <= x
        && x <= 0x200A) || x == 0x2028 || x == 0x2029 || x == 0x202F || x == 0x205F || x == 0x3000
}

/// The Unicode `Alphabetic` or `Numeric` property of a character.
pub uninterp spec fn is_alphanumeric(c: char) -> bool;

/// The full Unicode lowercase mapping of a string.
pub uninterp spec fn lowercase(s: Seq<char>) -> Seq<char>;

/// Whether the character has the Unicode `White_Space` property (as
/// `char::is_whitespace` decides it).
pub fn char_is_whitespace(c: char) -> (b: bool)
    ensures
        b == is_white_space(c),
{
    let x = c as u32;
    (0x09 <= x && x <= 0x0D) || x == 0x20 || x == 0x85 || x == 0xA0 || x == 0x1680 || (0x2000 <= x
        && x <= 0x200A) || x == 0x2028 || x == 0x2029 || x == 0x202F || x == 0x205F || x == 0x3000
}

/// Whether `c` is an ASCII letter or digit.
pub open spec fn is_ascii_alphanumeric(c: char) -> bool {
    ('a' <= c && c <= 'z') || ('A' <= c && c <= 'Z') || ('0' <= c && c <= '9')
}

/// `c` with an ASCII upper-case letter mapped to its lower case.
pub open spec fn ascii_lower(c: char) -> char {
    if 'A' <= c && c <= 'Z' {
        ((c as u32) + 32) as char
    } else {
        c
    }
}

/// Whether every character of `s` is ASCII.
pub open spec fn all_ascii(s: Seq<char>) -> bool {
    forall|i: int| 0 <= i < s.len() ==> (#[trigger] s[i] as u32) < 128
}

/// `char::is_alphanumeric`: whether the character is alphabetic or numeric in
/// Unicode. The tables are named, not written out; on ASCII characters the
/// answer is that of the ASCII letters and digits, as the documentation says.
#[verifier::external_body]
pub(crate) fn char_is_alphanumeric(c: char) -> (b: bool)
    ensures
        b == is_alphanumeric(c),
        (c as u32) < 128 ==> (b == is_ascii_alphanumeric(c)),
{
    c.is_alphanumeric()
}

/// `str::to_lowercase`: the Unicode lowercase mapping of the whole string.
/// The mapping is named, not written out; on an all-ASCII string it maps
/// each upper-case letter to its lower case and keeps every other character.
#[verifier::external_body]
pub(crate) fn to_lowercase(s: &str) -> (r: String)
    ensures
        r@ == lowercase(s@),
        all_ascii(s@) ==> r@ == s@.map_values(|c: char| ascii_lower(c)),
{
    s.to_lowercase()
}

/// Whether the string `s` equals `lit`.
pub fn same_text(s: &String, lit: &str) -> (b: bool)
    ensures
        b == (s@ == lit@),
{
    *s == lit.to_owned()
}

/// `String::push`: appends one character at the end of the string.
#[verifier::external_body]
pub(crate) fn push_char(s: &mut String, c: char)
    ensures
        final(s)@ == old(s)@.push(c),
{
    s.push(c)
}

// ---------------------------------------------------------------------------
// Conversions between strings and character vectors
// ---------------------------------------------------------------------------

/// The characters of `s`, in order.
pub fn chars_of(s: &str) -> (v: Vec<char>)
    ensures
        v@ == s@,
{
    let mut v: Vec<char> = Vec::new();
    for c in it: s.chars()
        invariant
            it.seq() == s@,
            v@ == it.seq().take(it.index() as int),
    {
        v.push(c);
    }
    v
}

/// The string made of the characters `cs[lo..hi]`.
pub fn string_of(cs: &Vec<char>, lo: usize, hi: usize) -> (s: String)
    requires
        lo <= hi <= cs.len(),
    ensures
        s@ == cs@.subrange(lo as int, hi as int),
{
    let mut s = String::new();
    let mut i = lo;
    while i < hi
        invariant
            lo <= i <= hi <= cs.len(),
            s@ == cs@.subrange(lo as int, i as int),
        decreases hi - i,
    {
        push_char(&mut s, cs[i]);
        i = i + 1;
        assert(s@ =~= cs@.subrange(lo as int, i as int));
    }
    s
}

// ---------------------------------------------------------------------------
// Words
// ---------------------------------------------------------------------------

/// The words already finished and the word being read, after reading `s` from
/// the left: a whitespace character ends the current word, any other
/// character extends it.
pub open spec fn split_state(s: Seq<char>) -> (Seq<Seq<char>>, Seq<char>)
    decreases s.len(),
{
    if s.len() == 0 {
        (Seq::empty(), Seq::empty())
    } else {
        let prev = split_state(s.drop_last());
        let c = s.last();
        if is_white_space(c) {
            if prev.1.len() > 0 {
                (prev.0.push(prev.1), Seq::empty())
            } else {
                (prev.0, Seq::empty())
            }
        } else {
            (prev.0, prev.1.push(c))
        }
    }
}

/// The words of `s`: its maximal runs of non-whitespace characters, in order.
pub open spec fn words(s: Seq<char>) -> Seq<Seq<char>> {
    let st = split_state(s);
    if st.1.len() > 0 {
        st.0.push(st.1)
    } else {
        st.0
    }
}

proof fn lemma_split_after_space(a: Seq<char>, sp: char, b: Seq<char>)
    requires
        is_white_space(sp),
    ensures
        split_state(a + seq![sp] + b).0 == words(a) + split_state(b).0,
        split_state(a + seq![sp] + b).1 == split_state(b).1,
    decreases b.len(),
{
    let h = a + seq![sp];
    if b.len() == 0 {
        assert(h + b =~= h);
        assert(h.drop_last() =~= a);
        assert(h.last() == sp);
        assert(split_state(b).0 =~= Seq::<Seq<char>>::empty());
        assert(words(a) + split_state(b).0 =~= words(a));
    } else {
        let bp = b.drop_last();
        lemma_split_after_space(a, sp, bp);
        assert((h + b).drop_last() =~= h + bp);
        assert((h + b).last() == b.last());
        let q = split_state(bp);
        if is_white_space(b.last()) && q.1.len() > 0 {
            assert((words(a) + q.0).push(q.1) =~= words(a) + q.0.push(q.1));
        }
    }
}

/// Whether no character of `w` is whitespace.
pub open spec fn no_white_space(w: Seq<char>) -> bool {
    forall|j: int| 0 <= j < w.len() ==> !is_white_space(#[trigger] w[j])
}

proof fn lemma_split_parts(s: Seq<char>)
    ensures
        forall|i: int|
            0 <= i < split_state(s).0.len() ==> (#[trigger] split_state(s).0[i]).len() > 0 && no_white_space(
                split_state(s).0[i],
            ),
        no_white_space(split_state(s).1),
    decreases s.len(),
{
    if s.len() > 0 {
        let p = s.drop_last();
        lemma_split_parts(p);
        let q = split_state(p);
        let c = s.last();
        if is_white_space(c) {
            if q.1.len() > 0 {
                let r = q.0.push(q.1);
                assert forall|i: int| 0 <= i < r.len() implies (#[trigger] r[i]).len() > 0 && no_white_space(r[i]) by {
                    if i < q.0.len() {
                        assert(r[i] == q.0[i]);
                    }
                }
            }
            assert(no_white_space(Seq::<char>::empty()));
        } else {
            let w = q.1.push(c);
            assert forall|j: int| 0 <= j < w.len() implies !is_white_space(#[trigger] w[j]) by {
                if j < q.1.len() {
                    assert(w[j] == q.1[j]);
                }
            }
        }
    }
}

/// The words of a text are its maximal runs of characters that are not
/// whitespace: each word is non-empty and holds no whitespace; a non-empty
/// text without whitespace is one word; and a whitespace character splits a
/// text into the words before it followed by the words after it.
pub proof fn lemma_words(a: Seq<char>, sp: char, b: Seq<char>)
    ensures
        forall|i: int| 0 <= i < words(a).len() ==> (#[trigger] words(a)[i]).len() > 0 && no_white_space(words(a)[i]),
        a.len() > 0 && no_white_space(a) ==> words(a) == seq![a],
        is_white_space(sp) ==> words(a + seq![sp] + b) == words(a) + words(b),
{
    lemma_split_parts(a);
    let st = split_state(a);
    if st.1.len() > 0 {
        assert forall|i: int| 0 <= i < words(a).len() implies (#[trigger] words(a)[i]).len() > 0 && no_white_space(
            words(a)[i],
        ) by {
            if i < st.0.len() {
                assert(words(a)[i] == st.0[i]);
            }
        }
    }
    if a.len() > 0 && no_white_space(a) {
        lemma_split_run(a);
        assert(Seq::<Seq<char>>::empty().push(a) =~= seq![a]);
    }
    if is_white_space(sp) {
        lemma_split_after_space(a, sp, b);
        let q = split_state(b);
        if q.1.len() > 0 {
            assert((words(a) + q.0).push(q.1) =~= words(a) + q.0.push(q.1));
        }
    }
}

proof fn lemma_split_run(s: Seq<char>)
    requires
        forall|j: int| 0 <= j < s.len() ==> !is_white_space(#[trigger] s[j]),
    ensures
        split_state(s).0.len() == 0,
        split_state(s).1 == s,
    decreases s.len(),
{
    if s.len() > 0 {
        let p = s.drop_last();
        assert forall|j: int| 0 <= j < p.len() implies !is_white_space(#[trigger] p[j]) by {
            assert(p[j] == s[j]);
        }
        lemma_split_run(p);
        assert(s.last() == s[s.len() - 1]);
        assert(p.push(s.last()) =~= s);
    }
}

/// The words of `s` (as `str::split_whitespace` gives them).
pub fn split_whitespace(s: &str) -> (r: Vec<String>)
    ensures
        r.deep_view() == words(s@),
{
    let cs = chars_of(s);
    let mut out: Vec<String> = Vec::new();
    let mut start: usize = 0;
    let mut i: usize = 0;
    while i < cs.len()
        invariant
            cs@ == s@,
            start <= i <= cs.len(),
            out.deep_view() == split_state(cs@.take(i as int)).0,
            cs@.subrange(start as int, i as int) == split_state(cs@.take(i as int)).1,
        decreases cs.len() - i,
    {
        assert(cs@.take(i + 1).drop_last() =~= cs@.take(i as int));
        let ghost prev = out.deep_view();
        if char_is_whitespace(cs[i]) {
            if start < i {
                let w = string_of(&cs, start, i);
                out.push(w);
                assert(out.deep_view() =~= prev.push(w@));
            }
            start = i + 1;
        }
        i = i + 1;
        assert(cs@.subrange(start as int, i as int) =~= split_state(cs@.take(i as int)).1);
    }
    assert(cs@.take(i as int) =~= cs@);
    if start < i {
        let ghost prev = out.deep_view();
        let w = string_of(&cs, start, i);
        out.push(w);
        assert(out.deep_view() =~= prev.push(w@));
    }
    out
}

// ---------------------------------------------------------------------------
// Trimming
// ---------------------------------------------------------------------------

/// A class of characters that a trim strips from both ends of a string.
pub enum CharClass {
    /// Characters with the Unicode `White_Space` property.
    Whitespace,
    /// Characters that are neither alphabetic nor numeric.
    NonAlphanumeric,
    /// The double quote `"`.
    Quote,
}

/// Whether `c` belongs to the class `k`.
pub open spec fn in_class(k: CharClass, c: char) -> bool {
    match k {
        CharClass::Whitespace => is_white_space(c),
        CharClass::NonAlphanumeric => !is_alphanumeric(c),
        CharClass::Quote => c == '"',
    }
}

fn class_test(k: &CharClass, c: char) -> (b: bool)
    ensures
        b == in_class(*k, c),
{
    match k {
        CharClass::Whitespace => char_is_whitespace(c),
        CharClass::NonAlphanumeric => !char_is_alphanumeric(c),
        CharClass::Quote => c == '"',
    }
}

/// `s` without its leading characters of class `k`.
pub open spec fn trim_start_by(s: Seq<char>, k: CharClass) -> Seq<char>
    decreases s.len(),
{
    if s.len() > 0 && in_class(k, s[0]) {
        trim_start_by(s.drop_first(), k)
    } else {
        s
    }
}

/// `s` without its trailing characters of class `k`.
pub open spec fn trim_end_by(s: Seq<char>, k: CharClass) -> Seq<char>
    decreases s.len(),
{
    if s.len() > 0 && in_class(k, s.last()) {
        trim_end_by(s.drop_last(), k)
    } else {
        s
    }
}

/// `s` without its leading and trailing characters of class `k`
/// (as `str::trim_matches` gives it).
pub open spec fn trim_by(s: Seq<char>, k: CharClass) -> Seq<char> {
    trim_end_by(trim_start_by(s, k), k)
}

/// `s` without leading and trailing whitespace (as `str::trim` gives it).
pub open spec fn trim(s: Seq<char>) -> Seq<char> {
    trim_by(s, CharClass::Whitespace)
}

proof fn lemma_trim_start(s: Seq<char>, k: CharClass, n: int)
    requires
        0 <= n <= s.len(),
        forall|i: int| 0 <= i < n ==> in_class(k, #[trigger] s[i]),
        n < s.len() ==> !in_class(k, s[n]),
    ensures
        trim_start_by(s, k) == s.subrange(n, s.len() as int),
    decreases n,
{
    if n == 0 {
        assert(s.subrange(0, s.len() as int) =~= s);
    } else {
        assert(in_class(k, s[0]));
        let t = s.drop_first();
        assert forall|i: int| 0 <= i < n - 1 implies in_class(k, #[trigger] t[i]) by {
            assert(t[i] == s[i + 1]);
        }
        lemma_trim_start(t, k, n - 1);
        assert(t.subrange(n - 1, t.len() as int) =~= s.subrange(n, s.len() as int));
    }
}

proof fn lemma_trim_end(s: Seq<char>, k: CharClass, n: int)
    requires
        0 <= n <= s.len(),
        forall|i: int| n <= i < s.len() ==> in_class(k, #[trigger] s[i]),
        n > 0 ==> !in_class(k, s[n - 1]),
    ensures
        trim_end_by(s, k) == s.subrange(0, n),
    decreases s.len() - n,
{
    if n == s.len() {
        assert(s.subrange(0, n) =~= s);
    } else {
        assert(in_class(k, s.last()));
        let t = s.drop_last();
        assert forall|i: int| n <= i < t.len() implies in_class(k, #[trigger] t[i]) by {
            assert(t[i] == s[i]);
        }
        lemma_trim_end(t, k, n);
        assert(t.subrange(0, n) =~= s.subrange(0, n));
    }
}

/// Trimming keeps exactly the run from the first to the last character outside
/// class `k`: when everything before `lo` and from `hi` on is of class `k`,
/// and the characters at `lo` and at `hi - 1` are not (or `lo == hi`), the
/// trimmed text is `s[lo..hi]`.
pub proof fn lemma_trim_by_span(s: Seq<char>, k: CharClass, lo: int, hi: int)
    requires
        0 <= lo <= hi <= s.len(),
        forall|i: int| 0 <= i < lo ==> in_class(k, #[trigger] s[i]),
        forall|i: int| hi <= i < s.len() ==> in_class(k, #[trigger] s[i]),
        lo < hi ==> !in_class(k, s[lo]) && !in_class(k, s[hi - 1]),
    ensures
        trim_by(s, k) == s.subrange(lo, hi),
{
    if lo == hi {
        assert forall|i: int| 0 <= i < s.len() implies in_class(k, #[trigger] s[i]) by {
            if i >= lo {
                assert(hi <= i);
            }
        }
        lemma_trim_start(s, k, s.len() as int);
        let t = s.subrange(s.len() as int, s.len() as int);
        assert(t.len() == 0);
        assert(trim_end_by(t, k) == t);
        assert(t =~= s.subrange(lo, hi));
    } else {
        lemma_trim_start(s, k, lo);
        let t = s.subrange(lo, s.len() as int);
        assert forall|i: int| hi - lo <= i < t.len() implies in_class(k, #[trigger] t[i]) by {
            assert(t[i] == s[lo + i]);
        }
        assert(t[hi - lo - 1] == s[hi - 1]);
        lemma_trim_end(t, k, hi - lo);
        assert(t.subrange(0, hi - lo) =~= s.subrange(lo, hi));
    }
}

/// A leading character of class `k` makes no difference to the trimmed text.
pub proof fn lemma_trim_by_prepend(s: Seq<char>, k: CharClass, c: char)
    requires
        in_class(k, c),
    ensures
        trim_by(seq![c] + s, k) == trim_by(s, k),
{
    let t = seq![c] + s;
    assert(t.drop_first() =~= s);
    assert(t[0] == c);
}

/// The bounds, inside `[lo, hi)`, of `cs[lo..hi]` trimmed of class `k`.
pub(crate) fn trim_bounds(cs: &Vec<char>, lo: usize, hi: usize, k: &CharClass) -> (r: (usize, usize))
    requires
        lo <= hi <= cs.len(),
    ensures
        lo <= r.0 <= r.1 <= hi,
        cs@.subrange(r.0 as int, r.1 as int) == trim_by(cs@.subrange(lo as int, hi as int), *k),
{
    let ghost s = cs@.subrange(lo as int, hi as int);
    let mut a = lo;
    while a < hi && class_test(k, cs[a])
        invariant
            lo <= a <= hi <= cs.len(),
            s == cs@.subrange(lo as int, hi as int),
            forall|i: int| lo <= i < a ==> in_class(*k, #[trigger] cs@[i]),
        decreases hi - a,
    {
        a = a + 1;
    }
    proof {
        assert forall|i: int| 0 <= i < a - lo implies in_class(*k, #[trigger] s[i]) by {
            assert(s[i] == cs@[lo + i]);
        }
        lemma_trim_start(s, *k, a - lo);
    }
    let mut b = hi;
    while b > a && class_test(k, cs[b - 1])
        invariant
            lo <= a <= b <= hi <= cs.len(),
            forall|i: int| b <= i < hi ==> in_class(*k, #[trigger] cs@[i]),
        decreases b - a,
    {
        b = b - 1;
    }
    proof {
        let t = s.subrange(a - lo, s.len() as int);
        assert(t =~= cs@.subrange(a as int, hi as int));
        assert forall|i: int| b - a <= i < t.len() implies in_class(*k, #[trigger] t[i]) by {
            assert(t[i] == cs@[a + i]);
        }
        if b > a {
            assert(t[b - a - 1] == cs@[b - 1]);
        }
        lemma_trim_end(t, *k, b - a);
        assert(t.subrange(0, b - a) =~= cs@.subrange(a as int, b as int));
    }
    (a, b)
}

/// `s` trimmed of the characters of class `k` at both ends.
pub fn trim_str(s: &str, k: CharClass) -> (r: String)
    ensures
        r@ == trim_by(s@, k),
{
    let cs = chars_of(s);
    let (a, b) = trim_bounds(&cs, 0, cs.len(), &k);
    assert(cs@.subrange(0, cs@.len() as int) =~= cs@);
    string_of(&cs, a, b)
}

/// Whether `s` holds only whitespace (or nothing).
pub fn is_blank(s: &str) -> (b: bool)
    ensures
        b == (trim(s@).len() == 0),
{
    let cs = chars_of(s);
    let (a, b) = trim_bounds(&cs, 0, cs.len(), &CharClass::Whitespace);
    assert(cs@.subrange(0, cs@.len() as int) =~= cs@);
    a == b
}

// ---------------------------------------------------------------------------
// Lines
// ---------------------------------------------------------------------------

/// `l` without one final carriage return.
pub open spec fn strip_cr(l: Seq<char>) -> Seq<char> {
    if l.len() > 0 && l.last() == '\r' {
        l.drop_last()
    } else {
        l
    }
}

/// The lines already finished and the line being read, after reading `s`
/// from the left: a line feed ends the current line, and with it one carriage
/// return just before it.
pub open spec fn line_state(s: Seq<char>) -> (Seq<Seq<char>>, Seq<char>)
    decreases s.len(),
{
    if s.len() == 0 {
        (Seq::empty(), Seq::empty())
    } else {
        let prev = line_state(s.drop_last());
        if s.last() == '\n' {
            (prev.0.push(strip_cr(prev.1)), Seq::empty())
        } else {
            (prev.0, prev.1.push(s.last()))
        }
    }
}

/// The lines of `s` (as `str::lines` gives them): split at each line feed,
/// a carriage return before a line feed dropped, no empty line after a final
/// line feed.
pub open spec fn lines(s: Seq<char>) -> Seq<Seq<char>> {
    let st = line_state(s);
    if st.1.len() > 0 {
        st.0.push(st.1)
    } else {
        st.0
    }
}

proof fn lemma_line_state_open(s: Seq<char>)
    requires
        forall|i: int| 0 <= i < s.len() ==> #[trigger] s[i] != '\n',
    ensures
        line_state(s).0.len() == 0,
        line_state(s).1 == s,
    decreases s.len(),
{
    if s.len() > 0 {
        let p = s.drop_last();
        assert forall|i: int| 0 <= i < p.len() implies #[trigger] p[i] != '\n' by {
            assert(p[i] == s[i]);
        }
        lemma_line_state_open(p);
        assert(s.last() == s[s.len() - 1]);
        assert(p.push(s.last()) =~= s);
    }
}

/// A text without a line feed is a single line, when it is not empty.
pub proof fn lemma_single_line(s: Seq<char>)
    requires
        s.len() > 0,
        forall|i: int| 0 <= i < s.len() ==> #[trigger] s[i] != '\n',
    ensures
        lines(s) == seq![s],
{
    lemma_line_state_open(s);
    assert(Seq::<Seq<char>>::empty().push(s) =~= seq![s]);
}

proof fn lemma_line_after_feed(a: Seq<char>, b: Seq<char>)
    ensures
        line_state(a + seq!['\n'] + b).0 == line_state(a).0.push(strip_cr(line_state(a).1)) + line_state(b).0,
        line_state(a + seq!['\n'] + b).1 == line_state(b).1,
    decreases b.len(),
{
    let h = a + seq!['\n'];
    if b.len() == 0 {
        assert(h + b =~= h);
        assert(h.drop_last() =~= a);
        assert(h.last() == '\n');
        let z = line_state(a).0.push(strip_cr(line_state(a).1));
        assert(z + line_state(b).0 =~= z);
    } else {
        let bp = b.drop_last();
        lemma_line_after_feed(a, bp);
        assert((h + b).drop_last() =~= h + bp);
        assert((h + b).last() == b.last());
        let z = line_state(a).0.push(strip_cr(line_state(a).1));
        let q = line_state(bp);
        if b.last() == '\n' {
            assert((z + q.0).push(strip_cr(q.1)) =~= z + q.0.push(strip_cr(q.1)));
        }
    }
}

/// A line feed ends a line: a text whose first line `a` holds no line feed
/// and no carriage return reads as `a` followed by the lines of the rest,
/// whether `a` ends with a line feed alone or with a carriage return and a
/// line feed.
pub proof fn lemma_first_line(a: Seq<char>, b: Seq<char>)
    requires
        forall|i: int| 0 <= i < a.len() ==> #[trigger] a[i] != '\n' && a[i] != '\r',
    ensures
        lines(a + seq!['\n'] + b) == seq![a] + lines(b),
        lines(a + seq!['\r', '\n'] + b) == seq![a] + lines(b),
{
    lemma_line_state_open(a);
    lemma_line_after_feed(a, b);
    if a.len() > 0 {
        assert(a.last() == a[a.len() - 1]);
    }
    assert(strip_cr(a) == a);
    assert(Seq::<Seq<char>>::empty().push(a) =~= seq![a]);
    let q = line_state(b);
    if q.1.len() > 0 {
        assert((seq![a] + q.0).push(q.1) =~= seq![a] + q.0.push(q.1));
    }
    let ar = a.push('\r');
    assert forall|i: int| 0 <= i < ar.len() implies #[trigger] ar[i] != '\n' by {
        if i < a.len() {
            assert(ar[i] == a[i]);
        }
    }
    lemma_line_state_open(ar);
    lemma_line_after_feed(ar, b);
    assert(ar + seq!['\n'] + b =~= a + seq!['\r', '\n'] + b);
    assert(ar.drop_last() =~= a);
}

/// The bounds in `cs` of each of its lines, in order.
pub(crate) fn line_bounds(cs: &Vec<char>) -> (r: Vec<(usize, usize)>)
    ensures
        r.len() == lines(cs@).len(),
        forall|j: int|
            0 <= j < r.len() ==> {
                &&& (#[trigger] r@[j]).0 <= r@[j].1 <= cs.len()
                &&& cs@.subrange(r@[j].0 as int, r@[j].1 as int) == lines(cs@)[j]
            },
{
    let mut out: Vec<(usize, usize)> = Vec::new();
    let mut start: usize = 0;
    let mut i: usize = 0;
    while i < cs.len()
        invariant
            start <= i <= cs.len(),
            out.len() == line_state(cs@.take(i as int)).0.len(),
            forall|j: int|
                0 <= j < out.len() ==> {
                    &&& (#[trigger] out@[j]).0 <= out@[j].1 <= cs.len()
                    &&& cs@.subrange(out@[j].0 as int, out@[j].1 as int) == line_state(
                        cs@.take(i as int),
                    ).0[j]
                },
            cs@.subrange(start as int, i as int) == line_state(cs@.take(i as int)).1,
        decreases cs.len() - i,
    {
        assert(cs@.take(i + 1).drop_last() =~= cs@.take(i as int));
        if cs[i] == '\n' {
            let end = if start < i && cs[i - 1] == '\r' {
                i - 1
            } else {
                i
            };
            assert(cs@.subrange(start as int, end as int) =~= strip_cr(
                cs@.subrange(start as int, i as int),
            ));
            out.push((start, end));
            start = i + 1;
        }
        i = i + 1;
        assert(cs@.subrange(start as int, i as int) =~= line_state(cs@.take(i as int)).1);
    }
    assert(cs@.take(i as int) =~= cs@);
    if start < i {
        out.push((start, i));
    }
    out
}

// ---------------------------------------------------------------------------
// Joining, searching, comparing
// ---------------------------------------------------------------------------

/// The parts of `parts` with `sep` between each two neighbours.
pub open spec fn join(parts: Seq<Seq<char>>, sep: Seq<char>) -> Seq<char>
    decreases parts.len(),
{
    if parts.len() == 0 {
        Seq::empty()
    } else if parts.len() == 1 {
        parts[0]
    } else {
        join(parts.drop_last(), sep) + sep + parts.last()
    }
}

/// Joining words with single spaces and splitting the result at whitespace
/// gives the words back, when each is non-empty and holds no whitespace.
pub proof fn lemma_words_join(ws: Seq<Seq<char>>)
    requires
        forall|i: int| 0 <= i < ws.len() ==> (#[trigger] ws[i]).len() > 0 && no_white_space(ws[i]),
    ensures
        words(join(ws, seq![' '])) == ws,
    decreases ws.len(),
{
    assert(is_white_space(' '));
    if ws.len() == 0 {
        assert(split_state(Seq::<char>::empty()).1.len() == 0);
        assert(words(Seq::<char>::empty()) =~= Seq::<Seq<char>>::empty());
    } else if ws.len() == 1 {
        assert(ws[0].len() > 0 && no_white_space(ws[0]));
        lemma_words(ws[0], ' ', Seq::empty());
        assert(seq![ws[0]] =~= ws);
    } else {
        let p = ws.drop_last();
        assert forall|i: int| 0 <= i < p.len() implies (#[trigger] p[i]).len() > 0 && no_white_space(p[i]) by {
            assert(p[i] == ws[i]);
        }
        lemma_words_join(p);
        let x = ws.last();
        assert(x == ws[ws.len() - 1]);
        lemma_words(join(p, seq![' ']), ' ', x);
        lemma_words(x, ' ', Seq::empty());
        assert(p + seq![x] =~= ws);
    }
}

/// The strings of `parts` with `sep` between each two neighbours
/// (as `join` on a slice of strings gives it).
pub fn join_strings(parts: &Vec<String>, sep: &str) -> (r: String)
    ensures
        r@ == join(parts.deep_view(), sep@),
{
    let mut r = String::new();
    let mut i: usize = 0;
    while i < parts.len()
        invariant
            i <= parts.len(),
            r@ == join(parts.deep_view().take(i as int), sep@),
        decreases parts.len() - i,
    {
        assert(parts.deep_view().take(i + 1).drop_last() =~= parts.deep_view().take(i as int));
        if i > 0 {
            r.append(sep);
        } else {
            assert(r@ + parts[0 as int]@ =~= parts[0 as int]@);
        }
        r.append(parts[i].as_str());
        i = i + 1;
    }
    assert(parts.deep_view().take(i as int) =~= parts.deep_view());
    r
}

/// Whether `t` occurs in `s` as a contiguous run.
pub open spec fn contains_seq(s: Seq<char>, t: Seq<char>) -> bool {
    exists|i: int| 0 <= i && i + t.len() <= s.len() && #[trigger] s.subrange(i, i + t.len()) == t
}

fn matches_at(s: &Vec<char>, t: &Vec<char>, at: usize) -> (b: bool)
    requires
        at + t.len() <= s.len(),
    ensures
        b == (s@.subrange(at as int, at + t.len()) == t@),
{
    let mut j: usize = 0;
    while j < t.len()
        invariant
            j <= t.len(),
            at + t.len() <= s.len(),
            forall|m: int| 0 <= m < j ==> s@[at + m] == t@[m],
        decreases t.len() - j,
    {
        if s[at + j] != t[j] {
            assert(s@.subrange(at as int, at + t.len())[j as int] != t@[j as int]);
            return false;
        }
        j = j + 1;
    }
    assert(s@.subrange(at as int, at + t.len()) =~= t@);
    true
}

/// Whether the characters `t` occur in `s` as a contiguous run.
pub fn contains_chars(s: &Vec<char>, t: &Vec<char>) -> (b: bool)
    ensures
        b == contains_seq(s@, t@),
{
    if t.len() > s.len() {
        return false;
    }
    let last = s.len() - t.len();
    let mut i: usize = 0;
    while i < last
        invariant
            t.len() <= s.len(),
            last == s.len() - t.len(),
            i <= last,
            forall|m: int| 0 <= m < i ==> #[trigger] s@.subrange(m, m + t.len()) != t@,
        decreases last - i,
    {
        if matches_at(s, t, i) {
            return true;
        }
        i = i + 1;
    }
    if matches_at(s, t, last) {
        return true;
    }
    assert(!contains_seq(s@, t@)) by {
        if exists|m: int| 0 <= m && m + t.len() <= s.len() && #[trigger] s@.subrange(m, m + t.len()) == t@ {
            let m = choose|m: int| 0 <= m && m + t.len() <= s.len() && #[trigger] s@.subrange(m, m + t.len()) == t@;
            assert(s@.subrange(m, m + t.len()) != t@);
        }
    }
    false
}

/// Whether `s` begins with `t`.
pub fn starts_with_chars(s: &Vec<char>, t: &Vec<char>) -> (b: bool)
    ensures
        b == t@.is_prefix_of(s@),
{
    if t.len() > s.len() {
        return false;
    }
    let r = matches_at(s, t, 0);
    assert(r == t@.is_prefix_of(s@)) by {
        if t@.is_prefix_of(s@) {
            assert(s@.subrange(0, t.len() as int) =~= t@);
        }
    }
    r
}

/// The code of `c` with ASCII upper case mapped to lower case.
pub open spec fn ascii_fold(c: char) -> u32 {
    if 'A' <= c && c <= 'Z' {
        (c as u32 + 32) as u32
    } else {
        c as u32
    }
}

/// Whether `a` and `b` are equal when ASCII letters are compared without case.
pub open spec fn eq_ignore_ascii_case(a: Seq<char>, b: Seq<char>) -> bool {
    a.len() == b.len() && forall|i: int| 0 <= i < a.len() ==> ascii_fold(#[trigger] a[i]) == ascii_fold(b[i])
}

fn fold_code(c: char) -> (r: u32)
    ensures
        r == ascii_fold(c),
{
    if 'A' <= c && c <= 'Z' {
        c as u32 + 32
    } else {
        c as u32
    }
}

/// Whether `a` and `b` are equal when ASCII letters are compared without case
/// (as `str::eq_ignore_ascii_case` decides it).
pub fn str_eq_ignore_ascii_case(a: &str, b: &str) -> (r: bool)
    ensures
        r == eq_ignore_ascii_case(a@, b@),
{
    let x = chars_of(a);
    let y = chars_of(b);
    if x.len() != y.len() {
        return false;
    }
    let mut i: usize = 0;
    while i < x.len()
        invariant
            x@ == a@,
            y@ == b@,
            x.len() == y.len(),
            i <= x.len(),
            forall|m: int| 0 <= m < i ==> ascii_fold(#[trigger] x@[m]) == ascii_fold(y@[m]),
        decreases x.len() - i,
    {
        if fold_code(x[i]) != fold_code(y[i]) {
            return false;
        }
        i = i + 1;
    }
    true
}

// ---------------------------------------------------------------------------
// Unsigned integers
// ---------------------------------------------------------------------------

/// Whether `c` is an ASCII decimal digit.
pub open spec fn is_digit(c: char) -> bool {
    '0' <= c && c <= '9'
}

/// The number that the decimal digits `d` spell.
pub open spec fn digits_value(d: Seq<char>) -> nat
    decreases d.len(),
{
    if d.len() == 0 {
        0
    } else {
        digits_value(d.drop_last()) * 10 + (d.last() as nat - '0' as nat) as nat
    }
}

/// The digits of an unsigned number: `s` without one leading `+`.
pub open spec fn unsigned_digits(s: Seq<char>) -> Seq<char> {
    if s.len() > 0 && s[0] == '+' {
        s.drop_first()
    } else {
        s
    }
}

/// The `usize` that `s` spells (as `str::parse::<usize>` reads it): an
/// optional `+`, then one or more ASCII digits, of a value that fits.
pub open spec fn parse_usize_spec(s: Seq<char>) -> Option<usize> {
    let d = unsigned_digits(s);
    if d.len() > 0 && (forall|i: int| 0 <= i < d.len() ==> is_digit(#[trigger] d[i]))
        && digits_value(d) <= usize::MAX {
        Some(digits_value(d) as usize)
    } else {
        None
    }
}

proof fn lemma_digits_value_grows(d: Seq<char>, n: int)
    requires
        0 <= n <= d.len(),
        forall|i: int| 0 <= i < d.len() ==> is_digit(#[trigger] d[i]),
    ensures
        digits_value(d.take(n)) <= digits_value(d),
    decreases d.len() - n,
{
    if n < d.len() {
        assert(d.drop_last().take(n) =~= d.take(n));
        lemma_digits_value_grows(d.drop_last(), n);
        assert(is_digit(d.last()));
    } else {
        assert(d.take(n) =~= d);
    }
}

/// The decimal digit for `d`, which is below ten.
pub open spec fn digit_char(d: nat) -> char {
    if d == 0 {
        '0'
    } else if d == 1 {
        '1'
    } else if d == 2 {
        '2'
    } else if d == 3 {
        '3'
    } else if d == 4 {
        '4'
    } else if d == 5 {
        '5'
    } else if d == 6 {
        '6'
    } else if d == 7 {
        '7'
    } else if d == 8 {
        '8'
    } else {
        '9'
    }
}

/// The decimal text of `n`, without sign and without leading zeros.
pub open spec fn decimal(n: nat) -> Seq<char>
    decreases n,
{
    if n < 10 {
        seq![digit_char(n)]
    } else {
        decimal(n / 10).push(digit_char(n % 10))
    }
}

proof fn lemma_digit_char(d: nat)
    requires
        d < 10,
    ensures
        is_digit(digit_char(d)),
        digit_char(d) as nat - '0' as nat == d,
{
}

proof fn lemma_decimal_digits(n: nat)
    ensures
        decimal(n).len() > 0,
        forall|i: int| 0 <= i < decimal(n).len() ==> is_digit(#[trigger] decimal(n)[i]),
        digits_value(decimal(n)) == n,
    decreases n,
{
    if n < 10 {
        let s = decimal(n);
        lemma_digit_char(n);
        assert(s.drop_last() =~= Seq::<char>::empty());
        assert(digits_value(s.drop_last()) == 0);
        assert(s.last() == digit_char(n));
        assert(digits_value(s) == digits_value(s.drop_last()) * 10 + (s.last() as nat - '0' as nat) as nat);
    } else {
        lemma_digit_char(n % 10);
        lemma_decimal_digits(n / 10);
        let s = decimal(n / 10);
        let t = s.push(digit_char(n % 10));
        assert(t.drop_last() =~= s);
        assert(t.last() == digit_char(n % 10));
        assert(digits_value(t) == digits_value(s) * 10 + (digit_char(n % 10) as nat - '0' as nat) as nat);
        assert(n / 10 * 10 + n % 10 == n);
    }
}

/// Reading back the decimal text of any number that fits gives that number.
pub proof fn lemma_parse_decimal(n: usize)
    ensures
        parse_usize_spec(decimal(n as nat)) == Some(n),
        decimal(n as nat).len() > 0,
        forall|i: int| 0 <= i < decimal(n as nat).len() ==> is_digit(#[trigger] decimal(n as nat)[i]),
{
    lemma_decimal_digits(n as nat);
    let d = decimal(n as nat);
    assert(is_digit(d[0]));
    assert(unsigned_digits(d) == d);
}

/// The `usize` that the characters `cs[lo..hi]` spell, if they spell one.
pub(crate) fn parse_usize_chars(cs: &Vec<char>, lo: usize, hi: usize) -> (r: Option<usize>)
    requires
        lo <= hi <= cs.len(),
    ensures
        r == parse_usize_spec(cs@.subrange(lo as int, hi as int)),
{
    let ghost s = cs@.subrange(lo as int, hi as int);
    let mut a = lo;
    if a < hi && cs[a] == '+' {
        a = a + 1;
    }
    let ghost d = cs@.subrange(a as int, hi as int);
    assert(d =~= unsigned_digits(s));
    if a == hi {
        return None;
    }
    let mut value: usize = 0;
    let mut i = a;
    while i < hi
        invariant
            lo <= a <= i <= hi <= cs.len(),
            d == cs@.subrange(a as int, hi as int),
            d == unsigned_digits(cs@.subrange(lo as int, hi as int)),
            forall|m: int| 0 <= m < i - a ==> is_digit(#[trigger] d[m]),
            value == digits_value(d.take(i - a)),
        decreases hi - i,
    {
        let c = cs[i];
        assert(d[i - a] == cs@[i as int]);
        if !('0' <= c && c <= '9') {
            assert(!is_digit(d[i - a]));
            return None;
        }
        assert(d.take(i - a + 1).drop_last() =~= d.take(i - a));
        assert(d.take(i - a + 1).last() == c);
        assert(digits_value(d.take(i - a + 1)) == digits_value(d.take(i - a)) * 10 + (c as nat - '0' as nat));
        let digit = (c as u32 - '0' as u32) as u128;
        let next: u128 = value as u128 * 10 + digit;
        if next > usize::MAX as u128 {
            proof {
                if forall|m: int| 0 <= m < d.len() ==> is_digit(#[trigger] d[m]) {
                    lemma_digits_value_grows(d, i - a + 1);
                }
            }
            return None;
        }
        value = next as usize;
        i = i + 1;
    }
    assert(d.take(i - a) =~= d);
    Some(value)
}

/// Whether the characters of `t` stand in `s`, one by one, from position `i` on.
pub open spec fn occurs_at(s: Seq<char>, t: Seq<char>, i: int) -> bool {
    &&& 0 <= i
    &&& i + t.len() <= s.len()
    &&& forall|j: int| 0 <= j < t.len() ==> s[i + j] == #[trigger] t[j]
}

/// `t` occurs in `s` exactly when, at some position, the characters of `s`
/// from there on are those of `t`, one by one.
pub proof fn lemma_contains_seq(s: Seq<char>, t: Seq<char>)
    ensures
        contains_seq(s, t) <==> exists|i: int| #[trigger] occurs_at(s, t, i),
{
    if contains_seq(s, t) {
        let i = choose|i: int| 0 <= i && i + t.len() <= s.len() && #[trigger] s.subrange(i, i + t.len()) == t;
        assert forall|j: int| 0 <= j < t.len() implies s[i + j] == #[trigger] t[j] by {
            assert(s.subrange(i, i + t.len())[j] == s[i + j]);
        }
        assert(occurs_at(s, t, i));
    }
    if exists|i: int| #[trigger] occurs_at(s, t, i) {
        let i = choose|i: int| #[trigger] occurs_at(s, t, i);
        assert(s.subrange(i, i + t.len()) =~= t);
    }
}

} // verus!
