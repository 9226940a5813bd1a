//! Character-level text helpers shared by the converters.
//!
//! Text is handled as sequences of Unicode scalar values (`char`). Every
//! helper states its result over `Seq<char>` views.
use vstd::prelude::*;

verus! {

// ---------------------------------------------------------------------------
// Character classes
// ---------------------------------------------------------------------------

/// Unicode `White_Space` property, the set used by `char::is_whitespace`,
/// `str::trim` and `str::split_whitespace`.
pub open spec fn is_ws(c: char) -> bool {
    let u = c as u32;
    ||| 0x09 <= u <= 0x0d
    ||| u == 0x20
    ||| u == 0x85
    ||| u == 0xa0
    ||| u == 0x1680
    ||| 0x2000 <= u <= 0x200a
    ||| u == 0x2028
    ||| u == 0x2029
    ||| u == 0x202f
    ||| u == 0x205f
    ||| u == 0x3000
}

/// ASCII whitespace as `u8::is_ascii_whitespace` defines it: space, tab,
/// line feed, form feed and carriage return (not vertical tab).
pub open spec fn is_ascii_ws(c: char) -> bool {
    c == ' ' || c == '\t' || c == '\n' || c == '\x0C' || c == '\r'
}

/// Whether `c` is Unicode whitespace.
pub fn char_is_ws(c: char) -> (b: bool)
    ensures
        b == is_ws(c),
{
    let u = c as u32;
    (0x09 <= u && u <= 0x0d) || u == 0x20 || u == 0x85 || u == 0xa0 || u == 0x1680 || (0x2000
        <= u && u <= 0x200a) || u == 0x2028 || u == 0x2029 || u == 0x202f || u == 0x205f || u
        == 0x3000
}

/// Whether `c` is ASCII whitespace.
pub fn char_is_ascii_ws(c: char) -> (b: bool)
    ensures
        b == is_ascii_ws(c),
{
    c == ' ' || c == '\t' || c == '\n' || c == '\x0C' || c == '\r'
}

/// ASCII lower-casing of one character (other characters are unchanged).
pub open spec fn ascii_lower(c: char) -> char {
    if 'A' <= c && c <= 'Z' {
        ((c as u32 + 32) as u8) as char
    } else {
        c
    }
}

/// `str::to_ascii_lowercase` on a character sequence.
pub open spec fn ascii_lower_seq(s: Seq<char>) -> Seq<char> {
    s.map_values(|c: char| ascii_lower(c))
}

/// Lower-cases the ASCII letters of `s`.
pub fn to_ascii_lower(s: &Vec<char>) -> (r: Vec<char>)
    ensures
        r@ == ascii_lower_seq(s@),
{
    let mut r: Vec<char> = Vec::new();
    for i in 0..s.len()
        invariant
            r@ == ascii_lower_seq(s@.take(i as int)),
    {
        let c = s[i];
        let l = if 'A' <= c && c <= 'Z' {
            ((c as u32 + 32) as u8) as char
        } else {
            c
        };
        r.push(l);
        assert(ascii_lower_seq(s@.take(i + 1)) =~= ascii_lower_seq(s@.take(i as int)).push(l));
    }
    assert(s@.take(s.len() as int) =~= s@);
    r
}

// ---------------------------------------------------------------------------
// Conversions between `str`/`String` and character vectors
// ---------------------------------------------------------------------------

/// Copies the characters of a string slice into a vector.
pub fn str_chars(s: &str) -> (v: Vec<char>)
    ensures
        v@ == s@,
{
    let mut v: Vec<char> = Vec::new();
    for c in it: s.chars()
        invariant
            v@ == it.seq().take(it.index() as int),
            it.seq() == s@,
    {
        v.push(c);
    }
    v
}

/// Collects characters into a `String` (`FromIterator<&char> for String`).
#[verifier::external_body]
pub(crate) fn chars_to_string(v: &[char]) -> (s: String)
    ensures
        s@ == v@,
{
    v.iter().collect::<String>()
}

/// Appends the characters of `s` to `v`.
pub fn push_str_chars(v: &mut Vec<char>, s: &str)
    ensures
        final(v)@ == old(v)@ + s@,
{
    let ghost start = v@;
    for c in it: s.chars()
        invariant
            v@ == start + it.seq().take(it.index() as int),
            it.seq() == s@,
    {
        v.push(c);
        assert(start + it.seq().take(it.index() + 1) =~= start + it.seq().take(
            it.index() as int,
        ).push(c));
    }
    assert(s@.take(s@.len() as int) =~= s@);
}

/// Appends a character sequence to `v`.
pub fn push_chars(v: &mut Vec<char>, s: &[char])
    ensures
        final(v)@ == old(v)@ + s@,
{
    let ghost start = v@;
    for i in 0..s.len()
        invariant
            v@ == start + s@.take(i as int),
    {
        v.push(s[i]);
        assert(start + s@.take(i + 1) =~= start + s@.take(i as int) + seq![s@[i as int]]);
    }
    assert(s@.take(s@.len() as int) =~= s@);
}

/// Whether a character vector spells exactly the string `s`.
pub fn chars_eq_str(v: &[char], s: &str) -> (b: bool)
    ensures
        b == (v@ == s@),
{
    let w = str_chars(s);
    chars_eq(v, w.as_slice())
}

/// Whether two character sequences are equal.
pub fn chars_eq(a: &[char], b: &[char]) -> (r: bool)
    ensures
        r == (a@ == b@),
{
    if a.len() != b.len() {
        return false;
    }
    for i in 0..a.len()
        invariant
            a@.len() == b@.len(),
            forall|j: int| 0 <= j < i ==> a@[j] == b@[j],
    {
        if a[i] != b[i] {
            return false;
        }
    }
    assert(a@ =~= b@);
    true
}

// ---------------------------------------------------------------------------
// Repetition and decimal numbers
// ---------------------------------------------------------------------------

/// `s` repeated `n` times.
pub open spec fn repeat(s: Seq<char>, n: nat) -> Seq<char>
    decreases n,
{
    if n == 0 {
        Seq::empty()
    } else {
        repeat(s, (n - 1) as nat) + s
    }
}

/// Appends `s` repeated `n` times.
pub fn push_repeat(v: &mut Vec<char>, s: &[char], n: usize)
    ensures
        final(v)@ == old(v)@ + repeat(s@, n as nat),
{
    let ghost start = v@;
    for i in 0..n
        invariant
            v@ == start + repeat(s@, i as nat),
    {
        push_chars(v, s);
        assert(start + repeat(s@, (i + 1) as nat) =~= start + repeat(s@, i as nat) + s@);
    }
}

/// The decimal digit character for `d < 10`.
pub open spec fn digit_char(d: nat) -> char {
    if d == 0 {
        '0'
    } else if d == 1 {
        '1'
    } else if d == 2 {
        '2'
    } else if d == 3 {
        '3'
    } else if d == 4 {
        '4'
    } else if d == 5 {
        '5'
    } else if d == 6 {
        '6'
    } else if d == 7 {
        '7'
    } else if d == 8 {
        '8'
    } else {
        '9'
    }
}

/// Decimal representation of a natural number, without leading zeros.
pub open spec fn decimal(n: nat) -> Seq<char>
    decreases n,
{
    if n < 10 {
        seq![digit_char(n)]
    } else {
        decimal(n / 10).push(digit_char(n % 10))
    }
}

fn digit(d: usize) -> (c: char)
    requires
        d < 10,
    ensures
        c == digit_char(d as nat),
{
    if d == 0 {
        '0'
    } else if d == 1 {
        '1'
    } else if d == 2 {
        '2'
    } else if d == 3 {
        '3'
    } else if d == 4 {
        '4'
    } else if d == 5 {
        '5'
    } else if d == 6 {
        '6'
    } else if d == 7 {
        '7'
    } else if d == 8 {
        '8'
    } else {
        '9'
    }
}

/// Appends the decimal representation of `n`.
pub fn push_decimal(v: &mut Vec<char>, n: usize)
    ensures
        final(v)@ == old(v)@ + decimal(n as nat),
    decreases n,
{
    if n >= 10 {
        push_decimal(v, n / 10);
    }
    let c = digit(n % 10);
    v.push(c);
}

// ---------------------------------------------------------------------------
// Trimming
// ---------------------------------------------------------------------------

/// `s` without trailing whitespace (`str::trim_end`).
pub open spec fn trim_end(s: Seq<char>) -> Seq<char>
    decreases s.len(),
{
    if s.len() > 0 && is_ws(s.last()) {
        trim_end(s.drop_last())
    } else {
        s
    }
}

/// `s` without leading whitespace (`str::trim_start`).
pub open spec fn trim_start(s: Seq<char>) -> Seq<char>
    decreases s.len(),
{
    if s.len() > 0 && is_ws(s[0]) {
        trim_start(s.drop_first())
    } else {
        s
    }
}

/// `s` without leading and trailing whitespace (`str::trim`).
pub open spec fn trim(s: Seq<char>) -> Seq<char> {
    trim_start(trim_end(s))
}

/// Length of `trim_end(s)`: `s` keeps its first `trim_end_len(s)` characters.
pub fn trim_end_len(s: &[char]) -> (n: usize)
    ensures
        n <= s@.len(),
        trim_end(s@) == s@.take(n as int),
{
    let mut i = s.len();
    assert(s@.take(i as int) =~= s@);
    while i > 0 && char_is_ws(s[i - 1])
        invariant
            i <= s@.len(),
            trim_end(s@) == trim_end(s@.take(i as int)),
        decreases i,
    {
        assert(s@.take(i as int).drop_last() =~= s@.take(i - 1));
        i = i - 1;
    }
    i
}

/// The bounds `(a, b)` such that `trim(s)` is `s[a..b]`.
pub fn trim_bounds(s: &[char]) -> (r: (usize, usize))
    ensures
        r.0 <= r.1 <= s@.len(),
        trim(s@) == s@.subrange(r.0 as int, r.1 as int),
{
    let e = trim_end_len(s);
    let mut j: usize = 0;
    assert(s@.subrange(0, e as int) =~= s@.take(e as int));
    while j < e && char_is_ws(s[j])
        invariant
            j <= e <= s@.len(),
            trim(s@) == trim_start(s@.subrange(j as int, e as int)),
        decreases e - j,
    {
        assert(s@.subrange(j as int, e as int).drop_first() =~= s@.subrange(j + 1, e as int));
        j = j + 1;
    }
    (j, e)
}

/// A copy of `s[a..b]`.
pub fn slice_chars(s: &[char], a: usize, b: usize) -> (r: Vec<char>)
    requires
        a <= b <= s@.len(),
    ensures
        r@ == s@.subrange(a as int, b as int),
{
    let mut r: Vec<char> = Vec::new();
    let mut i = a;
    while i < b
        invariant
            a <= i <= b <= s@.len(),
            r@ == s@.subrange(a as int, i as int),
        decreases b - i,
    {
        r.push(s[i]);
        assert(s@.subrange(a as int, i + 1) =~= s@.subrange(a as int, i as int).push(s@[i as int]));
        i = i + 1;
    }
    r
}

/// `trim(s)` as a new vector.
pub fn trimmed(s: &[char]) -> (r: Vec<char>)
    ensures
        r@ == trim(s@),
{
    let (a, b) = trim_bounds(s);
    slice_chars(s, a, b)
}

/// `trim_end(s)` as a new vector.
pub fn trimmed_end(s: &[char]) -> (r: Vec<char>)
    ensures
        r@ == trim_end(s@),
{
    let n = trim_end_len(s);
    slice_chars(s, 0, n)
}

/// `trim_end` removes only whitespace, so it is a prefix.
pub proof fn lemma_trim_end_prefix(s: Seq<char>)
    ensures
        trim_end(s).len() <= s.len(),
        trim_end(s) == s.take(trim_end(s).len() as int),
        trim_end(s).len() > 0 ==> !is_ws(trim_end(s).last()),
        forall|i: int| trim_end(s).len() <= i < s.len() ==> is_ws(#[trigger] s[i]),
    decreases s.len(),
{
    if s.len() > 0 && is_ws(s.last()) {
        lemma_trim_end_prefix(s.drop_last());
        assert(trim_end(s) == trim_end(s.drop_last()));
        assert(s.drop_last().take(trim_end(s).len() as int) =~= s.take(trim_end(s).len() as int));
        assert forall|i: int| trim_end(s).len() <= i < s.len() implies is_ws(#[trigger] s[i]) by {
            if i < s.len() - 1 {
                assert(s[i] == s.drop_last()[i]);
            }
        }
    } else {
        assert(s.take(s.len() as int) =~= s);
    }
}

/// `trim_start` removes only whitespace, so it is a suffix.
pub proof fn lemma_trim_start_suffix(s: Seq<char>)
    ensures
        trim_start(s).len() <= s.len(),
        trim_start(s) == s.skip(s.len() - trim_start(s).len()),
        trim_start(s).len() > 0 ==> !is_ws(trim_start(s)[0]),
        forall|i: int| 0 <= i < s.len() - trim_start(s).len() ==> is_ws(#[trigger] s[i]),
    decreases s.len(),
{
    if s.len() > 0 && is_ws(s[0]) {
        lemma_trim_start_suffix(s.drop_first());
        let k = s.len() - trim_start(s).len();
        assert(s.drop_first().skip(k - 1) =~= s.skip(k));
        assert forall|i: int| 0 <= i < s.len() - trim_start(s).len() implies is_ws(
            #[trigger] s[i],
        ) by {
            if i > 0 {
                assert(s[i] == s.drop_first()[i - 1]);
            }
        }
    } else {
        assert(s.skip(0) =~= s);
    }
}

/// A trimmed sequence neither starts nor ends with whitespace, and trimming
/// it again changes nothing.
pub proof fn lemma_trim_props(s: Seq<char>)
    ensures
        trim(s).len() > 0 ==> !is_ws(trim(s)[0]) && !is_ws(trim(s).last()),
        trim(trim(s)) == trim(s),
        trim(s).len() <= s.len(),
{
    let e = trim_end(s);
    lemma_trim_end_prefix(s);
    lemma_trim_start_suffix(e);
    let t = trim_start(e);
    if t.len() > 0 {
        assert(t.last() == e.last());
    }
    lemma_trim_fixed(t);
}

/// A sequence without leading or trailing whitespace is its own trim.
pub proof fn lemma_trim_fixed(t: Seq<char>)
    requires
        t.len() > 0 ==> !is_ws(t[0]) && !is_ws(t.last()),
    ensures
        trim(t) == t,
{
    assert(trim_end(t) == t);
    assert(trim_start(t) == t);
}

// ---------------------------------------------------------------------------
// Collapsing whitespace into single spaces
// ---------------------------------------------------------------------------

/// The words of `s`: its maximal runs of non-whitespace characters, in order.
pub open spec fn words(s: Seq<char>) -> Seq<Seq<char>>
    decreases s.len(),
{
    if s.len() == 0 {
        Seq::empty()
    } else {
        let w = words(s.drop_last());
        if is_ws(s.last()) {
            w
        } else if s.len() >= 2 && !is_ws(s[s.len() - 2]) {
            w.drop_last().push(w.last().push(s.last()))
        } else {
            w.push(seq![s.last()])
        }
    }
}

/// Words joined by single spaces.
pub open spec fn join_words(ws: Seq<Seq<char>>) -> Seq<char>
    decreases ws.len(),
{
    if ws.len() == 0 {
        Seq::empty()
    } else if ws.len() == 1 {
        ws[0]
    } else {
        join_words(ws.drop_last()) + seq![' '] + ws.last()
    }
}

/// What `s.split_whitespace().collect::<Vec<_>>().join(" ")` yields.
pub open spec fn collapse_ws_spec(s: Seq<char>) -> Seq<char> {
    join_words(words(s))
}

proof fn lemma_words_nonempty_when_word_ends(s: Seq<char>)
    requires
        s.len() > 0,
        !is_ws(s.last()),
    ensures
        words(s).len() > 0,
    decreases s.len(),
{
    if s.len() >= 2 && !is_ws(s[s.len() - 2]) {
        assert(s.drop_last().last() == s[s.len() - 2]);
        lemma_words_nonempty_when_word_ends(s.drop_last());
    }
}

proof fn lemma_join_extend_last(ws: Seq<Seq<char>>, c: char)
    requires
        ws.len() > 0,
    ensures
        join_words(ws.drop_last().push(ws.last().push(c))) == join_words(ws).push(c),
{
    let ws2 = ws.drop_last().push(ws.last().push(c));
    if ws.len() == 1 {
        assert(ws2.len() == 1);
    } else {
        assert(ws2.drop_last() =~= ws.drop_last());
        assert(join_words(ws2) == join_words(ws2.drop_last()) + seq![' '] + ws2.last());
    }
}

/// Collapses every run of whitespace into one space and trims the ends.
pub fn collapse_ws_chars(s: &[char]) -> (r: Vec<char>)
    ensures
        r@ == collapse_ws_spec(s@),
{
    let mut r: Vec<char> = Vec::new();
    let mut in_word = false;
    let mut have_word = false;
    for i in 0..s.len()
        invariant
            r@ == join_words(words(s@.take(i as int))),
            in_word == (i > 0 && !is_ws(s@[i - 1])),
            have_word == (words(s@.take(i as int)).len() > 0),
            in_word ==> have_word,
    {
        let c = s[i];
        let ghost t = s@.take(i + 1);
        assert(t.drop_last() =~= s@.take(i as int));
        assert(t.last() == c);
        if char_is_ws(c) {
            in_word = false;
        } else if in_word {
            assert(t[t.len() - 2] == s@[i - 1]);
            proof { lemma_join_extend_last(words(s@.take(i as int)), c); }
            r.push(c);
        } else {
            if i > 0 {
                assert(t[t.len() - 2] == s@[i - 1]);
            }
            if have_word {
                r.push(' ');
            }
            r.push(c);
            proof {
                let w = words(s@.take(i as int));
                assert(words(t) == w.push(seq![c]));
                if w.len() > 0 {
                    assert(w.push(seq![c]).drop_last() =~= w);
                }
                assert(r@ =~= join_words(w.push(seq![c])));
            }
            in_word = true;
            have_word = true;
        }
    }
    assert(s@.take(s.len() as int) =~= s@);
    r
}

/// A word: non-empty and free of whitespace.
pub open spec fn is_word(w: Seq<char>) -> bool {
    w.len() > 0 && forall|i: int| 0 <= i < w.len() ==> !is_ws(#[trigger] w[i])
}

/// Every element is a word.
pub open spec fn all_words(ws: Seq<Seq<char>>) -> bool {
    forall|k: int| 0 <= k < ws.len() ==> is_word(#[trigger] ws[k])
}

/// No whitespace at either end, and every whitespace character is a single
/// space between two non-whitespace characters.
pub open spec fn single_spaced(t: Seq<char>) -> bool {
    &&& t.len() > 0 ==> !is_ws(t[0]) && !is_ws(t.last())
    &&& forall|i: int|
        0 <= i < t.len() && is_ws(#[trigger] t[i]) ==> t[i] == ' ' && 0 < i < t.len() - 1 && !is_ws(
            t[i - 1],
        ) && !is_ws(t[i + 1])
}

proof fn lemma_words_are_words(s: Seq<char>)
    ensures
        all_words(words(s)),
    decreases s.len(),
{
    if s.len() > 0 {
        lemma_words_are_words(s.drop_last());
        let w = words(s.drop_last());
        if !is_ws(s.last()) && s.len() >= 2 && !is_ws(s[s.len() - 2]) {
            assert(s.drop_last().last() == s[s.len() - 2]);
            lemma_words_nonempty_when_word_ends(s.drop_last());
            let nw = w.last().push(s.last());
            assert(is_word(w[w.len() - 1]));
            assert(is_word(nw)) by {
                assert forall|i: int| 0 <= i < nw.len() implies !is_ws(#[trigger] nw[i]) by {
                    if i < nw.len() - 1 {
                        assert(nw[i] == w[w.len() - 1][i]);
                    }
                }
            }
            let r = w.drop_last().push(nw);
            assert forall|k: int| 0 <= k < r.len() implies is_word(#[trigger] r[k]) by {
                if k < r.len() - 1 {
                    assert(r[k] == w[k]);
                }
            }
        } else if !is_ws(s.last()) {
            let r = w.push(seq![s.last()]);
            assert forall|k: int| 0 <= k < r.len() implies is_word(#[trigger] r[k]) by {
                if k < r.len() - 1 {
                    assert(r[k] == w[k]);
                } else {
                    assert(is_word(seq![s.last()]));
                }
            }
        }
    }
}

proof fn lemma_join_single_spaced(ws: Seq<Seq<char>>)
    requires
        all_words(ws),
    ensures
        single_spaced(join_words(ws)),
        ws.len() > 0 ==> join_words(ws).len() > 0,
    decreases ws.len(),
{
    if ws.len() == 1 {
        assert(is_word(ws[0]));
    } else if ws.len() > 1 {
        let a = ws.drop_last();
        assert forall|k: int| 0 <= k < a.len() implies is_word(#[trigger] a[k]) by {
            assert(a[k] == ws[k]);
        }
        lemma_join_single_spaced(a);
        let ja = join_words(a);
        let w = ws.last();
        assert(is_word(ws[ws.len() - 1]));
        let t = ja + seq![' '] + w;
        assert(join_words(ws) == t);
        assert(t[0] == ja[0]);
        assert(t.last() == w.last());
        assert(!is_ws(w[w.len() - 1]));
        assert forall|i: int|
            0 <= i < t.len() && is_ws(#[trigger] t[i]) implies t[i] == ' ' && 0 < i < t.len() - 1
            && !is_ws(t[i - 1]) && !is_ws(t[i + 1]) by {
            if i < ja.len() {
                assert(t[i] == ja[i]);
                assert(t[i - 1] == ja[i - 1]);
                if i + 1 < ja.len() {
                    assert(t[i + 1] == ja[i + 1]);
                }
            } else if i == ja.len() {
                assert(t[i - 1] == ja.last());
                assert(t[i + 1] == w[0]);
            } else {
                assert(t[i] == w[i - ja.len() - 1]);
                assert(false);
            }
        }
    }
}

proof fn lemma_words_of_word(w: Seq<char>)
    requires
        is_word(w),
    ensures
        words(w) == seq![w],
    decreases w.len(),
{
    assert(!is_ws(w[w.len() - 1]));
    if w.len() == 1 {
        assert(w.drop_last() =~= Seq::<char>::empty());
        assert(words(w.drop_last()) == Seq::<Seq<char>>::empty());
        assert(seq![w.last()] =~= w);
        assert(words(w) == Seq::<Seq<char>>::empty().push(seq![w.last()]));
        assert(words(w) =~= seq![w]);
    } else {
        let v = w.drop_last();
        assert(is_word(v)) by {
            assert forall|i: int| 0 <= i < v.len() implies !is_ws(#[trigger] v[i]) by {
                assert(v[i] == w[i]);
            }
        }
        lemma_words_of_word(v);
        assert(!is_ws(w[w.len() - 2]));
        assert(v.push(w.last()) =~= w);
        assert(words(w) == words(v).drop_last().push(words(v).last().push(w.last())));
        assert(seq![v].drop_last().push(v.push(w.last())) =~= seq![w]);
    }
}

proof fn lemma_words_append_word(t: Seq<char>, w: Seq<char>)
    requires
        is_word(w),
        t.len() > 0 ==> !is_ws(t.last()),
    ensures
        words(t + seq![' '] + w) == words(t).push(w),
    decreases w.len(),
{
    let u = t + seq![' '];
    assert(u.drop_last() =~= t);
    assert(u.last() == ' ');
    assert(words(u) == words(t));
    if w.len() == 1 {
        let s = u + w;
        assert(s.drop_last() =~= u);
        assert(s.last() == w[0]);
        assert(s[s.len() - 2] == ' ');
        assert(seq![s.last()] =~= w);
    } else {
        let v = w.drop_last();
        assert(is_word(v)) by {
            assert forall|i: int| 0 <= i < v.len() implies !is_ws(#[trigger] v[i]) by {
                assert(v[i] == w[i]);
            }
        }
        lemma_words_append_word(t, v);
        let s = u + w;
        assert(s.drop_last() =~= t + seq![' '] + v);
        assert(s.last() == w.last());
        assert(!is_ws(w[w.len() - 1]));
        assert(s[s.len() - 2] == w[w.len() - 2]);
        assert(!is_ws(w[w.len() - 2]));
        let ws = words(t).push(v);
        assert(ws.drop_last() =~= words(t));
        assert(v.push(w.last()) =~= w);
    }
}

proof fn lemma_words_join(ws: Seq<Seq<char>>)
    requires
        all_words(ws),
    ensures
        words(join_words(ws)) == ws,
    decreases ws.len(),
{
    if ws.len() == 0 {
    } else if ws.len() == 1 {
        assert(is_word(ws[0]));
        lemma_words_of_word(ws[0]);
        assert(seq![ws[0]] =~= ws);
    } else {
        let a = ws.drop_last();
        assert forall|k: int| 0 <= k < a.len() implies is_word(#[trigger] a[k]) by {
            assert(a[k] == ws[k]);
        }
        lemma_words_join(a);
        lemma_join_single_spaced(a);
        assert(is_word(ws[ws.len() - 1]));
        lemma_words_append_word(join_words(a), ws.last());
        assert(a.push(ws.last()) =~= ws);
    }
}

/// `collapse_ws` yields single-spaced text: no whitespace at either end, and
/// each remaining whitespace character is one space between two other
/// characters.
pub proof fn collapse_ws_is_single_spaced(s: Seq<char>)
    ensures
        single_spaced(collapse_ws_spec(s)),
{
    lemma_words_are_words(s);
    lemma_join_single_spaced(words(s));
}

/// Collapsing whitespace twice is the same as collapsing it once.
pub proof fn collapse_ws_idempotent(s: Seq<char>)
    ensures
        collapse_ws_spec(collapse_ws_spec(s)) == collapse_ws_spec(s),
{
    lemma_words_are_words(s);
    lemma_words_join(words(s));
}

/// Collapsing whitespace keeps the words of the input, in order: the
/// maximal runs of non-whitespace characters of the result are exactly those
/// of the input.
pub proof fn collapse_ws_keeps_words(s: Seq<char>)
    ensures
        words(collapse_ws_spec(s)) == words(s),
{
    lemma_words_are_words(s);
    lemma_words_join(words(s));
}

// ---------------------------------------------------------------------------
// Parsing unsigned integers
// ---------------------------------------------------------------------------

/// Whether `c` is an ASCII decimal digit.
pub open spec fn is_digit(c: char) -> bool {
    '0' <= c && c <= '9'
}

/// The value of a run of decimal digits.
pub open spec fn digits_value(s: Seq<char>) -> nat
    decreases s.len(),
{
    if s.len() == 0 {
        0
    } else {
        digits_value(s.drop_last()) * 10 + ((s.last() as u32) - ('0' as u32)) as nat
    }
}

/// Whether every character of `d` is a decimal digit.
pub open spec fn all_digits(d: Seq<char>) -> bool {
    forall|i: int| 0 <= i < d.len() ==> is_digit(#[trigger] d[i])
}

proof fn lemma_digit_char_value(d: nat)
    requires
        d < 10,
    ensures
        is_digit(digit_char(d)),
        ((digit_char(d) as u32) - ('0' as u32)) as nat == d,
        d > 0 ==> digit_char(d) != '0',
{
}

/// The decimal text of `n` reads back as `n`: it is all digits, their value
/// is `n`, and it has no leading zero (a single `0` only for zero).
pub proof fn decimal_reads_back(n: nat)
    ensures
        decimal(n).len() > 0,
        all_digits(decimal(n)),
        digits_value(decimal(n)) == n,
        decimal(n).len() > 1 ==> decimal(n)[0] != '0',
        n > 0 ==> decimal(n)[0] != '0',
    decreases n,
{
    if n < 10 {
        lemma_digit_char_value(n);
        let d = decimal(n);
        assert(d.drop_last() =~= Seq::<char>::empty());
        assert(d.last() == digit_char(n));
        assert(digits_value(d) == digits_value(d.drop_last()) * 10 + ((d.last() as u32) - ('0' as u32)) as nat);
    } else {
        let q = n / 10;
        let r = n % 10;
        decimal_reads_back(q);
        lemma_digit_char_value(r);
        let d = decimal(n);
        assert(d == decimal(q).push(digit_char(r)));
        assert(d.drop_last() =~= decimal(q));
        assert(d[0] == decimal(q)[0]);
        assert forall|i: int| 0 <= i < d.len() implies is_digit(#[trigger] d[i]) by {
            if i < decimal(q).len() {
                assert(d[i] == decimal(q)[i]);
            }
        }
        assert(d.last() == digit_char(r));
        assert(digits_value(d) == digits_value(decimal(q)) * 10 + r);
        assert(n == q * 10 + r);
    }
}

/// The value of a non-empty run of digits that fits in `usize`.
pub open spec fn parse_digits(d: Seq<char>) -> Option<usize> {
    if d.len() > 0 && all_digits(d) && digits_value(d) <= usize::MAX {
        Some(digits_value(d) as usize)
    } else {
        None
    }
}

/// What `str::parse::<usize>` yields: an optional `+` sign, then one or more
/// ASCII digits whose value fits in `usize`.
pub open spec fn parse_usize_spec(s: Seq<char>) -> Option<usize> {
    if s.len() > 0 && s[0] == '+' {
        parse_digits(s.drop_first())
    } else {
        parse_digits(s)
    }
}

proof fn lemma_digits_value_monotone(s: Seq<char>, i: int)
    requires
        0 <= i <= s.len(),
        all_digits(s),
    ensures
        digits_value(s.take(i)) <= digits_value(s),
    decreases s.len() - i,
{
    if i < s.len() {
        lemma_digits_value_monotone(s, i + 1);
        let t = s.take(i + 1);
        assert(t.drop_last() =~= s.take(i));
        assert(is_digit(t.last()));
    } else {
        assert(s.take(i) =~= s);
    }
}

fn parse_digit_run(d: &[char]) -> (r: Option<usize>)
    ensures
        r == parse_digits(d@),
{
    if d.len() == 0 {
        return None;
    }
    let mut acc: usize = 0;
    let mut i: usize = 0;
    while i < d.len()
        invariant
            i <= d@.len(),
            acc as nat == digits_value(d@.take(i as int)),
            forall|k: int| 0 <= k < i ==> is_digit(#[trigger] d@[k]),
        decreases d.len() - i,
    {
        let c = d[i];
        if !('0' <= c && c <= '9') {
            assert(!is_digit(d@[i as int]));
            return None;
        }
        let dv = (c as u32 - '0' as u32) as usize;
        let ghost t = d@.take(i + 1);
        assert(t.drop_last() =~= d@.take(i as int));
        assert(t.last() == c);
        let m = acc.checked_mul(10);
        let next = match m {
            Some(m) => m.checked_add(dv),
            None => None,
        };
        match next {
            Some(n) => {
                acc = n;
            },
            None => {
                proof {
                    assert(digits_value(t) == acc as nat * 10 + dv as nat);
                    if all_digits(d@) {
                        lemma_digits_value_monotone(d@, i + 1);
                    }
                }
                return None;
            },
        }
        i = i + 1;
    }
    assert(d@.take(d.len() as int) =~= d@);
    Some(acc)
}

/// Parses an unsigned decimal number as `str::parse::<usize>` does.
pub fn parse_usize(s: &[char]) -> (r: Option<usize>)
    ensures
        r == parse_usize_spec(s@),
{
    if s.len() > 0 && s[0] == '+' {
        let d = slice_chars(s, 1, s.len());
        assert(d@ =~= s@.drop_first());
        parse_digit_run(d.as_slice())
    } else {
        parse_digit_run(s)
    }
}

// ---------------------------------------------------------------------------
// Capping the length of a text
// ---------------------------------------------------------------------------

/// `s` truncated to `max` characters, with `…` appended when anything was cut.
pub open spec fn cap_spec(s: Seq<char>, max: nat) -> Seq<char> {
    if s.len() <= max {
        s
    } else {
        s.take(max as int).push('…')
    }
}

/// Caps `s` at `max` characters, marking a cut with `…`.
pub fn cap_chars(s: &[char], max: usize) -> (r: Vec<char>)
    ensures
        r@ == cap_spec(s@, max as nat),
{
    if s.len() <= max {
        slice_chars(s, 0, s.len())
    } else {
        let mut r = slice_chars(s, 0, max);
        r.push('…');
        r
    }
}

/// Capping keeps text within the cap unchanged; otherwise it keeps the first
/// `max` characters and adds `…`, so the result never exceeds `max + 1`
/// characters.
pub proof fn cap_text_bounds(s: Seq<char>, max: nat)
    ensures
        cap_spec(s, max).len() <= max + 1,
        s.len() <= max ==> cap_spec(s, max) == s,
        s.len() > max ==> cap_spec(s, max).len() == max + 1 && cap_spec(s, max).last() == '…'
            && cap_spec(s, max).take(max as int) == s.take(max as int),
{
    if s.len() > max {
        assert(cap_spec(s, max).take(max as int) =~= s.take(max as int));
    }
}

// ---------------------------------------------------------------------------
// Absence of a character
// ---------------------------------------------------------------------------

/// `s` does not contain `c`.
pub open spec fn lacks(s: Seq<char>, c: char) -> bool {
    forall|i: int| 0 <= i < s.len() ==> #[trigger] s[i] != c
}

/// Concatenation keeps a character out.
pub proof fn lemma_lacks_concat(a: Seq<char>, b: Seq<char>, c: char)
    requires
        lacks(a, c),
        lacks(b, c),
    ensures
        lacks(a + b, c),
{
    assert forall|i: int| 0 <= i < (a + b).len() implies #[trigger] (a + b)[i] != c by {
        if i < a.len() {
            assert((a + b)[i] == a[i]);
        } else {
            assert((a + b)[i] == b[i - a.len()]);
        }
    }
}

/// Trimming keeps a character out.
pub proof fn lemma_lacks_trim(s: Seq<char>, c: char)
    requires
        lacks(s, c),
    ensures
        lacks(trim_end(s), c),
        lacks(trim(s), c),
{
    lemma_trim_end_prefix(s);
    let e = trim_end(s);
    assert forall|i: int| 0 <= i < e.len() implies #[trigger] e[i] != c by {
        assert(e[i] == s[i]);
    }
    lemma_trim_start_suffix(e);
    let t = trim_start(e);
    let k = e.len() - t.len();
    assert forall|i: int| 0 <= i < t.len() implies #[trigger] t[i] != c by {
        assert(t[i] == e[i + k]);
    }
}

} // verus!
