//! Character-level helpers shared by the parser and the engine: character
//! classes, runs of one class, trimming, and conversions between strings and
//! vectors of characters.

use vstd::prelude::*;

verus! {

/// The classes of characters that the script grammar distinguishes.
#[derive(Clone, Copy, Debug)]
pub enum CharClass {
    /// White space, as Unicode defines it.
    Space,
    /// A letter of the basic Latin alphabet, a decimal digit or an underscore.
    Word,
}

/// Whether `c` is a white-space character (the Unicode property `White_Space`).
pub open spec fn is_space(c: char) -> bool {
    let u = c as u32;
    ||| 0x09 <= u <= 0x0D
    ||| u == 0x20
    ||| u == 0x85
    ||| u == 0xA0
    ||| u == 0x1680
    ||| 0x2000 <= u <= 0x200A
    ||| u == 0x2028
    ||| u == 0x2029
    ||| u == 0x202F
    ||| u == 0x205F
    ||| u == 0x3000
}

/// Whether `c` is one of the decimal digits `0` to `9`.
pub open spec fn is_digit(c: char) -> bool {
    '0' <= c <= '9'
}

/// Whether `c` may stand in a word: `A`-`Z`, `a`-`z`, `0`-`9` or `_`.
pub open spec fn is_word_char(c: char) -> bool {
    ||| 'A' <= c <= 'Z'
    ||| 'a' <= c <= 'z'
    ||| is_digit(c)
    ||| c == '_'
}

impl CharClass {
    /// Whether `c` belongs to this class.
    pub open spec fn holds(self, c: char) -> bool {
        match self {
            CharClass::Space => is_space(c),
            CharClass::Word => is_word_char(c),
        }
    }

    /// Tests whether `c` belongs to this class.
    pub fn test(self, c: char) -> (b: bool)
        ensures
            b == self.holds(c),
    {
        match self {
            CharClass::Space => space_char(c),
            CharClass::Word => word_char(c),
        }
    }
}

/// Tests whether `c` is a white-space character.
pub fn space_char(c: char) -> (b: bool)
    ensures
        b == is_space(c),
{
    let u: u32 = c as u32;
    (0x09 <= u && u <= 0x0D) || u == 0x20 || u == 0x85 || u == 0xA0 || u == 0x1680 || (0x2000 <= u
        && u <= 0x200A) || u == 0x2028 || u == 0x2029 || u == 0x202F || u == 0x205F || u == 0x3000
}

/// Tests whether `c` is a decimal digit.
pub fn digit_char(c: char) -> (b: bool)
    ensures
        b == is_digit(c),
{
    '0' <= c && c <= '9'
}

/// Tests whether `c` may stand in a word.
pub fn word_char(c: char) -> (b: bool)
    ensures
        b == is_word_char(c),
{
    ('A' <= c && c <= 'Z') || ('a' <= c && c <= 'z') || digit_char(c) || c == '_'
}

/// Every character of `s` is white space.
pub open spec fn all_space(s: Seq<char>) -> bool {
    forall|i: int| 0 <= i < s.len() ==> is_space(#[trigger] s[i])
}

/// `s` is a gap between two tokens: white space, and at least one character of it.
pub open spec fn is_gap(s: Seq<char>) -> bool {
    s.len() > 0 && all_space(s)
}

/// `s` is a word: one or more word characters and nothing else.
pub open spec fn is_word(s: Seq<char>) -> bool {
    s.len() > 0 && forall|i: int| 0 <= i < s.len() ==> is_word_char(#[trigger] s[i])
}

/// Where the run of `class` characters that starts at `from` ends: the first
/// index at or after `from` that holds no character of the class, or the
/// length of `s`.
pub open spec fn run_end(s: Seq<char>, from: int, class: CharClass) -> int
    decreases s.len() - from,
{
    if 0 <= from < s.len() && class.holds(s[from]) {
        run_end(s, from + 1, class)
    } else {
        from
    }
}

/// Where the run of `class` characters that ends just before `to` starts.
pub open spec fn run_start(s: Seq<char>, to: int, class: CharClass) -> int
    decreases to,
{
    if 0 < to <= s.len() && class.holds(s[to - 1]) {
        run_start(s, to - 1, class)
    } else {
        to
    }
}

/// `word` stands in `s` at index `at`.
pub open spec fn occurs_at(s: Seq<char>, at: int, word: Seq<char>) -> bool {
    &&& 0 <= at
    &&& at + word.len() <= s.len()
    &&& s.subrange(at, at + word.len()) == word
}

/// `s` without the white space at its two ends.
pub open spec fn trim(s: Seq<char>) -> Seq<char> {
    let first = run_end(s, 0, CharClass::Space);
    let last = run_start(s, s.len() as int, CharClass::Space);
    if first < last {
        s.subrange(first, last)
    } else {
        Seq::empty()
    }
}

/// The first index at or after `from` at which `s` holds `c`, or the length
/// of `s` where there is none.
pub open spec fn find_char(s: Seq<char>, c: char, from: int) -> int
    decreases s.len() - from,
{
    if 0 <= from < s.len() && s[from] != c {
        find_char(s, c, from + 1)
    } else {
        from
    }
}

/// What `run_end` returns lies between `from` and the end of `s`, everything
/// before it is of the class, and the character at it is not.
pub proof fn lemma_run_end(s: Seq<char>, from: int, class: CharClass)
    requires
        0 <= from <= s.len(),
    ensures
        from <= run_end(s, from, class) <= s.len(),
        forall|k: int| from <= k < run_end(s, from, class) ==> class.holds(#[trigger] s[k]),
        run_end(s, from, class) < s.len() ==> !class.holds(s[run_end(s, from, class)]),
    decreases s.len() - from,
{
    if from < s.len() && class.holds(s[from]) {
        lemma_run_end(s, from + 1, class);
    }
}

/// An index that ends a run of the class is the one that `run_end` returns.
pub proof fn lemma_run_end_is(s: Seq<char>, from: int, end: int, class: CharClass)
    requires
        0 <= from <= end <= s.len(),
        forall|k: int| from <= k < end ==> class.holds(#[trigger] s[k]),
        end < s.len() ==> !class.holds(s[end]),
    ensures
        run_end(s, from, class) == end,
    decreases end - from,
{
    if from < end {
        lemma_run_end_is(s, from + 1, end, class);
    }
}

/// What `run_start` returns lies between the start of `s` and `to`,
/// everything from it up to `to` is of the class, and the character before it
/// is not.
pub proof fn lemma_run_start(s: Seq<char>, to: int, class: CharClass)
    requires
        0 <= to <= s.len(),
    ensures
        0 <= run_start(s, to, class) <= to,
        forall|k: int| run_start(s, to, class) <= k < to ==> class.holds(#[trigger] s[k]),
        run_start(s, to, class) > 0 ==> !class.holds(s[run_start(s, to, class) - 1]),
    decreases to,
{
    if 0 < to && class.holds(s[to - 1]) {
        lemma_run_start(s, to - 1, class);
    }
}

/// An index that starts a run of the class is the one that `run_start` returns.
pub proof fn lemma_run_start_is(s: Seq<char>, start: int, to: int, class: CharClass)
    requires
        0 <= start <= to <= s.len(),
        forall|k: int| start <= k < to ==> class.holds(#[trigger] s[k]),
        start > 0 ==> !class.holds(s[start - 1]),
    ensures
        run_start(s, to, class) == start,
    decreases to - start,
{
    if start < to {
        lemma_run_start_is(s, start, to - 1, class);
    }
}

/// A run that ends a text and has another character before it starts where
/// it was put.
pub proof fn lemma_run_start_appended(left: Seq<char>, run: Seq<char>, class: CharClass)
    requires
        forall|k: int| 0 <= k < run.len() ==> class.holds(#[trigger] run[k]),
        left.len() > 0 ==> !class.holds(left.last()),
    ensures
        run_start(left + run, (left + run).len() as int, class) == left.len(),
{
    let s = left + run;
    assert forall|k: int| left.len() <= k < s.len() implies class.holds(#[trigger] s[k]) by {
        assert(s[k] == run[k - left.len()]);
    }
    if left.len() > 0 {
        assert(s[left.len() - 1] == left.last());
    }
    lemma_run_start_is(s, left.len() as int, s.len() as int, class);
}

/// Where a run starts depends only on what stands before its end.
pub proof fn lemma_run_start_within(s: Seq<char>, to: int, class: CharClass)
    requires
        0 <= to <= s.len(),
    ensures
        run_start(s, to, class) == run_start(s.take(to), to, class),
    decreases to,
{
    if 0 < to && class.holds(s[to - 1]) {
        lemma_run_start_within(s, to - 1, class);
        lemma_run_start_within(s.take(to), to - 1, class);
        assert(s.take(to).take(to - 1) =~= s.take(to - 1));
    }
}

/// What `find_char` returns lies between `from` and the end of `s`, nothing
/// before it is `c`, and the character at it is.
pub proof fn lemma_find_char(s: Seq<char>, c: char, from: int)
    requires
        0 <= from <= s.len(),
    ensures
        from <= find_char(s, c, from) <= s.len(),
        forall|k: int| from <= k < find_char(s, c, from) ==> #[trigger] s[k] != c,
        find_char(s, c, from) < s.len() ==> s[find_char(s, c, from)] == c,
    decreases s.len() - from,
{
    if from < s.len() && s[from] != c {
        lemma_find_char(s, c, from + 1);
    }
}

/// An index that holds the first `c` at or after `from` is the one that
/// `find_char` returns.
pub proof fn lemma_find_char_is(s: Seq<char>, c: char, from: int, at: int)
    requires
        0 <= from <= at <= s.len(),
        forall|k: int| from <= k < at ==> #[trigger] s[k] != c,
        at < s.len() ==> s[at] == c,
    ensures
        find_char(s, c, from) == at,
    decreases at - from,
{
    if from < at {
        lemma_find_char_is(s, c, from + 1, at);
    }
}

/// Trimming removes white space around a text that neither begins nor ends
/// with white space, and nothing else.
pub proof fn lemma_trim_padded(before: Seq<char>, body: Seq<char>, after: Seq<char>)
    requires
        all_space(before),
        all_space(after),
        body.len() > 0 ==> !is_space(body.first()) && !is_space(body.last()),
    ensures
        trim(before + body + after) == body,
{
    let s = before + body + after;
    let a = before.len() as int;
    let b = a + body.len();
    assert forall|k: int| 0 <= k < a implies CharClass::Space.holds(#[trigger] s[k]) by {
        assert(s[k] == before[k]);
    }
    assert forall|k: int| b <= k < s.len() implies CharClass::Space.holds(#[trigger] s[k]) by {
        assert(s[k] == after[k - b]);
    }
    if body.len() > 0 {
        assert(s[a] == body.first());
        assert(s[b - 1] == body.last());
        lemma_run_end_is(s, 0, a, CharClass::Space);
        lemma_run_start_is(s, b, s.len() as int, CharClass::Space);
        assert(s.subrange(a, b) =~= body);
    } else {
        lemma_run_end_is(s, 0, s.len() as int, CharClass::Space);
        lemma_run_start(s, s.len() as int, CharClass::Space);
        assert(body =~= Seq::<char>::empty());
    }
}

/// `String::push` of the standard library appends one character to the
/// string and leaves what it held before in place.
pub assume_specification[ String::push ](s: &mut String, ch: char)
    ensures
        final(s)@ == old(s)@.push(ch),
;

/// The characters of `s`, as a vector that can be indexed in constant time.
pub fn chars_of(s: &str) -> (v: Vec<char>)
    ensures
        v@ == s@,
{
    let mut v: Vec<char> = Vec::new();
    let it = s.chars();
    for c in iter: it
        invariant
            iter.seq() == s@,
            v@.len() == iter.index(),
            forall|j: int| 0 <= j < v@.len() ==> v@[j] == iter.seq()[j],
    {
        v.push(c);
    }
    v
}

/// The string made of the characters of `v` from index `from` up to `to`.
pub fn string_of(v: &Vec<char>, from: usize, to: usize) -> (s: String)
    requires
        from <= to <= v.len(),
    ensures
        s@ == v@.subrange(from as int, to as int),
{
    let mut s = String::new();
    let mut i: usize = from;
    while i < to
        invariant
            from <= i <= to <= v.len(),
            s@ == v@.subrange(from as int, i as int),
        decreases to - i,
    {
        s.push(v[i]);
        i += 1;
        assert(s@ =~= v@.subrange(from as int, i as int));
    }
    s
}

/// The characters of `v` from index `from` up to `to`, as a vector of their own.
pub fn slice_of(v: &Vec<char>, from: usize, to: usize) -> (r: Vec<char>)
    requires
        from <= to <= v.len(),
    ensures
        r@ == v@.subrange(from as int, to as int),
{
    let mut r: Vec<char> = Vec::new();
    let mut i: usize = from;
    while i < to
        invariant
            from <= i <= to <= v.len(),
            r@ == v@.subrange(from as int, i as int),
        decreases to - i,
    {
        r.push(v[i]);
        i += 1;
        assert(r@ =~= v@.subrange(from as int, i as int));
    }
    r
}

/// Skips the run of `class` characters that starts at `from`.
pub fn scan(v: &Vec<char>, from: usize, class: CharClass) -> (end: usize)
    ensures
        end == run_end(v@, from as int, class),
        from <= v.len() ==> from <= end <= v.len(),
{
    let mut j: usize = from;
    while j < v.len() && class.test(v[j])
        invariant
            from <= j,
            from <= v.len() ==> j <= v.len(),
            run_end(v@, from as int, class) == run_end(v@, j as int, class),
        decreases v.len() - j,
    {
        j += 1;
    }
    j
}

/// Walks back over the run of `class` characters that ends just before `to`.
pub fn scan_back(v: &Vec<char>, to: usize, class: CharClass) -> (start: usize)
    ensures
        start == run_start(v@, to as int, class),
        start <= to,
{
    let mut j: usize = to;
    while 0 < j && j <= v.len() && class.test(v[j - 1])
        invariant
            j <= to,
            run_start(v@, to as int, class) == run_start(v@, j as int, class),
        decreases j,
    {
        j -= 1;
    }
    j
}

/// Finds the first `c` in `v` at or after `from`.
pub fn find(v: &Vec<char>, c: char, from: usize) -> (at: usize)
    ensures
        at == find_char(v@, c, from as int),
        from <= v.len() ==> from <= at <= v.len(),
{
    let mut j: usize = from;
    while j < v.len() && v[j] != c
        invariant
            from <= j,
            from <= v.len() ==> j <= v.len(),
            find_char(v@, c, from as int) == find_char(v@, c, j as int),
        decreases v.len() - j,
    {
        j += 1;
    }
    j
}

/// Tests whether `word` stands in `v` at index `at`.
pub fn has_at(v: &Vec<char>, at: usize, word: &str) -> (b: bool)
    ensures
        b == occurs_at(v@, at as int, word@),
{
    let w = chars_of(word);
    if at > v.len() || w.len() > v.len() - at {
        return false;
    }
    let mut i: usize = 0;
    while i < w.len()
        invariant
            w@ == word@,
            at + w.len() <= v.len(),
            i <= w.len(),
            forall|k: int| 0 <= k < i ==> v@[at + k] == w@[k],
        decreases w.len() - i,
    {
        if v[at + i] != w[i] {
            proof {
                let sub = v@.subrange(at as int, at + w.len());
                assert(sub[i as int] == v@[at + i]);
            }
            return false;
        }
        i += 1;
    }
    assert(v@.subrange(at as int, at + w.len()) =~= w@);
    true
}

/// The white space at both ends of `v` removed.
pub fn trimmed(v: &Vec<char>) -> (r: Vec<char>)
    ensures
        r@ == trim(v@),
{
    let first = scan(v, 0, CharClass::Space);
    let last = scan_back(v, v.len(), CharClass::Space);
    if first < last {
        slice_of(v, first, last)
    } else {
        Vec::new()
    }
}

} // verus!
