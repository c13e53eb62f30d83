//! Character-level text processing: whitespace, trimming, lines and words,
//! in the sense that Rust's `str` methods give these words.
use vstd::prelude::*;

verus! {

/// The Unicode `White_Space` property, which `char::is_whitespace` tests.
pub open spec fn is_space(c: char) -> bool {
    let u = c as u32;
    ||| (0x9 <= u && u <= 0xd)
    ||| u == 0x20
    ||| u == 0x85
    ||| u == 0xa0
    ||| u == 0x1680
    ||| (0x2000 <= u && u <= 0x200a)
    ||| u == 0x2028
    ||| u == 0x2029
    ||| u == 0x202f
    ||| u == 0x205f
    ||| u == 0x3000
}

/// An ASCII decimal digit, what `char::is_digit(10)` accepts.
pub open spec fn is_digit(c: char) -> bool {
    '0' <= c && c <= '9'
}

/// Leading whitespace removed.
pub open spec fn trim_start(s: Seq<char>) -> Seq<char>
    decreases s.len(),
{
    if s.len() > 0 && is_space(s[0]) {
        trim_start(s.drop_first())
    } else {
        s
    }
}

/// Trailing whitespace removed.
pub open spec fn trim_end(s: Seq<char>) -> Seq<char>
    decreases s.len(),
{
    if s.len() > 0 && is_space(s.last()) {
        trim_end(s.drop_last())
    } else {
        s
    }
}

/// Leading and trailing whitespace removed, as `str::trim` does.
pub open spec fn trim(s: Seq<char>) -> Seq<char> {
    trim_end(trim_start(s))
}

/// The characters of `s` that are digits or `'.'`, in order.
pub open spec fn version_chars(s: Seq<char>) -> Seq<char>
    decreases s.len(),
{
    if s.len() == 0 {
        s
    } else if is_digit(s.last()) || s.last() == '.' {
        version_chars(s.drop_last()).push(s.last())
    } else {
        version_chars(s.drop_last())
    }
}

/// Every character of `s` is a digit (true of the empty text).
pub open spec fn all_digits(s: Seq<char>) -> bool {
    forall|i: int| 0 <= i < s.len() ==> is_digit(#[trigger] s[i])
}

/// Reading `s` left to right: the lines completed so far (each ended by a
/// `'\n'`) and the line still open.
pub open spec fn line_state(s: Seq<char>) -> (Seq<Seq<char>>, Seq<char>)
    decreases s.len(),
{
    if s.len() == 0 {
        (seq![], seq![])
    } else {
        let st = line_state(s.drop_last());
        if s.last() == '\n' {
            (st.0.push(st.1), seq![])
        } else {
            (st.0, st.1.push(s.last()))
        }
    }
}

/// The lines of `s`, split at `'\n'`; a final empty line is not a line.
/// A line keeps a `'\r'` before its `'\n'`; every caller trims its lines,
/// which makes these the lines of `str::lines`.
pub open spec fn lines(s: Seq<char>) -> Seq<Seq<char>> {
    let st = line_state(s);
    if st.1.len() > 0 {
        st.0.push(st.1)
    } else {
        st.0
    }
}

/// Reading `s` left to right: the words completed so far and the word
/// still open.
pub open spec fn word_state(s: Seq<char>) -> (Seq<Seq<char>>, Seq<char>)
    decreases s.len(),
{
    if s.len() == 0 {
        (seq![], seq![])
    } else {
        let st = word_state(s.drop_last());
        if is_space(s.last()) {
            if st.1.len() > 0 {
                (st.0.push(st.1), seq![])
            } else {
                st
            }
        } else {
            (st.0, st.1.push(s.last()))
        }
    }
}

/// The maximal runs of non-whitespace characters of `s`, as
/// `str::split_whitespace` gives them.
pub open spec fn words(s: Seq<char>) -> Seq<Seq<char>> {
    let st = word_state(s);
    if st.1.len() > 0 {
        st.0.push(st.1)
    } else {
        st.0
    }
}

/// The views of a sequence of character vectors.
pub open spec fn views(v: Seq<Vec<char>>) -> Seq<Seq<char>> {
    Seq::new(v.len(), |i: int| v[i]@)
}

/// The views of a sequence of strings.
pub open spec fn string_views(v: Seq<String>) -> Seq<Seq<char>> {
    Seq::new(v.len(), |i: int| v[i]@)
}

/// A sequence with one more element contains exactly what it contained
/// before and that element.
pub proof fn lemma_push_contains<A>(s: Seq<A>, x: A, y: A)
    ensures
        s.push(x).contains(y) <==> (s.contains(y) || y == x),
{
    if s.contains(y) {
        let i = choose|i: int| 0 <= i < s.len() && s[i] == y;
        assert(s.push(x)[i] == y);
    }
    if y == x {
        assert(s.push(x)[s.len() as int] == y);
    }
    if s.push(x).contains(y) && y != x {
        let i = choose|i: int| 0 <= i < s.push(x).len() && s.push(x)[i] == y;
        assert(s[i] == y);
    }
}


/// The lines of `ls`, each followed by a newline, one after another.
pub open spec fn join_lines(ls: Seq<Seq<char>>) -> Seq<char>
    decreases ls.len(),
{
    if ls.len() == 0 {
        seq![]
    } else {
        join_lines(ls.drop_last()) + ls.last() + seq!['\n']
    }
}

/// `s` holds no newline.
pub open spec fn one_line(s: Seq<char>) -> bool {
    forall|i: int| 0 <= i < s.len() ==> s[i] != '\n'
}

/// After a text that ends its last line, line splitting starts afresh.
pub proof fn lemma_line_state_concat(a: Seq<char>, b: Seq<char>)
    requires
        line_state(a).1.len() == 0,
    ensures
        line_state(a + b) == (line_state(a).0 + line_state(b).0, line_state(b).1),
    decreases b.len(),
{
    if b.len() == 0 {
        assert(a + b =~= a);
        assert(line_state(a).0 + line_state(b).0 =~= line_state(a).0);
    } else {
        assert((a + b).drop_last() =~= a + b.drop_last());
        lemma_line_state_concat(a, b.drop_last());
        let st = line_state(b.drop_last());
        if b.last() == '\n' {
            assert((line_state(a).0 + st.0).push(st.1) =~= line_state(a).0 + st.0.push(st.1));
        }
    }
}

/// A text without newlines is one open line.
pub proof fn lemma_line_state_one_line(x: Seq<char>)
    requires
        one_line(x),
    ensures
        line_state(x) == (Seq::<Seq<char>>::empty(), x),
    decreases x.len(),
{
    if x.len() > 0 {
        lemma_line_state_one_line(x.drop_last());
        assert(x.drop_last().push(x.last()) =~= x);
    }
}

/// Lines joined with newlines split back into the same lines.
pub proof fn lemma_lines_of_join(ls: Seq<Seq<char>>)
    requires
        forall|i: int| 0 <= i < ls.len() ==> one_line(#[trigger] ls[i]),
    ensures
        line_state(join_lines(ls)) == (ls, Seq::<char>::empty()),
    decreases ls.len(),
{
    if ls.len() == 0 {
        assert(line_state(join_lines(ls)).0 =~= ls);
    } else {
        let d = ls.drop_last();
        assert forall|i: int| 0 <= i < d.len() implies one_line(#[trigger] d[i]) by {
            assert(d[i] == ls[i]);
        }
        lemma_lines_of_join(d);
        let x = ls.last();
        assert(one_line(x)) by {
            assert(ls[ls.len() - 1] == x);
        }
        lemma_line_state_one_line(x);
        let xl = x + seq!['\n'];
        assert(xl.drop_last() =~= x);
        assert(line_state(xl) == (seq![x], Seq::<char>::empty())) by {
            assert(Seq::<Seq<char>>::empty().push(x) =~= seq![x]);
        }
        lemma_line_state_concat(join_lines(d), xl);
        assert(join_lines(d) + x + seq!['\n'] =~= join_lines(d) + xl);
        assert(d + seq![x] =~= ls);
    }
}

/// Whitespace removed from the front of a concatenation.
pub proof fn lemma_trim_start_concat(a: Seq<char>, b: Seq<char>)
    ensures
        trim_start(a + b) == (if trim_start(a).len() > 0 { trim_start(a) + b } else { trim_start(b) }),
    decreases a.len(),
{
    if a.len() == 0 {
        assert(a + b =~= b);
    } else if is_space(a[0]) {
        assert((a + b).drop_first() =~= a.drop_first() + b);
        lemma_trim_start_concat(a.drop_first(), b);
    } else {
        assert((a + b)[0] == a[0]);
    }
}

/// Whitespace removed from the end of a concatenation.
pub proof fn lemma_trim_end_concat(a: Seq<char>, b: Seq<char>)
    ensures
        trim_end(a + b) == (if trim_end(b).len() > 0 { a + trim_end(b) } else { trim_end(a) }),
    decreases b.len(),
{
    if b.len() == 0 {
        assert(a + b =~= a);
    } else if is_space(b.last()) {
        assert((a + b).drop_last() =~= a + b.drop_last());
        lemma_trim_end_concat(a, b.drop_last());
    } else {
        assert((a + b).last() == b.last());
    }
}

/// What `trim_end` leaves is empty or ends with a non-space.
pub proof fn lemma_trim_end_last(s: Seq<char>)
    ensures
        trim_end(s).len() > 0 ==> !is_space(trim_end(s).last()),
        trim_end(s).len() <= s.len(),
    decreases s.len(),
{
    if s.len() > 0 && is_space(s.last()) {
        lemma_trim_end_last(s.drop_last());
    }
}

/// What `trim_start` leaves is empty or starts with a non-space.
pub proof fn lemma_trim_start_first(s: Seq<char>)
    ensures
        trim_start(s).len() > 0 ==> !is_space(trim_start(s)[0]),
        trim_start(s).len() <= s.len(),
    decreases s.len(),
{
    if s.len() > 0 && is_space(s[0]) {
        lemma_trim_start_first(s.drop_first());
    }
}

/// A text that starts and ends with non-spaces is its own trim.
pub proof fn lemma_trim_fixed(s: Seq<char>)
    requires
        s.len() > 0,
        !is_space(s[0]),
        !is_space(s.last()),
    ensures
        trim(s) == s,
{
}

/// Trimming twice is trimming once.
pub proof fn lemma_trim_idempotent(s: Seq<char>)
    ensures
        trim(trim(s)) == trim(s),
{
    let t = trim(s);
    lemma_trim_start_first(s);
    lemma_trim_end_last(trim_start(s));
    if t.len() > 0 {
        let u = trim_start(s);
        assert(u.len() > 0);
        lemma_trim_end_prefix(u);
        assert(t[0] == u[0]);
        lemma_trim_fixed(t);
    }
}

/// What `trim_end` leaves is a prefix of the text.
pub proof fn lemma_trim_end_prefix(s: Seq<char>)
    ensures
        trim_end(s) == s.subrange(0, trim_end(s).len() as int),
    decreases s.len(),
{
    if s.len() > 0 && is_space(s.last()) {
        lemma_trim_end_prefix(s.drop_last());
        lemma_trim_end_last(s.drop_last());
        assert(s.drop_last().subrange(0, trim_end(s).len() as int) =~= s.subrange(0, trim_end(s).len() as int));
    } else {
        assert(s.subrange(0, s.len() as int) =~= s);
    }
}

/// After a text whose last word is closed, word splitting starts afresh.
pub proof fn lemma_word_state_concat(a: Seq<char>, b: Seq<char>)
    requires
        word_state(a).1.len() == 0,
    ensures
        word_state(a + b) == (word_state(a).0 + word_state(b).0, word_state(b).1),
    decreases b.len(),
{
    if b.len() == 0 {
        assert(a + b =~= a);
        assert(word_state(a).0 + word_state(b).0 =~= word_state(a).0);
    } else {
        assert((a + b).drop_last() =~= a + b.drop_last());
        lemma_word_state_concat(a, b.drop_last());
        let st = word_state(b.drop_last());
        if is_space(b.last()) && st.1.len() > 0 {
            assert((word_state(a).0 + st.0).push(st.1) =~= word_state(a).0 + st.0.push(st.1));
        }
    }
}

/// A text without spaces is one open word.
pub proof fn lemma_word_state_word(x: Seq<char>)
    requires
        forall|i: int| 0 <= i < x.len() ==> !is_space(#[trigger] x[i]),
    ensures
        word_state(x) == (Seq::<Seq<char>>::empty(), x),
    decreases x.len(),
{
    if x.len() > 0 {
        lemma_word_state_word(x.drop_last());
        assert(x.drop_last().push(x.last()) =~= x);
    }
}

/// The words of a word followed by a space and more text.
pub proof fn lemma_words_after_word(k: Seq<char>, sp: char, rest: Seq<char>)
    requires
        k.len() > 0,
        forall|i: int| 0 <= i < k.len() ==> !is_space(#[trigger] k[i]),
        is_space(sp),
    ensures
        words(k + seq![sp] + rest) == seq![k] + words(rest),
{
    lemma_word_state_word(k);
    let ks = k + seq![sp];
    assert(ks.drop_last() =~= k);
    assert(word_state(ks) == (seq![k], Seq::<char>::empty())) by {
        assert(Seq::<Seq<char>>::empty().push(k) =~= seq![k]);
    }
    lemma_word_state_concat(ks, rest);
    let st = word_state(rest);
    if st.1.len() > 0 {
        assert((seq![k] + st.0).push(st.1) =~= seq![k] + st.0.push(st.1));
    }
}

/// A single word is its only word.
pub proof fn lemma_words_word(k: Seq<char>)
    requires
        k.len() > 0,
        forall|i: int| 0 <= i < k.len() ==> !is_space(#[trigger] k[i]),
    ensures
        words(k) == seq![k],
{
    lemma_word_state_word(k);
    assert(Seq::<Seq<char>>::empty().push(k) =~= seq![k]);
}

/// Trailing whitespace does not change the words.
pub proof fn lemma_words_trim_end(x: Seq<char>)
    ensures
        words(trim_end(x)) == words(x),
    decreases x.len(),
{
    if x.len() > 0 && is_space(x.last()) {
        lemma_words_trim_end(x.drop_last());
        let st = word_state(x.drop_last());
        if st.1.len() > 0 {
            assert(words(x) == st.0.push(st.1));
        }
    }
}


/// The position of the first `c` in `s`, if any.
pub open spec fn find_char(s: Seq<char>, c: char) -> Option<int>
    decreases s.len(),
{
    if s.len() == 0 {
        None
    } else {
        match find_char(s.drop_last(), c) {
            Some(i) => Some(i),
            None => if s.last() == c {
                Some(s.len() - 1)
            } else {
                None
            },
        }
    }
}

/// Leading copies of `c` removed.
pub open spec fn strip_start_char(s: Seq<char>, c: char) -> Seq<char>
    decreases s.len(),
{
    if s.len() > 0 && s[0] == c {
        strip_start_char(s.drop_first(), c)
    } else {
        s
    }
}

/// Trailing copies of `c` removed.
pub open spec fn strip_end_char(s: Seq<char>, c: char) -> Seq<char>
    decreases s.len(),
{
    if s.len() > 0 && s.last() == c {
        strip_end_char(s.drop_last(), c)
    } else {
        s
    }
}

/// Leading and trailing copies of `c` removed, as `str::trim_matches(c)`
/// does.
pub open spec fn strip_char(s: Seq<char>, c: char) -> Seq<char> {
    strip_end_char(strip_start_char(s, c), c)
}

/// What `find_char` finds: the first occurrence, or that there is none.
pub proof fn lemma_find_char(s: Seq<char>, c: char)
    ensures
        match find_char(s, c) {
            Some(i) => 0 <= i < s.len() && s[i] == c && forall|j: int| 0 <= j < i ==> s[j] != c,
            None => forall|j: int| 0 <= j < s.len() ==> s[j] != c,
        },
    decreases s.len(),
{
    if s.len() > 0 {
        lemma_find_char(s.drop_last(), c);
        match find_char(s.drop_last(), c) {
            Some(i) => {
                assert(s[i] == s.drop_last()[i]);
                assert forall|j: int| 0 <= j < i implies s[j] != c by {
                    assert(s[j] == s.drop_last()[j]);
                }
            },
            None => {
                assert forall|j: int| 0 <= j < s.len() - 1 implies s[j] != c by {
                    assert(s[j] == s.drop_last()[j]);
                }
            },
        }
    }
}

/// The first occurrence of `c` is found where it is.
pub proof fn lemma_find_char_at(s: Seq<char>, c: char, i: int)
    requires
        0 <= i < s.len(),
        s[i] == c,
        forall|j: int| 0 <= j < i ==> s[j] != c,
    ensures
        find_char(s, c) == Some(i),
{
    lemma_find_char(s, c);
    match find_char(s, c) {
        Some(k) => {
            if k < i {
                assert(s[k] != c);
            } else if k > i {
                assert(s[i] != c);
            }
        },
        None => {
            assert(s[i] != c);
        },
    }
}

/// Keeping digits and dots distributes over concatenation.
pub proof fn lemma_version_chars_concat(a: Seq<char>, b: Seq<char>)
    ensures
        version_chars(a + b) == version_chars(a) + version_chars(b),
    decreases b.len(),
{
    if b.len() == 0 {
        assert(a + b =~= a);
        assert(version_chars(a) + version_chars(b) =~= version_chars(a));
    } else {
        assert((a + b).drop_last() =~= a + b.drop_last());
        lemma_version_chars_concat(a, b.drop_last());
        assert((a + b).last() == b.last());
        if is_digit(b.last()) || b.last() == '.' {
            assert((version_chars(a) + version_chars(b.drop_last())).push(b.last()) =~= version_chars(a) + version_chars(b.drop_last()).push(b.last()));
        }
    }
}

/// A text of digits and dots keeps all of its characters.
pub proof fn lemma_version_chars_plain(s: Seq<char>)
    requires
        forall|i: int| 0 <= i < s.len() ==> is_digit(#[trigger] s[i]) || s[i] == '.',
    ensures
        version_chars(s) == s,
    decreases s.len(),
{
    if s.len() > 0 {
        assert forall|i: int| 0 <= i < s.drop_last().len() implies is_digit(#[trigger] s.drop_last()[i]) || s.drop_last()[i] == '.' by {
            assert(s.drop_last()[i] == s[i]);
        }
        lemma_version_chars_plain(s.drop_last());
        assert(s.last() == s[s.len() - 1]);
        assert(s.drop_last().push(s.last()) =~= s);
    }
}

/// Whether a character is whitespace (the Unicode `White_Space` property,
/// as `char::is_whitespace` decides it).
pub fn char_is_whitespace(c: char) -> (b: bool)
    ensures
        b == is_space(c),
{
    let u = c as u32;
    (0x9 <= u && u <= 0xd) || u == 0x20 || u == 0x85 || u == 0xa0 || u == 0x1680
        || (0x2000 <= u && u <= 0x200a) || u == 0x2028 || u == 0x2029 || u == 0x202f
        || u == 0x205f || u == 0x3000
}

/// `String::push`: appends one character.
#[verifier::external_body]
pub(crate) fn push_char(s: &mut String, c: char)
    ensures
        final(s)@ == old(s)@.push(c),
{
    s.push(c)
}

/// The characters of a string, in order.
pub fn chars_of(s: &str) -> (v: Vec<char>)
    ensures
        v@ == s@,
{
    let mut v: Vec<char> = Vec::new();
    for c in it: s.chars()
        invariant
            v@ == it.seq().subrange(0, it.index() as int),
    {
        v.push(c);
    }
    proof {
        broadcast use vstd::string::group_string_axioms;
        assert(v@ =~= s@);
    }
    v
}

/// A string holding the given characters.
pub fn string_of(v: &[char]) -> (s: String)
    ensures
        s@ == v@,
{
    let mut s = String::new();
    let mut i: usize = 0;
    while i < v.len()
        invariant
            i <= v@.len(),
            s@ == v@.subrange(0, i as int),
        decreases v@.len() - i,
    {
        push_char(&mut s, v[i]);
        i = i + 1;
    }
    s
}

/// Whether two character sequences are equal.
pub fn chars_eq(a: &[char], b: &[char]) -> (r: bool)
    ensures
        r == (a@ == b@),
{
    if a.len() != b.len() {
        return false;
    }
    let mut i: usize = 0;
    while i < a.len()
        invariant
            a@.len() == b@.len(),
            i <= a@.len(),
            forall|j: int| 0 <= j < i ==> a@[j] == b@[j],
        decreases a@.len() - i,
    {
        if a[i] != b[i] {
            return false;
        }
        i = i + 1;
    }
    assert(a@ =~= b@);
    true
}

/// Whether `s` begins with `prefix`.
pub fn starts_with(s: &[char], prefix: &[char]) -> (r: bool)
    ensures
        r == (prefix@.len() <= s@.len() && s@.subrange(0, prefix@.len() as int) == prefix@),
{
    if prefix.len() > s.len() {
        return false;
    }
    let mut i: usize = 0;
    while i < prefix.len()
        invariant
            prefix@.len() <= s@.len(),
            i <= prefix@.len(),
            forall|j: int| 0 <= j < i ==> s@[j] == prefix@[j],
        decreases prefix@.len() - i,
    {
        if s[i] != prefix[i] {
            assert(s@.subrange(0, prefix@.len() as int)[i as int] != prefix@[i as int]);
            return false;
        }
        i = i + 1;
    }
    assert(s@.subrange(0, prefix@.len() as int) =~= prefix@);
    true
}

/// A copy of `s[from..to]`.
pub fn slice_chars(s: &[char], from: usize, to: usize) -> (r: Vec<char>)
    requires
        from <= to <= s@.len(),
    ensures
        r@ == s@.subrange(from as int, to as int),
{
    let mut r: Vec<char> = Vec::new();
    let mut i: usize = from;
    while i < to
        invariant
            from <= i <= to,
            to <= s@.len(),
            r@ == s@.subrange(from as int, i as int),
        decreases to - i,
    {
        r.push(s[i]);
        i = i + 1;
    }
    r
}

/// `s` with leading and trailing whitespace removed.
pub fn trim_chars(s: &[char]) -> (r: Vec<char>)
    ensures
        r@ == trim(s@),
{
    let n = s.len();
    let mut i: usize = 0;
    assert(s@.subrange(0, n as int) =~= s@);
    while i < n && char_is_whitespace(s[i])
        invariant
            n == s@.len(),
            i <= n,
            trim_start(s@) == trim_start(s@.subrange(i as int, n as int)),
        decreases n - i,
    {
        assert(s@.subrange(i as int, n as int).drop_first() =~= s@.subrange(i + 1, n as int));
        i = i + 1;
    }
    assert(trim_start(s@) == s@.subrange(i as int, n as int));
    let mut j: usize = n;
    while j > i && char_is_whitespace(s[j - 1])
        invariant
            n == s@.len(),
            i <= j <= n,
            trim(s@) == trim_end(s@.subrange(i as int, j as int)),
        decreases j,
    {
        assert(s@.subrange(i as int, j as int).drop_last() =~= s@.subrange(i as int, j - 1));
        j = j - 1;
    }
    slice_chars(s, i, j)
}

/// The characters of `s` that are digits or `'.'`, in order.
pub fn keep_version_chars(s: &[char]) -> (r: Vec<char>)
    ensures
        r@ == version_chars(s@),
{
    let mut r: Vec<char> = Vec::new();
    let mut i: usize = 0;
    while i < s.len()
        invariant
            i <= s@.len(),
            r@ == version_chars(s@.subrange(0, i as int)),
        decreases s@.len() - i,
    {
        assert(s@.subrange(0, i + 1).drop_last() =~= s@.subrange(0, i as int));
        let c = s[i];
        if ('0' <= c && c <= '9') || c == '.' {
            r.push(c);
        }
        i = i + 1;
    }
    assert(s@.subrange(0, s@.len() as int) =~= s@);
    r
}

/// The lines of `s`, as `lines` gives them.
pub fn split_lines(s: &[char]) -> (r: Vec<Vec<char>>)
    ensures
        views(r@) == lines(s@),
{
    let mut done: Vec<Vec<char>> = Vec::new();
    let mut cur: Vec<char> = Vec::new();
    let mut i: usize = 0;
    while i < s.len()
        invariant
            i <= s@.len(),
            views(done@) == line_state(s@.subrange(0, i as int)).0,
            cur@ == line_state(s@.subrange(0, i as int)).1,
        decreases s@.len() - i,
    {
        assert(s@.subrange(0, i + 1).drop_last() =~= s@.subrange(0, i as int));
        let c = s[i];
        if c == '\n' {
            let line = cur;
            done.push(line);
            cur = Vec::new();
            assert(views(done@) =~= line_state(s@.subrange(0, i + 1)).0);
        } else {
            cur.push(c);
        }
        i = i + 1;
    }
    assert(s@.subrange(0, s@.len() as int) =~= s@);
    if cur.len() > 0 {
        done.push(cur);
    }
    assert(views(done@) =~= lines(s@));
    done
}

/// The words of `s`, as `words` gives them.
pub fn split_words(s: &[char]) -> (r: Vec<Vec<char>>)
    ensures
        views(r@) == words(s@),
{
    let mut done: Vec<Vec<char>> = Vec::new();
    let mut cur: Vec<char> = Vec::new();
    let mut i: usize = 0;
    while i < s.len()
        invariant
            i <= s@.len(),
            views(done@) == word_state(s@.subrange(0, i as int)).0,
            cur@ == word_state(s@.subrange(0, i as int)).1,
        decreases s@.len() - i,
    {
        assert(s@.subrange(0, i + 1).drop_last() =~= s@.subrange(0, i as int));
        let c = s[i];
        if char_is_whitespace(c) {
            if cur.len() > 0 {
                let word = cur;
                done.push(word);
                cur = Vec::new();
                assert(views(done@) =~= word_state(s@.subrange(0, i + 1)).0);
            }
        } else {
            cur.push(c);
        }
        i = i + 1;
    }
    assert(s@.subrange(0, s@.len() as int) =~= s@);
    if cur.len() > 0 {
        done.push(cur);
    }
    assert(views(done@) =~= words(s@));
    done
}


/// The position of the first `c` in `s`, if any.
pub fn find_char_index(s: &[char], c: char) -> (r: Option<usize>)
    ensures
        match r {
            Some(i) => i < s@.len() && find_char(s@, c) == Some(i as int),
            None => find_char(s@, c) is None,
        },
{
    let mut i: usize = 0;
    while i < s.len()
        invariant
            i <= s@.len(),
            forall|j: int| 0 <= j < i ==> s@[j] != c,
        decreases s@.len() - i,
    {
        if s[i] == c {
            proof {
                lemma_find_char_at(s@, c, i as int);
            }
            return Some(i);
        }
        i = i + 1;
    }
    proof {
        lemma_find_char(s@, c);
        if let Some(k) = find_char(s@, c) {
            assert(s@[k] != c);
        }
    }
    None
}

/// `s` with leading and trailing copies of `c` removed.
pub fn strip_chars(s: &[char], c: char) -> (r: Vec<char>)
    ensures
        r@ == strip_char(s@, c),
{
    let n = s.len();
    let mut i: usize = 0;
    assert(s@.subrange(0, n as int) =~= s@);
    while i < n && s[i] == c
        invariant
            n == s@.len(),
            i <= n,
            strip_start_char(s@, c) == strip_start_char(s@.subrange(i as int, n as int), c),
        decreases n - i,
    {
        assert(s@.subrange(i as int, n as int).drop_first() =~= s@.subrange(i + 1, n as int));
        i = i + 1;
    }
    assert(strip_start_char(s@, c) == s@.subrange(i as int, n as int));
    let mut j: usize = n;
    while j > i && s[j - 1] == c
        invariant
            n == s@.len(),
            i <= j <= n,
            strip_char(s@, c) == strip_end_char(s@.subrange(i as int, j as int), c),
        decreases j,
    {
        assert(s@.subrange(i as int, j as int).drop_last() =~= s@.subrange(i as int, j - 1));
        j = j - 1;
    }
    slice_chars(s, i, j)
}

/// `s` with leading and trailing whitespace removed.
pub fn trim_str(s: &str) -> (r: String)
    ensures
        r@ == trim(s@),
{
    let cs = chars_of(s);
    string_of(&trim_chars(&cs))
}

/// `s` with leading and trailing copies of `c` removed.
pub fn strip_str(s: &str, c: char) -> (r: String)
    ensures
        r@ == strip_char(s@, c),
{
    let cs = chars_of(s);
    string_of(&strip_chars(&cs, c))
}

} // verus!
