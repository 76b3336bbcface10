//! Character classification and string plumbing shared by the text lessons.
//!
//! Unicode character properties and case mappings are those of the standard
//! library: each is reached through one small trusted wrapper, and what the
//! standard library documents for ASCII characters is stated beside it.
use vstd::prelude::*;

verus! {

// ---------------------------------------------------------------------------
// ASCII character classes (complete definitions)
// ---------------------------------------------------------------------------
/// `c` is one of the 128 ASCII characters.
pub open spec fn is_ascii_char(c: char) -> bool {
    (c as u32) < 128
}

/// `c` is an ASCII letter.
pub open spec fn ascii_letter(c: char) -> bool {
    ('a' <= c && c <= 'z') || ('A' <= c && c <= 'Z')
}

/// `c` is an ASCII decimal digit.
pub open spec fn ascii_digit(c: char) -> bool {
    '0' <= c && c <= '9'
}

/// `c` is ASCII white space in the Unicode sense: tab, line feed, vertical
/// tab, form feed, carriage return or space.
pub open spec fn ascii_space(c: char) -> bool {
    ('\t' <= c && c <= '\r') || c == ' '
}

/// `c` is ASCII punctuation: one of ``!"#$%&'()*+,-./:;<=>?@[\]^_`{|}~``.
pub open spec fn ascii_punctuation(c: char) -> bool {
    ('!' <= c && c <= '/') || (':' <= c && c <= '@') || ('[' <= c && c <= '`') || ('{' <= c
        && c <= '~')
}

/// The ASCII lower-case form of `c` (other characters are unchanged).
pub open spec fn ascii_lower(c: char) -> char {
    if 'A' <= c && c <= 'Z' {
        ((c as u32) + 32) as char
    } else {
        c
    }
}

/// The ASCII upper-case form of `c` (other characters are unchanged).
pub open spec fn ascii_upper(c: char) -> char {
    if 'a' <= c && c <= 'z' {
        ((c as u32) - 32) as char
    } else {
        c
    }
}

/// Whether `c` is ASCII punctuation (`char::is_ascii_punctuation`).
pub fn is_ascii_punctuation(c: char) -> (b: bool)
    ensures
        b == ascii_punctuation(c),
{
    ('!' <= c && c <= '/') || (':' <= c && c <= '@') || ('[' <= c && c <= '`') || ('{' <= c
        && c <= '~')
}

// ---------------------------------------------------------------------------
// Unicode properties of the standard library
// ---------------------------------------------------------------------------
/// Unicode `Alphabetic` property, as `char::is_alphabetic` computes it.
pub uninterp spec fn unicode_alphabetic(c: char) -> bool;

/// Unicode numeric property (`Nd`, `Nl` or `No`), as `char::is_numeric` computes it.
pub uninterp spec fn unicode_numeric(c: char) -> bool;

/// `Alphabetic` or numeric, as `char::is_alphanumeric` computes it.
pub uninterp spec fn unicode_alphanumeric(c: char) -> bool;

/// Unicode `White_Space` property, as `char::is_whitespace` computes it.
pub uninterp spec fn unicode_whitespace(c: char) -> bool;

/// Unicode `Uppercase` property, as `char::is_uppercase` computes it.
pub uninterp spec fn unicode_uppercase(c: char) -> bool;

/// The characters that `char::to_lowercase` yields for `c`.
pub uninterp spec fn char_lowercase(c: char) -> Seq<char>;

/// The characters that `char::to_uppercase` yields for `c`.
pub uninterp spec fn char_uppercase(c: char) -> Seq<char>;

/// The string that `str::to_lowercase` returns for `s`.
pub uninterp spec fn str_lowercase(s: Seq<char>) -> Seq<char>;

/// The string that `str::to_uppercase` returns for `s`.
pub uninterp spec fn str_uppercase(s: Seq<char>) -> Seq<char>;

/// What `char::to_lowercase` yields for `c`: on ASCII, its ASCII lower-case
/// form alone, as the standard library documents; beyond ASCII, the Unicode
/// mapping.
pub open spec fn lower_of(c: char) -> Seq<char> {
    if is_ascii_char(c) {
        seq![ascii_lower(c)]
    } else {
        char_lowercase(c)
    }
}

/// What `char::to_uppercase` yields for `c`, ASCII spelled out as for
/// [`lower_of`].
pub open spec fn upper_of(c: char) -> Seq<char> {
    if is_ascii_char(c) {
        seq![ascii_upper(c)]
    } else {
        char_uppercase(c)
    }
}

/// Whether `char::is_uppercase` holds of `c`: on ASCII, exactly of `A`
/// through `Z`; beyond ASCII, the Unicode property.
pub open spec fn is_upper(c: char) -> bool {
    if is_ascii_char(c) {
        'A' <= c && c <= 'Z'
    } else {
        unicode_uppercase(c)
    }
}

/// Whether `char::is_alphanumeric` holds of `c`: it is
/// `is_alphabetic() || is_numeric()`, which on ASCII holds exactly of the
/// letters and the decimal digits.
pub open spec fn alnum(c: char) -> bool {
    if is_ascii_char(c) {
        ascii_letter(c) || ascii_digit(c)
    } else {
        unicode_alphabetic(c) || unicode_numeric(c)
    }
}

/// Calls `char::is_alphabetic`. Claims its result is the named property of
/// `c`, and that on ASCII it holds exactly of the ASCII letters.
#[verifier::external_body]
pub(crate) fn is_alphabetic(c: char) -> (b: bool)
    ensures
        b == unicode_alphabetic(c),
        is_ascii_char(c) ==> (b == ascii_letter(c)),
{
    c.is_alphabetic()
}

/// Calls `char::is_numeric`. Claims its result is the named property of
/// `c`, and that on ASCII it holds exactly of the decimal digits.
#[verifier::external_body]
pub(crate) fn is_numeric(c: char) -> (b: bool)
    ensures
        b == unicode_numeric(c),
        is_ascii_char(c) ==> (b == ascii_digit(c)),
{
    c.is_numeric()
}

/// Calls `char::is_alphanumeric`. Claims, as its documentation says, that it
/// is `is_alphabetic() || is_numeric()`.
#[verifier::external_body]
pub(crate) fn is_alphanumeric(c: char) -> (b: bool)
    ensures
        b == unicode_alphanumeric(c),
        b == (unicode_alphabetic(c) || unicode_numeric(c)),
{
    c.is_alphanumeric()
}

/// Calls `char::is_whitespace`. Claims its result is the named property of
/// `c`, and that on ASCII it holds exactly of tab through carriage return and space.
#[verifier::external_body]
pub(crate) fn is_whitespace(c: char) -> (b: bool)
    ensures
        b == unicode_whitespace(c),
        is_ascii_char(c) ==> (b == ascii_space(c)),
{
    c.is_whitespace()
}

/// Calls `char::is_uppercase`. Claims its result is the named property of
/// `c`, and that on ASCII it holds exactly of `A` through `Z`.
#[verifier::external_body]
pub(crate) fn is_uppercase(c: char) -> (b: bool)
    ensures
        b == unicode_uppercase(c),
        is_ascii_char(c) ==> (b == ('A' <= c && c <= 'Z')),
{
    c.is_uppercase()
}

/// Calls `char::to_lowercase` and collects what it yields. Claims the result
/// is the named mapping of `c`, holds at least one character (the iterator
/// "yields one or more chars"), and that an ASCII character maps to its ASCII
/// lower-case form alone.
#[verifier::external_body]
pub(crate) fn to_lowercase_chars(c: char) -> (r: Vec<char>)
    ensures
        r@ == char_lowercase(c),
        r@.len() >= 1,
        is_ascii_char(c) ==> r@ == seq![ascii_lower(c)],
{
    c.to_lowercase().collect()
}

/// Calls `char::to_uppercase` and collects what it yields. Claims the result
/// is the named mapping of `c`, holds at least one character (the iterator
/// "yields one or more chars"), and that an ASCII character maps to its ASCII
/// upper-case form alone.
#[verifier::external_body]
pub(crate) fn to_uppercase_chars(c: char) -> (r: Vec<char>)
    ensures
        r@ == char_uppercase(c),
        r@.len() >= 1,
        is_ascii_char(c) ==> r@ == seq![ascii_upper(c)],
{
    c.to_uppercase().collect()
}

/// Calls `str::to_lowercase`. Claims the result is the named mapping of
/// `s`, and that an all-ASCII string maps character by character to its
/// ASCII lower-case form.
#[verifier::external_body]
pub(crate) fn str_to_lowercase(s: &str) -> (r: String)
    ensures
        r@ == str_lowercase(s@),
        (forall|i: int| 0 <= i < s@.len() ==> is_ascii_char(#[trigger] s@[i])) ==> r@
            == s@.map_values(|c: char| ascii_lower(c)),
{
    s.to_lowercase()
}

/// Calls `str::to_uppercase`. Claims the result is the named mapping of
/// `s`, and that an all-ASCII string maps character by character to its
/// ASCII upper-case form.
#[verifier::external_body]
pub(crate) fn str_to_uppercase(s: &str) -> (r: String)
    ensures
        r@ == str_uppercase(s@),
        (forall|i: int| 0 <= i < s@.len() ==> is_ascii_char(#[trigger] s@[i])) ==> r@
            == s@.map_values(|c: char| ascii_upper(c)),
{
    s.to_uppercase()
}

/// Calls `String::push`: appends `c`.
#[verifier::external_body]
pub(crate) fn push_char(s: &mut String, c: char)
    ensures
        final(s)@ == old(s)@.push(c),
{
    s.push(c);
}

/// Calls `String::push_str`: appends `t`.
#[verifier::external_body]
pub(crate) fn push_str(s: &mut String, t: &str)
    ensures
        final(s)@ == old(s)@ + t@,
{
    s.push_str(t);
}

// ---------------------------------------------------------------------------
// Plumbing between strings and character vectors
// ---------------------------------------------------------------------------
/// The characters of `s`, in order.
pub fn chars_of(s: &str) -> (v: Vec<char>)
    ensures
        v@ == s@,
{
    let mut v: Vec<char> = Vec::new();
    for c in it: s.chars()
        invariant
            v@ == it.seq().take(it.index() as int),
    {
        v.push(c);
    }
    v
}

/// A string made of the characters of `v`.
pub fn string_of(v: &Vec<char>) -> (s: String)
    ensures
        s@ == v@,
{
    let mut s = String::new();
    let mut i: usize = 0;
    while i < v.len()
        invariant
            i <= v.len(),
            s@ == v@.take(i as int),
        decreases v.len() - i,
    {
        push_char(&mut s, v[i]);
        i = i + 1;
        assert(s@ =~= v@.take(i as int));
    }
    assert(v@.take(v.len() as int) =~= v@);
    s
}


/// The character sequences of a list of strings.
pub open spec fn views(v: Seq<String>) -> Seq<Seq<char>> {
    v.map_values(|w: String| w@)
}

/// The pending word `cur` as a list of at most one word.
pub open spec fn flush(cur: Seq<char>) -> Seq<Seq<char>> {
    if cur.len() > 0 {
        seq![cur]
    } else {
        Seq::empty()
    }
}

/// The words of `s` after the partial word `cur`: maximal runs of
/// characters that are not white space.
pub open spec fn words_from(s: Seq<char>, cur: Seq<char>) -> Seq<Seq<char>>
    decreases s.len(),
{
    if s.len() == 0 {
        flush(cur)
    } else if unicode_whitespace(s[0]) {
        flush(cur) + words_from(s.drop_first(), Seq::empty())
    } else {
        words_from(s.drop_first(), cur.push(s[0]))
    }
}

/// The words of `s`, as `str::split_whitespace` yields them.
pub open spec fn words(s: Seq<char>) -> Seq<Seq<char>> {
    words_from(s, Seq::empty())
}

/// The pieces of `s` after the partial piece `cur`, cut at every `sep`.
pub open spec fn pieces_from(s: Seq<char>, sep: char, cur: Seq<char>) -> Seq<Seq<char>>
    decreases s.len(),
{
    if s.len() == 0 {
        seq![cur]
    } else if s[0] == sep {
        seq![cur] + pieces_from(s.drop_first(), sep, Seq::empty())
    } else {
        pieces_from(s.drop_first(), sep, cur.push(s[0]))
    }
}

/// The pieces of `s` cut at every `sep`, as `str::split(sep)` yields them
/// (an empty string gives one empty piece).
pub open spec fn pieces(s: Seq<char>, sep: char) -> Seq<Seq<char>> {
    pieces_from(s, sep, Seq::empty())
}

/// A line ended by a line feed, without a carriage return just before it.
pub open spec fn strip_cr(line: Seq<char>) -> Seq<char> {
    if line.len() > 0 && line.last() == '\r' {
        line.drop_last()
    } else {
        line
    }
}

/// The lines of `s` after the partial line `cur`.
pub open spec fn lines_from(s: Seq<char>, cur: Seq<char>) -> Seq<Seq<char>>
    decreases s.len(),
{
    if s.len() == 0 {
        flush(cur)
    } else if s[0] == '\n' {
        seq![strip_cr(cur)] + lines_from(s.drop_first(), Seq::empty())
    } else {
        lines_from(s.drop_first(), cur.push(s[0]))
    }
}

/// The lines of `s`, as `str::lines` yields them: cut at each line feed, a
/// carriage return before a line feed dropped, no final empty line.
pub open spec fn lines(s: Seq<char>) -> Seq<Seq<char>> {
    lines_from(s, Seq::empty())
}

/// `needle` occurs in `hay` starting at `i`.
pub open spec fn occurs_at(hay: Seq<char>, needle: Seq<char>, i: int) -> bool {
    0 <= i && i + needle.len() <= hay.len() && hay.subrange(i, i + needle.len()) == needle
}

/// `needle` occurs somewhere in `hay`.
pub open spec fn contains(hay: Seq<char>, needle: Seq<char>) -> bool {
    exists|i: int| occurs_at(hay, needle, i)
}

/// `words` joined with `sep` between consecutive words.
pub open spec fn join(words: Seq<Seq<char>>, sep: Seq<char>) -> Seq<char>
    decreases words.len(),
{
    if words.len() == 0 {
        Seq::empty()
    } else if words.len() == 1 {
        words[0]
    } else {
        join(words.drop_last(), sep) + sep + words.last()
    }
}

/// The words of `s` (see [`words`]).
pub fn split_whitespace(s: &str) -> (r: Vec<String>)
    ensures
        views(r@) == words(s@),
{
    let cs = chars_of(s);
    let mut out: Vec<String> = Vec::new();
    let mut cur: Vec<char> = Vec::new();
    let mut i: usize = 0;
    assert(s@.skip(0) =~= s@);
    while i < cs.len()
        invariant
            i <= cs@.len(),
            cs@ == s@,
            words(s@) == views(out@) + words_from(s@.skip(i as int), cur@),
        decreases cs.len() - i,
    {
        let c = cs[i];
        assert(s@.skip(i as int).drop_first() =~= s@.skip(i + 1));
        assert(s@.skip(i as int)[0] == c);
        if is_whitespace(c) {
            let ghost rest = words_from(s@.skip(i + 1), Seq::empty());
            if cur.len() > 0 {
                let w = string_of(&cur);
                let ghost before = out@;
                out.push(w);
                assert(views(out@) =~= views(before) + seq![cur@]);
                assert(views(before) + (seq![cur@] + rest) =~= views(out@) + rest);
                cur = Vec::new();
            } else {
                assert(flush(cur@) + rest =~= rest);
                assert(cur@ =~= Seq::<char>::empty());
            }
        } else {
            cur.push(c);
        }
        i = i + 1;
    }
    assert(s@.skip(i as int) =~= Seq::<char>::empty());
    if cur.len() > 0 {
        let w = string_of(&cur);
        let ghost before = out@;
        out.push(w);
        assert(views(out@) =~= views(before) + seq![cur@]);
    } else {
        assert(views(out@) + flush(cur@) =~= views(out@));
    }
    out
}

/// The pieces of `s` cut at every `sep` (see [`pieces`]).
pub fn split_at_char(s: &str, sep: char) -> (r: Vec<String>)
    ensures
        views(r@) == pieces(s@, sep),
{
    let cs = chars_of(s);
    let mut out: Vec<String> = Vec::new();
    let mut cur: Vec<char> = Vec::new();
    let mut i: usize = 0;
    assert(s@.skip(0) =~= s@);
    while i < cs.len()
        invariant
            i <= cs@.len(),
            cs@ == s@,
            pieces(s@, sep) == views(out@) + pieces_from(s@.skip(i as int), sep, cur@),
        decreases cs.len() - i,
    {
        let c = cs[i];
        assert(s@.skip(i as int).drop_first() =~= s@.skip(i + 1));
        assert(s@.skip(i as int)[0] == c);
        if c == sep {
            let w = string_of(&cur);
            let ghost before = out@;
            out.push(w);
            assert(views(out@) =~= views(before) + seq![cur@]);
            cur = Vec::new();
        } else {
            cur.push(c);
        }
        i = i + 1;
    }
    assert(s@.skip(i as int) =~= Seq::<char>::empty());
    let w = string_of(&cur);
    let ghost before = out@;
    out.push(w);
    assert(views(out@) =~= views(before) + seq![cur@]);
    out
}

/// The lines of `s` (see [`lines`]).
pub fn lines_of(s: &str) -> (r: Vec<String>)
    ensures
        views(r@) == lines(s@),
{
    let cs = chars_of(s);
    let mut out: Vec<String> = Vec::new();
    let mut cur: Vec<char> = Vec::new();
    let mut i: usize = 0;
    assert(s@.skip(0) =~= s@);
    while i < cs.len()
        invariant
            i <= cs@.len(),
            cs@ == s@,
            lines(s@) == views(out@) + lines_from(s@.skip(i as int), cur@),
        decreases cs.len() - i,
    {
        let c = cs[i];
        assert(s@.skip(i as int).drop_first() =~= s@.skip(i + 1));
        assert(s@.skip(i as int)[0] == c);
        if c == '\n' {
            if cur.len() > 0 && cur[cur.len() - 1] == '\r' {
                cur.pop();
            }
            let w = string_of(&cur);
            let ghost before = out@;
            out.push(w);
            assert(views(out@) =~= views(before) + seq![cur@]);
            cur = Vec::new();
        } else {
            cur.push(c);
        }
        i = i + 1;
    }
    assert(s@.skip(i as int) =~= Seq::<char>::empty());
    if cur.len() > 0 {
        let w = string_of(&cur);
        let ghost before = out@;
        out.push(w);
        assert(views(out@) =~= views(before) + seq![cur@]);
    } else {
        assert(views(out@) + flush(cur@) =~= views(out@));
    }
    out
}

/// Whether `needle` occurs in `hay`.
pub fn seq_contains(hay: &Vec<char>, needle: &Vec<char>) -> (b: bool)
    ensures
        b == contains(hay@, needle@),
{
    let n = needle.len();
    if n > hay.len() {
        assert forall|i: int| !occurs_at(hay@, needle@, i) by {}
        return false;
    }
    let mut i: usize = 0;
    while i <= hay.len() - n
        invariant
            n == needle@.len(),
            n <= hay@.len(),
            i <= hay@.len() - n + 1,
            forall|j: int| 0 <= j < i ==> !occurs_at(hay@, needle@, j),
        decreases hay.len() - i,
    {
        let mut k: usize = 0;
        let mut same = true;
        while k < n
            invariant
                k <= n,
                n == needle@.len(),
                i + n <= hay.len(),
                same == (forall|m: int| 0 <= m < k ==> hay@[i + m] == needle@[m]),
            decreases n - k,
        {
            assert(i + k < hay@.len());
            if hay[i + k] != needle[k] {
                same = false;
            }
            k = k + 1;
        }
        if same {
            assert(hay@.subrange(i as int, i + n) =~= needle@);
            assert(occurs_at(hay@, needle@, i as int));
            return true;
        }
        assert(!occurs_at(hay@, needle@, i as int)) by {
            if hay@.subrange(i as int, i + n) == needle@ {
                assert forall|m: int| 0 <= m < n implies hay@[i + m] == #[trigger] needle@[m] by {
                    assert(hay@.subrange(i as int, i + n)[m] == hay@[i + m]);
                }
            }
        }
        i = i + 1;
    }
    assert forall|j: int| !occurs_at(hay@, needle@, j) by {
        if 0 <= j && j + n <= hay@.len() {
            assert(j < i);
        }
    }
    false
}

/// `words` joined with `sep` between consecutive words.
pub fn join_with(words: &Vec<String>, sep: &str) -> (r: String)
    ensures
        r@ == join(views(words@), sep@),
{
    let mut r = String::new();
    let mut i: usize = 0;
    while i < words.len()
        invariant
            i <= words@.len(),
            r@ == join(views(words@).take(i as int), sep@),
        decreases words.len() - i,
    {
        let ghost prev = views(words@).take(i as int);
        assert(views(words@).take(i + 1).drop_last() =~= prev);
        if i > 0 {
            push_str(&mut r, sep);
        }
        push_str(&mut r, words[i].as_str());
        if i == 0 {
            assert(r@ =~= views(words@).take(1)[0]);
        }
        i = i + 1;
    }
    assert(views(words@).take(i as int) =~= views(words@));
    r
}


/// UTF-8 encoding distributes over concatenation.
pub proof fn lemma_encode_concat(a: Seq<char>, b: Seq<char>)
    ensures
        vstd::utf8::encode_utf8(a + b) == vstd::utf8::encode_utf8(a) + vstd::utf8::encode_utf8(b),
    decreases a.len(),
{
    if a.len() == 0 {
        assert(a + b =~= b);
    } else {
        assert((a + b).drop_first() =~= a.drop_first() + b);
        lemma_encode_concat(a.drop_first(), b);
        assert((a + b)[0] == a[0]);
        assert(vstd::utf8::encode_utf8(a + b) =~= vstd::utf8::encode_utf8(a)
            + vstd::utf8::encode_utf8(b));
    }
}


/// The number of bytes of the UTF-8 encoding of `s` (what `str::len` returns).
pub open spec fn byte_len(s: Seq<char>) -> nat {
    vstd::utf8::encode_utf8(s).len()
}

/// The number of bytes of the UTF-8 encoding of `s` (what `str::len` returns).
pub(crate) fn utf8_len(s: &str) -> (n: usize)
    ensures
        n == byte_len(s@),
{
    s.as_bytes().len()
}

/// The end of the encoding of a prefix is a character boundary of the
/// encoding of the whole.
pub proof fn lemma_prefix_boundary(a: Seq<char>, b: Seq<char>)
    ensures
        vstd::utf8::is_char_boundary(
            vstd::utf8::encode_utf8(a + b),
            vstd::utf8::encode_utf8(a).len() as int,
        ),
    decreases a.len(),
{
    broadcast use vstd::utf8::encode_utf8_valid_utf8;

    if a.len() == 0 {
        assert(a + b =~= b);
    } else {
        let ab = a + b;
        vstd::utf8::encode_utf8_first_scalar(ab);
        vstd::utf8::encode_utf8_first_scalar(a);
        assert(ab.drop_first() =~= a.drop_first() + b);
        assert(ab[0] == a[0]);
        assert(vstd::utf8::pop_first_scalar(vstd::utf8::encode_utf8(ab)) =~= vstd::utf8::encode_utf8(
            a.drop_first() + b,
        ));
        lemma_prefix_boundary(a.drop_first(), b);
        lemma_encode_concat(a, b);
    }
}

/// The number of bytes of the UTF-8 encoding of `c`, from its code point.
pub(crate) fn char_len_utf8(c: char) -> (n: usize)
    ensures
        n == byte_len(seq![c]),
{
    let v = c as u32;
    assert(vstd::utf8::encode_utf8(seq![c]) =~= vstd::utf8::encode_scalar(v) + vstd::utf8::encode_utf8(seq![c].drop_first()));
    assert(seq![c].drop_first() =~= Seq::<char>::empty());
    if v < 0x80 {
        1
    } else if v < 0x800 {
        2
    } else if v < 0x10000 {
        3
    } else {
        4
    }
}

/// The first `k` characters of `s`, as a slice of it; `off` is their
/// length in bytes.
pub(crate) fn str_prefix<'a>(s: &'a str, Ghost(k): Ghost<int>, off: usize) -> (r: &'a str)
    requires
        0 <= k <= s@.len(),
        off == byte_len(s@.take(k)),
    ensures
        r@ == s@.take(k),
{
    proof {
        assert(s@.take(k) + s@.skip(k) =~= s@);
        lemma_prefix_boundary(s@.take(k), s@.skip(k));
        lemma_encode_concat(s@.take(k), s@.skip(k));
    }
    let (head, _tail) = s.split_at(off);
    proof {
        assert(vstd::utf8::encode_utf8(head@) =~= vstd::utf8::encode_utf8(s@.take(k)));
        vstd::utf8::encode_utf8_decode_utf8(head@);
        vstd::utf8::encode_utf8_decode_utf8(s@.take(k));
    }
    head
}

/// The byte length of a prefix grows by the length of the next character
/// and never exceeds that of the whole.
pub proof fn lemma_prefix_len(s: Seq<char>, k: int)
    requires
        0 <= k < s.len(),
    ensures
        byte_len(s.take(k + 1)) == byte_len(s.take(k)) + byte_len(seq![s[k]]),
        byte_len(s.take(k + 1)) <= byte_len(s),
{
    assert(s.take(k + 1) =~= s.take(k) + seq![s[k]]);
    lemma_encode_concat(s.take(k), seq![s[k]]);
    assert(s.take(k + 1) + s.skip(k + 1) =~= s);
    lemma_encode_concat(s.take(k + 1), s.skip(k + 1));
}

/// The number of times `c` occurs in `s`.
pub open spec fn count_char(s: Seq<char>, c: char) -> nat
    decreases s.len(),
{
    if s.len() == 0 {
        0
    } else {
        count_char(s.drop_last(), c) + if s.last() == c {
            1nat
        } else {
            0nat
        }
    }
}

/// `s` starts with `p`.
pub open spec fn starts_with(s: Seq<char>, p: Seq<char>) -> bool {
    p.len() <= s.len() && s.subrange(0, p.len() as int) == p
}

/// Whether `s` starts with `p`.
pub fn seq_starts_with(s: &Vec<char>, p: &Vec<char>) -> (b: bool)
    ensures
        b == starts_with(s@, p@),
{
    if p.len() > s.len() {
        return false;
    }
    let mut i: usize = 0;
    while i < p.len()
        invariant
            p@.len() <= s@.len(),
            i <= p@.len(),
            forall|j: int| 0 <= j < i ==> s@[j] == p@[j],
        decreases p.len() - i,
    {
        if s[i] != p[i] {
            assert(s@.subrange(0, p@.len() as int)[i as int] != p@[i as int]);
            return false;
        }
        i = i + 1;
    }
    assert(s@.subrange(0, p@.len() as int) =~= p@);
    true
}

/// `s` ends with `p`.
pub open spec fn ends_with(s: Seq<char>, p: Seq<char>) -> bool {
    p.len() <= s.len() && s.subrange(s.len() - p.len(), s.len() as int) == p
}

/// Whether `s` ends with `p`.
pub fn str_ends_with(s: &str, p: &str) -> (b: bool)
    ensures
        b == ends_with(s@, p@),
{
    let sc = chars_of(s);
    let pc = chars_of(p);
    if pc.len() > sc.len() {
        return false;
    }
    let n = sc.len();
    let off = n - pc.len();
    let mut i: usize = 0;
    while i < pc.len()
        invariant
            n == sc@.len(),
            sc@ == s@,
            pc@ == p@,
            pc@.len() <= sc@.len(),
            off == sc@.len() - pc@.len(),
            i <= pc@.len(),
            forall|j: int| 0 <= j < i ==> s@[off + j] == p@[j],
        decreases pc.len() - i,
    {
        if sc[off + i] != pc[i] {
            assert(s@.subrange(off as int, s@.len() as int)[i as int] != p@[i as int]);
            return false;
        }
        i = i + 1;
    }
    assert(s@.subrange(off as int, s@.len() as int) =~= p@);
    true
}

/// The decimal digit character for `d` (which is below 10).
pub open spec fn digit_char(d: nat) -> char {
    (48 + d) as char
}

/// The decimal representation of `n`, without leading zeros.
pub open spec fn decimal(n: nat) -> Seq<char>
    decreases n,
{
    if n < 10 {
        seq![digit_char(n)]
    } else {
        decimal(n / 10).push(digit_char(n % 10))
    }
}

/// Appends the decimal representation of `n` to `s`.
pub fn push_decimal(s: &mut String, n: u64)
    ensures
        final(s)@ == old(s)@ + decimal(n as nat),
    decreases n,
{
    if n >= 10 {
        push_decimal(s, n / 10);
    }
    let d: u8 = (n % 10) as u8;
    let c = (48u8 + d) as char;
    assert(c == digit_char((n % 10) as nat));
    push_char(s, c);
    assert(decimal(n as nat) == if n < 10 {
        seq![digit_char(n as nat)]
    } else {
        decimal((n / 10) as nat).push(digit_char((n % 10) as nat))
    });
}

/// How many times `c` occurs in `s`.
pub fn count_of(s: &Vec<char>, c: char) -> (n: usize)
    ensures
        n == count_char(s@, c),
{
    let mut n: usize = 0;
    let mut i: usize = 0;
    while i < s.len()
        invariant
            i <= s@.len(),
            n == count_char(s@.take(i as int), c),
            n <= i,
        decreases s.len() - i,
    {
        assert(s@.take(i + 1).drop_last() =~= s@.take(i as int));
        assert(s@.take(i + 1).last() == s@[i as int]);
        if s[i] == c {
            n = n + 1;
        }
        i = i + 1;
    }
    assert(s@.take(i as int) =~= s@);
    n
}

/// Whether every character of `s` satisfies `unicode_numeric`.
pub fn all_numeric(s: &Vec<char>) -> (b: bool)
    ensures
        b == (forall|i: int| 0 <= i < s@.len() ==> #[trigger] unicode_numeric(s@[i])),
{
    let mut i: usize = 0;
    while i < s.len()
        invariant
            i <= s@.len(),
            forall|j: int| 0 <= j < i ==> #[trigger] unicode_numeric(s@[j]),
        decreases s.len() - i,
    {
        if !is_numeric(s[i]) {
            return false;
        }
        i = i + 1;
    }
    true
}

/// Whether some character of `s` satisfies `unicode_numeric`.
pub fn any_numeric(s: &Vec<char>) -> (b: bool)
    ensures
        b == (exists|i: int| 0 <= i < s@.len() && #[trigger] unicode_numeric(s@[i])),
{
    let mut i: usize = 0;
    while i < s.len()
        invariant
            i <= s@.len(),
            forall|j: int| 0 <= j < i ==> !#[trigger] unicode_numeric(s@[j]),
        decreases s.len() - i,
    {
        if is_numeric(s[i]) {
            return true;
        }
        i = i + 1;
    }
    false
}

/// Whether some character of `s` satisfies `unicode_alphabetic`.
pub fn any_alphabetic(s: &Vec<char>) -> (b: bool)
    ensures
        b == (exists|i: int| 0 <= i < s@.len() && #[trigger] unicode_alphabetic(s@[i])),
{
    let mut i: usize = 0;
    while i < s.len()
        invariant
            i <= s@.len(),
            forall|j: int| 0 <= j < i ==> !#[trigger] unicode_alphabetic(s@[j]),
        decreases s.len() - i,
    {
        if is_alphabetic(s[i]) {
            return true;
        }
        i = i + 1;
    }
    false
}


/// Whether `a` and `b` hold the same characters.
pub fn chars_eq(a: &Vec<char>, b: &Vec<char>) -> (r: bool)
    ensures
        r == (a@ == b@),
{
    if a.len() != b.len() {
        return false;
    }
    let mut i: usize = 0;
    while i < a.len()
        invariant
            a@.len() == b@.len(),
            i <= a@.len(),
            forall|j: int| 0 <= j < i ==> a@[j] == b@[j],
        decreases a.len() - i,
    {
        if a[i] != b[i] {
            return false;
        }
        i = i + 1;
    }
    assert(a@ =~= b@);
    true
}

/// `s` without its leading white space.
pub open spec fn trim_start(s: Seq<char>) -> Seq<char>
    decreases s.len(),
{
    if s.len() > 0 && unicode_whitespace(s[0]) {
        trim_start(s.drop_first())
    } else {
        s
    }
}

/// `s` without its trailing white space.
pub open spec fn trim_end(s: Seq<char>) -> Seq<char>
    decreases s.len(),
{
    if s.len() > 0 && unicode_whitespace(s.last()) {
        trim_end(s.drop_last())
    } else {
        s
    }
}

/// `s` without leading and trailing white space, as `str::trim` gives it.
pub open spec fn trim(s: Seq<char>) -> Seq<char> {
    trim_end(trim_start(s))
}

/// `s` without leading and trailing white space.
pub fn trim_text(s: &str) -> (r: String)
    ensures
        r@ == trim(s@),
{
    let cs = chars_of(s);
    let n = cs.len();
    let mut i: usize = 0;
    assert(s@.skip(0) =~= s@);
    while i < n && is_whitespace(cs[i])
        invariant
            i <= n,
            n == cs@.len(),
            cs@ == s@,
            trim_start(s@) == trim_start(s@.skip(i as int)),
        decreases n - i,
    {
        assert(s@.skip(i as int).drop_first() =~= s@.skip(i + 1));
        i = i + 1;
    }
    let ghost t = s@.skip(i as int);
    assert(trim_start(t) == t);
    let mut j: usize = n;
    assert(t.take((j - i) as int) =~= t);
    while j > i && is_whitespace(cs[j - 1])
        invariant
            i <= j <= n,
            n == cs@.len(),
            cs@ == s@,
            t == s@.skip(i as int),
            trim_end(t) == trim_end(t.take(j - i)),
        decreases j,
    {
        assert(t.take(j - i).drop_last() =~= t.take(j - 1 - i));
        j = j - 1;
    }
    assert(trim_end(t.take(j - i)) == t.take(j - i));
    let mut out: Vec<char> = Vec::new();
    let mut k: usize = i;
    while k < j
        invariant
            i <= k <= j <= n,
            n == cs@.len(),
            cs@ == s@,
            t == s@.skip(i as int),
            out@ == t.take(k - i),
        decreases j - k,
    {
        out.push(cs[k]);
        k = k + 1;
        assert(out@ =~= t.take(k - i));
    }
    string_of(&out)
}

/// The total number of bytes of the UTF-8 encodings of `ls`.
pub open spec fn total_len(ls: Seq<Seq<char>>) -> nat
    decreases ls.len(),
{
    if ls.len() == 0 {
        0
    } else {
        byte_len(ls[0]) + total_len(ls.drop_first())
    }
}

/// The lines of `s` after the partial line `cur` take no more bytes than
/// `cur` and `s` together.
pub proof fn lemma_lines_len_bound(s: Seq<char>, cur: Seq<char>)
    ensures
        total_len(lines_from(s, cur)) <= byte_len(cur) + byte_len(s),
    decreases s.len(),
{
    if s.len() == 0 {
        if cur.len() > 0 {
            assert(flush(cur).drop_first() =~= Seq::<Seq<char>>::empty());
            assert(total_len(Seq::<Seq<char>>::empty()) == 0);
            assert(flush(cur)[0] == cur);
        }
        assert(lines_from(s, cur) == flush(cur));
    } else {
        let rest = s.drop_first();
        assert(s =~= seq![s[0]] + rest);
        lemma_encode_concat(seq![s[0]], rest);
        if s[0] == '\n' {
            lemma_lines_len_bound(rest, Seq::empty());
            let l = seq![strip_cr(cur)] + lines_from(rest, Seq::empty());
            assert(l.drop_first() =~= lines_from(rest, Seq::empty()));
            assert(l[0] == strip_cr(cur));
            assert(byte_len(Seq::<char>::empty()) == 0);
            assert(lines_from(s, cur) == l);
            assert(total_len(l) == byte_len(strip_cr(cur)) + total_len(lines_from(rest, Seq::empty())));
            if cur.len() > 0 && cur.last() == '\r' {
                assert(cur =~= cur.drop_last() + seq![cur.last()]);
                lemma_encode_concat(cur.drop_last(), seq![cur.last()]);
            }
            assert(byte_len(strip_cr(cur)) <= byte_len(cur));
        } else {
            lemma_lines_len_bound(rest, cur.push(s[0]));
            assert(cur.push(s[0]) =~= cur + seq![s[0]]);
            lemma_encode_concat(cur, seq![s[0]]);
            assert(lines_from(s, cur) == lines_from(rest, cur.push(s[0])));
            assert(byte_len(cur.push(s[0])) == byte_len(cur) + byte_len(seq![s[0]]));
            assert(byte_len(s) == byte_len(seq![s[0]]) + byte_len(rest));
        }
    }
}

/// Joining a list that starts with `x` puts `x` and a separator before
/// the join of the rest.
proof fn lemma_join_front(x: Seq<char>, ps: Seq<Seq<char>>, sep: Seq<char>)
    requires
        ps.len() > 0,
    ensures
        join(seq![x] + ps, sep) == x + sep + join(ps, sep),
    decreases ps.len(),
{
    let l = seq![x] + ps;
    if ps.len() == 1 {
        assert(l.drop_last() =~= seq![x]);
        assert(l.last() == ps[0]);
        assert(join(seq![x], sep) == x);
        assert(join(ps, sep) == ps[0]);
        assert(join(l, sep) == join(l.drop_last(), sep) + sep + l.last());
    } else {
        lemma_join_front(x, ps.drop_last(), sep);
        assert(l.drop_last() =~= seq![x] + ps.drop_last());
        assert(l.last() == ps.last());
        assert(join(l, sep) == join(l.drop_last(), sep) + sep + l.last());
        assert(x + sep + join(ps.drop_last(), sep) + sep + ps.last() =~= x + sep + (join(
            ps.drop_last(),
            sep,
        ) + sep + ps.last()));
    }
}

proof fn lemma_pieces_from(s: Seq<char>, sep: char, cur: Seq<char>)
    ensures
        pieces_from(s, sep, cur).len() > 0,
        join(pieces_from(s, sep, cur), seq![sep]) == cur + s,
        !cur.contains(sep) ==> forall|k: int|
            0 <= k < pieces_from(s, sep, cur).len() ==> !(#[trigger] pieces_from(s, sep, cur)[k]).contains(sep),
    decreases s.len(),
{
    if s.len() == 0 {
        assert(cur + s =~= cur);
    } else {
        let rest = s.drop_first();
        if s[0] == sep {
            lemma_pieces_from(rest, sep, Seq::empty());
            let ps = pieces_from(rest, sep, Seq::empty());
            lemma_join_front(cur, ps, seq![sep]);
            assert(cur + seq![sep] + rest =~= cur + s);
            assert(!Seq::<char>::empty().contains(sep));
            let all = seq![cur] + ps;
            assert forall|k: int| 0 <= k < all.len() && !cur.contains(sep) implies !(#[trigger] all[k]).contains(sep) by {
                if k > 0 {
                    assert(all[k] == ps[k - 1]);
                }
            }
        } else {
            lemma_pieces_from(rest, sep, cur.push(s[0]));
            assert(cur.push(s[0]) + rest =~= cur + s);
            if !cur.contains(sep) {
                assert(!cur.push(s[0]).contains(sep)) by {
                    if cur.push(s[0]).contains(sep) {
                        let k = choose|k: int| 0 <= k < cur.push(s[0]).len() && cur.push(s[0])[k] == sep;
                        if k < cur.len() {
                            assert(cur[k] == sep);
                        }
                    }
                }
            }
        }
    }
}

/// Cutting `s` at `sep` gives at least one piece; the pieces hold no `sep`,
/// and joining them with `sep` gives back `s`.
pub proof fn law_pieces(s: Seq<char>, sep: char)
    ensures
        pieces(s, sep).len() > 0,
        join(pieces(s, sep), seq![sep]) == s,
        forall|k: int| 0 <= k < pieces(s, sep).len() ==> !(#[trigger] pieces(s, sep)[k]).contains(sep),
{
    lemma_pieces_from(s, sep, Seq::empty());
    assert(Seq::<char>::empty() + s =~= s);
}

/// Counting `c` in `s` is the number of characters of `s` equal to `c`.
pub proof fn law_count_char(s: Seq<char>, c: char)
    ensures
        count_char(s, c) == s.filter(|x: char| x == c).len(),
    decreases s.len(),
{
    if s.len() > 0 {
        law_count_char(s.drop_last(), c);
        reveal_with_fuel(Seq::filter, 1);
        assert(s.drop_last().push(s.last()) =~= s);
    }
}

proof fn lemma_words_from(s: Seq<char>, cur: Seq<char>)
    requires
        forall|k: int| 0 <= k < cur.len() ==> !unicode_whitespace(#[trigger] cur[k]),
    ensures
        forall|k: int| 0 <= k < words_from(s, cur).len() ==> (#[trigger] words_from(s, cur)[k]).len() > 0,
        forall|k: int, m: int|
            0 <= k < words_from(s, cur).len() && 0 <= m < words_from(s, cur)[k].len()
                ==> !unicode_whitespace(#[trigger] words_from(s, cur)[k][m]),
        words_from(s, cur).flatten() == cur + s.filter(|c: char| !unicode_whitespace(c)),
    decreases s.len(),
{
    broadcast use Seq::filter_distributes_over_add;
    reveal_with_fuel(Seq::filter, 2);
    let e = Seq::<char>::empty();
    if s.len() == 0 {
        assert(s.filter(|c: char| !unicode_whitespace(c)) =~= e);
        if cur.len() > 0 {
            assert(flush(cur).drop_first() =~= Seq::<Seq<char>>::empty());
            assert(Seq::<Seq<char>>::empty().flatten() =~= e);
            assert(flush(cur).first() == cur);
            assert(flush(cur).flatten() =~= cur);
        } else {
            assert(flush(cur) =~= Seq::<Seq<char>>::empty());
        }
        assert(cur + e =~= cur);
    } else {
        let rest = s.drop_first();
        assert(s =~= seq![s[0]] + rest);
        assert(seq![s[0]].drop_last() =~= e);
        if unicode_whitespace(s[0]) {
            lemma_words_from(rest, e);
            assert(seq![s[0]].filter(|c: char| !unicode_whitespace(c)) =~= e);
            let w = words_from(rest, e);
            let all = flush(cur) + w;
            assert forall|k: int| 0 <= k < all.len() implies (#[trigger] all[k]).len() > 0 by {
                if k >= flush(cur).len() {
                    assert(all[k] == w[k - flush(cur).len()]);
                }
            }
            assert forall|k: int, m: int| 0 <= k < all.len() && 0 <= m < all[k].len() implies !unicode_whitespace(
                #[trigger] all[k][m],
            ) by {
                if k >= flush(cur).len() {
                    assert(all[k] == w[k - flush(cur).len()]);
                }
            }
            if cur.len() > 0 {
                assert(all.first() == cur);
                assert(all.drop_first() =~= w);
            } else {
                assert(all =~= w);
            }
            assert(e + rest.filter(|c: char| !unicode_whitespace(c)) =~= rest.filter(|c: char| !unicode_whitespace(c)));
        } else {
            lemma_words_from(rest, cur.push(s[0]));
            assert(seq![s[0]].filter(|c: char| !unicode_whitespace(c)) =~= seq![s[0]]);
            assert(cur.push(s[0]) + rest.filter(|c: char| !unicode_whitespace(c)) =~= cur + (seq![s[0]]
                + rest.filter(|c: char| !unicode_whitespace(c))));
        }
    }
}

/// The words of `s` are non-empty and hold no white space, and together,
/// in order, they are exactly the characters of `s` that are not white
/// space.
pub proof fn law_words(s: Seq<char>)
    ensures
        forall|k: int| 0 <= k < words(s).len() ==> (#[trigger] words(s)[k]).len() > 0,
        forall|k: int, m: int|
            0 <= k < words(s).len() && 0 <= m < words(s)[k].len() ==> !unicode_whitespace(
                #[trigger] words(s)[k][m],
            ),
        words(s).flatten() == s.filter(|c: char| !unicode_whitespace(c)),
{
    lemma_words_from(s, Seq::empty());
    assert(Seq::<char>::empty() + s.filter(|c: char| !unicode_whitespace(c)) =~= s.filter(
        |c: char| !unicode_whitespace(c),
    ));
}

proof fn lemma_trim_start(s: Seq<char>) -> (i: int)
    ensures
        0 <= i <= s.len(),
        trim_start(s) == s.skip(i),
        forall|k: int| 0 <= k < i ==> unicode_whitespace(#[trigger] s[k]),
        i < s.len() ==> !unicode_whitespace(s[i]),
    decreases s.len(),
{
    if s.len() > 0 && unicode_whitespace(s[0]) {
        let j = lemma_trim_start(s.drop_first());
        assert(s.drop_first().skip(j) =~= s.skip(j + 1));
        assert forall|k: int| 0 <= k < j + 1 implies unicode_whitespace(#[trigger] s[k]) by {
            if k > 0 {
                assert(s[k] == s.drop_first()[k - 1]);
            }
        }
        j + 1
    } else {
        assert(s.skip(0) =~= s);
        0
    }
}

proof fn lemma_trim_end(s: Seq<char>) -> (j: int)
    ensures
        0 <= j <= s.len(),
        trim_end(s) == s.take(j),
        forall|k: int| j <= k < s.len() ==> unicode_whitespace(#[trigger] s[k]),
        j > 0 ==> !unicode_whitespace(s[j - 1]),
    decreases s.len(),
{
    if s.len() > 0 && unicode_whitespace(s.last()) {
        let j = lemma_trim_end(s.drop_last());
        assert(s.drop_last().take(j) =~= s.take(j));
        assert forall|k: int| j <= k < s.len() implies unicode_whitespace(#[trigger] s[k]) by {
            if k < s.len() - 1 {
                assert(s[k] == s.drop_last()[k]);
            }
        }
        j
    } else {
        assert(s.take(s.len() as int) =~= s);
        s.len() as int
    }
}

/// Trimming removes white space at both ends and nothing else: the result
/// is a contiguous part of `s`, everything before and after it is white
/// space, and (when not empty) it neither starts nor ends with white space.
pub proof fn law_trim(s: Seq<char>)
    ensures
        exists|i: int, j: int|
            0 <= i <= j <= s.len() && trim(s) == s.subrange(i, j) && (forall|k: int|
                0 <= k < i ==> unicode_whitespace(#[trigger] s[k])) && (forall|k: int|
                j <= k < s.len() ==> unicode_whitespace(#[trigger] s[k])),
        trim(s).len() > 0 ==> !unicode_whitespace(trim(s)[0]) && !unicode_whitespace(trim(s).last()),
{
    let i = lemma_trim_start(s);
    let t = s.skip(i);
    let j = lemma_trim_end(t);
    assert(trim(s) == t.take(j));
    assert(t.take(j) =~= s.subrange(i, i + j));
    assert forall|k: int| i + j <= k < s.len() implies unicode_whitespace(#[trigger] s[k]) by {
        assert(s[k] == t[k - i]);
    }
    if j > 0 {
        assert(t.take(j)[0] == s[i]);
        assert(t.take(j).last() == t[j - 1]);
    }
    assert(0 <= i <= i + j <= s.len() && trim(s) == s.subrange(i, i + j));
}

proof fn lemma_pieces_from_len(s: Seq<char>, sep: char, cur: Seq<char>)
    ensures
        pieces_from(s, sep, cur).len() == s.filter(|c: char| c == sep).len() + 1,
    decreases s.len(),
{
    broadcast use Seq::filter_distributes_over_add;
    reveal_with_fuel(Seq::filter, 2);
    if s.len() == 0 {
        assert(s.filter(|c: char| c == sep) =~= Seq::<char>::empty());
    } else {
        let rest = s.drop_first();
        assert(s =~= seq![s[0]] + rest);
        assert(seq![s[0]].drop_last() =~= Seq::<char>::empty());
        if s[0] == sep {
            lemma_pieces_from_len(rest, sep, Seq::empty());
            assert(seq![s[0]].filter(|c: char| c == sep) =~= seq![s[0]]);
        } else {
            lemma_pieces_from_len(rest, sep, cur.push(s[0]));
            assert(seq![s[0]].filter(|c: char| c == sep) =~= Seq::<char>::empty());
        }
    }
}

/// Cutting at `sep` gives one piece more than there are `sep`s.
pub proof fn law_pieces_len(s: Seq<char>, sep: char)
    ensures
        pieces(s, sep).len() == s.filter(|c: char| c == sep).len() + 1,
{
    lemma_pieces_from_len(s, sep, Seq::empty());
}

proof fn lemma_lines_from(s: Seq<char>, cur: Seq<char>)
    requires
        !cur.contains('\n'),
    ensures
        forall|k: int| 0 <= k < lines_from(s, cur).len() ==> !(#[trigger] lines_from(s, cur)[k]).contains('\n'),
        lines_from(s, cur).len() == (cur + s).filter(|c: char| c == '\n').len() + if (cur + s).len() > 0
            && (cur + s).last() != '\n' {
            1int
        } else {
            0int
        },
    decreases s.len(),
{
    broadcast use Seq::filter_distributes_over_add;
    reveal_with_fuel(Seq::filter, 2);
    let nl = |c: char| c == '\n';
    assert(cur.filter(nl) =~= Seq::<char>::empty()) by {
        assert forall|k: int| 0 <= k < cur.len() implies !nl(cur[k]) by {
            if cur[k] == '\n' {
                assert(cur.contains('\n'));
            }
        }
        cur.lemma_all_neg_filter_empty(nl);
    }
    if s.len() == 0 {
        assert(cur + s =~= cur);
        if cur.len() > 0 {
            assert(cur.last() != '\n') by {
                if cur.last() == '\n' {
                    assert(cur[cur.len() - 1] == '\n');
                }
            }
        }
    } else {
        let rest = s.drop_first();
        assert(s =~= seq![s[0]] + rest);
        assert(seq![s[0]].drop_last() =~= Seq::<char>::empty());
        if s[0] == '\n' {
            let e = Seq::<char>::empty();
            lemma_lines_from(rest, e);
            assert(e + rest =~= rest);
            let l = strip_cr(cur);
            assert(!l.contains('\n')) by {
                if l.contains('\n') {
                    let k = choose|k: int| 0 <= k < l.len() && l[k] == '\n';
                    assert(cur[k] == '\n');
                }
            }
            let all = seq![l] + lines_from(rest, e);
            assert forall|k: int| 0 <= k < all.len() implies !(#[trigger] all[k]).contains('\n') by {
                if k > 0 {
                    assert(all[k] == lines_from(rest, e)[k - 1]);
                }
            }
            assert(cur + s =~= cur + seq!['\n'] + rest);
            assert(seq!['\n'].filter(nl) =~= seq!['\n']);
            if rest.len() > 0 {
                assert((cur + s).last() == rest.last());
            } else {
                assert((cur + s).last() == '\n');
            }
        } else {
            lemma_lines_from(rest, cur.push(s[0]));
            assert(!cur.push(s[0]).contains('\n')) by {
                if cur.push(s[0]).contains('\n') {
                    let k = choose|k: int| 0 <= k < cur.push(s[0]).len() && cur.push(s[0])[k] == '\n';
                    if k < cur.len() {
                        assert(cur[k] == '\n');
                    }
                }
            }
            assert(cur.push(s[0]) + rest =~= cur + s);
        }
    }
}

/// No line holds a line feed, and there is one line per line feed, plus
/// one for a last line that no line feed ends.
pub proof fn law_lines(s: Seq<char>)
    ensures
        forall|k: int| 0 <= k < lines(s).len() ==> !(#[trigger] lines(s)[k]).contains('\n'),
        lines(s).len() == s.filter(|c: char| c == '\n').len() + if s.len() > 0 && s.last() != '\n' {
            1int
        } else {
            0int
        },
{
    let e = Seq::<char>::empty();
    lemma_lines_from(s, e);
    assert(e + s =~= s);
}

} // verus!
