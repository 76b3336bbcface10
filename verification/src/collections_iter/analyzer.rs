//! A text analyzer: words, word frequencies, character classes and search.
use vstd::prelude::*;
use vstd::hash_map::StringHashMap;
use crate::text::{trim, trim_text};
use crate::text::{self, alnum, ascii_digit, byte_len, views, words, lines, contains, str_lowercase, unicode_alphanumeric, unicode_alphabetic, unicode_numeric, unicode_whitespace, ascii_punctuation};

verus! {

/// The alphanumeric characters of `w`, in order.
pub open spec fn keep_alnum(w: Seq<char>) -> Seq<char>
    decreases w.len(),
{
    if w.len() == 0 {
        Seq::empty()
    } else {
        keep_alnum(w.drop_last()) + if alnum(w.last()) {
            seq![w.last()]
        } else {
            Seq::<char>::empty()
        }
    }
}

/// A character is kept in a word exactly when it is a letter or a digit:
/// on ASCII, `a`-`z`, `A`-`Z` and `0`-`9`; beyond ASCII, what
/// `char::is_alphabetic` or `char::is_numeric` accepts.
pub proof fn law_alnum_is_letter_or_digit(c: char)
    ensures
        (c as u32) < 128 ==> (alnum(c) <==> ('a' <= c && c <= 'z') || ('A' <= c && c <= 'Z') || ('0'
            <= c && c <= '9')),
        (c as u32) >= 128 ==> (alnum(c) <==> unicode_alphabetic(c) || unicode_numeric(c)),
{
}

/// A word is reduced to its letters and digits, in order: exactly the
/// characters of `w` that are alphanumeric, and no other.
pub proof fn law_keep_alnum_filters(w: Seq<char>)
    ensures
        keep_alnum(w) == w.filter(|c: char| alnum(c)),
    decreases w.len(),
{
    if w.len() > 0 {
        law_keep_alnum_filters(w.drop_last());
        reveal_with_fuel(Seq::filter, 1);
        assert(w.drop_last().push(w.last()) =~= w);
        if alnum(w.last()) {
            assert(keep_alnum(w) =~= keep_alnum(w.drop_last()).push(w.last()));
        } else {
            assert(keep_alnum(w) =~= keep_alnum(w.drop_last()));
        }
    }
}

/// A word made only of ASCII digits is kept whole.
pub proof fn law_digit_words_kept(w: Seq<char>)
    requires
        forall|i: int| 0 <= i < w.len() ==> '0' <= #[trigger] w[i] && w[i] <= '9',
    ensures
        keep_alnum(w) == w,
    decreases w.len(),
{
    if w.len() > 0 {
        law_digit_words_kept(w.drop_last());
        assert(w.drop_last().push(w.last()) =~= w);
        assert(w[w.len() - 1] == w.last());
        assert(keep_alnum(w) =~= keep_alnum(w.drop_last()).push(w.last()));
    }
}

/// Every piece that keeps some letter or digit gives a word, in order: a
/// non-empty piece of ASCII digits appears among the words as it is.
pub proof fn law_clean_words_keep_pieces(ws: Seq<Seq<char>>, i: int)
    requires
        0 <= i < ws.len(),
        ws[i].len() > 0,
        forall|j: int| 0 <= j < ws[i].len() ==> '0' <= #[trigger] ws[i][j] && ws[i][j] <= '9',
    ensures
        clean_words(ws).contains(ws[i]),
    decreases ws.len(),
{
    if i == ws.len() - 1 {
        law_digit_words_kept(ws[i]);
        assert(ws.last() == ws[i]);
        let c = clean_words(ws);
        assert(c[c.len() - 1] == ws[i]);
    } else {
        law_clean_words_keep_pieces(ws.drop_last(), i);
        assert(ws.drop_last()[i] == ws[i]);
        let p = clean_words(ws.drop_last());
        let k = choose|k: int| 0 <= k < p.len() && p[k] == ws[i];
        assert(clean_words(ws)[k] == ws[i]);
    }
}

/// Each word of `ws` reduced to its alphanumeric characters, words left
/// empty by that dropped.
pub open spec fn clean_words(ws: Seq<Seq<char>>) -> Seq<Seq<char>>
    decreases ws.len(),
{
    if ws.len() == 0 {
        Seq::empty()
    } else {
        clean_words(ws.drop_last()) + if keep_alnum(ws.last()).len() > 0 {
            seq![keep_alnum(ws.last())]
        } else {
            Seq::<Seq<char>>::empty()
        }
    }
}

/// The words of a text: its lower-cased form split at white space, each
/// piece reduced to its alphanumeric characters, empty pieces dropped.
pub open spec fn text_words(t: Seq<char>) -> Seq<Seq<char>> {
    clean_words(words(str_lowercase(t)))
}

/// How many times `w` occurs in `ws`.
pub open spec fn count_in(ws: Seq<Seq<char>>, w: Seq<char>) -> nat
    decreases ws.len(),
{
    if ws.len() == 0 {
        0
    } else {
        count_in(ws.drop_last(), w) + if ws.last() == w {
            1nat
        } else {
            0nat
        }
    }
}

/// The distinct elements of `ws`, in order of first occurrence.
pub open spec fn distinct(ws: Seq<Seq<char>>) -> Seq<Seq<char>>
    decreases ws.len(),
{
    if ws.len() == 0 {
        Seq::empty()
    } else {
        let d = distinct(ws.drop_last());
        if d.contains(ws.last()) {
            d
        } else {
            d.push(ws.last())
        }
    }
}

/// The number of characters of `s` for which `p` holds.
pub open spec fn count_where(s: Seq<char>, p: spec_fn(char) -> bool) -> nat
    decreases s.len(),
{
    if s.len() == 0 {
        0
    } else {
        count_where(s.drop_last(), p) + if p(s.last()) {
            1nat
        } else {
            0nat
        }
    }
}

proof fn lemma_count_in_le(ws: Seq<Seq<char>>, w: Seq<char>)
    ensures
        count_in(ws, w) <= ws.len(),
        count_in(ws, w) > 0 <==> ws.contains(w),
    decreases ws.len(),
{
    if ws.len() > 0 {
        lemma_count_in_le(ws.drop_last(), w);
        assert(ws =~= ws.drop_last().push(ws.last()));
        if ws.drop_last().contains(w) {
            let i = choose|i: int| 0 <= i < ws.drop_last().len() && ws.drop_last()[i] == w;
            assert(ws[i] == w);
        }
        if ws.contains(w) && ws.last() != w {
            let i = choose|i: int| 0 <= i < ws.len() && ws[i] == w;
            assert(i < ws.len() - 1);
            assert(ws.drop_last()[i] == w);
        }
    }
}

proof fn lemma_distinct(ws: Seq<Seq<char>>)
    ensures
        distinct(ws).no_duplicates(),
        forall|w: Seq<char>| distinct(ws).contains(w) <==> ws.contains(w),
    decreases ws.len(),
{
    if ws.len() > 0 {
        lemma_distinct(ws.drop_last());
        assert(ws =~= ws.drop_last().push(ws.last()));
        assert forall|w: Seq<char>| distinct(ws).contains(w) <==> ws.contains(w) by {
            let d = distinct(ws.drop_last());
            if ws.contains(w) && w != ws.last() {
                let i = choose|i: int| 0 <= i < ws.len() && ws[i] == w;
                assert(ws.drop_last()[i] == w);
            }
            if ws.drop_last().contains(w) {
                let i = choose|i: int| 0 <= i < ws.drop_last().len() && ws.drop_last()[i] == w;
                assert(ws[i] == w);
            }
            if !d.contains(ws.last()) {
                assert(d.push(ws.last()).last() == ws.last());
                if d.push(ws.last()).contains(w) && w != ws.last() {
                    let i = choose|i: int| 0 <= i < d.push(ws.last()).len() && d.push(ws.last())[i] == w;
                    assert(d[i] == w);
                }
                if d.contains(w) {
                    let i = choose|i: int| 0 <= i < d.len() && d[i] == w;
                    assert(d.push(ws.last())[i] == w);
                }
            }
        }
    }
}

/// Cleaning words reduces each to its letters and digits and drops the
/// ones left empty, keeping the order.
pub proof fn law_clean_words_filters(ws: Seq<Seq<char>>)
    ensures
        clean_words(ws) == ws.map_values(|w: Seq<char>| keep_alnum(w)).filter(
            |w: Seq<char>| w.len() > 0,
        ),
    decreases ws.len(),
{
    if ws.len() > 0 {
        law_clean_words_filters(ws.drop_last());
        reveal_with_fuel(Seq::filter, 1);
        let m = ws.map_values(|w: Seq<char>| keep_alnum(w));
        assert(m.drop_last() =~= ws.drop_last().map_values(|w: Seq<char>| keep_alnum(w)));
        assert(m.last() == keep_alnum(ws.last()));
        if keep_alnum(ws.last()).len() > 0 {
            assert(clean_words(ws) =~= clean_words(ws.drop_last()).push(keep_alnum(ws.last())));
        } else {
            assert(clean_words(ws) =~= clean_words(ws.drop_last()));
        }
    }
}

/// The count of `w` in `ws` is the number of elements of `ws` equal to `w`.
pub proof fn law_count_in_filters(ws: Seq<Seq<char>>, w: Seq<char>)
    ensures
        count_in(ws, w) == ws.filter(|x: Seq<char>| x == w).len(),
    decreases ws.len(),
{
    if ws.len() > 0 {
        law_count_in_filters(ws.drop_last(), w);
        reveal_with_fuel(Seq::filter, 1);
        assert(ws.drop_last().push(ws.last()) =~= ws);
    }
}

/// A class count is the number of characters of the class.
pub proof fn law_count_where_filters(s: Seq<char>, p: spec_fn(char) -> bool)
    ensures
        count_where(s, p) == s.filter(p).len(),
    decreases s.len(),
{
    if s.len() > 0 {
        law_count_where_filters(s.drop_last(), p);
        reveal_with_fuel(Seq::filter, 1);
        assert(s.drop_last().push(s.last()) =~= s);
    }
}

/// The long words are the words whose UTF-8 encoding has at least `min`
/// bytes, in order.
pub proof fn law_long_of_filters(ws: Seq<Seq<char>>, min: nat)
    ensures
        long_of(ws, min) == ws.filter(|w: Seq<char>| vstd::utf8::encode_utf8(w).len() >= min),
    decreases ws.len(),
{
    if ws.len() > 0 {
        law_long_of_filters(ws.drop_last(), min);
        reveal_with_fuel(Seq::filter, 1);
        assert(ws.drop_last().push(ws.last()) =~= ws);
        if byte_len(ws.last()) >= min {
            assert(long_of(ws, min) =~= long_of(ws.drop_last(), min).push(ws.last()));
        } else {
            assert(long_of(ws, min) =~= long_of(ws.drop_last(), min));
        }
    }
}

/// The hits of a search are the lines, numbered from 1, whose lower-case
/// form contains the needle, in order.
pub proof fn law_hits_filters(ls: Seq<Seq<char>>, needle: Seq<char>)
    ensures
        hits(ls, needle) == Seq::new(ls.len(), |i: int| ((i + 1) as nat, ls[i])).filter(
            |h: (nat, Seq<char>)| contains(str_lowercase(h.1), needle),
        ),
    decreases ls.len(),
{
    if ls.len() > 0 {
        law_hits_filters(ls.drop_last(), needle);
        reveal_with_fuel(Seq::filter, 1);
        let all = Seq::new(ls.len(), |i: int| ((i + 1) as nat, ls[i]));
        let pre = Seq::new(ls.drop_last().len(), |i: int| ((i + 1) as nat, ls.drop_last()[i]));
        assert(all.drop_last() =~= pre);
        assert(all.last() == (ls.len(), ls.last()));
        if contains(str_lowercase(ls.last()), needle) {
            assert(hits(ls, needle) =~= hits(ls.drop_last(), needle).push((ls.len(), ls.last())));
        } else {
            assert(hits(ls, needle) =~= hits(ls.drop_last(), needle));
        }
    }
}

/// The distinct words hold each word of `ws` once and nothing else.
pub proof fn law_distinct(ws: Seq<Seq<char>>)
    ensures
        distinct(ws).no_duplicates(),
        forall|w: Seq<char>| distinct(ws).contains(w) <==> ws.contains(w),
{
    lemma_distinct(ws);
}

/// A map whose keys are exactly the words of `ws` (as the one
/// `word_frequency` returns) has as many keys as `ws` has distinct words:
/// `top_words(n)` returns the smaller of `n` and that number of entries.
pub proof fn law_distinct_is_key_count<V>(ws: Seq<Seq<char>>, m: Map<Seq<char>, V>)
    requires
        forall|w: Seq<char>| #[trigger] m.contains_key(w) <==> ws.contains(w),
    ensures
        m.dom().finite(),
        m.dom().len() == distinct(ws).len(),
{
    lemma_distinct(ws);
    let d = distinct(ws);
    assert(m.dom() =~= d.to_set());
    d.unique_seq_to_set();
    vstd::seq_lib::seq_to_set_is_finite(d);
}

/// How many of the lines `ls` are not blank (hold more than white space).
pub open spec fn nonblank_count(ls: Seq<Seq<char>>) -> nat
    decreases ls.len(),
{
    if ls.len() == 0 {
        0
    } else {
        nonblank_count(ls.drop_last()) + if trim(ls.last()).len() > 0 {
            1nat
        } else {
            0nat
        }
    }
}

/// The number of alphabetic characters of `s`.
pub open spec fn letter_count(s: Seq<char>) -> nat {
    count_where(s, |c: char| unicode_alphabetic(c))
}

/// The number of numeric characters of `s`.
pub open spec fn digit_count(s: Seq<char>) -> nat {
    count_where(s, |c: char| unicode_numeric(c))
}

/// The number of white-space characters of `s`.
pub open spec fn space_count(s: Seq<char>) -> nat {
    count_where(s, |c: char| unicode_whitespace(c))
}

/// The number of ASCII punctuation characters of `s`.
pub open spec fn punctuation_count(s: Seq<char>) -> nat {
    count_where(s, |c: char| ascii_punctuation(c))
}

/// The 1-based numbers and texts of the lines of `ls` whose lower-case form
/// contains `needle`.
pub open spec fn hits(ls: Seq<Seq<char>>, needle: Seq<char>) -> Seq<(nat, Seq<char>)>
    decreases ls.len(),
{
    if ls.len() == 0 {
        Seq::empty()
    } else {
        hits(ls.drop_last(), needle) + if contains(str_lowercase(ls.last()), needle) {
            seq![(ls.len(), ls.last())]
        } else {
            Seq::<(nat, Seq<char>)>::empty()
        }
    }
}

/// The words of `ws` at least `min` bytes long.
pub open spec fn long_of(ws: Seq<Seq<char>>, min: nat) -> Seq<Seq<char>>
    decreases ws.len(),
{
    if ws.len() == 0 {
        Seq::empty()
    } else {
        long_of(ws.drop_last(), min) + if byte_len(ws.last()) >= min {
            seq![ws.last()]
        } else {
            Seq::<Seq<char>>::empty()
        }
    }
}

/// A text to analyze.
pub struct TextAnalyzer {
    text: String,
}

impl View for TextAnalyzer {
    type V = Seq<char>;

    closed spec fn view(&self) -> Seq<char> {
        self.text@
    }
}

/// Counts of character classes in a text.
#[derive(Debug, PartialEq, Eq, Structural)]
pub struct CharStats {
    /// Length of the text in UTF-8 bytes.
    pub total: usize,
    /// Alphabetic characters.
    pub letters: usize,
    /// Numeric characters.
    pub digits: usize,
    /// White-space characters.
    pub spaces: usize,
    /// ASCII punctuation characters.
    pub punctuation: usize,
}

fn keep_alnum_of(w: &str) -> (r: Vec<char>)
    ensures
        r@ == keep_alnum(w@),
{
    let cs = text::chars_of(w);
    let mut out: Vec<char> = Vec::new();
    let mut i: usize = 0;
    while i < cs.len()
        invariant
            i <= cs@.len(),
            cs@ == w@,
            out@ == keep_alnum(w@.take(i as int)),
        decreases cs.len() - i,
    {
        assert(w@.take(i + 1).drop_last() =~= w@.take(i as int));
        assert(w@.take(i + 1).last() == cs@[i as int]);
        if text::is_alphabetic(cs[i]) || text::is_numeric(cs[i]) {
            out.push(cs[i]);
        }
        assert(out@ =~= keep_alnum(w@.take(i + 1)));
        i = i + 1;
    }
    assert(w@.take(i as int) =~= w@);
    out
}

impl TextAnalyzer {
    /// Creates an analyzer for `text`.
    pub fn new(text: String) -> (a: Self)
        ensures
            a@ == text@,
    {
        TextAnalyzer { text }
    }

    /// The words of the text (see [`text_words`]).
    pub fn words(&self) -> (r: Vec<String>)
        ensures
            views(r@) == text_words(self@),
    {
        let lower = text::str_to_lowercase(self.text.as_str());
        let pieces = text::split_whitespace(lower.as_str());
        let ghost ps = views(pieces@);
        let mut out: Vec<String> = Vec::new();
        let mut i: usize = 0;
        while i < pieces.len()
            invariant
                i <= pieces@.len(),
                ps == views(pieces@),
                ps == words(str_lowercase(self@)),
                views(out@) == clean_words(ps.take(i as int)),
            decreases pieces.len() - i,
        {
            assert(ps.take(i + 1).drop_last() =~= ps.take(i as int));
            assert(ps.take(i + 1).last() == pieces@[i as int]@);
            let w = keep_alnum_of(pieces[i].as_str());
            if w.len() > 0 {
                let s = text::string_of(&w);
                let ghost before = out@;
                out.push(s);
                assert(views(out@) =~= views(before).push(w@));
            }
            assert(views(out@) =~= clean_words(ps.take(i + 1)));
            i = i + 1;
        }
        assert(ps.take(i as int) =~= ps);
        out
    }

    /// How often each word of the text occurs: the keys are exactly the
    /// words, each mapped to its number of occurrences.
    pub fn word_frequency(&self) -> (m: StringHashMap<usize>)
        ensures
            forall|w: Seq<char>| #[trigger] m@.contains_key(w) <==> text_words(self@).contains(w),
            forall|w: Seq<char>| #[trigger] m@.contains_key(w) ==> m@[w] == count_in(
                text_words(self@),
                w,
            ),
            m@.len() == distinct(text_words(self@)).len(),
    {
        let ws = self.words();
        let ghost vs = views(ws@);
        let mut m: StringHashMap<usize> = StringHashMap::new();
        let mut i: usize = 0;
        while i < ws.len()
            invariant
                i <= ws@.len(),
                vs == views(ws@),
                vs == text_words(self@),
                forall|w: Seq<char>| #[trigger] m@.contains_key(w) <==> vs.take(i as int).contains(
                    w,
                ),
                forall|w: Seq<char>| #[trigger]
                    m@.contains_key(w) ==> m@[w] == count_in(vs.take(i as int), w),
            decreases ws.len() - i,
        {
            let ghost pre = vs.take(i as int);
            let ghost post = vs.take(i + 1);
            assert(post =~= pre.push(ws@[i as int]@));
            assert(post.drop_last() =~= pre);
            let key = ws[i].as_str();
            let cur = m.get(key);
            let next: usize = match cur {
                Some(c) => {
                    proof {
                        lemma_count_in_le(pre, key@);
                    }
                    *c + 1
                },
                None => 1,
            };
            let owned = ws[i].clone();
            m.insert(owned, next);
            assert forall|w: Seq<char>| #[trigger] m@.contains_key(w) <==> post.contains(w) by {
                if pre.contains(w) {
                    let j = choose|j: int| 0 <= j < pre.len() && pre[j] == w;
                    assert(post[j] == w);
                }
                if post.contains(w) && w != key@ {
                    let j = choose|j: int| 0 <= j < post.len() && post[j] == w;
                    assert(j < pre.len());
                    assert(pre[j] == w);
                }
                assert(post[post.len() - 1] == key@);
            }
            proof {
                lemma_count_in_le(pre, key@);
            }
            i = i + 1;
        }
        assert(vs.take(i as int) =~= vs);
        proof {
            law_distinct_is_key_count(vs, m@);
        }
        m
    }

    /// The `n` most frequent words with their counts, most frequent first.
    /// Words of equal frequency may come in any order; which of them are
    /// kept at the cut is not fixed either.
    pub fn top_words(&self, n: usize) -> (r: Vec<(String, usize)>)
        ensures
            r@.len() == if n < distinct(text_words(self@)).len() {
                n as nat
            } else {
                distinct(text_words(self@)).len()
            },
            forall|i: int|
                0 <= i < r@.len() ==> text_words(self@).contains(#[trigger] r@[i].0@) && r@[i].1
                    == count_in(text_words(self@), r@[i].0@),
            forall|i: int, j: int| 0 <= i < j < r@.len() ==> r@[i].0@ != r@[j].0@,
            forall|i: int, j: int| 0 <= i < j < r@.len() ==> r@[i].1 >= r@[j].1,
            forall|w: Seq<char>, i: int|
                #![trigger text_words(self@).contains(w), r@[i]]
                text_words(self@).contains(w) && (forall|j: int|
                    0 <= j < r@.len() ==> r@[j].0@ != w) && 0 <= i < r@.len() ==> count_in(
                    text_words(self@),
                    w,
                ) <= r@[i].1,
    {
        let ws = self.words();
        let ghost vs = views(ws@);
        // distinct words in order of first occurrence, with their counts
        let mut uniq: Vec<String> = Vec::new();
        let mut cnt: Vec<usize> = Vec::new();
        let mut i: usize = 0;
        while i < ws.len()
            invariant
                i <= ws@.len(),
                vs == views(ws@),
                vs == text_words(self@),
                uniq@.len() == cnt@.len(),
                views(uniq@) == distinct(vs.take(i as int)),
                forall|j: int|
                    0 <= j < cnt@.len() ==> #[trigger] cnt@[j] == count_in(
                        vs.take(i as int),
                        uniq@[j]@,
                    ),
            decreases ws.len() - i,
        {
            let ghost pre = vs.take(i as int);
            let ghost post = vs.take(i + 1);
            let ghost w = ws@[i as int]@;
            assert(post.drop_last() =~= pre);
            assert(post.last() == w);
            proof {
                lemma_distinct(pre);
            }
            let pos = find_word(&uniq, &ws[i]);
            match pos {
                Some(j) => {
                    assert(distinct(pre).contains(w)) by {
                        assert(views(uniq@)[j as int] == w);
                    }
                    proof {
                        lemma_count_in_le(pre, w);
                    }
                    let c = cnt[j];
                    cnt.set(j, c + 1);
                    assert forall|k: int| 0 <= k < cnt@.len() implies #[trigger] cnt@[k]
                        == count_in(post, uniq@[k]@) by {
                        if k != j {
                            assert(views(uniq@)[k] != views(uniq@)[j as int]);
                        }
                    }
                },
                None => {
                    assert(!distinct(pre).contains(w)) by {
                        if distinct(pre).contains(w) {
                            let k = choose|k: int| 0 <= k < distinct(pre).len() && distinct(pre)[k] == w;
                            assert(uniq@[k]@ == w);
                        }
                    }
                    proof {
                        lemma_count_in_le(pre, w);
                    }
                    let ghost before = uniq@;
                    uniq.push(ws[i].clone());
                    cnt.push(1);
                    assert(views(uniq@) =~= views(before).push(w));
                },
            }
            i = i + 1;
        }
        assert(vs.take(i as int) =~= vs);
        proof {
            lemma_distinct(vs);
        }
        let k: usize = if n < uniq.len() {
            n
        } else {
            uniq.len()
        };
        // repeatedly move a most frequent remaining word to the result
        let mut rest_w = uniq;
        let mut rest_c = cnt;
        let mut r: Vec<(String, usize)> = Vec::new();
        let ghost dv = distinct(vs);
        while r.len() < k
            invariant
                k <= dv.len(),
                k == if n < dv.len() {
                    n as nat
                } else {
                    dv.len()
                },
                r@.len() <= k,
                rest_w@.len() == rest_c@.len(),
                r@.len() + rest_w@.len() == dv.len(),
                views(rest_w@).no_duplicates(),
                forall|j: int|
                    0 <= j < rest_c@.len() ==> #[trigger] rest_c@[j] == count_in(vs, rest_w@[j]@),
                forall|w: Seq<char>|
                    #[trigger] dv.contains(w) <==> (views(rest_w@).contains(w) || exists|t: int|
                        0 <= t < r@.len() && r@[t].0@ == w),
                forall|t: int|
                    0 <= t < r@.len() ==> dv.contains(#[trigger] r@[t].0@) && r@[t].1 == count_in(
                        vs,
                        r@[t].0@,
                    ),
                forall|t: int, j: int|
                    0 <= t < r@.len() && 0 <= j < rest_w@.len() ==> #[trigger] r@[t].0@ != #[trigger] rest_w@[j]@,
                forall|a: int, b: int| 0 <= a < b < r@.len() ==> r@[a].0@ != r@[b].0@,
                forall|a: int, b: int| 0 <= a < b < r@.len() ==> r@[a].1 >= r@[b].1,
                forall|t: int, j: int|
                    0 <= t < r@.len() && 0 <= j < rest_c@.len() ==> #[trigger] rest_c@[j] <= #[trigger] r@[t].1,
            decreases k - r@.len(),
        {
            let best = index_of_max(&rest_c);
            let ghost rw = rest_w@;
            let ghost rc = rest_c@;
            let ghost r0 = r@;
            let bw = rest_w.remove(best);
            let bc = rest_c.remove(best);
            r.push((bw, bc));
            assert(views(rest_w@) =~= views(rw).remove(best as int));
            assert forall|j: int| 0 <= j < rest_w@.len() implies views(rw)[j + if j < best { 0int } else { 1int }] == #[trigger] views(rest_w@)[j] by {}
            assert(views(rest_w@).no_duplicates()) by {
                assert forall|a: int, b: int| 0 <= a < b < views(rest_w@).len() implies views(rest_w@)[a] != views(rest_w@)[b] by {
                    let a2 = a + if a < best { 0int } else { 1int };
                    let b2 = b + if b < best { 0int } else { 1int };
                    assert(views(rw)[a2] != views(rw)[b2]);
                }
            }
            assert forall|j: int| 0 <= j < rest_c@.len() implies #[trigger] rest_c@[j] == count_in(vs, rest_w@[j]@) by {
                let j2 = j + if j < best { 0int } else { 1int };
                assert(rc[j2] == count_in(vs, rw[j2]@));
            }
            assert forall|w: Seq<char>| #[trigger] dv.contains(w) <==> (views(rest_w@).contains(w) || exists|t: int|
                        0 <= t < r@.len() && r@[t].0@ == w) by {
                if views(rw).contains(w) {
                    let j = choose|j: int| 0 <= j < views(rw).len() && views(rw)[j] == w;
                    if j == best {
                        assert(r@[r0.len() as int].0@ == w);
                    } else {
                        let j3 = if j < best { j } else { j - 1 };
                        assert(views(rest_w@)[j3] == w);
                    }
                }
                if views(rest_w@).contains(w) {
                    let j = choose|j: int| 0 <= j < views(rest_w@).len() && views(rest_w@)[j] == w;
                    let j2 = j + if j < best { 0int } else { 1int };
                    assert(views(rw)[j2] == w);
                }
                if exists|t: int| 0 <= t < r@.len() && r@[t].0@ == w {
                    let t = choose|t: int| 0 <= t < r@.len() && r@[t].0@ == w;
                    if t < r0.len() {
                        assert(r0[t].0@ == w);
                    } else {
                        assert(views(rw)[best as int] == w);
                        assert(views(rw).contains(w));
                    }
                }
                if exists|t: int| 0 <= t < r0.len() && r0[t].0@ == w {
                    let t = choose|t: int| 0 <= t < r0.len() && r0[t].0@ == w;
                    assert(r@[t].0@ == w);
                }
            }
            assert forall|t: int, j: int|
                0 <= t < r@.len() && 0 <= j < rest_w@.len() implies #[trigger] r@[t].0@ != #[trigger] rest_w@[j]@ by {
                let j2 = j + if j < best { 0int } else { 1int };
                if t < r0.len() {
                    assert(r0[t].0@ != rw[j2]@);
                } else {
                    assert(views(rw)[best as int] != views(rw)[j2]);
                }
            }
            assert forall|a: int, b: int| 0 <= a < b < r@.len() implies r@[a].0@ != r@[b].0@ by {
                if b == r0.len() {
                    assert(r0[a].0@ != rw[best as int]@);
                }
            }
            assert forall|a: int, b: int| 0 <= a < b < r@.len() implies r@[a].1 >= r@[b].1 by {
                if b == r0.len() {
                    assert(rc[best as int] <= r0[a].1);
                }
            }
            assert forall|t: int, j: int|
                0 <= t < r@.len() && 0 <= j < rest_c@.len() implies #[trigger] rest_c@[j] <= #[trigger] r@[t].1 by {
                let j2 = j + if j < best { 0int } else { 1int };
                assert(rc[j2] <= rc[best as int]);
                if t < r0.len() {
                    assert(rc[j2] <= r0[t].1);
                }
            }
            assert(dv.contains(views(rw)[best as int]));
        }
        assert forall|w: Seq<char>, i: int|
            #![trigger text_words(self@).contains(w), r@[i]]
            text_words(self@).contains(w) && (forall|j: int|
                0 <= j < r@.len() ==> r@[j].0@ != w) && 0 <= i < r@.len() implies count_in(
                text_words(self@),
                w,
            ) <= r@[i].1 by {
            assert(dv.contains(w));
            let j = choose|j: int| 0 <= j < views(rest_w@).len() && views(rest_w@)[j] == w;
            assert(rest_c@[j] <= r@[i].1);
        }
        assert forall|i: int| 0 <= i < r@.len() implies text_words(self@).contains(#[trigger] r@[i].0@) by {
            assert(dv.contains(r@[i].0@));
        }
        r
    }

    /// The number of lines of the text, how many of them are not blank, and
    /// the number of bytes of the lines together (line ends excluded).
    pub fn line_counts(&self) -> (r: (usize, usize, usize))
        ensures
            r.0 == lines(self@).len(),
            r.1 == nonblank_count(lines(self@)),
            r.2 == text::total_len(lines(self@)),
    {
        let all = text::utf8_len(self.text.as_str());
        let ls = text::lines_of(self.text.as_str());
        let ghost lv = views(ls@);
        proof {
            text::lemma_lines_len_bound(self@, Seq::empty());
            assert(byte_len(Seq::<char>::empty()) == 0);
            assert(lv.skip(0) =~= lv);
        }
        let mut n: usize = 0;
        let mut total: usize = 0;
        let mut i: usize = 0;
        while i < ls.len()
            invariant
                i <= ls@.len(),
                lv == views(ls@),
                lv == lines(self@),
                n == nonblank_count(lv.take(i as int)),
                n <= i,
                total + text::total_len(lv.skip(i as int)) == text::total_len(lv),
                text::total_len(lv) <= all,
            decreases ls.len() - i,
        {
            assert(lv.take(i + 1).drop_last() =~= lv.take(i as int));
            assert(lv[i as int] == ls@[i as int]@);
            assert(lv.skip(i as int).drop_first() =~= lv.skip(i + 1));
            assert(lv.skip(i as int)[0] == lv[i as int]);
            let len_i = text::utf8_len(ls[i].as_str());
            total = total + len_i;
            let t = trim_text(ls[i].as_str());
            let tc = text::chars_of(t.as_str());
            if tc.len() > 0 {
                n = n + 1;
            }
            i = i + 1;
        }
        assert(lv.take(i as int) =~= lv);
        assert(lv.skip(i as int) =~= Seq::<Seq<char>>::empty());
        (ls.len(), n, total)
    }

    /// Counts of the character classes of the text: its length in bytes and
    /// its alphabetic, numeric, white-space and ASCII punctuation characters.
    pub fn char_stats(&self) -> (st: CharStats)
        ensures
            st.total == byte_len(self@),
            st.letters == letter_count(self@),
            st.digits == digit_count(self@),
            st.spaces == space_count(self@),
            st.punctuation == punctuation_count(self@),
    {
        let total = text::utf8_len(self.text.as_str());
        let cs = text::chars_of(self.text.as_str());
        let mut letters: usize = 0;
        let mut digits: usize = 0;
        let mut spaces: usize = 0;
        let mut punctuation: usize = 0;
        let mut i: usize = 0;
        while i < cs.len()
            invariant
                i <= cs@.len(),
                cs@ == self@,
                letters == letter_count(self@.take(i as int)),
                digits == digit_count(self@.take(i as int)),
                spaces == space_count(self@.take(i as int)),
                punctuation == punctuation_count(self@.take(i as int)),
                letters <= i && digits <= i && spaces <= i && punctuation <= i,
            decreases cs.len() - i,
        {
            let c = cs[i];
            assert(self@.take(i + 1).drop_last() =~= self@.take(i as int));
            assert(self@.take(i + 1).last() == c);
            if text::is_alphabetic(c) {
                letters = letters + 1;
            }
            if text::is_numeric(c) {
                digits = digits + 1;
            }
            if text::is_whitespace(c) {
                spaces = spaces + 1;
            }
            if text::is_ascii_punctuation(c) {
                punctuation = punctuation + 1;
            }
            i = i + 1;
        }
        assert(self@.take(i as int) =~= self@);
        CharStats { total, letters, digits, spaces, punctuation }
    }

    /// The lines whose lower-case form contains the lower-case form of
    /// `word`, each with its 1-based line number.
    pub fn search_word(&self, word: &str) -> (r: Vec<(usize, String)>)
        ensures
            r@.map_values(|p: (usize, String)| (p.0 as nat, p.1@)) == hits(
                lines(self@),
                str_lowercase(word@),
            ),
    {
        let needle_s = text::str_to_lowercase(word);
        let needle = text::chars_of(needle_s.as_str());
        let ls = text::lines_of(self.text.as_str());
        let ghost lv = views(ls@);
        let mut out: Vec<(usize, String)> = Vec::new();
        let mut i: usize = 0;
        while i < ls.len()
            invariant
                i <= ls@.len(),
                lv == views(ls@),
                lv == lines(self@),
                needle@ == str_lowercase(word@),
                out@.map_values(|p: (usize, String)| (p.0 as nat, p.1@)) == hits(
                    lv.take(i as int),
                    needle@,
                ),
            decreases ls.len() - i,
        {
            assert(lv.take(i + 1).drop_last() =~= lv.take(i as int));
            assert(lv.take(i + 1).last() == ls@[i as int]@);
            let low = text::str_to_lowercase(ls[i].as_str());
            let lowc = text::chars_of(low.as_str());
            let ghost before = out@;
            if text::seq_contains(&lowc, &needle) {
                out.push((i + 1, ls[i].clone()));
                assert(out@.map_values(|p: (usize, String)| (p.0 as nat, p.1@)) =~= before.map_values(
                    |p: (usize, String)| (p.0 as nat, p.1@),
                ).push(((i + 1) as nat, ls@[i as int]@)));
            }
            assert(out@.map_values(|p: (usize, String)| (p.0 as nat, p.1@)) =~= hits(
                lv.take(i + 1),
                needle@,
            ));
            i = i + 1;
        }
        assert(lv.take(i as int) =~= lv);
        out
    }

    /// The words of the text that are at least `min_length` bytes long.
    pub fn long_words(&self, min_length: usize) -> (r: Vec<String>)
        ensures
            views(r@) == long_of(text_words(self@), min_length as nat),
    {
        let ws = self.words();
        let ghost vs = views(ws@);
        let mut out: Vec<String> = Vec::new();
        let mut i: usize = 0;
        while i < ws.len()
            invariant
                i <= ws@.len(),
                vs == views(ws@),
                vs == text_words(self@),
                views(out@) == long_of(vs.take(i as int), min_length as nat),
            decreases ws.len() - i,
        {
            assert(vs.take(i + 1).drop_last() =~= vs.take(i as int));
            assert(vs.take(i + 1).last() == ws@[i as int]@);
            let ghost before = out@;
            if text::utf8_len(ws[i].as_str()) >= min_length {
                out.push(ws[i].clone());
                assert(views(out@) =~= views(before).push(ws@[i as int]@));
            }
            assert(views(out@) =~= long_of(vs.take(i + 1), min_length as nat));
            i = i + 1;
        }
        assert(vs.take(i as int) =~= vs);
        out
    }

    /// The number of distinct words of the text.
    pub fn unique_word_count(&self) -> (n: usize)
        ensures
            n == text_words(self@).to_set().len(),
    {
        let m = self.word_frequency();
        assert(m@.dom() =~= text_words(self@).to_set());
        m.len()
    }

    /// The number of words of the text.
    pub fn total_word_count(&self) -> (n: usize)
        ensures
            n == text_words(self@).len(),
    {
        let ws = self.words();
        assert(views(ws@).len() == ws@.len());
        ws.len()
    }
}

/// The position of a string equal to `w` in `v`, if any.
fn find_word(v: &Vec<String>, w: &String) -> (r: Option<usize>)
    ensures
        r matches Some(j) ==> j < v@.len() && v@[j as int]@ == w@,
        r is None ==> forall|j: int| 0 <= j < v@.len() ==> v@[j]@ != w@,
{
    let mut j: usize = 0;
    while j < v.len()
        invariant
            j <= v@.len(),
            forall|k: int| 0 <= k < j ==> v@[k]@ != w@,
        decreases v.len() - j,
    {
        if v[j] == *w {
            return Some(j);
        }
        j = j + 1;
    }
    None
}

/// The position of a largest element of a non-empty `v`.
fn index_of_max(v: &Vec<usize>) -> (r: usize)
    requires
        v@.len() > 0,
    ensures
        r < v@.len(),
        forall|j: int| 0 <= j < v@.len() ==> v@[j] <= v@[r as int],
{
    let mut best: usize = 0;
    let mut j: usize = 1;
    while j < v.len()
        invariant
            1 <= j <= v@.len(),
            best < j,
            forall|k: int| 0 <= k < j ==> v@[k] <= v@[best as int],
        decreases v.len() - j,
    {
        if v[j] > v[best] {
            best = j;
        }
        j = j + 1;
    }
    best
}

} // verus!
