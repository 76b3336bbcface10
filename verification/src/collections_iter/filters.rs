//! Word filters and transformations over lists of words.
use vstd::prelude::*;
use crate::text::{self, byte_len, views, str_lowercase, str_uppercase};
use crate::collections_iter::analyzer::{distinct, long_of};

verus! {

/// The stop words that [`TextFilter::remove_stop_words`] drops.
pub open spec fn stop_words() -> Seq<Seq<char>> {
    seq![
        "the"@, "a"@, "an"@, "and"@, "or"@, "but"@, "in"@, "on"@, "at"@, "to"@, "for"@, "of"@,
        "with"@, "by"@, "from"@, "as"@, "is"@, "was"@, "are"@, "were"@,
    ]
}

/// The words of `ws` that are not stop words.
pub open spec fn without_stop_words(ws: Seq<Seq<char>>) -> Seq<Seq<char>>
    decreases ws.len(),
{
    if ws.len() == 0 {
        Seq::empty()
    } else {
        without_stop_words(ws.drop_last()) + if stop_words().contains(ws.last()) {
            Seq::<Seq<char>>::empty()
        } else {
            seq![ws.last()]
        }
    }
}

/// The stop words are exactly these twenty: "the", "a", "an", "and", "or",
/// "but", "in", "on", "at", "to", "for", "of", "with", "by", "from", "as",
/// "is", "was", "are" and "were".
pub proof fn law_stop_word_list(w: Seq<char>)
    ensures
        stop_words().contains(w) <==> (w == "the"@ || w == "a"@ || w == "an"@ || w == "and"@ || w == "or"@ || w == "but"@ || w == "in"@ || w == "on"@ || w == "at"@ || w == "to"@ || w == "for"@ || w == "of"@ || w == "with"@ || w == "by"@ || w == "from"@ || w == "as"@ || w == "is"@ || w == "was"@ || w == "are"@ || w == "were"@),
{
    let sw = stop_words();
    if w == "the"@ || w == "a"@ || w == "an"@ || w == "and"@ || w == "or"@ || w == "but"@ || w == "in"@ || w == "on"@ || w == "at"@ || w == "to"@ || w == "for"@ || w == "of"@ || w == "with"@ || w == "by"@ || w == "from"@ || w == "as"@ || w == "is"@ || w == "was"@ || w == "are"@ || w == "were"@ {
        let i: int = if w == "the"@ { 0 } else if w == "a"@ { 1 } else if w == "an"@ { 2 } else if w == "and"@ { 3 } else if w == "or"@ { 4 } else if w == "but"@ { 5 } else if w == "in"@ { 6 } else if w == "on"@ { 7 } else if w == "at"@ { 8 } else if w == "to"@ { 9 } else if w == "for"@ { 10 } else if w == "of"@ { 11 } else if w == "with"@ { 12 } else if w == "by"@ { 13 } else if w == "from"@ { 14 } else if w == "as"@ { 15 } else if w == "is"@ { 16 } else if w == "was"@ { 17 } else if w == "are"@ { 18 } else if w == "were"@ { 19 } else { 0 };
        assert(sw[i] == w);
    }
}

/// Removing stop words keeps exactly the words that are not stop words, in
/// their order: it filters the list.
pub proof fn law_without_stop_words_filters(ws: Seq<Seq<char>>)
    ensures
        without_stop_words(ws) == ws.filter(|w: Seq<char>| !stop_words().contains(w)),
    decreases ws.len(),
{
    if ws.len() > 0 {
        law_without_stop_words_filters(ws.drop_last());
        reveal_with_fuel(Seq::filter, 1);
        assert(ws.drop_last().push(ws.last()) =~= ws);
        if stop_words().contains(ws.last()) {
            assert(without_stop_words(ws) =~= without_stop_words(ws.drop_last()));
        } else {
            assert(without_stop_words(ws) =~= without_stop_words(ws.drop_last()).push(ws.last()));
        }
    }
}

/// `ws` with every word's characters reversed.
pub open spec fn reversed_each(ws: Seq<Seq<char>>) -> Seq<Seq<char>> {
    ws.map_values(|w: Seq<char>| w.reverse())
}

/// `w` inserted into `s` just after the last element whose byte length is
/// at most that of `w` (so that equal lengths keep their order).
pub open spec fn insert_by_len(s: Seq<Seq<char>>, w: Seq<char>) -> Seq<Seq<char>>
    decreases s.len(),
{
    if s.len() == 0 {
        seq![w]
    } else if byte_len(s.last()) <= byte_len(w) {
        s.push(w)
    } else {
        insert_by_len(s.drop_last(), w).push(s.last())
    }
}

/// `ws` stably sorted by byte length: equal lengths keep their order.
pub open spec fn sorted_by_len(ws: Seq<Seq<char>>) -> Seq<Seq<char>>
    decreases ws.len(),
{
    if ws.len() == 0 {
        Seq::empty()
    } else {
        insert_by_len(sorted_by_len(ws.drop_last()), ws.last())
    }
}

/// `s` is in non-decreasing order of UTF-8 length.
pub open spec fn len_sorted(s: Seq<Seq<char>>) -> bool {
    forall|i: int, j: int|
        0 <= i < j < s.len() ==> vstd::utf8::encode_utf8(#[trigger] s[i]).len()
            <= vstd::utf8::encode_utf8(#[trigger] s[j]).len()
}

proof fn lemma_insert_by_len(s: Seq<Seq<char>>, w: Seq<char>)
    requires
        len_sorted(s),
    ensures
        len_sorted(insert_by_len(s, w)),
        insert_by_len(s, w).to_multiset() == s.to_multiset().insert(w),
        forall|x: Seq<char>| #[trigger] insert_by_len(s, w).contains(x) ==> x == w || s.contains(x),
    decreases s.len(),
{
    broadcast use vstd::seq_lib::to_multiset_build;
    if s.len() == 0 {
        assert(seq![w] =~= s.push(w));
    } else if byte_len(s.last()) <= byte_len(w) {
        let r = s.push(w);
        assert forall|i: int, j: int| 0 <= i < j < r.len() implies vstd::utf8::encode_utf8(#[trigger] r[i]).len()
            <= vstd::utf8::encode_utf8(#[trigger] r[j]).len() by {
            if j == s.len() && i < s.len() - 1 {
                assert(r[i] == s[i] && s[s.len() - 1] == s.last());
            }
        }
        assert forall|x: Seq<char>| #[trigger] r.contains(x) implies x == w || s.contains(x) by {
            let k = choose|k: int| 0 <= k < r.len() && r[k] == x;
            if k < s.len() {
                assert(s[k] == x);
            }
        }
    } else {
        let d = s.drop_last();
        assert(len_sorted(d)) by {
            assert forall|i: int, j: int| 0 <= i < j < d.len() implies vstd::utf8::encode_utf8(#[trigger] d[i]).len()
                <= vstd::utf8::encode_utf8(#[trigger] d[j]).len() by {
                assert(d[i] == s[i] && d[j] == s[j]);
            }
        }
        lemma_insert_by_len(d, w);
        let inner = insert_by_len(d, w);
        let r = inner.push(s.last());
        assert(s =~= d.push(s.last()));
        assert forall|i: int, j: int| 0 <= i < j < r.len() implies vstd::utf8::encode_utf8(#[trigger] r[i]).len()
            <= vstd::utf8::encode_utf8(#[trigger] r[j]).len() by {
            if j == inner.len() {
                let x = r[i];
                assert(inner[i] == x);
                assert(inner.contains(x));
                if x != w {
                    let k = choose|k: int| 0 <= k < d.len() && d[k] == x;
                    assert(s[k] == x);
                    assert(s[s.len() - 1] == s.last());
                }
            } else {
                assert(r[i] == inner[i] && r[j] == inner[j]);
            }
        }
        assert forall|x: Seq<char>| #[trigger] r.contains(x) implies x == w || s.contains(x) by {
            let k = choose|k: int| 0 <= k < r.len() && r[k] == x;
            if k < inner.len() {
                assert(inner[k] == x);
                assert(inner.contains(x));
                if x != w {
                    let q = choose|q: int| 0 <= q < d.len() && d[q] == x;
                    assert(s[q] == x);
                }
            } else {
                assert(s[s.len() - 1] == x);
            }
        }
    }
}

/// Sorting by length rearranges the words (the same words, as often as
/// before) into non-decreasing order of UTF-8 length.
pub proof fn law_sorted_by_len(ws: Seq<Seq<char>>)
    ensures
        len_sorted(sorted_by_len(ws)),
        sorted_by_len(ws).to_multiset() == ws.to_multiset(),
    decreases ws.len(),
{
    broadcast use vstd::seq_lib::to_multiset_build;
    if ws.len() == 0 {
        assert(sorted_by_len(ws) =~= ws);
    } else {
        law_sorted_by_len(ws.drop_last());
        lemma_insert_by_len(sorted_by_len(ws.drop_last()), ws.last());
        assert(ws =~= ws.drop_last().push(ws.last()));
    }
}

/// `a` comes before or equals `b` in lexicographic order of characters
/// (the order of `String`, whose UTF-8 bytes order as their characters do).
pub open spec fn lex_le(a: Seq<char>, b: Seq<char>) -> bool
    decreases a.len(),
{
    if a.len() == 0 {
        true
    } else if b.len() == 0 {
        false
    } else if a[0] != b[0] {
        a[0] < b[0]
    } else {
        lex_le(a.drop_first(), b.drop_first())
    }
}

/// Lexicographic order: `a` comes first when it is a prefix of `b`, or when
/// at the first position where they differ `a` has the smaller character.
pub proof fn law_lex_le(a: Seq<char>, b: Seq<char>)
    ensures
        lex_le(a, b) <==> (a.len() <= b.len() && a == b.take(a.len() as int)) || exists|k: int|
            0 <= k < a.len() && k < b.len() && a.take(k) == b.take(k) && #[trigger] a[k] < b[k],
    decreases a.len(),
{
    if a.len() == 0 {
        assert(a =~= b.take(0));
    } else if b.len() == 0 {
    } else {
        let a1 = a.drop_first();
        let b1 = b.drop_first();
        law_lex_le(a1, b1);
        if a[0] != b[0] {
            if a[0] < b[0] {
                assert(a.take(0) =~= b.take(0));
                assert(a[0] < b[0]);
            } else {
                assert(!(a.len() <= b.len() && a == b.take(a.len() as int))) by {
                    if a.len() <= b.len() {
                        assert(b.take(a.len() as int)[0] == b[0]);
                    }
                }
                if exists|k: int| 0 <= k < a.len() && k < b.len() && a.take(k) == b.take(k) && #[trigger] a[k] < b[k] {
                    let k = choose|k: int| 0 <= k < a.len() && k < b.len() && a.take(k) == b.take(k) && #[trigger] a[k] < b[k];
                    if k > 0 {
                        assert(a.take(k)[0] == a[0] && b.take(k)[0] == b[0]);
                    }
                }
            }
        } else {
            // same first character: both sides reduce to the tails
            if a1.len() <= b1.len() && a1 == b1.take(a1.len() as int) {
                assert(a =~= b.take(a.len() as int)) by {
                    assert forall|i: int| 0 <= i < a.len() implies #[trigger] a[i] == b.take(a.len() as int)[i] by {
                        if i > 0 {
                            assert(a[i] == a1[i - 1] && b[i] == b1[i - 1]);
                        }
                    }
                }
            }
            if a.len() <= b.len() && a == b.take(a.len() as int) {
                assert(a1 =~= b1.take(a1.len() as int)) by {
                    assert forall|i: int| 0 <= i < a1.len() implies #[trigger] a1[i] == b1.take(a1.len() as int)[i] by {
                        assert(a[i + 1] == b.take(a.len() as int)[i + 1]);
                    }
                }
            }
            if exists|k: int| 0 <= k < a1.len() && k < b1.len() && a1.take(k) == b1.take(k) && #[trigger] a1[k] < b1[k] {
                let k = choose|k: int| 0 <= k < a1.len() && k < b1.len() && a1.take(k) == b1.take(k) && #[trigger] a1[k] < b1[k];
                assert(a.take(k + 1) =~= b.take(k + 1)) by {
                    assert forall|i: int| 0 <= i < k + 1 implies #[trigger] a.take(k + 1)[i] == b.take(k + 1)[i] by {
                        if i > 0 {
                            assert(a1.take(k)[i - 1] == b1.take(k)[i - 1]);
                        }
                    }
                }
                assert(a[k + 1] < b[k + 1]);
            }
            if exists|k: int| 0 <= k < a.len() && k < b.len() && a.take(k) == b.take(k) && #[trigger] a[k] < b[k] {
                let k = choose|k: int| 0 <= k < a.len() && k < b.len() && a.take(k) == b.take(k) && #[trigger] a[k] < b[k];
                assert(k > 0);
                assert(a1.take(k - 1) =~= b1.take(k - 1)) by {
                    assert forall|i: int| 0 <= i < k - 1 implies #[trigger] a1.take(k - 1)[i] == b1.take(k - 1)[i] by {
                        assert(a.take(k)[i + 1] == b.take(k)[i + 1]);
                    }
                }
                assert(a1[k - 1] < b1[k - 1]);
            }
        }
    }
}

/// `s` is in non-decreasing lexicographic order.
pub open spec fn lex_sorted(s: Seq<Seq<char>>) -> bool {
    forall|i: int, j: int| 0 <= i < j < s.len() ==> lex_le(#[trigger] s[i], #[trigger] s[j])
}

/// A namespace for word filters.
pub struct TextFilter;

/// Whether `a` is lexicographically at most `b`.
fn lex_le_exec(a: &Vec<char>, b: &Vec<char>) -> (r: bool)
    ensures
        r == lex_le(a@, b@),
{
    let mut i: usize = 0;
    assert(a@.skip(0) =~= a@ && b@.skip(0) =~= b@);
    while i < a.len() && i < b.len() && a[i] == b[i]
        invariant
            i <= a@.len(),
            i <= b@.len(),
            a@.subrange(0, i as int) == b@.subrange(0, i as int),
            lex_le(a@, b@) == lex_le(a@.skip(i as int), b@.skip(i as int)),
        decreases a.len() - i,
    {
        assert(a@.skip(i as int).drop_first() =~= a@.skip(i + 1));
        assert(b@.skip(i as int).drop_first() =~= b@.skip(i + 1));
        assert(a@.subrange(0, i + 1) =~= a@.subrange(0, i as int).push(a@[i as int]));
        assert(b@.subrange(0, i + 1) =~= b@.subrange(0, i as int).push(b@[i as int]));
        i = i + 1;
    }
    if i == a.len() {
        assert(a@.skip(i as int).len() == 0);
        true
    } else if i == b.len() {
        assert(b@.skip(i as int).len() == 0);
        false
    } else {
        assert(a@.skip(i as int)[0] == a@[i as int]);
        assert(b@.skip(i as int)[0] == b@[i as int]);
        a[i] < b[i]
    }
}

proof fn lemma_lex_le_total(a: Seq<char>, b: Seq<char>)
    ensures
        lex_le(a, b) || lex_le(b, a),
    decreases a.len(),
{
    if a.len() > 0 && b.len() > 0 && a[0] == b[0] {
        lemma_lex_le_total(a.drop_first(), b.drop_first());
    }
}

proof fn lemma_lex_le_trans(a: Seq<char>, b: Seq<char>, c: Seq<char>)
    requires
        lex_le(a, b),
        lex_le(b, c),
    ensures
        lex_le(a, c),
    decreases a.len(),
{
    if a.len() > 0 && b.len() > 0 && c.len() > 0 && a[0] == b[0] && b[0] == c[0] {
        lemma_lex_le_trans(a.drop_first(), b.drop_first(), c.drop_first());
    }
}

impl TextFilter {
    /// Drops the stop words (see [`stop_words`]), keeping the order of the rest.
    #[verifier::loop_isolation(false)]
    pub fn remove_stop_words(words: Vec<String>) -> (r: Vec<String>)
        ensures
            views(r@) == without_stop_words(views(words@)),
            views(r@) == views(words@).filter(|w: Seq<char>| !stop_words().contains(w)),
    {
        let stops: [&str; 20] = [
            "the", "a", "an", "and", "or", "but", "in", "on", "at", "to", "for", "of", "with",
            "by", "from", "as", "is", "was", "are", "were",
        ];
        let ghost sv = stop_words();
        assert(stops@.map_values(|s: &str| s@) =~= sv);
        let ghost ws = views(words@);
        let mut out: Vec<String> = Vec::new();
        let mut i: usize = 0;
        while i < words.len()
            invariant
                i <= words@.len(),
                ws == views(words@),
                sv == stop_words(),
                stops@.map_values(|s: &str| s@) == sv,
                views(out@) == without_stop_words(ws.take(i as int)),
            decreases words.len() - i,
        {
            assert(ws.take(i + 1).drop_last() =~= ws.take(i as int));
            assert(ws.take(i + 1).last() == words@[i as int]@);
            let w = text::chars_of(words[i].as_str());
            let mut k: usize = 0;
            let mut is_stop = false;
            while k < 20
                invariant
                    k <= 20,
                    w@ == words@[i as int]@,
                    stops@.map_values(|s: &str| s@) == sv,
                    is_stop == exists|j: int| 0 <= j < k && sv[j] == w@,
                decreases 20 - k,
            {
                let sk = text::chars_of(stops[k]);
                assert(sk@ == sv[k as int]);
                if text::chars_eq(&sk, &w) {
                    is_stop = true;
                }
                k = k + 1;
            }
            assert(is_stop == sv.contains(w@));
            let ghost before = out@;
            if !is_stop {
                out.push(words[i].clone());
                assert(views(out@) =~= views(before).push(w@));
            }
            assert(views(out@) =~= without_stop_words(ws.take(i + 1)));
            i = i + 1;
        }
        assert(ws.take(i as int) =~= ws);
        proof {
            law_without_stop_words_filters(ws);
        }
        out
    }

    /// Keeps the words that are at least `min_length` bytes long.
    pub fn filter_short_words(words: Vec<String>, min_length: usize) -> (r: Vec<String>)
        ensures
            views(r@) == long_of(views(words@), min_length as nat),
            views(r@) == views(words@).filter(
                |w: Seq<char>| vstd::utf8::encode_utf8(w).len() >= min_length as nat,
            ),
    {
        let ghost ws = views(words@);
        let mut out: Vec<String> = Vec::new();
        let mut i: usize = 0;
        while i < words.len()
            invariant
                i <= words@.len(),
                ws == views(words@),
                views(out@) == long_of(ws.take(i as int), min_length as nat),
            decreases words.len() - i,
        {
            assert(ws.take(i + 1).drop_last() =~= ws.take(i as int));
            assert(ws.take(i + 1).last() == words@[i as int]@);
            let ghost before = out@;
            if text::utf8_len(words[i].as_str()) >= min_length {
                out.push(words[i].clone());
                assert(views(out@) =~= views(before).push(words@[i as int]@));
            }
            assert(views(out@) =~= long_of(ws.take(i + 1), min_length as nat));
            i = i + 1;
        }
        assert(ws.take(i as int) =~= ws);
        proof {
            crate::collections_iter::analyzer::law_long_of_filters(ws, min_length as nat);
        }
        out
    }

    /// Every word upper-cased.
    pub fn to_uppercase(words: Vec<String>) -> (r: Vec<String>)
        ensures
            r@.len() == words@.len(),
            forall|i: int| 0 <= i < r@.len() ==> #[trigger] r@[i]@ == str_uppercase(words@[i]@),
    {
        let mut out: Vec<String> = Vec::new();
        let mut i: usize = 0;
        while i < words.len()
            invariant
                i <= words@.len(),
                out@.len() == i,
                forall|j: int| 0 <= j < i ==> #[trigger] out@[j]@ == str_uppercase(words@[j]@),
            decreases words.len() - i,
        {
            out.push(text::str_to_uppercase(words[i].as_str()));
            i = i + 1;
        }
        out
    }

    /// Every word lower-cased.
    pub fn to_lowercase(words: Vec<String>) -> (r: Vec<String>)
        ensures
            r@.len() == words@.len(),
            forall|i: int| 0 <= i < r@.len() ==> #[trigger] r@[i]@ == str_lowercase(words@[i]@),
    {
        let mut out: Vec<String> = Vec::new();
        let mut i: usize = 0;
        while i < words.len()
            invariant
                i <= words@.len(),
                out@.len() == i,
                forall|j: int| 0 <= j < i ==> #[trigger] out@[j]@ == str_lowercase(words@[j]@),
            decreases words.len() - i,
        {
            out.push(text::str_to_lowercase(words[i].as_str()));
            i = i + 1;
        }
        out
    }

    /// Every word with its characters in reverse order.
    pub fn reverse_words(words: Vec<String>) -> (r: Vec<String>)
        ensures
            views(r@) == reversed_each(views(words@)),
    {
        let mut out: Vec<String> = Vec::new();
        let mut i: usize = 0;
        while i < words.len()
            invariant
                i <= words@.len(),
                out@.len() == i,
                forall|j: int| 0 <= j < i ==> #[trigger] out@[j]@ == words@[j]@.reverse(),
            decreases words.len() - i,
        {
            let cs = text::chars_of(words[i].as_str());
            let mut rev: Vec<char> = Vec::new();
            let mut k: usize = cs.len();
            while k > 0
                invariant
                    k <= cs@.len(),
                    rev@ == cs@.reverse().take(cs@.len() - k),
                decreases k,
            {
                k = k - 1;
                rev.push(cs[k]);
                assert(rev@ =~= cs@.reverse().take(cs@.len() - k));
            }
            assert(cs@.reverse().take(cs@.len() as int) =~= cs@.reverse());
            out.push(text::string_of(&rev));
            i = i + 1;
        }
        assert(views(out@) =~= reversed_each(views(words@)));
        out
    }

    /// The words without repetitions, each kept at its first occurrence.
    #[verifier::loop_isolation(false)]
    pub fn deduplicate(words: Vec<String>) -> (r: Vec<String>)
        ensures
            views(r@) == distinct(views(words@)),
            views(r@).no_duplicates(),
            forall|w: Seq<char>| views(r@).contains(w) <==> views(words@).contains(w),
    {
        let ghost ws = views(words@);
        let mut out: Vec<String> = Vec::new();
        let mut i: usize = 0;
        while i < words.len()
            invariant
                i <= words@.len(),
                ws == views(words@),
                views(out@) == distinct(ws.take(i as int)),
            decreases words.len() - i,
        {
            assert(ws.take(i + 1).drop_last() =~= ws.take(i as int));
            assert(ws.take(i + 1).last() == words@[i as int]@);
            let mut j: usize = 0;
            let mut seen = false;
            while j < out.len()
                invariant
                    j <= out@.len(),
                    seen == exists|k: int| 0 <= k < j && out@[k]@ == words@[i as int]@,
                decreases out.len() - j,
            {
                if out[j] == words[i] {
                    seen = true;
                }
                j = j + 1;
            }
            let ghost before = out@;
            assert(seen == views(before).contains(words@[i as int]@)) by {
                if seen {
                    let k = choose|k: int| 0 <= k < j && out@[k]@ == words@[i as int]@;
                    assert(views(before)[k] == words@[i as int]@);
                }
                if views(before).contains(words@[i as int]@) {
                    let k = choose|k: int| 0 <= k < views(before).len() && views(before)[k] == words@[i as int]@;
                    assert(out@[k]@ == words@[i as int]@);
                }
            }
            if !seen {
                out.push(words[i].clone());
                assert(views(out@) =~= views(before).push(words@[i as int]@));
            }
            i = i + 1;
        }
        assert(ws.take(i as int) =~= ws);
        proof {
            crate::collections_iter::analyzer::law_distinct(ws);
        }
        out
    }

    /// The words stably sorted by byte length (see [`sorted_by_len`]).
    pub fn sort_by_length(words: Vec<String>) -> (r: Vec<String>)
        ensures
            views(r@) == sorted_by_len(views(words@)),
            len_sorted(views(r@)),
            views(r@).to_multiset() == views(words@).to_multiset(),
    {
        let ghost ws = views(words@);
        let mut out: Vec<String> = Vec::new();
        let mut i: usize = 0;
        while i < words.len()
            invariant
                i <= words@.len(),
                ws == views(words@),
                views(out@) == sorted_by_len(ws.take(i as int)),
            decreases words.len() - i,
        {
            assert(ws.take(i + 1).drop_last() =~= ws.take(i as int));
            assert(ws.take(i + 1).last() == words@[i as int]@);
            let w = words[i].clone();
            let wl = text::utf8_len(w.as_str());
            // find the insertion point: after the last element of length <= wl
            let mut p: usize = out.len();
            assert(views(out@).take(p as int) =~= views(out@));
            assert(views(out@).skip(p as int) =~= Seq::<Seq<char>>::empty());
            assert(views(out@) + Seq::<Seq<char>>::empty() =~= views(out@));
            while p > 0 && text::utf8_len(out[p - 1].as_str()) > wl
                invariant
                    p <= out@.len(),
                    wl == byte_len(w@),
                    insert_by_len(views(out@), w@) == insert_by_len(views(out@).take(p as int), w@)
                        + views(out@).skip(p as int),
                decreases p,
            {
                let ghost pre = views(out@).take(p as int);
                assert(pre.drop_last() =~= views(out@).take(p - 1));
                assert(pre.last() == out@[p - 1]@);
                assert(views(out@).take(p - 1).push(pre.last()) + views(out@).skip(p as int)
                    =~= views(out@).take(p - 1) + views(out@).skip(p - 1));
                assert(insert_by_len(views(out@).take(p - 1), w@).push(pre.last()) + views(out@).skip(p as int)
                    =~= insert_by_len(views(out@).take(p - 1), w@) + views(out@).skip(p - 1));
                p = p - 1;
            }
            let ghost pre = views(out@).take(p as int);
            let ghost old_out = views(out@);
            if p > 0 {
                assert(pre.last() == out@[p - 1]@);
                assert(insert_by_len(pre, w@) == pre.push(w@));
            } else {
                assert(pre.len() == 0);
                assert(insert_by_len(pre, w@) == seq![w@]);
            }
            out.insert(p, w);
            assert(views(out@) =~= pre.push(w@) + old_out.skip(p as int));
            assert(pre.push(w@) == insert_by_len(pre, w@));
            assert(views(out@) =~= insert_by_len(old_out, w@));
            assert(views(out@) =~= sorted_by_len(ws.take(i + 1)));
            i = i + 1;
        }
        assert(ws.take(i as int) =~= ws);
        proof {
            law_sorted_by_len(ws);
        }
        out
    }

    /// The words in lexicographic order (a permutation of the input).
    pub fn sort_alphabetically(words: Vec<String>) -> (r: Vec<String>)
        ensures
            views(r@).to_multiset() == views(words@).to_multiset(),
            lex_sorted(views(r@)),
    {
        let ghost ws = views(words@);
        let mut out: Vec<String> = Vec::new();
        let mut i: usize = 0;
        assert(ws.take(0) =~= Seq::<Seq<char>>::empty());
        assert(views(out@) =~= Seq::<Seq<char>>::empty());
        while i < words.len()
            invariant
                i <= words@.len(),
                ws == views(words@),
                views(out@).to_multiset() == ws.take(i as int).to_multiset(),
                lex_sorted(views(out@)),
            decreases words.len() - i,
        {
            assert(ws.take(i + 1) =~= ws.take(i as int).push(words@[i as int]@));
            let w = words[i].clone();
            let wc = text::chars_of(w.as_str());
            let mut p: usize = out.len();
            loop
                invariant
                    p <= out@.len(),
                    wc@ == w@,
                    forall|k: int| p <= k < out@.len() ==> !lex_le(#[trigger] out@[k]@, w@),
                ensures
                    p <= out@.len(),
                    forall|k: int| p <= k < out@.len() ==> !lex_le(#[trigger] out@[k]@, w@),
                    p > 0 ==> lex_le(out@[p - 1]@, w@),
                decreases p,
            {
                if p == 0 {
                    break;
                }
                let oc = text::chars_of(out[p - 1].as_str());
                if lex_le_exec(&oc, &wc) {
                    break;
                }
                p = p - 1;
            }
            let ghost old_out = views(out@);
            out.insert(p, w);
            assert(views(out@) =~= old_out.insert(p as int, w@));
            proof {
                old_out.insert_ensures(p as int, w@);
                broadcast use vstd::seq_lib::group_seq_properties;
                assert(old_out.insert(p as int, w@).to_multiset() =~= old_out.to_multiset().insert(w@)) by {
                    vstd::seq_lib::lemma_multiset_commutative(old_out.take(p as int), old_out.skip(p as int));
                    assert(old_out =~= old_out.take(p as int) + old_out.skip(p as int));
                    assert(old_out.insert(p as int, w@) =~= old_out.take(p as int).push(w@) + old_out.skip(p as int));
                    vstd::seq_lib::lemma_multiset_commutative(old_out.take(p as int).push(w@), old_out.skip(p as int));
                }
                assert forall|a: int, b: int| 0 <= a < b < views(out@).len() implies lex_le(#[trigger] views(out@)[a], #[trigger] views(out@)[b]) by {
                    let o = views(out@);
                    if a < p && b == p {
                        // old_out[a] <= old_out[p-1] <= w
                        if a < p - 1 {
                            lemma_lex_le_trans(old_out[a], old_out[p - 1], w@);
                        }
                    } else if a == p && b > p {
                        lemma_lex_le_total(old_out[b - 1], w@);
                    } else if a < p && b > p {
                        assert(lex_le(old_out[a], old_out[b - 1]));
                    } else if a > p {
                        assert(lex_le(old_out[a - 1], old_out[b - 1]));
                    }
                }
            }
            i = i + 1;
        }
        assert(ws.take(i as int) =~= ws);
        out
    }
}

} // verus!
