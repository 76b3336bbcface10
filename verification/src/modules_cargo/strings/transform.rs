//! Naming-convention conversions and simple word tools.
use vstd::prelude::*;
use vstd::utf8::{encode_utf8, is_char_boundary};
use crate::text::{self, alnum, ascii_lower, ascii_upper, is_ascii_char, is_upper, lower_of, upper_of};

verus! {

/// camelCase conversion of `s` from a position where `first` says whether
/// this is the first character and `cap` whether an underscore was just seen.
pub open spec fn camel_from(s: Seq<char>, first: bool, cap: bool) -> Seq<char>
    decreases s.len(),
{
    if s.len() == 0 {
        Seq::empty()
    } else {
        let c = s[0];
        if c == '_' {
            camel_from(s.drop_first(), false, true)
        } else if cap {
            upper_of(c) + camel_from(s.drop_first(), false, false)
        } else if first {
            lower_of(c) + camel_from(s.drop_first(), false, false)
        } else {
            seq![c] + camel_from(s.drop_first(), false, false)
        }
    }
}

/// Converts snake_case to camelCase: underscores are dropped, the character
/// after an underscore is upper-cased and a leading character lower-cased.
pub fn to_camel_case(s: &str) -> (r: String)
    ensures
        r@ == camel_from(s@, true, false),
{
    let cs = text::chars_of(s);
    let mut out: Vec<char> = Vec::new();
    let mut cap = false;
    let mut i: usize = 0;
    assert(s@.skip(0) =~= s@);
    while i < cs.len()
        invariant
            i <= cs@.len(),
            cs@ == s@,
            camel_from(s@, true, false) == out@ + camel_from(s@.skip(i as int), i == 0, cap),
        decreases cs.len() - i,
    {
        let ch = cs[i];
        let ghost rest = s@.skip(i + 1);
        assert(s@.skip(i as int).drop_first() =~= rest);
        assert(s@.skip(i as int)[0] == ch);
        let ghost before = out@;
        if ch == '_' {
            cap = true;
        } else if cap {
            let up = text::to_uppercase_chars(ch);
            out.append(&mut up.clone());
            assert(before + (upper_of(ch) + camel_from(rest, false, false)) =~= out@
                + camel_from(rest, false, false));
            cap = false;
        } else if i == 0 {
            let low = text::to_lowercase_chars(ch);
            out.append(&mut low.clone());
            assert(before + (lower_of(ch) + camel_from(rest, false, false)) =~= out@
                + camel_from(rest, false, false));
        } else {
            out.push(ch);
            assert(before + (seq![ch] + camel_from(rest, false, false)) =~= out@ + camel_from(
                rest,
                false,
                false,
            ));
        }
        i = i + 1;
    }
    assert(s@.skip(i as int) =~= Seq::<char>::empty());
    assert(out@ + Seq::<char>::empty() =~= out@);
    text::string_of(&out)
}

/// PascalCase form of a list of pieces: each non-empty piece with its first
/// character upper-cased, concatenated.
pub open spec fn pascal_of(ps: Seq<Seq<char>>) -> Seq<char>
    decreases ps.len(),
{
    if ps.len() == 0 {
        Seq::empty()
    } else {
        let p = ps[0];
        (if p.len() > 0 {
            upper_of(p[0]) + p.drop_first()
        } else {
            Seq::empty()
        }) + pascal_of(ps.drop_first())
    }
}

/// A piece with its first character upper-cased (an empty piece stays empty).
pub open spec fn capitalized(p: Seq<char>) -> Seq<char> {
    if p.len() > 0 {
        upper_of(p[0]) + p.drop_first()
    } else {
        Seq::empty()
    }
}

/// PascalCase is the pieces, each capitalized, one after the other.
pub proof fn law_pascal_of(ps: Seq<Seq<char>>)
    ensures
        pascal_of(ps) == ps.map_values(|p: Seq<char>| capitalized(p)).flatten(),
    decreases ps.len(),
{
    if ps.len() > 0 {
        law_pascal_of(ps.drop_first());
        let m = ps.map_values(|p: Seq<char>| capitalized(p));
        assert(m.drop_first() =~= ps.drop_first().map_values(|p: Seq<char>| capitalized(p)));
        assert(m.first() == capitalized(ps[0]));
    } else {
        assert(ps.map_values(|p: Seq<char>| capitalized(p)) =~= Seq::<Seq<char>>::empty());
    }
}

/// Converts snake_case to PascalCase: the pieces between underscores, each
/// with its first character upper-cased, empty pieces dropped.
pub fn to_pascal_case(s: &str) -> (r: String)
    ensures
        r@ == pascal_of(text::pieces(s@, '_')),
{
    let parts = text::split_at_char(s, '_');
    let ghost ps = text::views(parts@);
    let mut out: Vec<char> = Vec::new();
    let mut i: usize = 0;
    assert(ps.skip(0) =~= ps);
    while i < parts.len()
        invariant
            i <= parts@.len(),
            ps == text::views(parts@),
            ps.len() == parts@.len(),
            pascal_of(ps) == out@ + pascal_of(ps.skip(i as int)),
        decreases parts.len() - i,
    {
        let p = text::chars_of(parts[i].as_str());
        assert(p@ == ps[i as int]);
        let ghost rest = ps.skip(i + 1);
        assert(ps.skip(i as int).drop_first() =~= rest);
        assert(ps.skip(i as int)[0] == p@);
        let ghost before = out@;
        if p.len() > 0 {
            let up = text::to_uppercase_chars(p[0]);
            out.append(&mut up.clone());
            let mut k: usize = 1;
            while k < p.len()
                invariant
                    1 <= k <= p@.len(),
                    out@ == before + upper_of(p@[0]) + p@.subrange(1, k as int),
                decreases p.len() - k,
            {
                out.push(p[k]);
                k = k + 1;
            }
            assert(p@.subrange(1, k as int) =~= p@.drop_first());
            assert(before + ((upper_of(p@[0]) + p@.drop_first()) + pascal_of(rest)) =~= out@
                + pascal_of(rest));
        } else {
            assert(before + (Seq::<char>::empty() + pascal_of(rest)) =~= out@ + pascal_of(rest));
        }
        i = i + 1;
    }
    assert(ps.skip(i as int) =~= Seq::<Seq<char>>::empty());
    assert(out@ + Seq::<char>::empty() =~= out@);
    text::string_of(&out)
}

/// snake_case conversion of `s`, where `first` says whether `s[0]` is the
/// first character of the whole string.
pub open spec fn snake_from(s: Seq<char>, first: bool) -> Seq<char>
    decreases s.len(),
{
    if s.len() == 0 {
        Seq::empty()
    } else {
        let c = s[0];
        (if is_upper(c) && !first {
            seq!['_']
        } else {
            Seq::empty()
        }) + lower_of(c) + snake_from(s.drop_first(), false)
    }
}

/// On ASCII text, snake_case lower-cases every letter and only adds
/// underscores: with the underscores taken out, it is the text with its
/// underscores taken out, lower-cased; and it is longer by one for each
/// upper-case letter after the first position.
pub proof fn law_snake_ascii(s: Seq<char>, first: bool)
    requires
        forall|i: int| 0 <= i < s.len() ==> is_ascii_char(#[trigger] s[i]),
    ensures
        snake_from(s, first).filter(|c: char| c != '_') == s.filter(|c: char| c != '_').map_values(
            |c: char| ascii_lower(c),
        ),
        forall|i: int| 0 <= i < snake_from(s, first).len() ==> !('A' <= #[trigger] snake_from(s, first)[i]
            && snake_from(s, first)[i] <= 'Z'),
        snake_from(s, first).len() == s.len() + s.filter(|c: char| 'A' <= c && c <= 'Z').len() - if first
            && s.len() > 0 && 'A' <= s[0] && s[0] <= 'Z' {
            1int
        } else {
            0int
        },
    decreases s.len(),
{
    broadcast use Seq::filter_distributes_over_add;
    reveal_with_fuel(Seq::filter, 2);
    if s.len() == 0 {
        assert(s.filter(|c: char| c != '_') =~= Seq::<char>::empty());
        assert(s.filter(|c: char| c != '_').map_values(|c: char| ascii_lower(c)) =~= Seq::<char>::empty());
        assert(snake_from(s, first) =~= Seq::<char>::empty());
        assert(snake_from(s, first).filter(|c: char| c != '_') =~= Seq::<char>::empty());
        assert(s.filter(|c: char| 'A' <= c && c <= 'Z') =~= Seq::<char>::empty());
    } else {
        let c0 = s[0];
        let rest = s.drop_first();
        assert forall|i: int| 0 <= i < rest.len() implies is_ascii_char(#[trigger] rest[i]) by {
            assert(rest[i] == s[i + 1]);
        }
        law_snake_ascii(rest, false);
        assert(is_ascii_char(c0));
        assert(s =~= seq![c0] + rest);
        let pre: Seq<char> = if is_upper(c0) && !first {
            seq!['_']
        } else {
            Seq::empty()
        };
        let low = seq![ascii_lower(c0)];
        let tail = snake_from(rest, false);
        assert(snake_from(s, first) == pre + low + tail);
        assert(seq![c0].drop_last() =~= Seq::<char>::empty());
        assert(low.drop_last() =~= Seq::<char>::empty());
        assert(seq!['_'].drop_last() =~= Seq::<char>::empty());
        assert(pre.filter(|c: char| c != '_') =~= Seq::<char>::empty());
        if c0 == '_' {
            assert(ascii_lower(c0) == '_');
            assert(low.filter(|c: char| c != '_') =~= Seq::<char>::empty());
            assert(seq![c0].filter(|c: char| c != '_') =~= Seq::<char>::empty());
        } else {
            assert(ascii_lower(c0) != '_');
            assert(low.filter(|c: char| c != '_') =~= low);
            assert(seq![c0].filter(|c: char| c != '_') =~= seq![c0]);
        }
        let f = |c: char| c != '_';
        let m = |c: char| ascii_lower(c);
        assert((seq![c0].filter(f) + rest.filter(f)).map_values(m) =~= seq![c0].filter(f).map_values(m)
            + rest.filter(f).map_values(m));
        assert(pre + low + tail =~= pre + (low + tail));
        assert forall|i: int| 0 <= i < snake_from(s, first).len() implies !('A' <= #[trigger] snake_from(
            s,
            first,
        )[i] && snake_from(s, first)[i] <= 'Z') by {
            let all = pre + (low + tail);
            if i >= pre.len() + 1 {
                assert(all[i] == tail[i - pre.len() - 1]);
            }
        }
        if 'A' <= c0 && c0 <= 'Z' {
            assert(seq![c0].filter(|c: char| 'A' <= c && c <= 'Z') =~= seq![c0]);
        } else {
            assert(seq![c0].filter(|c: char| 'A' <= c && c <= 'Z') =~= Seq::<char>::empty());
        }
    }
}

/// A snake_case name made of ASCII lower-case letters, digits and
/// underscores, in which every underscore is followed by a lower-case letter.
pub open spec fn plain_snake(s: Seq<char>) -> bool {
    &&& forall|i: int| 0 <= i < s.len() ==> ('a' <= #[trigger] s[i] && s[i] <= 'z') || ('0' <= s[i] && s[i] <= '9') || s[i] == '_'
    &&& forall|i: int| 0 <= i < s.len() && #[trigger] s[i] == '_' ==> i + 1 < s.len() && 'a' <= s[i + 1] && s[i + 1] <= 'z'
}

proof fn lemma_snake_of_camel(s: Seq<char>, first: bool)
    requires
        plain_snake(s),
        first && s.len() > 0 ==> s[0] != '_',
    ensures
        snake_from(camel_from(s, first, false), first) == s,
    decreases s.len(),
{
    if s.len() > 0 {
        let c = s[0];
        let rest = s.drop_first();
        assert(plain_snake(rest)) by {
            assert forall|i: int| 0 <= i < rest.len() && #[trigger] rest[i] == '_' implies i + 1 < rest.len()
                && 'a' <= rest[i + 1] && rest[i + 1] <= 'z' by {
                assert(s[i + 1] == '_');
            }
            assert forall|i: int| 0 <= i < rest.len() implies ('a' <= #[trigger] rest[i] && rest[i] <= 'z') || ('0'
                <= rest[i] && rest[i] <= '9') || rest[i] == '_' by {
                assert(rest[i] == s[i + 1]);
            }
        }
        if c == '_' {
            let l = s[1];
            let t = s.skip(2);
            assert(rest[0] == l && rest.drop_first() =~= t);
            assert(plain_snake(t)) by {
                assert forall|i: int| 0 <= i < t.len() && #[trigger] t[i] == '_' implies i + 1 < t.len()
                    && 'a' <= t[i + 1] && t[i + 1] <= 'z' by {
                    assert(rest[i + 1] == '_');
                }
                assert forall|i: int| 0 <= i < t.len() implies ('a' <= #[trigger] t[i] && t[i] <= 'z') || ('0'
                    <= t[i] && t[i] <= '9') || t[i] == '_' by {
                    assert(t[i] == rest[i + 1]);
                }
            }
            lemma_snake_of_camel(t, false);
            let u = ascii_upper(l);
            assert(is_ascii_char(l));
            assert('A' <= u && u <= 'Z');
            assert(is_ascii_char(u));
            assert(ascii_lower(u) == l);
            let cam = camel_from(t, false, false);
            assert(camel_from(s, first, false) == camel_from(rest, false, true));
            assert(camel_from(rest, false, true) == seq![u] + cam);
            let w = seq![u] + cam;
            assert(w[0] == u && w.drop_first() =~= cam);
            assert(snake_from(w, false) == seq!['_'] + seq![l] + snake_from(cam, false));
            assert(s =~= seq!['_'] + seq![l] + t);
        } else {
            lemma_snake_of_camel(rest, false);
            assert(is_ascii_char(c));
            assert(ascii_lower(c) == c);
            let cam = camel_from(rest, false, false);
            assert(camel_from(s, first, false) == seq![c] + cam);
            let w = seq![c] + cam;
            assert(w[0] == c && w.drop_first() =~= cam);
            assert(snake_from(w, first) == Seq::<char>::empty() + seq![c] + snake_from(cam, false));
            assert(s =~= seq![c] + rest);
        }
    }
}

/// `to_snake_case` undoes `to_camel_case` on a snake_case name of ASCII
/// lower-case letters, digits and underscores that does not start with an
/// underscore and has a lower-case letter after each underscore.
pub proof fn law_snake_undoes_camel(s: Seq<char>)
    requires
        plain_snake(s),
        s.len() > 0 ==> s[0] != '_',
    ensures
        snake_from(camel_from(s, true, false), true) == s,
{
    lemma_snake_of_camel(s, true);
}

/// Converts PascalCase or camelCase to snake_case: an underscore before
/// every upper-case character but the first, and every character lower-cased.
pub fn to_snake_case(s: &str) -> (r: String)
    ensures
        r@ == snake_from(s@, true),
{
    let cs = text::chars_of(s);
    let mut out: Vec<char> = Vec::new();
    let mut i: usize = 0;
    assert(s@.skip(0) =~= s@);
    while i < cs.len()
        invariant
            i <= cs@.len(),
            cs@ == s@,
            snake_from(s@, true) == out@ + snake_from(s@.skip(i as int), i == 0),
        decreases cs.len() - i,
    {
        let ch = cs[i];
        let ghost rest = s@.skip(i + 1);
        assert(s@.skip(i as int).drop_first() =~= rest);
        assert(s@.skip(i as int)[0] == ch);
        let ghost before = out@;
        let under = text::is_uppercase(ch) && i > 0;
        if under {
            out.push('_');
        }
        let low = text::to_lowercase_chars(ch);
        out.append(&mut low.clone());
        assert(before + ((if under {
            seq!['_']
        } else {
            Seq::empty()
        }) + lower_of(ch) + snake_from(rest, false)) =~= out@ + snake_from(rest, false));
        i = i + 1;
    }
    assert(s@.skip(i as int) =~= Seq::<char>::empty());
    assert(out@ + Seq::<char>::empty() =~= out@);
    text::string_of(&out)
}

/// `a - b`, or zero when `b > a`.
pub open spec fn sat_sub(a: nat, b: nat) -> nat {
    if a >= b {
        (a - b) as nat
    } else {
        0
    }
}

/// Shortens `s` to at most `max_len` bytes: a string that fits is returned
/// whole; a longer one keeps its first `max_len - 3` bytes (none when
/// `max_len < 3`) followed by `...`. The cut must fall on a character
/// boundary, as slicing a `str` requires.
pub fn truncate(s: &str, max_len: usize) -> (r: String)
    requires
        encode_utf8(s@).len() > max_len ==> is_char_boundary(
            encode_utf8(s@),
            sat_sub(max_len as nat, 3) as int,
        ),
    ensures
        encode_utf8(s@).len() <= max_len ==> r@ == s@,
        encode_utf8(s@).len() > max_len ==> encode_utf8(r@) == encode_utf8(s@).subrange(
            0,
            sat_sub(max_len as nat, 3) as int,
        ) + seq![46u8, 46u8, 46u8],
{
    if text::utf8_len(s) <= max_len {
        s.to_owned()
    } else {
        let k: usize = if max_len >= 3 {
            max_len - 3
        } else {
            0
        };
        let (head, _tail) = s.split_at(k);
        let mut r = head.to_owned();
        assert(encode_utf8(head@) == encode_utf8(s@).subrange(0, k as int));
        let dots = "...";
        proof {
            reveal_strlit("...");
        }
        text::push_str(&mut r, dots);
        proof {
            text::lemma_encode_concat(head@, dots@);
            assert(dots@ =~= seq!['.', '.', '.']);
            vstd::utf8::is_ascii_chars_encode_utf8(dots@);
            assert(encode_utf8(dots@) =~= seq![46u8, 46u8, 46u8]);
            assert(r@ == head@ + dots@);
            assert(encode_utf8(r@) == encode_utf8(head@) + encode_utf8(dots@));
            assert(k == sat_sub(max_len as nat, 3));
        }
        r
    }
}

/// The number of whitespace-separated words in `s`.
pub fn word_count(s: &str) -> (n: usize)
    ensures
        n == text::words(s@).len(),
{
    let ws = text::split_whitespace(s);
    ws.len()
}

/// The words of `s` in reverse order, separated by single spaces.
pub fn reverse_words(s: &str) -> (r: String)
    ensures
        r@ == text::join(text::words(s@).reverse(), seq![' ']),
{
    let ws = text::split_whitespace(s);
    let mut rev: Vec<String> = Vec::new();
    let mut i: usize = ws.len();
    while i > 0
        invariant
            i <= ws@.len(),
            rev@.len() == ws@.len() - i,
            forall|j: int|
                0 <= j < rev@.len() ==> #[trigger] rev@[j]@ == ws@[ws@.len() - 1 - j]@,
        decreases i,
    {
        i = i - 1;
        let w = ws[i].clone();
        rev.push(w);
    }
    assert(text::views(rev@) =~= text::views(ws@).reverse());
    let sp = " ";
    proof {
        reveal_strlit(" ");
    }
    assert(sp@ =~= seq![' ']);
    text::join_with(&rev, sp)
}

/// The alphanumeric characters of `s`, each replaced by the first character
/// of its lower-case mapping.
pub open spec fn cleaned(s: Seq<char>) -> Seq<char> {
    s.filter(|c: char| alnum(c)).map_values(|c: char| lower_of(c)[0])
}

/// On ASCII text, the palindrome check looks at the letters and digits,
/// lower-cased, and at nothing else.
pub proof fn law_cleaned_ascii(s: Seq<char>)
    requires
        forall|i: int| 0 <= i < s.len() ==> is_ascii_char(#[trigger] s[i]),
    ensures
        cleaned(s) == s.filter(|c: char| ('a' <= c && c <= 'z') || ('A' <= c && c <= 'Z') || ('0' <= c
            && c <= '9')).map_values(|c: char| ascii_lower(c)),
    decreases s.len(),
{
    reveal_with_fuel(Seq::filter, 1);
    let f1 = |c: char| alnum(c);
    let f2 = |c: char| ('a' <= c && c <= 'z') || ('A' <= c && c <= 'Z') || ('0' <= c && c <= '9');
    let m1 = |c: char| lower_of(c)[0];
    let m2 = |c: char| ascii_lower(c);
    if s.len() > 0 {
        let d = s.drop_last();
        assert forall|i: int| 0 <= i < d.len() implies is_ascii_char(#[trigger] d[i]) by {
            assert(d[i] == s[i]);
        }
        law_cleaned_ascii(d);
        let c = s.last();
        assert(is_ascii_char(c));
        assert(s.drop_last().push(c) =~= s);
        assert(f1(c) == f2(c));
        assert(m1(c) == m2(c));
        if f1(c) {
            assert(s.filter(f1) == d.filter(f1).push(c));
            assert(s.filter(f2) == d.filter(f2).push(c));
            assert(d.filter(f1).push(c).map_values(m1) =~= d.filter(f1).map_values(m1).push(m1(c)));
            assert(d.filter(f2).push(c).map_values(m2) =~= d.filter(f2).map_values(m2).push(m2(c)));
        } else {
            assert(s.filter(f1) == d.filter(f1));
            assert(s.filter(f2) == d.filter(f2));
        }
    } else {
        assert(s.filter(f1) =~= Seq::<char>::empty());
        assert(s.filter(f2) =~= Seq::<char>::empty());
        assert(s.filter(f1).map_values(m1) =~= s.filter(f2).map_values(m2));
    }
}

/// Whether `s` reads the same backwards, looking only at its alphanumeric
/// characters and ignoring case.
pub fn is_palindrome(s: &str) -> (b: bool)
    ensures
        b == (cleaned(s@) == cleaned(s@).reverse()),
{
    let cs = text::chars_of(s);
    let mut cl: Vec<char> = Vec::new();
    let mut i: usize = 0;
    while i < cs.len()
        invariant
            i <= cs@.len(),
            cs@ == s@,
            cl@ == cleaned(s@.take(i as int)),
        decreases cs.len() - i,
    {
        let ch = cs[i];
        proof {
            assert(s@.take(i + 1).drop_last() =~= s@.take(i as int));
        }
        assert(s@.take(i + 1).filter(|c: char| alnum(c)) == if alnum(ch) {
            s@.take(i as int).filter(|c: char| alnum(c)).push(ch)
        } else {
            s@.take(i as int).filter(|c: char| alnum(c))
        }) by {
            reveal_with_fuel(Seq::filter, 1);
            assert(s@.take(i + 1).last() == ch);
        }
        if text::is_alphabetic(ch) || text::is_numeric(ch) {
            let low = text::to_lowercase_chars(ch);
            cl.push(low[0]);
            assert(cl@ =~= cleaned(s@.take(i + 1)));
        } else {
            assert(cl@ =~= cleaned(s@.take(i + 1)));
        }
        i = i + 1;
    }
    assert(s@.take(i as int) =~= s@);
    let n = cl.len();
    let mut k: usize = 0;
    while k < n / 2
        invariant
            n == cl@.len(),
            cl@ == cleaned(s@),
            k <= n / 2,
            forall|j: int| 0 <= j < k ==> #[trigger] cl@[j] == cl@[n - 1 - j],
        decreases n / 2 - k,
    {
        if cl[k] != cl[n - 1 - k] {
            assert(cl@.reverse()[k as int] != cl@[k as int]);
            return false;
        }
        k = k + 1;
    }
    assert(cl@ =~= cl@.reverse()) by {
        assert forall|j: int| 0 <= j < n implies cl@[j] == #[trigger] cl@.reverse()[j] by {
            if j >= n / 2 {
                let m = n - 1 - j;
                if m < n / 2 {
                    assert(cl@[m] == cl@[n - 1 - m]);
                }
            }
        }
    }
    true
}

} // verus!
