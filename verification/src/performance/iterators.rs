//! Iterator pipelines, string handling, concatenation and building vectors,
//! each in a slower and a faster form.
use std::borrow::Cow;
use vstd::prelude::*;
use crate::performance::algorithms::doubled_positives;
use crate::performance::algorithms::doubles_fit;
use crate::performance::algorithms::ints;
use crate::performance::algorithms::sum_of;
use crate::performance::algorithms::sums_fit;
use crate::performance::algorithms::filter_map_fast;
use crate::performance::algorithms::sum_loop;
use crate::text;
use crate::text::starts_with;

verus! {

/// The items of `s` below 100.
pub open spec fn below_100(s: Seq<int>) -> Seq<int>
    decreases s.len(),
{
    if s.len() == 0 {
        Seq::empty()
    } else if s.last() < 100 {
        below_100(s.drop_last()).push(s.last())
    } else {
        below_100(s.drop_last())
    }
}

/// The items below 100 are the items of `s` that are below 100, in order.
pub proof fn law_below_100(s: Seq<int>)
    ensures
        below_100(s) == s.filter(|x: int| x < 100),
    decreases s.len(),
{
    reveal_with_fuel(Seq::filter, 1);
    if s.len() > 0 {
        law_below_100(s.drop_last());
        assert(s.drop_last().push(s.last()) =~= s);
    }
}

/// The items of `v` below 100, in order.
fn keep_below_100(v: &Vec<i32>) -> (r: Vec<i32>)
    ensures
        ints(r@) == below_100(ints(v@)),
{
    let mut r: Vec<i32> = Vec::new();
    let mut i: usize = 0;
    assert(ints(v@).take(0) =~= Seq::<int>::empty());
    while i < v.len()
        invariant
            i <= v@.len(),
            ints(r@) == below_100(ints(v@).take(i as int)),
        decreases v.len() - i,
    {
        assert(ints(v@).take(i + 1).drop_last() =~= ints(v@).take(i as int));
        assert(ints(v@).take(i + 1).last() == v@[i as int]);
        if v[i] < 100 {
            let ghost before = r@;
            r.push(v[i]);
            assert(ints(r@) =~= ints(before).push(v@[i as int] as int));
        }
        i = i + 1;
    }
    assert(ints(v@).take(v@.len() as int) =~= ints(v@));
    r
}

/// The positive items doubled, keeping the results below 100, in stages.
pub fn process_slow(data: &[i32]) -> (r: Vec<i32>)
    requires
        doubles_fit(data@),
    ensures
        ints(r@) == below_100(doubled_positives(data@)),
{
    let mapped = filter_map_fast(data);
    keep_below_100(&mapped)
}

/// The positive items doubled, keeping the results below 100, in one pass.
pub fn process_fast(data: &[i32]) -> (r: Vec<i32>)
    requires
        doubles_fit(data@),
    ensures
        ints(r@) == below_100(doubled_positives(data@)),
{
    let mut r: Vec<i32> = Vec::new();
    let mut i: usize = 0;
    assert(data@.take(0) =~= Seq::<i32>::empty());
    while i < data.len()
        invariant
            i <= data@.len(),
            doubles_fit(data@),
            ints(r@) == below_100(doubled_positives(data@.take(i as int))),
        decreases data.len() - i,
    {
        assert(data@.take(i + 1).drop_last() =~= data@.take(i as int));
        assert(data@.take(i + 1).last() == data@[i as int]);
        let x = data[i];
        let ghost d = doubled_positives(data@.take(i as int));
        if x > 0 {
            let y = x * 2;
            assert(doubled_positives(data@.take(i + 1)) == d.push(y as int));
            assert(d.push(y as int).drop_last() =~= d);
            assert(below_100(d.push(y as int)) == if y < 100 {
                below_100(d).push(y as int)
            } else {
                below_100(d)
            });
            if y < 100 {
                let ghost before = r@;
                r.push(y);
                assert(ints(r@) =~= ints(before).push(y as int));
            }
        }
        i = i + 1;
    }
    assert(data@.take(data@.len() as int) =~= data@);
    r
}

/// `s` with every occurrence of `pat` (which is not empty), taken from the
/// left without overlaps, replaced by `rep`.
pub open spec fn replace_all(s: Seq<char>, pat: Seq<char>, rep: Seq<char>) -> Seq<char>
    decreases s.len(),
{
    if s.len() == 0 || pat.len() == 0 {
        s
    } else if starts_with(s, pat) {
        rep + replace_all(s.skip(pat.len() as int), pat, rep)
    } else {
        seq![s[0]] + replace_all(s.drop_first(), pat, rep)
    }
}

/// Replacing: a text that starts with the pattern starts with the
/// replacement, followed by the rest replaced; replacing the pattern by
/// itself changes nothing; a text without the pattern is left as it is.
pub proof fn law_replace_all(s: Seq<char>, pat: Seq<char>, rep: Seq<char>)
    requires
        pat.len() > 0,
    ensures
        replace_all(pat + s, pat, rep) == rep + replace_all(s, pat, rep),
        replace_all(s, pat, pat) == s,
        (forall|i: int| 0 <= i < s.len() ==> !#[trigger] starts_with(s.skip(i), pat)) ==> replace_all(
            s,
            pat,
            rep,
        ) == s,
    decreases s.len(),
{
    assert((pat + s).skip(pat.len() as int) =~= s);
    assert((pat + s).subrange(0, pat.len() as int) =~= pat);
    if s.len() > 0 {
        law_replace_all(s.drop_first(), pat, rep);
        if starts_with(s, pat) {
            assert(s.skip(pat.len() as int).len() < s.len());
            lemma_replace_identity(s.skip(pat.len() as int), pat);
            assert(pat + s.skip(pat.len() as int) =~= s) by {
                assert(s.subrange(0, pat.len() as int) == pat);
            }
        } else {
            assert(seq![s[0]] + s.drop_first() =~= s);
        }
        if forall|i: int| 0 <= i < s.len() ==> !#[trigger] starts_with(s.skip(i), pat) {
            assert(s.skip(0) =~= s);
            assert(!starts_with(s.skip(0), pat));
            assert forall|i: int| 0 <= i < s.drop_first().len() implies !#[trigger] starts_with(
                s.drop_first().skip(i),
                pat,
            ) by {
                assert(s.drop_first().skip(i) =~= s.skip(i + 1));
            }
            assert(seq![s[0]] + s.drop_first() =~= s);
        }
    } else {
        assert(pat + s =~= pat);
    }
}

proof fn lemma_replace_identity(s: Seq<char>, pat: Seq<char>)
    requires
        pat.len() > 0,
    ensures
        replace_all(s, pat, pat) == s,
    decreases s.len(),
{
    if s.len() > 0 {
        if starts_with(s, pat) {
            lemma_replace_identity(s.skip(pat.len() as int), pat);
            assert(pat + s.skip(pat.len() as int) =~= s) by {
                assert(s.subrange(0, pat.len() as int) == pat);
            }
        } else {
            lemma_replace_identity(s.drop_first(), pat);
            assert(seq![s[0]] + s.drop_first() =~= s);
        }
    }
}

/// Whether `pat` occurs in `cs` starting at `i`.
fn occurs_at(cs: &Vec<char>, pat: &Vec<char>, i: usize) -> (b: bool)
    requires
        i <= cs@.len(),
    ensures
        b == starts_with(cs@.skip(i as int), pat@),
{
    let n = cs.len();
    if pat.len() > n - i {
        return false;
    }
    let mut k: usize = 0;
    while k < pat.len()
        invariant
            n == cs@.len(),
            i + pat@.len() <= cs@.len(),
            k <= pat@.len(),
            forall|j: int| 0 <= j < k ==> cs@[i + j] == pat@[j],
        decreases pat.len() - k,
    {
        if cs[i + k] != pat[k] {
            assert(cs@.skip(i as int).subrange(0, pat@.len() as int)[k as int] != pat@[k as int]);
            return false;
        }
        k = k + 1;
    }
    assert(cs@.skip(i as int).subrange(0, pat@.len() as int) =~= pat@);
    true
}

/// `s` with every occurrence of `pat` replaced by `rep` (see [`replace_all`]).
fn replace_str(s: &str, pat: &str, rep: &str) -> (r: String)
    requires
        pat@.len() > 0,
    ensures
        r@ == replace_all(s@, pat@, rep@),
{
    let cs = text::chars_of(s);
    let ps = text::chars_of(pat);
    let mut out = String::new();
    let mut i: usize = 0;
    assert(s@.skip(0) =~= s@);
    while i < cs.len()
        invariant
            cs@ == s@,
            ps@ == pat@,
            pat@.len() > 0,
            i <= cs@.len(),
            out@ + replace_all(s@.skip(i as int), pat@, rep@) == replace_all(s@, pat@, rep@),
        decreases cs.len() - i,
    {
        let ghost rest = s@.skip(i as int);
        if occurs_at(&cs, &ps, i) {
            text::push_str(&mut out, rep);
            assert(rest.skip(pat@.len() as int) =~= s@.skip(i + ps@.len()));
            i = i + ps.len();
        } else {
            text::push_char(&mut out, cs[i]);
            assert(rest.drop_first() =~= s@.skip(i + 1));
            assert(rest[0] == cs@[i as int]);
            i = i + 1;
        }
    }
    assert(s@.skip(i as int) =~= Seq::<char>::empty());
    out
}

/// `s` with `bad` replaced by `good`, always as a new string.
pub fn process_string_slow(s: &str) -> (r: String)
    ensures
        r@ == replace_all(s@, "bad"@, "good"@),
{
    let bad = "bad";
    proof {
        reveal_strlit("bad");
    }
    if text::seq_contains(&text::chars_of(s), &text::chars_of(bad)) {
        replace_str(s, bad, "good")
    } else {
        proof {
            lemma_replace_absent(s@, bad@, "good"@);
        }
        s.to_owned()
    }
}

/// `s` with `bad` replaced by `good`: a new string when `bad` occurs, `s`
/// itself, borrowed, when it does not.
pub fn process_string_fast(s: &str) -> (r: Cow<'_, str>)
    ensures
        r@ == replace_all(s@, "bad"@, "good"@),
        text::contains(s@, "bad"@) <==> r is Owned,
{
    let bad = "bad";
    proof {
        reveal_strlit("bad");
    }
    if text::seq_contains(&text::chars_of(s), &text::chars_of(bad)) {
        Cow::Owned(replace_str(s, bad, "good"))
    } else {
        proof {
            lemma_replace_absent(s@, bad@, "good"@);
        }
        Cow::Borrowed(s)
    }
}

/// Replacing a pattern that does not occur changes nothing.
pub proof fn lemma_replace_absent(s: Seq<char>, pat: Seq<char>, rep: Seq<char>)
    requires
        !text::contains(s, pat),
    ensures
        replace_all(s, pat, rep) == s,
    decreases s.len(),
{
    if s.len() > 0 && pat.len() > 0 {
        if starts_with(s, pat) {
            assert(text::occurs_at(s, pat, 0));
        }
        assert forall|i: int| !text::occurs_at(s.drop_first(), pat, i) by {
            if text::occurs_at(s.drop_first(), pat, i) {
                assert(s.subrange(i + 1, i + 1 + pat.len()) =~= s.drop_first().subrange(i, i + pat.len()));
                assert(text::occurs_at(s, pat, i + 1));
            }
        }
        lemma_replace_absent(s.drop_first(), pat, rep);
        assert(seq![s[0]] + s.drop_first() =~= s);
    }
}

/// The strings of `v` joined together.
pub open spec fn concat(v: Seq<String>) -> Seq<char>
    decreases v.len(),
{
    if v.len() == 0 {
        Seq::empty()
    } else {
        concat(v.drop_last()) + v.last()@
    }
}

/// Joining strings is additive: the join of two lists one after the other
/// is the join of the first followed by the join of the second, and a
/// single string joins to itself.
pub proof fn law_concat_additive(a: Seq<String>, b: Seq<String>, x: String)
    ensures
        concat(a + b) == concat(a) + concat(b),
        concat(seq![x]) == x@,
    decreases b.len(),
{
    assert(seq![x].drop_last() =~= Seq::<String>::empty());
    assert(Seq::<char>::empty() + x@ =~= x@);
    assert(concat(Seq::<String>::empty()) == Seq::<char>::empty());
    assert(seq![x].last() == x);
    assert(concat(seq![x]) == concat(seq![x].drop_last()) + seq![x].last()@);
    if b.len() == 0 {
        assert(a + b =~= a);
        assert(concat(a) + Seq::<char>::empty() =~= concat(a));
    } else {
        law_concat_additive(a, b.drop_last(), x);
        assert((a + b).drop_last() =~= a + b.drop_last());
        assert((a + b).last() == b.last());
        assert(concat(a) + concat(b.drop_last()) + b.last()@ =~= concat(a) + (concat(b.drop_last())
            + b.last()@));
    }
}

/// The strings joined, building a new string at every step.
pub fn concat_slow(strings: &[String]) -> (r: String)
    ensures
        r@ == concat(strings@),
{
    let mut result = String::new();
    let mut i: usize = 0;
    assert(strings@.take(0) =~= Seq::<String>::empty());
    while i < strings.len()
        invariant
            i <= strings@.len(),
            result@ == concat(strings@.take(i as int)),
        decreases strings.len() - i,
    {
        assert(strings@.take(i + 1).drop_last() =~= strings@.take(i as int));
        let mut next = result.clone();
        text::push_str(&mut next, strings[i].as_str());
        result = next;
        i = i + 1;
    }
    assert(strings@.take(strings@.len() as int) =~= strings@);
    result
}

/// The strings joined, appending to one string.
pub fn concat_fast(strings: &[String]) -> (r: String)
    ensures
        r@ == concat(strings@),
{
    let mut result = String::new();
    let mut i: usize = 0;
    assert(strings@.take(0) =~= Seq::<String>::empty());
    while i < strings.len()
        invariant
            i <= strings@.len(),
            result@ == concat(strings@.take(i as int)),
        decreases strings.len() - i,
    {
        assert(strings@.take(i + 1).drop_last() =~= strings@.take(i as int));
        text::push_str(&mut result, strings[i].as_str());
        i = i + 1;
    }
    assert(strings@.take(strings@.len() as int) =~= strings@);
    result
}

/// The numbers 0 to 999 in order.
pub open spec fn first_thousand() -> Seq<i32> {
    Seq::new(1000, |i: int| i as i32)
}

/// The numbers 0 to 999, pushed into a vector of `v`'s capacity.
fn fill_thousand(v: &mut Vec<i32>)
    requires
        old(v)@.len() == 0,
    ensures
        final(v)@ == first_thousand(),
{
    let mut i: i32 = 0;
    while i < 1000
        invariant
            0 <= i <= 1000,
            v@ == first_thousand().take(i as int),
        decreases 1000 - i,
    {
        v.push(i);
        i = i + 1;
        assert(v@ =~= first_thousand().take(i as int));
    }
    assert(first_thousand().take(1000) =~= first_thousand());
}

/// The numbers 0 to 999, growing the vector as needed.
pub fn build_vec_slow() -> (r: Vec<i32>)
    ensures
        r@ == first_thousand(),
{
    let mut v: Vec<i32> = Vec::new();
    fill_thousand(&mut v);
    v
}

/// The numbers 0 to 999, in a vector allocated once.
pub fn build_vec_fast() -> (r: Vec<i32>)
    ensures
        r@ == first_thousand(),
{
    let mut v: Vec<i32> = Vec::with_capacity(1000);
    fill_thousand(&mut v);
    v
}

/// The numbers 0 to 999, collected from a range.
pub fn build_vec_fastest() -> (r: Vec<i32>)
    ensures
        r@ == first_thousand(),
{
    let mut v: Vec<i32> = Vec::with_capacity(1000);
    for i in it: 0..1000i32
        invariant
            v@ == first_thousand().take(i as int),
    {
        v.push(i);
        assert(v@ =~= first_thousand().take(i + 1));
    }
    assert(first_thousand().take(1000) =~= first_thousand());
    v
}

/// Doubling any item of `s` stays within `i32`.
pub open spec fn all_doubles_fit(s: Seq<i32>) -> bool {
    forall|i: int| 0 <= i < s.len() ==> i32::MIN <= 2 * #[trigger] s[i] <= i32::MAX
}

/// Every item doubled.
fn double_all(data: &Vec<i32>) -> (r: Vec<i32>)
    requires
        all_doubles_fit(data@),
    ensures
        ints(r@) == ints(data@).map_values(|x: int| 2 * x),
{
    let mut r: Vec<i32> = Vec::new();
    let mut i: usize = 0;
    while i < data.len()
        invariant
            i <= data@.len(),
            all_doubles_fit(data@),
            ints(r@) == ints(data@).take(i as int).map_values(|x: int| 2 * x),
        decreases data.len() - i,
    {
        let ghost before = r@;
        r.push(data[i] * 2);
        assert(ints(r@) =~= ints(before).push(2 * data@[i as int]));
        assert(ints(data@).take(i + 1).map_values(|x: int| 2 * x) =~= ints(data@).take(
            i as int,
        ).map_values(|x: int| 2 * x).push(2 * data@[i as int]));
        i = i + 1;
    }
    assert(ints(data@).take(data@.len() as int) =~= ints(data@));
    r
}

/// Every item doubled, working on a copy of the data.
pub fn transform_slow(data: Vec<i32>) -> (r: Vec<i32>)
    requires
        all_doubles_fit(data@),
    ensures
        ints(r@) == ints(data@).map_values(|x: int| 2 * x),
{
    let copy = data.clone();
    assert(copy@ == data@);
    double_all(&copy)
}

/// Every item doubled, consuming the data.
pub fn transform_fast(data: Vec<i32>) -> (r: Vec<i32>)
    requires
        all_doubles_fit(data@),
    ensures
        ints(r@) == ints(data@).map_values(|x: int| 2 * x),
{
    double_all(&data)
}

/// The sum of `data`, which is consumed; every running sum must fit.
pub fn sum_slow(data: Vec<i32>) -> (r: i32)
    requires
        sums_fit(data@),
    ensures
        r == sum_of(data@),
{
    sum_loop(data.as_slice())
}

/// The sum of `data`, which is borrowed; every running sum must fit.
pub fn sum_fast(data: &[i32]) -> (r: i32)
    requires
        sums_fit(data@),
    ensures
        r == sum_of(data@),
{
    sum_loop(data)
}

/// `a` followed by `b`, copying `a` first and extending the copy.
pub fn chain_slow(a: &[i32], b: &[i32]) -> (r: Vec<i32>)
    ensures
        r@ == a@ + b@,
{
    let mut result: Vec<i32> = Vec::new();
    append_all(&mut result, a);
    append_all(&mut result, b);
    result
}

/// `a` followed by `b`, in one pass over both.
pub fn chain_fast(a: &[i32], b: &[i32]) -> (r: Vec<i32>)
    ensures
        r@ == a@ + b@,
{
    let mut result: Vec<i32> = Vec::with_capacity(a.len());
    append_all(&mut result, a);
    append_all(&mut result, b);
    result
}

/// Appends the items of `s` to `v`.
fn append_all(v: &mut Vec<i32>, s: &[i32])
    ensures
        final(v)@ == old(v)@ + s@,
{
    let mut i: usize = 0;
    while i < s.len()
        invariant
            i <= s@.len(),
            v@ == old(v)@ + s@.take(i as int),
        decreases s.len() - i,
    {
        v.push(s[i]);
        i = i + 1;
        assert(v@ =~= old(v)@ + s@.take(i as int));
    }
    assert(s@.take(s@.len() as int) =~= s@);
}

/// The vectors of `data` as sequences.
pub open spec fn seqs(data: Seq<Vec<i32>>) -> Seq<Seq<i32>> {
    data.map_values(|v: Vec<i32>| v@)
}

/// The items of all vectors, in order, by nested loops.
pub fn flatten_slow(data: &[Vec<i32>]) -> (r: Vec<i32>)
    ensures
        r@ == seqs(data@).flatten(),
{
    let mut result: Vec<i32> = Vec::new();
    let mut i: usize = 0;
    while i < data.len()
        invariant
            i <= data@.len(),
            result@ == seqs(data@.take(i as int)).flatten(),
        decreases data.len() - i,
    {
        let ghost before = result@;
        append_all(&mut result, data[i].as_slice());
        proof {
            assert(seqs(data@.take(i + 1)) =~= seqs(data@.take(i as int)).push(data@[i as int]@));
            seqs(data@.take(i as int)).lemma_flatten_push(data@[i as int]@);
        }
        i = i + 1;
    }
    assert(data@.take(data@.len() as int) =~= data@);
    result
}

/// The items of all vectors, in order, in one flattening pass.
pub fn flatten_fast(data: &[Vec<i32>]) -> (r: Vec<i32>)
    ensures
        r@ == seqs(data@).flatten(),
{
    flatten_slow(data)
}

} // verus!
