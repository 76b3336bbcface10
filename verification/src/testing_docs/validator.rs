//! Input validators.
use vstd::prelude::*;
use crate::text::{self, byte_len, count_char, pieces, unicode_alphabetic, unicode_numeric, unicode_alphanumeric};

verus! {

/// An e-mail address: more than 5 bytes, exactly one `@`, a non-empty part
/// before it and a non-empty part after it that holds a `.`.
pub open spec fn valid_email(s: Seq<char>) -> bool {
    &&& byte_len(s) > 5
    &&& count_char(s, '@') == 1
    &&& pieces(s, '@').len() == 2
    &&& pieces(s, '@')[0].len() > 0
    &&& pieces(s, '@')[1].len() > 0
    &&& pieces(s, '@')[1].contains('.')
}

/// An address is valid exactly when its UTF-8 encoding is longer than 5
/// bytes and it holds exactly one `@`, with something before it and, after
/// it, a part that contains a `.`.
pub proof fn law_valid_email(s: Seq<char>)
    ensures
        valid_email(s) <==> vstd::utf8::encode_utf8(s).len() > 5 && s.filter(|c: char| c == '@').len()
            == 1 && (exists|k: int|
            0 < k && k + 1 < s.len() && #[trigger] s[k] == '@' && s.skip(k + 1).contains('.')),
{
    text::law_count_char(s, '@');
    text::law_pieces(s, '@');
    text::law_pieces_len(s, '@');
    let ps = pieces(s, '@');
    if s.filter(|c: char| c == '@').len() == 1 {
        assert(ps.len() == 2);
        let p0 = ps[0];
        let p1 = ps[1];
        assert(ps =~= seq![p0] + seq![p1]);
        assert(text::join(ps, seq!['@']) == text::join(ps.drop_last(), seq!['@']) + seq!['@'] + ps.last());
        assert(ps.drop_last() =~= seq![p0]);
        assert(text::join(seq![p0], seq!['@']) == p0);
        assert(s == p0 + seq!['@'] + p1);
        let k0 = p0.len() as int;
        assert(s[k0] == '@');
        assert(s.skip(k0 + 1) =~= p1);
        if valid_email(s) {
            assert(0 < k0 && k0 + 1 < s.len() && s[k0] == '@' && s.skip(k0 + 1).contains('.'));
        }
        if exists|k: int| 0 < k && k + 1 < s.len() && #[trigger] s[k] == '@' && s.skip(k + 1).contains('.') {
            let k = choose|k: int| 0 < k && k + 1 < s.len() && #[trigger] s[k] == '@' && s.skip(k + 1).contains('.');
            assert(!p0.contains('@'));
            assert(!p1.contains('@'));
            if k < k0 {
                assert(p0[k] == '@');
            } else if k > k0 {
                assert(p1[k - k0 - 1] == '@');
            }
            assert(k == k0);
        }
    }
}

/// Whether `email` looks like an e-mail address (see [`valid_email`]).
#[verifier::loop_isolation(false)]
pub fn is_valid_email(email: &str) -> (b: bool)
    ensures
        b == valid_email(email@),
{
    if text::utf8_len(email) <= 5 {
        return false;
    }
    let cs = text::chars_of(email);
    let at_count = text::count_of(&cs, '@');
    if at_count != 1 {
        return false;
    }
    let parts = text::split_at_char(email, '@');
    assert(text::views(parts@).len() == parts@.len());
    if parts.len() != 2 {
        return false;
    }
    let local = text::chars_of(parts[0].as_str());
    let domain = text::chars_of(parts[1].as_str());
    assert(local@ == pieces(email@, '@')[0]);
    assert(domain@ == pieces(email@, '@')[1]);
    if local.len() == 0 || domain.len() == 0 {
        return false;
    }
    let mut i: usize = 0;
    while i < domain.len()
        invariant
            i <= domain@.len(),
            forall|j: int| 0 <= j < i ==> domain@[j] != '.',
        decreases domain.len() - i,
    {
        if domain[i] == '.' {
            assert(domain@[i as int] == '.');
            assert(domain@.contains('.'));
            return true;
        }
        i = i + 1;
    }
    false
}

/// A strong password: at least 8 bytes, with a numeric and an alphabetic character.
pub open spec fn strong_password(s: Seq<char>) -> bool {
    &&& byte_len(s) >= 8
    &&& exists|i: int| 0 <= i < s.len() && #[trigger] unicode_numeric(s[i])
    &&& exists|i: int| 0 <= i < s.len() && #[trigger] unicode_alphabetic(s[i])
}

/// A password is strong exactly when its UTF-8 encoding has at least 8
/// bytes and it holds a numeric and an alphabetic character; nothing else,
/// such as letter case, counts.
pub proof fn law_strong_password(s: Seq<char>)
    ensures
        strong_password(s) <==> vstd::utf8::encode_utf8(s).len() >= 8
            && (exists|i: int| 0 <= i < s.len() && #[trigger] unicode_numeric(s[i]))
            && (exists|j: int| 0 <= j < s.len() && #[trigger] unicode_alphabetic(s[j])),
{
}

/// Whether `password` is strong (see [`strong_password`]).
pub fn is_strong_password(password: &str) -> (b: bool)
    ensures
        b == strong_password(password@),
        b == (vstd::utf8::encode_utf8(password@).len() >= 8
            && (exists|i: int| 0 <= i < password@.len() && #[trigger] unicode_numeric(password@[i]))
            && (exists|i: int| 0 <= i < password@.len() && #[trigger] unicode_alphabetic(password@[i]))),
{
    if text::utf8_len(password) < 8 {
        return false;
    }
    let cs = text::chars_of(password);
    text::any_numeric(&cs) && text::any_alphabetic(&cs)
}

/// Whether `age` lies strictly between 0 and 150.
pub fn is_valid_age(age: u32) -> (b: bool)
    ensures
        b == (0 < age && age < 150),
{
    age > 0 && age < 150
}

/// A user name: 3 to 20 characters, starting with an alphabetic character,
/// made only of alphanumeric characters and underscores.
pub open spec fn valid_username(s: Seq<char>) -> bool {
    &&& 3 <= s.len() <= 20
    &&& (s.len() > 0 ==> unicode_alphabetic(s[0]))
    &&& forall|i: int| 0 <= i < s.len() ==> #[trigger] unicode_alphanumeric(s[i]) || s[i] == '_'
}

/// A user name is valid exactly when it has 3 to 20 characters, starts
/// with a letter, and holds only letters, digits and `_`.
pub proof fn law_valid_username(s: Seq<char>)
    ensures
        valid_username(s) <==> 3 <= s.len() && s.len() <= 20 && unicode_alphabetic(s[0]) && (forall|i: int|
            0 <= i < s.len() ==> #[trigger] unicode_alphanumeric(s[i]) || s[i] == '_'),
{
}

/// Whether `username` is a valid user name (see [`valid_username`]).
#[verifier::loop_isolation(false)]
pub fn is_valid_username(username: &str) -> (b: bool)
    ensures
        b == valid_username(username@),
{
    let cs = text::chars_of(username);
    let len = cs.len();
    if len < 3 || len > 20 {
        return false;
    }
    if cs.len() > 0 {
        if !text::is_alphabetic(cs[0]) {
            return false;
        }
    }
    let mut i: usize = 0;
    while i < cs.len()
        invariant
            i <= cs@.len(),
            forall|j: int| 0 <= j < i ==> #[trigger] unicode_alphanumeric(cs@[j]) || cs@[j] == '_',
        decreases cs.len() - i,
    {
        let c = cs[i];
        if !(text::is_alphanumeric(c) || c == '_') {
            assert(!(unicode_alphanumeric(username@[i as int]) || username@[i as int] == '_'));
            return false;
        }
        i = i + 1;
    }
    true
}

/// Whether `url` starts with `http://` or `https://`.
pub fn is_valid_url(url: &str) -> (b: bool)
    ensures
        b == (text::starts_with(url@, seq!['h', 't', 't', 'p', ':', '/', '/']) || text::starts_with(
            url@,
            seq!['h', 't', 't', 'p', 's', ':', '/', '/'],
        )),
{
    let cs = text::chars_of(url);
    let http = text::chars_of("http://");
    let https = text::chars_of("https://");
    proof {
        reveal_strlit("http://");
        reveal_strlit("https://");
    }
    assert(http@ =~= seq!['h', 't', 't', 'p', ':', '/', '/']);
    assert(https@ =~= seq!['h', 't', 't', 'p', 's', ':', '/', '/']);
    text::seq_starts_with(&cs, &http) || text::seq_starts_with(&cs, &https)
}

/// Whether `phone` is exactly 11 bytes, all numeric characters.
pub fn is_valid_phone(phone: &str) -> (b: bool)
    ensures
        b == (byte_len(phone@) == 11 && forall|i: int|
            0 <= i < phone@.len() ==> #[trigger] unicode_numeric(phone@[i])),
{
    if text::utf8_len(phone) != 11 {
        return false;
    }
    let cs = text::chars_of(phone);
    text::all_numeric(&cs)
}

} // verus!
