//! The parts of reading and checking a CSV record that are text and integer
//! logic: cutting a line into trimmed fields, reading the age, and checking
//! the name, age and e-mail address. The score is a floating-point number;
//! what is done with it is left to the caller.
use vstd::prelude::*;
use crate::text;
use crate::text::{ascii_digit, byte_len, decimal, lines, pieces, trim, trim_text, views};
use crate::error_handling::errors::{AppError, AppResult};

verus! {

/// The value of a sequence of decimal digits.
pub open spec fn digits_value(d: Seq<char>) -> nat
    decreases d.len(),
{
    if d.len() == 0 {
        0
    } else {
        digits_value(d.drop_last()) * 10 + (d.last() as nat - 48) as nat
    }
}

/// Whether every character of `d` is an ASCII digit.
pub open spec fn all_digits(d: Seq<char>) -> bool {
    forall|i: int| 0 <= i < d.len() ==> ascii_digit(#[trigger] d[i])
}

/// `s` without one leading `+`.
pub open spec fn unsigned_digits(s: Seq<char>) -> Seq<char> {
    if s.len() > 0 && s[0] == '+' {
        s.drop_first()
    } else {
        s
    }
}

/// The `u32` that `s` denotes, as `str::parse::<u32>` reads it: one optional
/// `+`, then at least one ASCII digit and nothing else, with a value that
/// fits in a `u32`.
pub open spec fn u32_text(s: Seq<char>) -> Option<u32> {
    let d = unsigned_digits(s);
    if d.len() > 0 && all_digits(d) && digits_value(d) <= u32::MAX {
        Some(digits_value(d) as u32)
    } else {
        None
    }
}

/// The decimal text of a number is made of digits, starts with a digit
/// other than `0` unless the number is 0, and reads back as the number.
pub proof fn law_decimal_reads_back(n: nat)
    ensures
        decimal(n).len() > 0,
        forall|i: int| 0 <= i < decimal(n).len() ==> '0' <= #[trigger] decimal(n)[i] && decimal(n)[i] <= '9',
        n > 0 ==> decimal(n)[0] != '0',
        digits_value(decimal(n)) == n,
    decreases n,
{
    if n >= 10 {
        law_decimal_reads_back(n / 10);
        let p = decimal(n / 10);
        let d = decimal(n);
        assert(d == p.push(text::digit_char(n % 10)));
        assert(d.drop_last() =~= p);
        assert forall|i: int| 0 <= i < d.len() implies '0' <= #[trigger] d[i] && d[i] <= '9' by {
            if i < p.len() {
                assert(d[i] == p[i]);
            }
        }
        assert(d[0] == p[0]);
        assert((text::digit_char(n % 10) as nat) == 48 + n % 10);
        assert(d.last() == text::digit_char(n % 10));
        assert(digits_value(d) == digits_value(p) * 10 + (d.last() as nat - 48) as nat);
        assert((n / 10) * 10 + n % 10 == n) by (nonlinear_arith);
    } else {
        assert((text::digit_char(n) as nat) == 48 + n);
        assert(decimal(n).drop_last() =~= Seq::<char>::empty());
        assert(decimal(n).last() == text::digit_char(n));
        assert(digits_value(Seq::<char>::empty()) == 0);
        assert(digits_value(decimal(n)) == digits_value(decimal(n).drop_last()) * 10 + (decimal(n).last() as nat - 48) as nat);
    }
}

/// Reading the decimal text of a `u32`, with or without a leading `+`,
/// gives the number; a text with a `-` in front, or with any character
/// that is neither a digit nor the leading `+`, is not a `u32`.
pub proof fn law_u32_text(n: u32, s: Seq<char>)
    ensures
        u32_text(decimal(n as nat)) == Some(n),
        u32_text(seq!['+'] + decimal(n as nat)) == Some(n),
        s.len() > 0 && s[0] == '-' ==> u32_text(s) is None,
        (exists|i: int| 0 <= i < s.len() && !('0' <= #[trigger] s[i] && s[i] <= '9') && !(i == 0 && s[i] == '+'))
            ==> u32_text(s) is None,
        u32_text(s) is Some ==> s.len() > 0,
{
    law_decimal_reads_back(n as nat);
    let d = decimal(n as nat);
    assert(d[0] != '+');
    assert((seq!['+'] + d).drop_first() =~= d);
    assert((seq!['+'] + d)[0] == '+');
    if exists|i: int| 0 <= i < s.len() && !('0' <= #[trigger] s[i] && s[i] <= '9') && !(i == 0 && s[i] == '+') {
        let i = choose|i: int| 0 <= i < s.len() && !('0' <= #[trigger] s[i] && s[i] <= '9') && !(i == 0 && s[i] == '+');
        let u = unsigned_digits(s);
        if s.len() > 0 && s[0] == '+' {
            assert(u[i - 1] == s[i]);
        } else {
            assert(u[i] == s[i]);
        }
    }
}

/// Appending digits never makes the value smaller.
pub proof fn lemma_digits_monotone(d: Seq<char>, i: int, j: int)
    requires
        0 <= i <= j <= d.len(),
        all_digits(d),
    ensures
        digits_value(d.take(i)) <= digits_value(d.take(j)),
    decreases j - i,
{
    if i < j {
        lemma_digits_monotone(d, i, j - 1);
        assert(d.take(j).drop_last() =~= d.take(j - 1));
        assert(ascii_digit(d[j - 1]));
    }
}

/// The `u32` that `s` denotes, as `str::parse::<u32>` reads it.
pub fn parse_u32(s: &str) -> (r: Option<u32>)
    ensures
        r == u32_text(s@),
{
    let cs = text::chars_of(s);
    let mut i: usize = 0;
    if cs.len() > 0 && cs[0] == '+' {
        i = 1;
    }
    let ghost d = unsigned_digits(s@);
    assert(d =~= s@.skip(i as int));
    if i >= cs.len() {
        return None;
    }
    let mut acc: u64 = 0;
    let start = i;
    while i < cs.len()
        invariant
            start <= i <= cs@.len(),
            cs@ == s@,
            d == s@.skip(start as int),
            d == unsigned_digits(s@),
            acc <= u32::MAX,
            all_digits(d.take(i - start)),
            acc == digits_value(d.take(i - start)),
        decreases cs.len() - i,
    {
        let c = cs[i];
        assert(d[i - start] == c);
        if !('0' <= c && c <= '9') {
            assert(!ascii_digit(d[i - start]));
            assert(!all_digits(d));
            return None;
        }
        let v = (c as u32 - 48) as u64;
        let ghost pre = d.take(i - start);
        assert(d.take(i + 1 - start).drop_last() =~= pre);
        acc = acc * 10 + v;
        i = i + 1;
        assert(all_digits(d.take(i - start)));
        if acc > u32::MAX as u64 {
            proof {
                if all_digits(d) {
                    lemma_digits_monotone(d, i - start, d.len() as int);
                    assert(d.take(d.len() as int) =~= d);
                }
            }
            return None;
        }
    }
    assert(d.take(i - start) =~= d);
    Some(acc as u32)
}

} // verus!

verus! {

/// The fields of a CSV line: the pieces between its commas, each trimmed.
pub open spec fn csv_fields(line: Seq<char>) -> Seq<Seq<char>> {
    pieces(line, ',').map_values(|p: Seq<char>| trim(p))
}

/// What the fields of `line` give: `Ok` with the name, the age, the e-mail
/// address and the score's text; or `Err((true, m))`, a CSV parse error with
/// message `m`, when the line has other than four fields or an empty name;
/// or `Err((false, v))` when the age field `v` is not a `u32`.
pub open spec fn record_fields(line: Seq<char>) -> Result<
    (Seq<char>, u32, Seq<char>, Seq<char>),
    (bool, Seq<char>),
> {
    let f = csv_fields(line);
    if f.len() != 4 {
        Err((true, "期望 4 个字段，实际 "@ + decimal(f.len()) + " 个"@))
    } else if f[0].len() == 0 {
        Err((true, "姓名不能为空"@))
    } else {
        match u32_text(f[1]) {
            None => Err((false, f[1])),
            Some(age) => Ok((f[0], age, f[2], f[3])),
        }
    }
}

/// Cuts a CSV line into its trimmed fields and reads the age. The score's
/// field is handed back as text.
pub fn split_record(line_num: usize, line: &str) -> (r: AppResult<(String, u32, String, String)>)
    ensures
        match record_fields(line@) {
            Ok((n, a, e, s)) => r matches Ok(v) && v.0@ == n && v.1 == a && v.2@ == e && v.3@ == s,
            Err((true, m)) => r matches Err(AppError::CsvParse { line: l, message })
                && l == line_num && message@ == m,
            Err((false, v)) => r matches Err(AppError::ParseNumber { value }) && value@ == v,
        },
{
    let parts = text::split_at_char(line, ',');
    let ghost f = csv_fields(line@);
    assert(f.len() == parts@.len());
    if parts.len() != 4 {
        let mut m = String::new();
        text::push_str(&mut m, "期望 4 个字段，实际 ");
        text::push_decimal(&mut m, parts.len() as u64);
        text::push_str(&mut m, " 个");
        return Err(AppError::CsvParse { line: line_num, message: m });
    }
    assert(views(parts@)[0] == parts@[0]@);
    assert(views(parts@)[1] == parts@[1]@);
    assert(views(parts@)[2] == parts@[2]@);
    assert(views(parts@)[3] == parts@[3]@);
    let name = trim_text(parts[0].as_str());
    let name_chars = text::chars_of(name.as_str());
    if name_chars.len() == 0 {
        return Err(AppError::csv_parse(line_num, "姓名不能为空"));
    }
    let age_text = trim_text(parts[1].as_str());
    let age = match parse_u32(age_text.as_str()) {
        Some(a) => a,
        None => {
            return Err(AppError::parse_number(age_text.as_str()));
        },
    };
    let email = trim_text(parts[2].as_str());
    let score = trim_text(parts[3].as_str());
    Ok((name, age, email, score))
}

/// The first rule that a record's name, age and e-mail address break, as
/// the field's name and the message: a name that is empty, or whose UTF-8
/// encoding is shorter than 2 or longer than 50 bytes; an age outside
/// 18-100; an address without `@`. `None` when all hold.
pub open spec fn record_check(name: Seq<char>, age: u32, email: Seq<char>) -> Option<
    (Seq<char>, Seq<char>),
> {
    if name.len() == 0 {
        Some(("name"@, "姓名不能为空"@))
    } else if byte_len(name) < 2 || byte_len(name) > 50 {
        Some(("name"@, "姓名长度必须在 2-50 之间"@))
    } else if age < 18 || age > 100 {
        Some(("age"@, "年龄必须在 18-100 之间，实际值: "@ + decimal(age as nat)))
    } else if !email.contains('@') {
        Some(("email"@, "邮箱格式无效，必须包含 @"@))
    } else {
        None
    }
}

/// Checks a record's name, age and e-mail address, in that order, and
/// reports the first rule broken as a validation error at `line_num`.
pub fn check_fields(name: &str, age: u32, email: &str, line_num: usize) -> (r: AppResult<()>)
    ensures
        match record_check(name@, age, email@) {
            None => r is Ok,
            Some((f, m)) => r matches Err(AppError::Validation { line: l, field, message })
                && l == line_num && field@ == f && message@ == m,
        },
{
    let name_chars = text::chars_of(name);
    if name_chars.len() == 0 {
        return Err(AppError::validation(line_num, "name", "姓名不能为空"));
    }
    let bytes = text::utf8_len(name);
    if bytes < 2 || bytes > 50 {
        return Err(AppError::validation(line_num, "name", "姓名长度必须在 2-50 之间"));
    }
    if age < 18 || age > 100 {
        let mut m = String::new();
        text::push_str(&mut m, "年龄必须在 18-100 之间，实际值: ");
        text::push_decimal(&mut m, age as u64);
        return Err(AppError::Validation { line: line_num, field: "age".to_owned(), message: m });
    }
    let email_chars = text::chars_of(email);
    let mut i: usize = 0;
    let mut found = false;
    while i < email_chars.len()
        invariant
            i <= email_chars@.len(),
            email_chars@ == email@,
            found == exists|j: int| 0 <= j < i && email@[j] == '@',
        decreases email_chars.len() - i,
    {
        if email_chars[i] == '@' {
            found = true;
        }
        i = i + 1;
    }
    if !found {
        return Err(AppError::validation(line_num, "email", "邮箱格式无效，必须包含 @"));
    }
    Ok(())
}

} // verus!

verus! {

/// The lines `ls[k..]` that are not blank, each with its number `k + 1`.
pub open spec fn numbered_from(ls: Seq<Seq<char>>, k: int) -> Seq<(usize, Seq<char>)>
    decreases ls.len() - k,
{
    if k < 0 || k >= ls.len() {
        Seq::empty()
    } else if trim(ls[k]).len() == 0 {
        numbered_from(ls, k + 1)
    } else {
        seq![((k + 1) as usize, ls[k])] + numbered_from(ls, k + 1)
    }
}

/// The numbered lines from `k` on are the lines `ls[k..]`, each paired with
/// its 1-based number, that are not blank, in order.
pub proof fn law_numbered_from(ls: Seq<Seq<char>>, k: int)
    requires
        0 <= k <= ls.len(),
    ensures
        numbered_from(ls, k) == Seq::new((ls.len() - k) as nat, |i: int| ((k + i + 1) as usize, ls[k + i])).filter(
            |p: (usize, Seq<char>)| trim(p.1).len() > 0,
        ),
    decreases ls.len() - k,
{
    broadcast use Seq::filter_distributes_over_add;
    reveal_with_fuel(Seq::filter, 2);
    let all = Seq::new((ls.len() - k) as nat, |i: int| ((k + i + 1) as usize, ls[k + i]));
    if k == ls.len() {
        assert(all =~= Seq::<(usize, Seq<char>)>::empty());
    } else {
        law_numbered_from(ls, k + 1);
        let rest = Seq::new((ls.len() - (k + 1)) as nat, |i: int| ((k + 1 + i + 1) as usize, ls[k + 1 + i]));
        assert(all =~= seq![((k + 1) as usize, ls[k])] + rest);
        assert(seq![((k + 1) as usize, ls[k])].drop_last() =~= Seq::<(usize, Seq<char>)>::empty());
        if trim(ls[k]).len() > 0 {
            assert(seq![((k + 1) as usize, ls[k])].filter(|p: (usize, Seq<char>)| trim(p.1).len() > 0)
                =~= seq![((k + 1) as usize, ls[k])]);
        } else {
            assert(seq![((k + 1) as usize, ls[k])].filter(|p: (usize, Seq<char>)| trim(p.1).len() > 0)
                =~= Seq::<(usize, Seq<char>)>::empty());
            assert(Seq::<(usize, Seq<char>)>::empty() + rest.filter(|p: (usize, Seq<char>)| trim(p.1).len() > 0)
                =~= rest.filter(|p: (usize, Seq<char>)| trim(p.1).len() > 0));
        }
    }
}

/// The data lines of CSV text: the lines after the header that are not
/// blank, each with its number (the header is line 0). `None` when the
/// text has no line at all.
pub open spec fn data_lines_of(content: Seq<char>) -> Option<Seq<(usize, Seq<char>)>> {
    let ls = lines(content);
    if ls.len() == 0 {
        None
    } else {
        Some(numbered_from(ls, 1))
    }
}

/// The numbers and character sequences of numbered lines.
pub open spec fn numbered_views(v: Seq<(usize, String)>) -> Seq<(usize, Seq<char>)> {
    v.map_values(|p: (usize, String)| (p.0, p.1@))
}

/// Skips the header of CSV text and hands back its data lines with their
/// numbers; an empty text is an `EmptyFile` error.
pub fn data_lines(content: &str) -> (r: AppResult<Vec<(usize, String)>>)
    ensures
        match data_lines_of(content@) {
            None => r matches Err(AppError::EmptyFile(m)) && m@ == "CSV 内容为空"@,
            Some(d) => r matches Ok(v) && numbered_views(v@) == d,
        },
{
    let ls = text::lines_of(content);
    let ghost lv = lines(content@);
    if ls.len() == 0 {
        return Err(AppError::EmptyFile("CSV 内容为空".to_owned()));
    }
    let mut out: Vec<(usize, String)> = Vec::new();
    let mut i: usize = 1;
    while i < ls.len()
        invariant
            1 <= i <= ls@.len(),
            views(ls@) == lv,
            numbered_from(lv, 1) == numbered_views(out@) + numbered_from(lv, i as int),
        decreases ls.len() - i,
    {
        assert(views(ls@)[i as int] == ls@[i as int]@);
        let t = trim_text(ls[i].as_str());
        let tc = text::chars_of(t.as_str());
        if tc.len() != 0 {
            let ghost before = out@;
            let line = ls[i].clone();
            out.push((i + 1, line));
            assert(numbered_views(out@) =~= numbered_views(before) + seq![((i + 1) as usize, lv[i as int])]);
        }
        i = i + 1;
    }
    assert(numbered_views(out@) =~= numbered_views(out@) + Seq::<(usize, Seq<char>)>::empty());
    Ok(out)
}

} // verus!
