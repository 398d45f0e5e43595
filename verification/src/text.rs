//! Text utilities: whitespace trimming, splitting on a separator character,
//! and integer parsing, each specified against a sequence-of-characters model.

use vstd::prelude::*;

verus! {

/// The characters the library treats as trimmable whitespace: ASCII blanks
/// and line breaks.
pub open spec fn is_space(c: char) -> bool {
    c == ' ' || c == '\t' || c == '\n' || c == '\r'
}

pub open spec fn trim_start_spec(s: Seq<char>) -> Seq<char>
    decreases s.len(),
{
    if s.len() > 0 && is_space(s[0]) {
        trim_start_spec(s.drop_first())
    } else {
        s
    }
}

pub open spec fn trim_end_spec(s: Seq<char>) -> Seq<char>
    decreases s.len(),
{
    if s.len() > 0 && is_space(s.last()) {
        trim_end_spec(s.drop_last())
    } else {
        s
    }
}

/// The sequence with leading and trailing whitespace removed.
pub open spec fn trim_spec(s: Seq<char>) -> Seq<char> {
    trim_end_spec(trim_start_spec(s))
}

fn is_space_char(c: char) -> (r: bool)
    ensures
        r == is_space(c),
{
    c == ' ' || c == '\t' || c == '\n' || c == '\r'
}

proof fn lemma_trim_start_skip(s: Seq<char>, i: int)
    requires
        0 <= i <= s.len(),
        forall|k: int| 0 <= k < i ==> is_space(s[k]),
    ensures
        trim_start_spec(s) == trim_start_spec(s.skip(i)),
    decreases i,
{
    if i > 0 {
        lemma_trim_start_skip(s.drop_first(), i - 1);
        assert(s.drop_first().skip(i - 1) =~= s.skip(i));
    } else {
        assert(s.skip(0) =~= s);
    }
}

proof fn lemma_trim_end_take(s: Seq<char>, j: int)
    requires
        0 <= j <= s.len(),
        forall|k: int| j <= k < s.len() ==> is_space(s[k]),
    ensures
        trim_end_spec(s) == trim_end_spec(s.take(j)),
    decreases s.len() - j,
{
    if j < s.len() {
        lemma_trim_end_take(s.drop_last(), j);
        assert(s.drop_last().take(j) =~= s.take(j));
    } else {
        assert(s.take(j) =~= s);
    }
}

/// Returns the slice of `s` with leading and trailing whitespace removed.
pub fn trimmed<'a>(s: &'a str) -> (r: &'a str)
    ensures
        r@ == trim_spec(s@),
{
    let n: usize = s.unicode_len();
    let mut i: usize = 0;
    while i < n && is_space_char(s.get_char(i))
        invariant
            i <= n,
            n == s@.len(),
            forall|k: int| 0 <= k < i ==> is_space(s@[k]),
        decreases n - i,
    {
        i = i + 1;
    }
    let mut j: usize = n;
    while j > i && is_space_char(s.get_char(j - 1))
        invariant
            i <= j <= n,
            n == s@.len(),
            forall|k: int| j <= k < n ==> is_space(s@[k]),
        decreases j,
    {
        j = j - 1;
    }
    proof {
        lemma_trim_start_skip(s@, i as int);
        let t = s@.skip(i as int);
        if i < n {
            assert(t[0] == s@[i as int]);
        }
        assert(trim_start_spec(s@) == t);
        assert(forall|k: int| j - i <= k < t.len() ==> is_space(#[trigger] t[k]));
        lemma_trim_end_take(t, j - i);
        if j > i {
            assert(t.take(j - i).last() == s@[j - 1]);
        }
        assert(trim_end_spec(t.take(j - i)) == t.take(j - i));
        assert(t.take(j - i) =~= s@.subrange(i as int, j as int));
    }
    s.substring_char(i, j)
}

/// The fields of `s` split on the separator `sep`: always one more field
/// than there are separators, in order, each field free of `sep`.
pub open spec fn split_spec(s: Seq<char>, sep: char) -> Seq<Seq<char>>
    decreases s.len(),
{
    if s.len() == 0 {
        seq![Seq::<char>::empty()]
    } else if s[0] == sep {
        seq![Seq::<char>::empty()] + split_spec(s.drop_first(), sep)
    } else {
        let rest = split_spec(s.drop_first(), sep);
        seq![seq![s[0]] + rest[0]] + rest.drop_first()
    }
}

pub proof fn lemma_split_len(s: Seq<char>, sep: char)
    ensures
        split_spec(s, sep).len() >= 1,
    decreases s.len(),
{
    if s.len() > 0 {
        lemma_split_len(s.drop_first(), sep);
    }
}

/// Appending one character either extends the last field (`c != sep`) or
/// opens a fresh empty field (`c == sep`).
proof fn lemma_split_push(s: Seq<char>, sep: char, c: char)
    ensures
        c == sep ==> split_spec(s.push(c), sep) == split_spec(s, sep).push(
            Seq::<char>::empty(),
        ),
        c != sep ==> split_spec(s.push(c), sep) == split_spec(s, sep).update(
            split_spec(s, sep).len() - 1,
            split_spec(s, sep).last().push(c),
        ),
    decreases s.len(),
{
    let r = split_spec(s, sep);
    lemma_split_len(s, sep);
    if s.len() == 0 {
        assert(s.push(c).drop_first() =~= s);
        if c == sep {
            assert(split_spec(s.push(c), sep) =~= r.push(Seq::<char>::empty()));
        } else {
            assert(seq![c] + Seq::<char>::empty() =~= seq![c]);
            assert(split_spec(s.push(c), sep) =~= r.update(0, r[0].push(c)));
        }
    } else {
        let s2 = s.drop_first();
        let r2 = split_spec(s2, sep);
        assert(s.push(c).drop_first() =~= s2.push(c));
        assert(s.push(c)[0] == s[0]);
        lemma_split_push(s2, sep, c);
        lemma_split_len(s2, sep);
        if s[0] == sep {
            if c == sep {
                assert(seq![Seq::<char>::empty()] + r2.push(Seq::<char>::empty()) =~= (
                seq![Seq::<char>::empty()] + r2).push(Seq::<char>::empty()));
            } else {
                assert(r.last() == r2.last());
                assert(seq![Seq::<char>::empty()] + r2.update(r2.len() - 1, r2.last().push(c)) =~= (
                seq![Seq::<char>::empty()] + r2).update(r.len() - 1, r.last().push(c)));
            }
        } else {
            let q = split_spec(s2.push(c), sep);
            if c == sep {
                assert(q[0] == r2[0]);
                assert(q.drop_first() =~= r2.drop_first().push(Seq::<char>::empty()));
                assert(seq![seq![s[0]] + r2[0]] + r2.drop_first().push(Seq::<char>::empty()) =~= (
                seq![seq![s[0]] + r2[0]] + r2.drop_first()).push(Seq::<char>::empty()));
            } else {
                if r2.len() == 1 {
                    assert(q[0] == r2[0].push(c));
                    assert(q.drop_first() =~= r2.drop_first());
                    assert(seq![s[0]] + r2[0].push(c) =~= (seq![s[0]] + r2[0]).push(c));
                    assert(r.last() == seq![s[0]] + r2[0]);
                    assert(seq![seq![s[0]] + r2[0].push(c)] + r2.drop_first() =~= r.update(
                        r.len() - 1,
                        r.last().push(c),
                    ));
                } else {
                    assert(q[0] == r2[0]);
                    assert(q.drop_first() =~= r2.drop_first().update(
                        r2.len() - 2,
                        r2.last().push(c),
                    ));
                    assert(r.last() == r2.last());
                    assert(seq![seq![s[0]] + r2[0]] + r2.drop_first().update(
                        r2.len() - 2,
                        r2.last().push(c),
                    ) =~= r.update(r.len() - 1, r.last().push(c)));
                }
            }
        }
    }
}

/// Relies on String::push: appends one character at the end.
#[verifier::external_body]
fn push_char(s: &mut String, c: char)
    ensures
        final(s)@ == old(s)@.push(c),
{
    s.push(c);
}

/// Splits `s` on the separator character `sep`.
pub fn split_str(s: &str, sep: char) -> (r: Vec<String>)
    ensures
        r@.map_values(|t: String| t@) == split_spec(s@, sep),
{
    let n: usize = s.unicode_len();
    let mut out: Vec<String> = Vec::new();
    let mut cur: String = String::new();
    let mut i: usize = 0;
    while i < n
        invariant
            i <= n,
            n == s@.len(),
            out@.map_values(|t: String| t@).push(cur@) == split_spec(s@.take(i as int), sep),
        decreases n - i,
    {
        let c = s.get_char(i);
        proof {
            lemma_split_push(s@.take(i as int), sep, c);
            lemma_split_len(s@.take(i as int), sep);
            assert(s@.take(i + 1) =~= s@.take(i as int).push(c));
        }
        if c == sep {
            let ghost prev = out@.map_values(|t: String| t@);
            out.push(cur);
            cur = String::new();
            proof {
                assert(out@.map_values(|t: String| t@) =~= prev.push(
                    split_spec(s@.take(i as int), sep).last(),
                ));
                assert(out@.map_values(|t: String| t@).push(cur@) =~= split_spec(
                    s@.take(i as int),
                    sep,
                ).push(Seq::<char>::empty()));
            }
        } else {
            push_char(&mut cur, c);
            proof {
                assert(out@.map_values(|t: String| t@).push(cur@) =~= split_spec(
                    s@.take(i as int),
                    sep,
                ).update(
                    split_spec(s@.take(i as int), sep).len() - 1,
                    split_spec(s@.take(i as int), sep).last().push(c),
                ));
            }
        }
        i = i + 1;
    }
    proof {
        assert(s@.take(n as int) =~= s@);
    }
    let ghost prev = out@.map_values(|t: String| t@);
    out.push(cur);
    proof {
        assert(out@.map_values(|t: String| t@) =~= prev.push(split_spec(s@, sep).last()));
        lemma_split_len(s@, sep);
        assert(out@.map_values(|t: String| t@) =~= split_spec(s@, sep));
    }
    out
}

/// Character-for-character equality of two string slices.
pub fn str_eq(a: &str, b: &str) -> (r: bool)
    ensures
        r == (a@ == b@),
{
    let na: usize = a.unicode_len();
    let nb: usize = b.unicode_len();
    if na != nb {
        return false;
    }
    let mut i: usize = 0;
    while i < na
        invariant
            i <= na,
            na == a@.len(),
            na == b@.len(),
            forall|k: int| 0 <= k < i ==> a@[k] == b@[k],
        decreases na - i,
    {
        if a.get_char(i) != b.get_char(i) {
            return false;
        }
        i = i + 1;
    }
    proof {
        assert(a@ =~= b@);
    }
    true
}

/// `c` is an ASCII decimal digit (code points 48 through 57).
pub open spec fn is_digit(c: char) -> bool {
    48 <= c as int && c as int <= 57
}

/// The numeric value of an ASCII digit.
pub open spec fn digit_val(c: char) -> int {
    c as int - 48
}

pub open spec fn all_digits(s: Seq<char>) -> bool {
    forall|i: int| 0 <= i < s.len() ==> is_digit(s[i])
}

/// The value of a sequence of ASCII digits read in base ten.
pub open spec fn digits_val(s: Seq<char>) -> int
    decreases s.len(),
{
    if s.len() == 0 {
        0
    } else {
        digits_val(s.drop_last()) * 10 + digit_val(s.last())
    }
}

/// What parsing `s` as an `i32` yields: an optional `+` or `-` sign followed
/// by one or more ASCII digits, whose value must fit in `i32`; anything else
/// yields `None`.
pub open spec fn parse_i32_spec(s: Seq<char>) -> Option<i32> {
    if s.len() > 0 && s[0] == '-' {
        parse_i32_digits(s.drop_first(), true)
    } else if s.len() > 0 && s[0] == '+' {
        parse_i32_digits(s.drop_first(), false)
    } else {
        parse_i32_digits(s, false)
    }
}

pub open spec fn parse_i32_digits(digits: Seq<char>, neg: bool) -> Option<i32> {
    if digits.len() == 0 || !all_digits(digits) {
        None
    } else if neg && -digits_val(digits) >= i32::MIN {
        Some((-digits_val(digits)) as i32)
    } else if !neg && digits_val(digits) <= i32::MAX {
        Some(digits_val(digits) as i32)
    } else {
        None
    }
}

proof fn lemma_digits_val_nonneg(s: Seq<char>)
    requires
        all_digits(s),
    ensures
        digits_val(s) >= 0,
    decreases s.len(),
{
    if s.len() > 0 {
        lemma_digits_val_nonneg(s.drop_last());
    }
}

/// Reading further digits never shrinks the value.
proof fn lemma_digits_val_grows(s: Seq<char>, k: int)
    requires
        0 <= k <= s.len(),
        all_digits(s),
    ensures
        digits_val(s) >= digits_val(s.take(k)),
    decreases s.len() - k,
{
    if k < s.len() {
        assert(s.take(k + 1).drop_last() =~= s.take(k));
        assert(all_digits(s.take(k)));
        lemma_digits_val_nonneg(s.take(k));
        assert(digits_val(s.take(k + 1)) == digits_val(s.take(k)) * 10 + digit_val(s[k]));
        lemma_digits_val_grows(s, k + 1);
        assert(s.take(s.len() as int) =~= s);
    } else {
        assert(s.take(k) =~= s);
    }
}

/// Parses a field as an `i32` after trimming surrounding whitespace.
/// Returns `None` where the trimmed text is not a decimal integer in range.
pub fn parse_int(s: &str) -> (r: Option<i32>)
    ensures
        r == parse_i32_spec(trim_spec(s@)),
{
    let t = trimmed(s);
    let n: usize = t.unicode_len();
    let mut idx: usize = 0;
    let mut neg: bool = false;
    if n > 0 {
        let c0 = t.get_char(0);
        if c0 == '-' {
            neg = true;
            idx = 1;
        } else if c0 == '+' {
            idx = 1;
        }
    }
    let ghost digits = t@.skip(idx as int);
    proof {
        if idx == 1 {
            assert(t@.drop_first() =~= digits);
        } else {
            assert(digits =~= t@);
        }
        assert(parse_i32_spec(t@) == parse_i32_digits(digits, neg));
    }
    if idx >= n {
        return None;
    }
    let mut acc: u64 = 0;
    let mut i: usize = idx;
    while i < n
        invariant
            idx <= i <= n,
            n == t@.len(),
            idx < n,
            digits == t@.skip(idx as int),
            parse_i32_spec(trim_spec(s@)) == parse_i32_digits(digits, neg),
            all_digits(digits.take(i - idx)),
            acc == digits_val(digits.take(i - idx)),
            acc <= 2147483648,
        decreases n - i,
    {
        let c = t.get_char(i);
        let u: u32 = c as u32;
        proof {
            assert(digits[i - idx] == t@[i as int]);
            assert(digits.take(i + 1 - idx).drop_last() =~= digits.take(i - idx));
        }
        if u < 48 || u > 57 {
            proof {
                assert(!is_digit(digits[i - idx]));
                assert(!all_digits(digits));
            }
            return None;
        }
        let d: u64 = (u - 48) as u64;
        acc = acc * 10 + d;
        proof {
            assert(digits.take(i + 1 - idx).last() == digits[i - idx]);
            assert(acc == digits_val(digits.take(i + 1 - idx)));
        }
        if acc > 2147483648 {
            proof {
                if all_digits(digits) {
                    lemma_digits_val_grows(digits, i + 1 - idx);
                    assert(digits_val(digits) > 2147483648);
                }
            }
            return None;
        }
        i = i + 1;
    }
    proof {
        assert(digits.take(n - idx) =~= digits);
    }
    if neg {
        let v: i64 = -(acc as i64);
        Some(v as i32)
    } else {
        if acc > 2147483647 {
            return None;
        }
        Some(acc as i32)
    }
}

} // verus!
