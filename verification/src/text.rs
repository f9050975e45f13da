//! Character-level text helpers, each specified over `Seq<char>`.

use vstd::prelude::*;

verus! {

// ---------------------------------------------------------------------------
// Specifications
// ---------------------------------------------------------------------------

/// `needle` occurs in `hay` starting at position `p`.
pub open spec fn occurs_at(needle: Seq<char>, hay: Seq<char>, p: int) -> bool {
    &&& 0 <= p
    &&& p + needle.len() <= hay.len()
    &&& hay.subrange(p, p + needle.len()) == needle
}

/// `needle` is a contiguous part of `hay` (the empty text is part of every text).
pub open spec fn contains_seq(hay: Seq<char>, needle: Seq<char>) -> bool {
    exists|p: int| occurs_at(needle, hay, p)
}

/// One character with `_` turned into a space.
pub open spec fn space_char(c: char) -> char {
    if c == '_' {
        ' '
    } else {
        c
    }
}

/// The text with every `_` turned into a space.
pub open spec fn spaced(s: Seq<char>) -> Seq<char> {
    s.map_values(|c: char| space_char(c))
}

/// ASCII upper case of one character; every other character is kept.
pub open spec fn upper_char(c: char) -> char {
    if 'a' <= c && c <= 'z' {
        ((c as int) - 32) as char
    } else {
        c
    }
}

/// The text in ASCII upper case.
pub open spec fn upper(s: Seq<char>) -> Seq<char> {
    s.map_values(|c: char| upper_char(c))
}

/// The decimal digit character for `d` in `0..10`.
pub open spec fn digit_char(d: int) -> char {
    (d + 48) as char
}

/// The character is an ASCII decimal digit.
pub open spec fn is_digit(c: char) -> bool {
    '0' <= c && c <= '9'
}

/// Decimal digits of a natural number, without leading zeros.
pub open spec fn digits(n: nat) -> Seq<char>
    decreases n,
{
    if n < 10 {
        seq![digit_char(n as int)]
    } else {
        digits(n / 10).push(digit_char((n % 10) as int))
    }
}

/// Decimal notation of an integer, with a leading `-` when negative.
pub open spec fn decimal(v: int) -> Seq<char> {
    if v < 0 {
        seq!['-'] + digits((-v) as nat)
    } else {
        digits(v as nat)
    }
}

/// Every character of `s` is a decimal digit.
pub open spec fn all_digits(s: Seq<char>) -> bool {
    forall|i: int| 0 <= i < s.len() ==> is_digit(#[trigger] s[i])
}

/// The number written by a sequence of decimal digits.
pub open spec fn digits_value(s: Seq<char>) -> int
    decreases s.len(),
{
    if s.len() == 0 {
        0
    } else {
        digits_value(s.drop_last()) * 10 + ((s.last() as int) - 48)
    }
}

/// The integer written as an optional `+` or `-` followed by one or more
/// decimal digits, or `None` when the text has another form.
pub open spec fn signed_value(s: Seq<char>) -> Option<int> {
    if s.len() > 0 && (s[0] == '-' || s[0] == '+') {
        let body = s.drop_first();
        if body.len() > 0 && all_digits(body) {
            if s[0] == '-' {
                Some(-digits_value(body))
            } else {
                Some(digits_value(body))
            }
        } else {
            None
        }
    } else if s.len() > 0 && all_digits(s) {
        Some(digits_value(s))
    } else {
        None
    }
}

/// What parsing `s` as an `i64` gives: its signed value when that fits.
pub open spec fn parsed_i64(s: Seq<char>) -> Option<i64> {
    match signed_value(s) {
        Some(v) => if i64::MIN <= v <= i64::MAX {
            Some(v as i64)
        } else {
            None
        },
        None => None,
    }
}

/// The text without its last two characters (all of it goes when it is shorter).
pub open spec fn without_last_two(s: Seq<char>) -> Seq<char> {
    if s.len() >= 2 {
        s.take(s.len() - 2)
    } else {
        Seq::empty()
    }
}

// ---------------------------------------------------------------------------
// Trusted calls into std
// ---------------------------------------------------------------------------

/// Appends one character to a `String` (`String::push`); the new text is the
/// old one followed by `c`.
#[verifier::external_body]
fn push_char(s: &mut String, c: char)
    ensures
        final(s)@ == old(s)@.push(c),
{
    s.push(c);
}

// ---------------------------------------------------------------------------
// Verified helpers
// ---------------------------------------------------------------------------

/// The characters of `s`, in order.
pub fn chars_of(s: &str) -> (out: Vec<char>)
    ensures
        out@ == s@,
{
    let mut out: Vec<char> = Vec::new();
    for c in iter: s.chars()
        invariant
            out@ == iter.seq().take(iter.index() as int),
            iter.seq() == s@,
    {
        out.push(c);
    }
    out
}

/// The `String` holding the first `n` of the given characters.
pub fn string_of_prefix(cs: &Vec<char>, n: usize) -> (out: String)
    requires
        n <= cs.len(),
    ensures
        out@ == cs@.take(n as int),
{
    let mut out = String::new();
    for i in 0..n
        invariant
            n <= cs.len(),
            out@ == cs@.take(i as int),
    {
        push_char(&mut out, cs[i]);
        assert(cs@.take(i + 1) == cs@.take(i as int).push(cs@[i as int]));
    }
    out
}

/// `needle` occurs in `hay` at position `p`, checked character by character.
fn matches_at(hay: &Vec<char>, needle: &Vec<char>, p: usize) -> (r: bool)
    requires
        p + needle.len() <= hay.len(),
    ensures
        r == occurs_at(needle@, hay@, p as int),
{
    let n = needle.len();
    for j in 0..n
        invariant
            n == needle.len(),
            p + n <= hay.len(),
            forall|k: int| 0 <= k < j ==> hay@[p + k] == needle@[k],
    {
        if hay[p + j] != needle[j] {
            assert(hay@.subrange(p as int, p + n)[j as int] == hay@[p + j]);
            return false;
        }
    }
    assert(hay@.subrange(p as int, p + n) =~= needle@);
    true
}

/// Whether `needle` is a contiguous part of `hay` (`str::contains` on text).
pub fn contains_text(hay: &str, needle: &str) -> (r: bool)
    ensures
        r == contains_seq(hay@, needle@),
{
    let h = chars_of(hay);
    let n = chars_of(needle);
    if n.len() == 0 {
        assert(hay@.subrange(0, 0) =~= needle@);
        assert(occurs_at(needle@, hay@, 0));
        return true;
    }
    if n.len() > h.len() {
        assert forall|q: int| !occurs_at(n@, h@, q) by {}
        return false;
    }
    let mut p: usize = 0;
    while p <= h.len() - n.len()
        invariant
            h@ == hay@,
            n@ == needle@,
            1 <= n.len() <= h.len(),
            p <= h.len() - n.len() + 1,
            forall|q: int| 0 <= q < p ==> !occurs_at(n@, h@, q),
        decreases h.len() - p,
    {
        if matches_at(&h, &n, p) {
            assert(occurs_at(needle@, hay@, p as int));
            return true;
        }
        p = p + 1;
    }
    assert forall|q: int| !occurs_at(n@, h@, q) by {
        if 0 <= q && q < p {
        }
    }
    false
}

/// The text with every `_` turned into a space (`str::replace('_', " ")`).
pub fn underscores_to_spaces(s: &str) -> (out: String)
    ensures
        out@ == spaced(s@),
{
    let cs = chars_of(s);
    let mut out = String::new();
    for i in 0..cs.len()
        invariant
            cs@ == s@,
            out@ == spaced(cs@.take(i as int)),
    {
        let c = cs[i];
        let d = if c == '_' {
            ' '
        } else {
            c
        };
        push_char(&mut out, d);
        assert(spaced(cs@.take(i + 1)) =~= spaced(cs@.take(i as int)).push(d));
    }
    assert(cs@.take(cs@.len() as int) == cs@);
    out
}

/// The text in ASCII upper case (`str::to_ascii_uppercase`).
pub fn ascii_uppercase(s: &str) -> (out: String)
    ensures
        out@ == upper(s@),
{
    let cs = chars_of(s);
    let mut out = String::new();
    for i in 0..cs.len()
        invariant
            cs@ == s@,
            out@ == upper(cs@.take(i as int)),
    {
        let c = cs[i];
        let d = if 'a' <= c && c <= 'z' {
            ((c as u8) - 32) as char
        } else {
            c
        };
        push_char(&mut out, d);
        assert(upper(cs@.take(i + 1)) =~= upper(cs@.take(i as int)).push(d));
    }
    assert(cs@.take(cs@.len() as int) == cs@);
    out
}

/// Appends the decimal digits of `n` to `s`.
fn push_digits(s: &mut String, n: u64)
    ensures
        final(s)@ == old(s)@ + digits(n as nat),
    decreases n,
{
    if n >= 10 {
        push_digits(s, n / 10);
    }
    let d = (n % 10) as u8;
    let c = (d + 48) as char;
    push_char(s, c);
    assert(c == digit_char((n % 10) as int));
}

/// Decimal notation of `v` (`i64::to_string`).
pub fn decimal_text(v: i64) -> (out: String)
    ensures
        out@ == decimal(v as int),
{
    let mut out = String::new();
    if v < 0 {
        push_char(&mut out, '-');
        let magnitude: u64 = if v == i64::MIN {
            9223372036854775808u64
        } else {
            (-v) as u64
        };
        push_digits(&mut out, magnitude);
        assert(out@ =~= seq!['-'] + digits((-v) as nat));
    } else {
        push_digits(&mut out, v as u64);
        assert(out@ =~= digits(v as nat));
    }
    out
}

/// A prefix of a digit sequence is written with digits too, and its value is
/// between zero and the value of the whole.
pub proof fn lemma_digits_value_prefix(s: Seq<char>, i: int)
    requires
        all_digits(s),
        0 <= i <= s.len(),
    ensures
        all_digits(s.take(i)),
        0 <= digits_value(s.take(i)) <= digits_value(s),
    decreases s.len(),
{
    if s.len() > 0 {
        let d = s.drop_last();
        assert(all_digits(d)) by {
            assert forall|k: int| 0 <= k < d.len() implies is_digit(#[trigger] d[k]) by {
                assert(d[k] == s[k]);
            }
        }
        if i < s.len() {
            lemma_digits_value_prefix(d, i);
            assert(d.take(i) =~= s.take(i));
        } else {
            lemma_digits_value_prefix(d, d.len() as int);
            assert(s.take(i) =~= s);
            assert(d.take(d.len() as int) =~= d);
        }
        assert(is_digit(s[s.len() - 1]));
    }
}

/// Reads a price written in decimal (`str::parse::<i64>`): `Some` exactly
/// when the text is an optional `+` or `-` followed by one or more ASCII
/// digits whose value fits in an `i64`.
pub fn parse_price(s: &str) -> (r: Option<i64>)
    ensures
        r == parsed_i64(s@),
{
    let cs = chars_of(s);
    let n = cs.len();
    if n == 0 {
        return None;
    }
    let neg = cs[0] == '-';
    let start: usize = if cs[0] == '-' || cs[0] == '+' {
        1
    } else {
        0
    };
    let ghost body = cs@.subrange(start as int, n as int);
    proof {
        if start == 1 {
            assert(body =~= s@.drop_first());
        } else {
            assert(body =~= s@);
        }
    }
    if start == n {
        return None;
    }
    let mut acc: i128 = 0;
    let mut i: usize = start;
    while i < n
        invariant
            cs@ == s@,
            n == cs@.len(),
            start <= i <= n,
            start < n,
            body == cs@.subrange(start as int, n as int),
            neg == (cs@[0] == '-'),
            (start == 1) == (cs@[0] == '-' || cs@[0] == '+'),
            start == 1 ==> body == s@.drop_first(),
            start == 0 ==> body == s@,
            start <= 1,
            all_digits(body.take(i - start)),
            acc == (if neg {
                -digits_value(body.take(i - start))
            } else {
                digits_value(body.take(i - start))
            }),
            i64::MIN <= acc <= i64::MAX,
        decreases n - i,
    {
        let c = cs[i];
        let k = i - start;
        proof {
            assert(body[k as int] == c);
            assert(body.take(k + 1).drop_last() =~= body.take(k as int));
            assert(body.take(k + 1).last() == c);
        }
        if !('0' <= c && c <= '9') {
            assert(!is_digit(body[k as int]));
            return None;
        }
        let d = ((c as u8) - 48) as i128;
        assert(d == (c as int) - 48);
        let next: i128 = if neg {
            acc * 10 - d
        } else {
            acc * 10 + d
        };
        assert(all_digits(body.take(k + 1))) by {
            assert forall|q: int| 0 <= q < body.take(k + 1).len() implies is_digit(
                #[trigger] body.take(k + 1)[q],
            ) by {
                if q < k {
                    assert(body.take(k + 1)[q] == body.take(k as int)[q]);
                }
            }
        }
        if next < i64::MIN as i128 || next > i64::MAX as i128 {
            proof {
                if all_digits(body) {
                    lemma_digits_value_prefix(body, k + 1);
                }
            }
            return None;
        }
        acc = next;
        i = i + 1;
    }
    proof {
        assert(body.take(body.len() as int) =~= body);
    }
    Some(acc as i64)
}

/// The line without its last two characters, the line ending `\r\n` of a
/// received command (shorter lines become empty).
pub fn strip_line_end(line: &str) -> (out: String)
    ensures
        out@ == without_last_two(line@),
{
    let cs = chars_of(line);
    let keep = if cs.len() >= 2 {
        cs.len() - 2
    } else {
        0
    };
    let out = string_of_prefix(&cs, keep);
    assert(cs.len() < 2 ==> cs@.take(0) =~= Seq::<char>::empty());
    out
}

// ---------------------------------------------------------------------------
// Laws
// ---------------------------------------------------------------------------

/// Text found anywhere inside a longer text is contained in it, and a
/// contained text stands at some position of the longer one.
pub proof fn lemma_contains_anywhere(a: Seq<char>, n: Seq<char>, b: Seq<char>, h: Seq<char>)
    ensures
        contains_seq(a + n + b, n),
        contains_seq(h, n) ==> exists|p: int|
            0 <= p && p + n.len() <= h.len() && #[trigger] h.subrange(p, p + n.len()) == n,
{
    let t = a + n + b;
    assert(t.subrange(a.len() as int, (a.len() + n.len()) as int) =~= n);
    assert(occurs_at(n, t, a.len() as int));
    if contains_seq(h, n) {
        let p = choose|p: int| occurs_at(n, h, p);
        assert(h.subrange(p, p + n.len()) == n);
    }
}

/// Digit `d` of `0..10` is written with the character of code `48 + d`.
proof fn lemma_digit_char(d: int)
    requires
        0 <= d < 10,
    ensures
        is_digit(digit_char(d)),
        (digit_char(d) as int) - 48 == d,
{
}

/// The decimal digits of a number read back as that number, are all digits,
/// and start with `0` only for zero itself.
pub proof fn lemma_digits_read_back(n: nat)
    ensures
        digits(n).len() >= 1,
        all_digits(digits(n)),
        digits_value(digits(n)) == n,
        n > 0 ==> digits(n)[0] != '0',
    decreases n,
{
    if n < 10 {
        lemma_digit_char(n as int);
        assert(digits(n).drop_last() =~= Seq::<char>::empty());
        assert(digits_value(Seq::<char>::empty()) == 0);
        assert(digit_char(0) == '0');
        if n > 0 {
            assert(digit_char(n as int) != digit_char(0));
        }
    } else {
        let q = n / 10;
        let r = n % 10;
        lemma_digits_read_back(q);
        lemma_digit_char(r as int);
        let d = digits(n);
        assert(d.drop_last() =~= digits(q));
        assert(d.last() == digit_char(r as int));
        assert(all_digits(d)) by {
            assert forall|k: int| 0 <= k < d.len() implies is_digit(#[trigger] d[k]) by {
                if k < d.len() - 1 {
                    assert(d[k] == digits(q)[k]);
                }
            }
        }
        assert(digits_value(d) == q * 10 + r);
        assert(d[0] == digits(q)[0]);
    }
}

/// The decimal text of every `i64` parses back to it: writing and reading a
/// price agree.
pub proof fn lemma_decimal_parses_back(v: i64)
    ensures
        parsed_i64(decimal(v as int)) == Some(v),
{
    if v < 0 {
        let m: nat = (-v) as nat;
        lemma_digits_read_back(m);
        let t = decimal(v as int);
        assert(t.drop_first() =~= digits(m));
        assert(t[0] == '-');
    } else {
        lemma_digits_read_back(v as nat);
        let t = decimal(v as int);
        lemma_digit_char(0);
        assert(is_digit(t[0]));
    }
}

/// Turning `_` into spaces keeps the length, leaves no `_`, puts a space
/// where each `_` was and keeps every other character.
pub proof fn lemma_spaced_exact(s: Seq<char>)
    ensures
        spaced(s).len() == s.len(),
        forall|i: int| 0 <= i < s.len() ==> #[trigger] spaced(s)[i] != '_',
        forall|i: int| 0 <= i < s.len() && s[i] == '_' ==> #[trigger] spaced(s)[i] == ' ',
        forall|i: int| 0 <= i < s.len() && s[i] != '_' ==> #[trigger] spaced(s)[i] == s[i],
{
}

/// ASCII upper case keeps the length, leaves no lower-case ASCII letter,
/// turns each one into its capital, keeps every other character, and changes
/// nothing a second time.
pub proof fn lemma_upper_exact(s: Seq<char>)
    ensures
        upper(s).len() == s.len(),
        forall|i: int| 0 <= i < s.len() ==> !('a' <= #[trigger] upper(s)[i] && upper(s)[i] <= 'z'),
        forall|i: int|
            0 <= i < s.len() && 'a' <= s[i] && s[i] <= 'z' ==> (#[trigger] upper(s)[i] as int) == (
            s[i] as int) - 32,
        forall|i: int| 0 <= i < s.len() && !('a' <= s[i] && s[i] <= 'z') ==> #[trigger] upper(s)[i] == s[i],
        upper(upper(s)) == upper(s),
{
    assert(upper(upper(s)) =~= upper(s));
}

/// Stripping the line end of a line that ends in `\r\n` gives back the line.
pub proof fn lemma_strip_line_end(s: Seq<char>)
    ensures
        without_last_two(s + "\r\n"@) == s,
{
    reveal_strlit("\r\n");
    assert((s + "\r\n"@).take(s.len() as int) =~= s);
}

} // verus!
