//! Small operations on text.

use vstd::prelude::*;

verus! {

/// Whether two texts are the same.
pub fn same_text(a: &str, b: &str) -> (r: bool)
    ensures
        r == (a@ == b@),
{
    let n: usize = a.unicode_len();
    if b.unicode_len() != n {
        return false;
    }
    let mut i: usize = 0;
    while i < n
        invariant
            i <= n,
            n == a@.len(),
            n == b@.len(),
            forall|k: int| 0 <= k < i ==> a@[k] == b@[k],
        decreases n - i,
    {
        if a.get_char(i) != b.get_char(i) {
            return false;
        }
        i = i + 1;
    }
    assert(a@ =~= b@);
    true
}

/// `part` stands in `s` from index `at` on.
pub open spec fn stands_at(s: Seq<char>, part: Seq<char>, at: int) -> bool {
    0 <= at && at + part.len() <= s.len() && s.subrange(at, at + part.len()) == part
}

/// Whether `part` stands in `s` from index `at` on.
pub fn text_at(s: &str, part: &str, at: usize) -> (r: bool)
    ensures
        r == stands_at(s@, part@, at as int),
{
    let n: usize = s.unicode_len();
    let m: usize = part.unicode_len();
    if at > n || m > n - at {
        return false;
    }
    same_text(s.substring_char(at, at + m), part)
}

/// `s` starts with `part`.
pub open spec fn starts_with_text(s: Seq<char>, part: Seq<char>) -> bool {
    stands_at(s, part, 0)
}

/// `s` ends with `part`.
pub open spec fn ends_with_text(s: Seq<char>, part: Seq<char>) -> bool {
    stands_at(s, part, s.len() - part.len())
}

/// `part` stands somewhere in `s`.
pub open spec fn contains_text(s: Seq<char>, part: Seq<char>) -> bool {
    exists|at: int| stands_at(s, part, at)
}

/// Whether `s` ends with `part`.
pub fn text_ends_with(s: &str, part: &str) -> (r: bool)
    ensures
        r == ends_with_text(s@, part@),
{
    let n: usize = s.unicode_len();
    let m: usize = part.unicode_len();
    if m > n {
        return false;
    }
    text_at(s, part, n - m)
}

/// Whether `part` stands somewhere in `s`.
pub fn text_contains(s: &str, part: &str) -> (r: bool)
    ensures
        r == contains_text(s@, part@),
{
    let n: usize = s.unicode_len();
    let mut at: usize = 0;
    while at < n
        invariant
            at <= n,
            n == s@.len(),
            forall|k: int| 0 <= k < at ==> !stands_at(s@, part@, k),
        decreases n - at,
    {
        if text_at(s, part, at) {
            return true;
        }
        at = at + 1;
    }
    let last: bool = text_at(s, part, n);
    proof {
        if !last && contains_text(s@, part@) {
            let k = choose|k: int| stands_at(s@, part@, k);
            assert(0 <= k <= n);
            assert(k < n ==> false);
        }
    }
    last
}

/// The text without its leading `c`s.
pub open spec fn without_leading(s: Seq<char>, c: char) -> Seq<char>
    decreases s.len(),
{
    if s.len() > 0 && s[0] == c {
        without_leading(s.skip(1), c)
    } else {
        s
    }
}

/// The text without its leading `c`s.
pub fn skip_leading<'a>(s: &'a str, c: char) -> (r: &'a str)
    ensures
        r@ == without_leading(s@, c),
{
    let len: usize = s.unicode_len();
    let mut at: usize = 0;
    assert(s@.skip(0) =~= s@);
    while at < len && s.get_char(at) == c
        invariant
            len == s@.len(),
            at <= len,
            without_leading(s@, c) == without_leading(s@.skip(at as int), c),
        decreases len - at,
    {
        assert(s@.skip(at as int).skip(1) =~= s@.skip(at + 1));
        at = at + 1;
    }
    assert(s@.subrange(at as int, len as int) =~= s@.skip(at as int));
    s.substring_char(at, len)
}

/// The decimal digit for a number below ten.
pub open spec fn digit_char(d: nat) -> char {
    ('0' as int + d) as char
}

/// A number in decimal digits.
pub open spec fn decimal_text(v: nat) -> Seq<char>
    decreases v,
{
    if v < 10 {
        seq![digit_char(v)]
    } else {
        decimal_text(v / 10).push(digit_char(v % 10))
    }
}

fn digit_str(d: u8) -> (r: &'static str)
    requires
        d < 10,
    ensures
        r@ == seq![digit_char(d as nat)],
{
    proof {
        reveal_strlit("0");
        reveal_strlit("1");
        reveal_strlit("2");
        reveal_strlit("3");
        reveal_strlit("4");
        reveal_strlit("5");
        reveal_strlit("6");
        reveal_strlit("7");
        reveal_strlit("8");
        reveal_strlit("9");
    }
    let r: &'static str = if d == 0 {
        "0"
    } else if d == 1 {
        "1"
    } else if d == 2 {
        "2"
    } else if d == 3 {
        "3"
    } else if d == 4 {
        "4"
    } else if d == 5 {
        "5"
    } else if d == 6 {
        "6"
    } else if d == 7 {
        "7"
    } else if d == 8 {
        "8"
    } else {
        "9"
    };
    assert(r@ =~= seq![digit_char(d as nat)]);
    r
}

/// Appends a number in decimal digits.
pub fn push_decimal(out: &mut String, v: u128)
    ensures
        final(out)@ == old(out)@ + decimal_text(v as nat),
    decreases v,
{
    if v >= 10 {
        push_decimal(out, v / 10);
    }
    out.append(digit_str((v % 10) as u8));
    proof {
        if v >= 10 {
            assert(out@ =~= old(out)@ + decimal_text(v as nat));
        } else {
            assert(out@ =~= old(out)@ + decimal_text(v as nat));
        }
    }
}

/// Whether a character is a decimal digit.
pub open spec fn is_digit(c: char) -> bool {
    '0' <= c <= '9'
}

/// Every character is a decimal digit.
pub open spec fn all_digits(s: Seq<char>) -> bool {
    forall|i: int| 0 <= i < s.len() ==> is_digit(#[trigger] s[i])
}

/// The number that decimal digits stand for.
pub open spec fn decimal_value(s: Seq<char>) -> nat
    decreases s.len(),
{
    if s.len() == 0 {
        0
    } else {
        decimal_value(s.drop_last()) * 10 + (s.last() as int - '0' as int) as nat
    }
}

/// The digits of an unsigned number: all of the text, or what follows a leading plus sign.
pub open spec fn unsigned_digits(s: Seq<char>) -> Seq<char> {
    if s.len() > 0 && s[0] == '+' {
        s.skip(1)
    } else {
        s
    }
}

/// The unsigned 64-bit number that a text stands for: decimal digits, at least one, after an
/// optional plus sign, for a number that fits.
pub open spec fn unsigned_value(s: Seq<char>) -> Option<u64> {
    let digits = unsigned_digits(s);
    if digits.len() > 0 && all_digits(digits) && decimal_value(digits) <= u64::MAX {
        Some(decimal_value(digits) as u64)
    } else {
        None
    }
}

/// The unsigned 64-bit number that a text stands for.
pub fn parse_unsigned(s: &str) -> (r: Option<u64>)
    ensures
        r == unsigned_value(s@),
{
    let len: usize = s.unicode_len();
    let start: usize = if len > 0 && s.get_char(0) == '+' {
        1
    } else {
        0
    };
    let ghost digits = unsigned_digits(s@);
    assert(digits =~= s@.skip(start as int));
    if start == len {
        return None;
    }
    let mut v: u64 = 0;
    let mut i: usize = start;
    assert(digits.take(0) =~= Seq::<char>::empty());
    while i < len
        invariant
            start <= i <= len,
            len == s@.len(),
            digits == s@.skip(start as int),
            digits == unsigned_digits(s@),
            forall|k: int| 0 <= k < i - start ==> is_digit(#[trigger] digits[k]),
            v == decimal_value(digits.take(i - start)),
        decreases len - i,
    {
        let c = s.get_char(i);
        proof {
            assert(digits[i - start] == c);
            assert(digits.take(i - start + 1).drop_last() =~= digits.take(i - start));
            assert(digits.take(i - start + 1).last() == c);
            lemma_decimal_prefix(digits, i - start + 1);
        }
        if !('0' <= c && c <= '9') {
            return None;
        }
        let d: u64 = c as u64 - '0' as u64;
        if v > (u64::MAX - d) / 10 {
            return None;
        }
        v = v * 10 + d;
        i = i + 1;
    }
    assert(digits.take(len - start) =~= digits);
    Some(v)
}

/// Further digits never make a number smaller.
proof fn lemma_decimal_prefix(s: Seq<char>, n: int)
    requires
        0 <= n <= s.len(),
    ensures
        decimal_value(s.take(n)) <= decimal_value(s),
    decreases s.len() - n,
{
    if n == s.len() {
        assert(s.take(n) =~= s);
    } else {
        lemma_decimal_prefix(s, n + 1);
        assert(s.take(n + 1).drop_last() =~= s.take(n));
    }
}

/// A number in decimal digits stands for itself.
pub proof fn lemma_decimal_roundtrip(v: nat)
    ensures
        decimal_text(v).len() > 0,
        all_digits(decimal_text(v)),
        decimal_value(decimal_text(v)) == v,
    decreases v,
{
    let s = decimal_text(v);
    if v < 10 {
        assert(s.drop_last() =~= Seq::<char>::empty());
        assert(decimal_value(s.drop_last()) == 0);
        assert(s.last() == digit_char(v));
    } else {
        lemma_decimal_roundtrip(v / 10);
        assert(s.drop_last() =~= decimal_text(v / 10));
        assert(s.last() == digit_char(v % 10));
        assert forall|i: int| 0 <= i < s.len() implies is_digit(#[trigger] s[i]) by {
            if i < s.len() - 1 {
                assert(s[i] == decimal_text(v / 10)[i]);
            }
        }
    }
}

/// Only leading characters of the kind are left off, and all of them.
pub proof fn law_leading_are_left_off(s: Seq<char>, c: char)
    ensures
        ({
            let left = without_leading(s, c);
            let k = s.len() - left.len();
            &&& 0 <= k
            &&& s.skip(k) == left
            &&& forall|i: int| 0 <= i < k ==> #[trigger] s[i] == c
            &&& left.len() > 0 ==> left[0] != c
        }),
    decreases s.len(),
{
    let left = without_leading(s, c);
    if s.len() > 0 && s[0] == c {
        let rest = s.skip(1);
        law_leading_are_left_off(rest, c);
        let k = s.len() - left.len();
        assert(s.skip(k) =~= rest.skip(k - 1));
        assert forall|i: int| 0 <= i < k implies #[trigger] s[i] == c by {
            if i > 0 {
                assert(rest[i - 1] == s[i]);
            }
        }
    } else {
        assert(s.skip(0) =~= s);
    }
}

/// A text is found where it stands: at the start, at the end, or anywhere.
pub proof fn law_text_is_found(before: Seq<char>, part: Seq<char>, after: Seq<char>)
    ensures
        starts_with_text(part + after, part),
        ends_with_text(before + part, part),
        contains_text(before + part + after, part),
{
    assert((part + after).subrange(0, part.len() as int) =~= part);
    let n = before.len() as int;
    let m = part.len() as int;
    assert((before + part).subrange(n, n + m) =~= part);
    assert((before + part + after).subrange(n, n + m) =~= part);
    assert(stands_at(before + part + after, part, n));
}

/// A text that is found leaves a text before it and one behind it.
pub proof fn law_found_text_is_there(s: Seq<char>, part: Seq<char>)
    ensures
        starts_with_text(s, part) ==> s == part + s.skip(part.len() as int),
        ends_with_text(s, part) ==> s == s.take(s.len() - part.len()) + part,
        contains_text(s, part) ==> exists|at: int|
            0 <= at <= s.len() - part.len() && s == #[trigger] s.take(at) + part + s.skip(
                at + part.len(),
            ),
{
    if starts_with_text(s, part) {
        assert(s =~= s.subrange(0, part.len() as int) + s.skip(part.len() as int));
    }
    if ends_with_text(s, part) {
        let at = s.len() - part.len();
        assert(s =~= s.take(at) + s.subrange(at, at + part.len()));
    }
    if contains_text(s, part) {
        let at = choose|at: int| stands_at(s, part, at);
        assert(s =~= s.take(at) + s.subrange(at, at + part.len()) + s.skip(at + part.len()));
    }
}

/// Decimal digits have no leading zero, and parse as the number, as far as a machine word goes.
pub proof fn law_decimal_text_parses(v: nat)
    ensures
        v >= 10 ==> decimal_text(v)[0] != '0',
        v < 10 ==> decimal_text(v).len() == 1,
        all_digits(decimal_text(v)),
        decimal_value(decimal_text(v)) == v,
        unsigned_value(decimal_text(v)) == if v <= u64::MAX {
            Some(v as u64)
        } else {
            None
        },
{
    lemma_decimal_roundtrip(v);
    if v > 0 {
        lemma_first_digit(v);
    }
    assert(is_digit(decimal_text(v)[0]));
}

proof fn lemma_first_digit(v: nat)
    requires
        v > 0,
    ensures
        decimal_text(v).len() > 0,
        decimal_text(v)[0] != '0',
    decreases v,
{
    if v >= 10 {
        lemma_first_digit(v / 10);
        assert(decimal_text(v)[0] == decimal_text(v / 10)[0]);
    }
}

/// What decimal digits stand for: ten times what stands before the last digit, and that digit.
pub proof fn law_decimal_value(s: Seq<char>, d: nat)
    requires
        d < 10,
    ensures
        decimal_value(s.push(('0' as int + d) as char)) == 10 * decimal_value(s) + d,
        decimal_value(Seq::<char>::empty()) == 0,
{
    assert(s.push(('0' as int + d) as char).drop_last() =~= s);
}

/// Exactly the texts of decimal digits, after at most one plus sign, parse, as far as a machine
/// word goes.
pub proof fn law_unsigned_texts(s: Seq<char>)
    ensures
        unsigned_value(s) is Some <==> exists|d: Seq<char>|
            (s == d || s == seq!['+'] + d) && d.len() > 0 && #[trigger] all_digits(d)
                && decimal_value(d) <= u64::MAX,
        forall|d: Seq<char>|
            (s == d || s == seq!['+'] + d) && d.len() > 0 && #[trigger] all_digits(d)
                && decimal_value(d) <= u64::MAX ==> unsigned_value(s) == Some(
                decimal_value(d) as u64,
            ),
{
    let digits = unsigned_digits(s);
    assert forall|d: Seq<char>|
        (s == d || s == seq!['+'] + d) && d.len() > 0 && #[trigger] all_digits(d) implies digits
        == d by {
        assert(is_digit(d[0]));
        if s == seq!['+'] + d {
            assert(s.skip(1) =~= d);
        }
    }
    if unsigned_value(s) is Some {
        if s[0] == '+' {
            assert(s =~= seq!['+'] + digits);
        }
        assert(all_digits(digits));
    }
}

} // verus!
