//! Character-level helpers shared by the parsers: strings are handled as
//! sequences of `char`, which is what their views are.

use vstd::prelude::*;
use vstd::string::StrSliceExecFns;

verus! {

/// The character sequences of a list of owned strings.
pub open spec fn string_views(list: Seq<String>) -> Seq<Seq<char>> {
    list.map_values(|s: String| s@)
}

/// Appends one character to a string.
///
/// Trusted: calls `String::push`, which std documents as appending the
/// character to the end of the string.
#[verifier::external_body]
pub(crate) fn push_char(s: &mut String, c: char)
    ensures
        final(s)@ == old(s)@.push(c),
{
    s.push(c);
}

/// The characters of `s`, in order.
pub fn chars_of(s: &str) -> (v: Vec<char>)
    ensures
        v@ == s@,
{
    let n = s.unicode_len();
    let mut v: Vec<char> = Vec::new();
    let mut i: usize = 0;
    while i < n
        invariant
            n == s@.len(),
            0 <= i <= n,
            v@ == s@.take(i as int),
        decreases n - i,
    {
        let c = s.get_char(i);
        v.push(c);
        assert(v@ =~= s@.take(i + 1));
        i = i + 1;
    }
    assert(s@.take(n as int) =~= s@);
    v
}

/// The string made of `chars[from..to]`.
pub fn string_of_range(chars: &Vec<char>, from: usize, to: usize) -> (s: String)
    requires
        from <= to <= chars@.len(),
    ensures
        s@ == chars@.subrange(from as int, to as int),
{
    let mut s = String::new();
    let mut i = from;
    while i < to
        invariant
            from <= i <= to <= chars@.len(),
            s@ == chars@.subrange(from as int, i as int),
        decreases to - i,
    {
        push_char(&mut s, chars[i]);
        assert(s@ =~= chars@.subrange(from as int, i + 1));
        i = i + 1;
    }
    s
}

/// The string made of all of `chars`.
pub fn string_of(chars: &Vec<char>) -> (s: String)
    ensures
        s@ == chars@,
{
    let s = string_of_range(chars, 0, chars.len());
    assert(chars@.subrange(0, chars@.len() as int) =~= chars@);
    s
}

/// The index of the first `c` in `s` at or after `i`, or `s.len()` when there is none.
pub open spec fn find_from(s: Seq<char>, c: char, i: int) -> int
    decreases s.len() - i,
{
    if i < 0 || i >= s.len() {
        s.len() as int
    } else if s[i] == c {
        i
    } else {
        find_from(s, c, i + 1)
    }
}

/// Facts about [`find_from`]: where it lands, and that nothing before it matches.
pub proof fn lemma_find_from(s: Seq<char>, c: char, i: int)
    requires
        0 <= i <= s.len(),
    ensures
        i <= find_from(s, c, i) <= s.len(),
        find_from(s, c, i) < s.len() ==> s[find_from(s, c, i)] == c,
        forall|j: int| i <= j < find_from(s, c, i) ==> s[j] != c,
    decreases s.len() - i,
{
    if i < s.len() && s[i] != c {
        lemma_find_from(s, c, i + 1);
    }
}

/// The index of the first `c` in `v` at or after `from`, or `v.len()` when there is none.
pub fn find_char(v: &Vec<char>, c: char, from: usize) -> (k: usize)
    requires
        from <= v@.len(),
    ensures
        k == find_from(v@, c, from as int),
{
    let mut i = from;
    while i < v.len()
        invariant
            from <= i <= v@.len(),
            find_from(v@, c, from as int) == find_from(v@, c, i as int),
        decreases v.len() - i,
    {
        if v[i] == c {
            return i;
        }
        i = i + 1;
    }
    i
}

/// Whether `c` is a Unicode `White_Space` character, as `char::is_whitespace` decides.
pub open spec fn is_space(c: char) -> bool {
    ||| '\t' <= c <= '\r'
    ||| c == ' '
    ||| c == '\u{85}'
    ||| c == '\u{A0}'
    ||| c == '\u{1680}'
    ||| '\u{2000}' <= c <= '\u{200A}'
    ||| c == '\u{2028}'
    ||| c == '\u{2029}'
    ||| c == '\u{202F}'
    ||| c == '\u{205F}'
    ||| c == '\u{3000}'
}

/// Whether `c` is a Unicode `White_Space` character.
pub fn char_is_space(c: char) -> (b: bool)
    ensures
        b == is_space(c),
{
    ('\t' <= c && c <= '\r') || c == ' ' || c == '\u{85}' || c == '\u{A0}' || c == '\u{1680}'
        || ('\u{2000}' <= c && c <= '\u{200A}') || c == '\u{2028}' || c == '\u{2029}'
        || c == '\u{202F}' || c == '\u{205F}' || c == '\u{3000}'
}

/// `s` with its leading white space removed, as `str::trim_start` does.
pub open spec fn trim_start(s: Seq<char>) -> Seq<char>
    decreases s.len(),
{
    if s.len() > 0 && is_space(s[0]) {
        trim_start(s.drop_first())
    } else {
        s
    }
}

/// `s` with its trailing white space removed, as `str::trim_end` does.
pub open spec fn trim_end(s: Seq<char>) -> Seq<char>
    decreases s.len(),
{
    if s.len() > 0 && is_space(s.last()) {
        trim_end(s.drop_last())
    } else {
        s
    }
}

/// `s` with white space removed at both ends, as `str::trim` does.
pub open spec fn trim(s: Seq<char>) -> Seq<char> {
    trim_end(trim_start(s))
}

/// Trimming the start of `s` with `c` after it: `c` follows what is left of
/// `s`, unless nothing is, in which case only `c` is trimmed.
pub proof fn lemma_trim_start_push(s: Seq<char>, c: char)
    ensures
        trim_start(s.push(c)) == if trim_start(s).len() == 0 {
            trim_start(seq![c])
        } else {
            trim_start(s).push(c)
        },
    decreases s.len(),
{
    if s.len() == 0 {
        assert(s.push(c) =~= seq![c]);
    } else if is_space(s[0]) {
        assert(s.push(c).drop_first() =~= s.drop_first().push(c));
        assert(s.push(c)[0] == s[0]);
        lemma_trim_start_push(s.drop_first(), c);
    } else {
        assert(s.push(c)[0] == s[0]);
    }
}

/// A space on each side of `s` trims away.
pub proof fn lemma_trim_padded(s: Seq<char>)
    ensures
        trim(seq![' '] + s + seq![' ']) == trim(s),
{
    let p = seq![' '] + s + seq![' '];
    assert(is_space(' '));
    assert(p[0] == ' ');
    assert(p.drop_first() =~= s.push(' '));
    lemma_trim_start_push(s, ' ');
    let e: Seq<char> = seq![];
    assert(seq![' '].drop_first() =~= e);
    assert(trim_start(seq![' ']) == trim_start(e));
    if trim_start(s).len() > 0 {
        assert(trim_start(s).push(' ').drop_last() =~= trim_start(s));
    }
}

/// Trimming leaves a string alone when it neither starts nor ends with white space.
pub proof fn lemma_trim_of_unspaced_ends(s: Seq<char>)
    requires
        s.len() > 0,
        !is_space(s[0]),
        !is_space(s[s.len() - 1]),
    ensures
        trim(s) == s,
{
    assert(trim_start(s) == s);
    assert(s.last() == s[s.len() - 1]);
    assert(trim_end(s) == s);
}

/// The first index at or after `from` that is not white space, so that
/// `trim_start(v[from..]) == v[k..]`.
pub fn skip_spaces(v: &Vec<char>, from: usize) -> (k: usize)
    requires
        from <= v@.len(),
    ensures
        from <= k <= v@.len(),
        trim_start(v@.skip(from as int)) == v@.skip(k as int),
{
    let mut i = from;
    while i < v.len() && char_is_space(v[i])
        invariant
            from <= i <= v@.len(),
            trim_start(v@.skip(from as int)) == trim_start(v@.skip(i as int)),
        decreases v.len() - i,
    {
        assert(v@.skip(i as int).drop_first() =~= v@.skip(i + 1));
        i = i + 1;
    }
    i
}

/// The last index at or before `to` whose preceding character is not white
/// space, so that `trim_end(v[from..to]) == v[from..k]`.
pub fn trim_end_index(v: &Vec<char>, from: usize, to: usize) -> (k: usize)
    requires
        from <= to <= v@.len(),
    ensures
        from <= k <= to,
        trim_end(v@.subrange(from as int, to as int)) == v@.subrange(from as int, k as int),
{
    let mut j = to;
    while j > from && char_is_space(v[j - 1])
        invariant
            from <= j <= to <= v@.len(),
            trim_end(v@.subrange(from as int, to as int)) == trim_end(v@.subrange(from as int, j as int)),
        decreases j - from,
    {
        assert(v@.subrange(from as int, j as int).drop_last() =~= v@.subrange(from as int, j - 1));
        j = j - 1;
    }
    j
}

/// The value of a decimal digit character.
pub open spec fn digit_value(c: char) -> int {
    (c as u32 - '0' as u32) as int
}

/// Whether `c` is an ASCII decimal digit.
pub open spec fn is_digit(c: char) -> bool {
    '0' <= c <= '9'
}

/// The number the decimal digits `s` spell out (most significant first).
pub open spec fn decimal_value(s: Seq<char>) -> int
    decreases s.len(),
{
    if s.len() == 0 {
        0
    } else {
        decimal_value(s.drop_last()) * 10 + digit_value(s.last())
    }
}

/// Whether every character of `s` is a decimal digit.
pub open spec fn all_digits(s: Seq<char>) -> bool {
    forall|i: int| 0 <= i < s.len() ==> is_digit(#[trigger] s[i])
}

/// `s` without its leading `+`, if it has one.
pub open spec fn strip_plus(s: Seq<char>) -> Seq<char> {
    if s.len() > 0 && s[0] == '+' {
        s.drop_first()
    } else {
        s
    }
}

/// The value of a non-empty run of decimal digits that fits in a `u32`.
pub open spec fn parse_digits(d: Seq<char>) -> Option<u32> {
    if d.len() > 0 && all_digits(d) && decimal_value(d) <= u32::MAX {
        Some(decimal_value(d) as u32)
    } else {
        None
    }
}

/// What `str::parse::<u32>` accepts: an optional leading `+`, then at least one
/// decimal digit and nothing else, whose value fits in a `u32`.
pub open spec fn spec_parse_u32(s: Seq<char>) -> Option<u32> {
    parse_digits(strip_plus(s))
}

/// Parse `v[from..to]` as `str::parse::<u32>` parses a string.
pub fn parse_u32(v: &Vec<char>, from: usize, to: usize) -> (n: Option<u32>)
    requires
        from <= to <= v@.len(),
    ensures
        n == spec_parse_u32(v@.subrange(from as int, to as int)),
{
    let ghost s = v@.subrange(from as int, to as int);
    let mut start = from;
    if from < to && v[from] == '+' {
        start = from + 1;
    }
    let ghost digits = v@.subrange(start as int, to as int);
    assert(digits =~= strip_plus(s));
    if start == to {
        return None;
    }
    let mut acc: u64 = 0;
    let mut i = start;
    while i < to
        invariant
            from <= start < to <= v@.len(),
            start <= i <= to,
            s == v@.subrange(from as int, to as int),
            digits == strip_plus(s),
            digits == v@.subrange(start as int, to as int),
            forall|j: int| start <= j < i ==> is_digit(#[trigger] v@[j]),
            acc == decimal_value(v@.subrange(start as int, i as int)),
            acc <= u32::MAX,
        decreases to - i,
    {
        let c = v[i];
        if !('0' <= c && c <= '9') {
            assert(!is_digit(digits[i - start]));
            assert(!all_digits(digits));
            return None;
        }
        let d = (c as u32 - '0' as u32) as u64;
        assert(v@.subrange(start as int, i + 1).drop_last() =~= v@.subrange(start as int, i as int));
        let next = acc * 10 + d;
        if next > u32::MAX as u64 {
            proof {
                assert(digits.subrange(0, i - start + 1) =~= v@.subrange(start as int, i + 1));
                if all_digits(digits) {
                    lemma_decimal_prefix_bound(digits, (i - start + 1) as int);
                }
                assert(parse_digits(digits) is None);
            }
            return None;
        }
        acc = next;
        i = i + 1;
    }
    assert(v@.subrange(start as int, to as int) =~= digits);
    assert forall|j: int| 0 <= j < digits.len() implies is_digit(#[trigger] digits[j]) by {
        assert(digits[j] == v@[start + j]);
    }
    Some(acc as u32)
}

/// A number never shrinks when more digits follow it.
pub proof fn lemma_decimal_prefix_bound(s: Seq<char>, k: int)
    requires
        0 <= k <= s.len(),
        forall|i: int| 0 <= i < s.len() ==> is_digit(#[trigger] s[i]),
    ensures
        decimal_value(s.subrange(0, k)) <= decimal_value(s),
    decreases s.len() - k,
{
    if k < s.len() {
        lemma_decimal_prefix_bound(s, k + 1);
        assert(s.subrange(0, k + 1).drop_last() =~= s.subrange(0, k));
        assert(is_digit(s[k]));
        lemma_decimal_nonneg(s.subrange(0, k));
    } else {
        assert(s.subrange(0, k) =~= s);
    }
}

/// A number spelt in decimal digits is never negative.
pub proof fn lemma_decimal_nonneg(s: Seq<char>)
    requires
        forall|i: int| 0 <= i < s.len() ==> is_digit(#[trigger] s[i]),
    ensures
        decimal_value(s) >= 0,
    decreases s.len(),
{
    if s.len() > 0 {
        lemma_decimal_nonneg(s.drop_last());
        assert(is_digit(s[s.len() - 1]));
    }
}

/// The character of a decimal digit.
pub open spec fn spec_digit_char(d: int) -> char {
    if d == 0 {
        '0'
    } else if d == 1 {
        '1'
    } else if d == 2 {
        '2'
    } else if d == 3 {
        '3'
    } else if d == 4 {
        '4'
    } else if d == 5 {
        '5'
    } else if d == 6 {
        '6'
    } else if d == 7 {
        '7'
    } else if d == 8 {
        '8'
    } else {
        '9'
    }
}

/// The decimal spelling of `n`, as `u32`'s `Display` prints it.
pub open spec fn decimal_digits(n: nat) -> Seq<char>
    decreases n,
{
    if n < 10 {
        seq![spec_digit_char(n as int)]
    } else {
        decimal_digits(n / 10).push(spec_digit_char((n % 10) as int))
    }
}

/// The decimal spelling of `n` is all digits and spells `n` back.
pub proof fn lemma_decimal_digits_value(n: nat)
    ensures
        forall|i: int| 0 <= i < decimal_digits(n).len() ==> is_digit(#[trigger] decimal_digits(n)[i]),
        decimal_value(decimal_digits(n)) == n,
    decreases n,
{
    let k = n % 10;
    assert(digit_value(spec_digit_char(k as int)) == k && is_digit(spec_digit_char(k as int)));
    if n >= 10 {
        lemma_decimal_digits_value(n / 10);
        let d = decimal_digits(n);
        assert(d.drop_last() =~= decimal_digits(n / 10));
        assert(d.last() == spec_digit_char(k as int));
        assert((n / 10) * 10 + n % 10 == n) by (nonlinear_arith);
        assert forall|i: int| 0 <= i < d.len() implies is_digit(#[trigger] d[i]) by {
            if i < d.len() - 1 {
                assert(d[i] == decimal_digits(n / 10)[i]);
            }
        }
        assert(decimal_value(d) == decimal_value(d.drop_last()) * 10 + digit_value(d.last()));
    } else {
        let d = decimal_digits(n);
        assert(d.drop_last() =~= Seq::<char>::empty());
        assert(decimal_value(d) == decimal_value(d.drop_last()) * 10 + digit_value(d.last()));
    }
}

/// Distinct numbers are spelt differently.
pub proof fn lemma_decimal_digits_injective(a: nat, b: nat)
    requires
        decimal_digits(a) == decimal_digits(b),
    ensures
        a == b,
{
    lemma_decimal_digits_value(a);
    lemma_decimal_digits_value(b);
}

/// What `str::parse::<i32>` accepts: an optional sign, then at least one
/// decimal digit and nothing else, whose value fits in an `i32`.
pub open spec fn spec_parse_i32(s: Seq<char>) -> Option<i32> {
    if s.len() > 0 && s[0] == '-' {
        let d = s.drop_first();
        if d.len() > 0 && all_digits(d) && decimal_value(d) <= 2147483648 {
            Some((0 - decimal_value(d)) as i32)
        } else {
            None
        }
    } else {
        let d = strip_plus(s);
        if d.len() > 0 && all_digits(d) && decimal_value(d) <= 2147483647 {
            Some(decimal_value(d) as i32)
        } else {
            None
        }
    }
}

/// Parse `v[from..to]` as `str::parse::<i32>` parses a string.
pub fn parse_i32(v: &Vec<char>, from: usize, to: usize) -> (n: Option<i32>)
    requires
        from <= to <= v@.len(),
    ensures
        n == spec_parse_i32(v@.subrange(from as int, to as int)),
{
    let ghost s = v@.subrange(from as int, to as int);
    assert(from < to ==> s[0] == v@[from as int]);
    if from < to && v[from] == '-' {
        let ghost d = s.drop_first();
        assert(d =~= v@.subrange(from + 1, to as int));
        if from + 1 < to && v[from + 1] == '+' {
            assert(!is_digit(d[0]));
            return None;
        }
        proof {
            if all_digits(d) {
                lemma_decimal_nonneg(d);
            }
            if d.len() > 0 {
                assert(d[0] == v@[from + 1]);
                assert(strip_plus(d) == d);
            } else {
                assert(strip_plus(d) =~= d);
            }
        }
        match parse_u32(v, from + 1, to) {
            Some(m) => {
                if m <= 2147483647 {
                    assert(decimal_value(d) == m);
                    assert(spec_parse_i32(s) == Some((0 - m) as i32));
                    Some(0 - (m as i32))
                } else if m == 2147483648 {
                    assert(decimal_value(d) == m);
                    assert(spec_parse_i32(s) == Some(i32::MIN));
                    Some(i32::MIN)
                } else {
                    None
                }
            },
            None => {
                proof {
                    if d.len() > 0 && all_digits(d) && decimal_value(d) <= 2147483648 {
                        assert(parse_digits(d) is Some);
                    }
                }
                None
            },
        }
    } else {
        assert(!(s.len() > 0 && s[0] == '-'));
        proof {
            if all_digits(strip_plus(s)) {
                lemma_decimal_nonneg(strip_plus(s));
            }
        }
        match parse_u32(v, from, to) {
            Some(m) => {
                if m <= 2147483647 {
                    assert(spec_parse_i32(s) == Some(m as i32));
                    Some(m as i32)
                } else {
                    None
                }
            },
            None => {
                proof {
                    let d = strip_plus(s);
                    if d.len() > 0 && all_digits(d) && decimal_value(d) <= 2147483647 {
                        assert(parse_digits(d) is Some);
                    }
                }
                None
            },
        }
    }
}

/// The character of the decimal digit `d`.
pub fn digit_char(d: u32) -> (c: char)
    requires
        d < 10,
    ensures
        c == spec_digit_char(d as int),
{
    match d {
        0 => '0',
        1 => '1',
        2 => '2',
        3 => '3',
        4 => '4',
        5 => '5',
        6 => '6',
        7 => '7',
        8 => '8',
        _ => '9',
    }
}

/// Append the decimal spelling of `n` to `s`.
pub fn push_decimal(s: &mut String, n: u32)
    ensures
        final(s)@ == old(s)@ + decimal_digits(n as nat),
    decreases n,
{
    if n >= 10 {
        push_decimal(s, n / 10);
    }
    push_char(s, digit_char(n % 10));
    assert(final(s)@ =~= old(s)@ + decimal_digits(n as nat)) by {
        if n >= 10 {
            assert((n / 10) as nat == (n as nat) / 10);
        }
    }
}

/// The decimal spelling of `n`.
pub fn u32_to_decimal(n: u32) -> (s: String)
    ensures
        s@ == decimal_digits(n as nat),
{
    let mut s = String::new();
    push_decimal(&mut s, n);
    assert(s@ =~= decimal_digits(n as nat));
    s
}

/// Whether the characters `s[i..i + t.len()]` are exactly `t`.
pub open spec fn occurs_at(s: Seq<char>, t: Seq<char>, i: int) -> bool {
    0 <= i && i + t.len() <= s.len() && s.subrange(i, i + t.len()) == t
}

/// Whether `t` occurs anywhere in `s`, as `str::contains` decides.
pub open spec fn contains_seq(s: Seq<char>, t: Seq<char>) -> bool {
    exists|i: int| occurs_at(s, t, i)
}

/// Whether `v[i..]` starts with `t`.
pub fn matches_at(v: &Vec<char>, t: &Vec<char>, i: usize) -> (b: bool)
    ensures
        b == occurs_at(v@, t@, i as int),
{
    if i > v.len() || t.len() > v.len() - i {
        return false;
    }
    let mut j: usize = 0;
    while j < t.len()
        invariant
            i + t@.len() <= v@.len(),
            0 <= j <= t@.len(),
            forall|k: int| 0 <= k < j ==> v@[i + k] == t@[k],
        decreases t.len() - j,
    {
        assert(i + j < v.len());
        if v[i + j] != t[j] {
            assert(v@.subrange(i as int, i + t@.len())[j as int] != t@[j as int]);
            return false;
        }
        j = j + 1;
    }
    assert(v@.subrange(i as int, i + t@.len()) =~= t@);
    true
}

/// Whether `t` occurs anywhere in `v`.
pub fn contains_chars(v: &Vec<char>, t: &Vec<char>) -> (b: bool)
    ensures
        b == contains_seq(v@, t@),
{
    let mut i: usize = 0;
    while i <= v.len()
        invariant
            0 <= i <= v@.len() + 1,
            i <= v@.len() || t@.len() > 0,
            forall|k: int| 0 <= k < i ==> !occurs_at(v@, t@, k),
        decreases v.len() + 1 - i,
    {
        if t.len() > v.len() - i {
            assert forall|k: int| !occurs_at(v@, t@, k) by {
                if 0 <= k && k + t@.len() <= v@.len() {
                    assert(k < i);
                }
            }
            return false;
        }
        if matches_at(v, t, i) {
            return true;
        }
        assert(t@.len() > 0) by {
            if t@.len() == 0 {
                assert(v@.subrange(i as int, i as int) =~= t@);
            }
        }
        i = i + 1;
    }
    assert forall|k: int| !occurs_at(v@, t@, k) by {
        if 0 <= k && k + t@.len() <= v@.len() {
            assert(k < i);
        }
    }
    false
}

/// Whether `list` holds `s`.
pub fn contains_str(list: &Vec<String>, s: &str) -> (found: bool)
    ensures
        found == string_views(list@).contains(s@),
{
    let ghost views = string_views(list@);
    let mut k: usize = 0;
    while k < list.len()
        invariant
            views == string_views(list@),
            k <= list@.len(),
            forall|j: int| 0 <= j < k ==> views[j] != s@,
        decreases list.len() - k,
    {
        if str_eq(list[k].as_str(), s) {
            assert(views[k as int] == s@);
            return true;
        }
        k = k + 1;
    }
    false
}

/// Whether two character vectors are equal.
pub fn chars_eq(a: &Vec<char>, b: &Vec<char>) -> (eq: bool)
    ensures
        eq == (a@ == b@),
{
    if a.len() != b.len() {
        return false;
    }
    let mut i: usize = 0;
    while i < a.len()
        invariant
            a@.len() == b@.len(),
            0 <= i <= a@.len(),
            forall|k: int| 0 <= k < i ==> a@[k] == b@[k],
        decreases a.len() - i,
    {
        if a[i] != b[i] {
            return false;
        }
        i = i + 1;
    }
    assert(a@ =~= b@);
    true
}

/// Whether two strings hold the same characters.
pub fn str_eq(a: &str, b: &str) -> (eq: bool)
    ensures
        eq == (a@ == b@),
{
    chars_eq(&chars_of(a), &chars_of(b))
}

} // verus!
