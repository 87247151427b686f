//! Character-level text helpers with exact specifications.
use vstd::prelude::*;
use vstd::utf8::{char_u32_cast, decode_utf8, encode_scalar, encode_utf8, valid_utf8};

verus! {

/// Unicode `White_Space`, the set that `char::is_whitespace` tests.
pub open spec fn is_ws(c: char) -> bool {
    let u = c as u32;
    ||| u == 0x20
    ||| (0x09 <= u && u <= 0x0D)
    ||| u == 0x85
    ||| u == 0xA0
    ||| u == 0x1680
    ||| (0x2000 <= u && u <= 0x200A)
    ||| u == 0x2028
    ||| u == 0x2029
    ||| u == 0x202F
    ||| u == 0x205F
    ||| u == 0x3000
}

/// Whether `c` is a Unicode whitespace character.
pub fn is_whitespace(c: char) -> (b: bool)
    ensures
        b == is_ws(c),
{
    let u = c as u32;
    u == 0x20 || (0x09 <= u && u <= 0x0D) || u == 0x85 || u == 0xA0 || u == 0x1680 || (0x2000
        <= u && u <= 0x200A) || u == 0x2028 || u == 0x2029 || u == 0x202F || u == 0x205F || u
        == 0x3000
}

/// Appends one character to a `String` (`String::push`).
#[verifier::external_body]
pub(crate) fn push_char(s: &mut String, c: char)
    ensures
        final(s)@ == old(s)@.push(c),
{
    s.push(c);
}

/// The characters of `s`, in order.
pub fn chars_of(s: &str) -> (v: Vec<char>)
    ensures
        v@ == s@,
{
    let mut v: Vec<char> = Vec::new();
    for c in it: s.chars()
        invariant
            v@ == it.seq().take(it.index() as int),
            it.seq() == s@,
    {
        v.push(c);
    }
    v
}

} // verus!

verus! {

/// The text of `s` as a `String`.
pub fn string_of(s: &[char]) -> (r: String)
    ensures
        r@ == s@,
{
    let mut r = String::new();
    let mut i: usize = 0;
    while i < s.len()
        invariant
            i <= s.len(),
            r@ == s@.subrange(0, i as int),
        decreases s.len() - i,
    {
        push_char(&mut r, s[i]);
        i = i + 1;
        assert(r@ =~= s@.subrange(0, i as int));
    }
    assert(s@.subrange(0, s@.len() as int) =~= s@);
    r
}

/// The characters `s[a..b]` as a new vector.
pub fn slice_chars(s: &[char], a: usize, b: usize) -> (r: Vec<char>)
    requires
        a <= b <= s.len(),
    ensures
        r@ == s@.subrange(a as int, b as int),
{
    let mut r: Vec<char> = Vec::new();
    let mut i: usize = a;
    while i < b
        invariant
            a <= i <= b <= s.len(),
            r@ == s@.subrange(a as int, i as int),
        decreases b - i,
    {
        r.push(s[i]);
        i = i + 1;
        assert(r@ =~= s@.subrange(a as int, i as int));
    }
    r
}

/// Index of the first whitespace character at or after `i`, or `s.len()`.
pub open spec fn first_ws_from(s: Seq<char>, i: int) -> int
    decreases s.len() - i,
{
    if i >= s.len() {
        s.len() as int
    } else if is_ws(s[i]) {
        i
    } else {
        first_ws_from(s, i + 1)
    }
}

/// Index of the first non-whitespace character at or after `i`, or `s.len()`.
pub open spec fn skip_ws_from(s: Seq<char>, i: int) -> int
    decreases s.len() - i,
{
    if i >= s.len() {
        s.len() as int
    } else if is_ws(s[i]) {
        skip_ws_from(s, i + 1)
    } else {
        i
    }
}

/// The end of `s[..j]` once trailing `'\r'` and `'\n'` characters are dropped.
pub open spec fn end_without_newlines(s: Seq<char>, j: int) -> int
    decreases j,
{
    if j <= 0 {
        0
    } else if s[j - 1] == '\r' || s[j - 1] == '\n' {
        end_without_newlines(s, j - 1)
    } else {
        j
    }
}

/// `str::trim_start`.
pub open spec fn trim_start(s: Seq<char>) -> Seq<char> {
    s.subrange(skip_ws_from(s, 0), s.len() as int)
}

/// `str::trim_end_matches(['\r', '\n'])`.
pub open spec fn trim_newlines(s: Seq<char>) -> Seq<char> {
    s.subrange(0, end_without_newlines(s, s.len() as int))
}

/// Whether every character of `s` is whitespace (`s.trim().is_empty()`).
pub open spec fn all_ws(s: Seq<char>) -> bool {
    skip_ws_from(s, 0) == s.len()
}

/// Split at the first whitespace character: the word before it, and the rest from it on.
pub open spec fn split_ws(s: Seq<char>) -> (Seq<char>, Seq<char>) {
    let f = first_ws_from(s, 0);
    (s.subrange(0, f), s.subrange(f, s.len() as int))
}

/// Whether `s` holds a whitespace character.
pub open spec fn has_ws(s: Seq<char>) -> bool {
    exists|i: int| 0 <= i < s.len() && is_ws(#[trigger] s[i])
}

pub proof fn lemma_first_ws_from(s: Seq<char>, i: int)
    requires
        0 <= i <= s.len(),
    ensures
        i <= first_ws_from(s, i) <= s.len(),
        forall|j: int| i <= j < first_ws_from(s, i) ==> !is_ws(#[trigger] s[j]),
        first_ws_from(s, i) < s.len() ==> is_ws(s[first_ws_from(s, i)]),
    decreases s.len() - i,
{
    if i < s.len() && !is_ws(s[i]) {
        lemma_first_ws_from(s, i + 1);
    }
}

pub proof fn lemma_skip_ws_from(s: Seq<char>, i: int)
    requires
        0 <= i <= s.len(),
    ensures
        i <= skip_ws_from(s, i) <= s.len(),
        forall|j: int| i <= j < skip_ws_from(s, i) ==> is_ws(#[trigger] s[j]),
        skip_ws_from(s, i) < s.len() ==> !is_ws(s[skip_ws_from(s, i)]),
    decreases s.len() - i,
{
    if i < s.len() && is_ws(s[i]) {
        lemma_skip_ws_from(s, i + 1);
    }
}

pub proof fn lemma_end_without_newlines(s: Seq<char>, j: int)
    requires
        0 <= j <= s.len(),
    ensures
        0 <= end_without_newlines(s, j) <= j,
        forall|k: int|
            end_without_newlines(s, j) <= k < j ==> (#[trigger] s[k] == '\r' || s[k] == '\n'),
        end_without_newlines(s, j) > 0 ==> !(s[end_without_newlines(s, j) - 1] == '\r' || s[
            end_without_newlines(s, j) - 1] == '\n'),
    decreases j,
{
    if j > 0 && (s[j - 1] == '\r' || s[j - 1] == '\n') {
        lemma_end_without_newlines(s, j - 1);
    }
}

/// Index of the first whitespace character of `s` at or after `i`, or `s.len()`.
pub fn find_ws(s: &[char], i: usize) -> (f: usize)
    requires
        i <= s.len(),
    ensures
        f == first_ws_from(s@, i as int),
{
    let mut j = i;
    while j < s.len() && !is_whitespace(s[j])
        invariant
            i <= j <= s.len(),
            first_ws_from(s@, j as int) == first_ws_from(s@, i as int),
        decreases s.len() - j,
    {
        j = j + 1;
    }
    j
}

/// Index of the first non-whitespace character of `s` at or after `i`, or `s.len()`.
pub fn skip_ws(s: &[char], i: usize) -> (f: usize)
    requires
        i <= s.len(),
    ensures
        f == skip_ws_from(s@, i as int),
{
    let mut j = i;
    while j < s.len() && is_whitespace(s[j])
        invariant
            i <= j <= s.len(),
            skip_ws_from(s@, j as int) == skip_ws_from(s@, i as int),
        decreases s.len() - j,
    {
        j = j + 1;
    }
    j
}

/// End of `s[..j]` without its trailing `'\r'` and `'\n'` characters.
pub fn end_newlines(s: &[char], j: usize) -> (e: usize)
    requires
        j <= s.len(),
    ensures
        e == end_without_newlines(s@, j as int),
{
    let mut k = j;
    while k > 0 && (s[k - 1] == '\r' || s[k - 1] == '\n')
        invariant
            k <= j <= s.len(),
            end_without_newlines(s@, k as int) == end_without_newlines(s@, j as int),
        decreases k,
    {
        k = k - 1;
    }
    k
}

/// Whether `s` and the literal `lit` hold the same characters.
pub fn eq_lit(s: &[char], lit: &str) -> (b: bool)
    ensures
        b == (s@ == lit@),
{
    let l = chars_of(lit);
    if s.len() != l.len() {
        return false;
    }
    let mut i: usize = 0;
    while i < s.len()
        invariant
            i <= s.len() == l@.len(),
            l@ == lit@,
            forall|j: int| 0 <= j < i ==> s@[j] == l@[j],
        decreases s.len() - i,
    {
        if s[i] != l[i] {
            return false;
        }
        i = i + 1;
    }
    assert(s@ =~= l@);
    true
}

/// Whether `s` holds the character `c`.
pub fn contains_char(s: &[char], c: char) -> (b: bool)
    ensures
        b == s@.contains(c),
{
    let mut i: usize = 0;
    while i < s.len()
        invariant
            i <= s.len(),
            forall|j: int| 0 <= j < i ==> s@[j] != c,
        decreases s.len() - i,
    {
        if s[i] == c {
            return true;
        }
        i = i + 1;
    }
    false
}

/// Whether `s` holds a whitespace character.
pub fn contains_ws(s: &[char]) -> (b: bool)
    ensures
        b == has_ws(s@),
{
    let f = find_ws(s, 0);
    proof {
        lemma_first_ws_from(s@, 0);
    }
    f < s.len()
}

} // verus!

verus! {

/// `char::to_ascii_uppercase`.
pub open spec fn ascii_upper(c: char) -> char {
    if 'a' <= c && c <= 'z' {
        ((c as u32) - 32) as char
    } else {
        c
    }
}

/// `str::to_ascii_uppercase`.
pub open spec fn upper(s: Seq<char>) -> Seq<char> {
    s.map_values(|c: char| ascii_upper(c))
}

/// The ASCII upper-case form of `s`.
pub fn to_upper(s: &[char]) -> (r: Vec<char>)
    ensures
        r@ == upper(s@),
{
    let mut r: Vec<char> = Vec::new();
    let mut i: usize = 0;
    while i < s.len()
        invariant
            i <= s.len(),
            r@ == upper(s@.subrange(0, i as int)),
        decreases s.len() - i,
    {
        let c = s[i];
        let u = if 'a' <= c && c <= 'z' {
            ((c as u8) - 32) as char
        } else {
            c
        };
        assert(u == ascii_upper(c));
        r.push(u);
        i = i + 1;
        assert(r@ =~= upper(s@.subrange(0, i as int)));
    }
    assert(s@.subrange(0, s@.len() as int) =~= s@);
    r
}

/// Number of bytes of `c` in UTF-8.
pub open spec fn utf8_width(c: char) -> nat {
    let u = c as u32;
    if u < 0x80 {
        1
    } else if u < 0x800 {
        2
    } else if u < 0x10000 {
        3
    } else {
        4
    }
}

/// Number of bytes of `s` in UTF-8 (`str::len`).
pub open spec fn byte_len(s: Seq<char>) -> nat
    decreases s.len(),
{
    if s.len() == 0 {
        0
    } else {
        byte_len(s.drop_last()) + utf8_width(s.last())
    }
}

/// Whether the UTF-8 length of `s` exceeds `limit`.
pub fn longer_than(s: &[char], limit: usize) -> (b: bool)
    ensures
        b == (byte_len(s@) > limit),
{
    let mut total: usize = 0;
    let mut i: usize = 0;
    while i < s.len()
        invariant
            i <= s.len(),
            total == byte_len(s@.subrange(0, i as int)),
            total <= limit,
        decreases s.len() - i,
    {
        let u = s[i] as u32;
        let w: usize = if u < 0x80 {
            1
        } else if u < 0x800 {
            2
        } else if u < 0x10000 {
            3
        } else {
            4
        };
        assert(s@.subrange(0, i + 1).drop_last() =~= s@.subrange(0, i as int));
        if w > limit - total {
            proof {
                lemma_byte_len_prefix(s@, i + 1);
            }
            return true;
        }
        total = total + w;
        i = i + 1;
    }
    assert(s@.subrange(0, s@.len() as int) =~= s@);
    false
}

/// The UTF-8 length of a prefix is at most that of the whole.
pub proof fn lemma_byte_len_prefix(s: Seq<char>, k: int)
    requires
        0 <= k <= s.len(),
    ensures
        byte_len(s.subrange(0, k)) <= byte_len(s),
    decreases s.len() - k,
{
    if k < s.len() {
        lemma_byte_len_prefix(s, k + 1);
        assert(s.subrange(0, k + 1).drop_last() =~= s.subrange(0, k));
        assert(byte_len(s.subrange(0, k + 1)) == byte_len(s.subrange(0, k)) + utf8_width(
            s.subrange(0, k + 1).last(),
        ));
    } else {
        assert(s.subrange(0, k) =~= s);
    }
}

/// UTF-8 length of a concatenation.
pub proof fn lemma_byte_len_concat(a: Seq<char>, b: Seq<char>)
    ensures
        byte_len(a + b) == byte_len(a) + byte_len(b),
    decreases b.len(),
{
    if b.len() == 0 {
        assert(a + b =~= a);
    } else {
        lemma_byte_len_concat(a, b.drop_last());
        assert((a + b).drop_last() =~= a + b.drop_last());
    }
}

/// Each character takes at most four bytes.
pub proof fn lemma_byte_len_bound(s: Seq<char>)
    ensures
        byte_len(s) <= 4 * s.len(),
    decreases s.len(),
{
    if s.len() > 0 {
        lemma_byte_len_bound(s.drop_last());
    }
}

/// The character of the decimal digit `d`.
pub open spec fn digit_char(d: nat) -> char {
    ((d + 48) as u8) as char
}

/// Decimal text of `n`, without sign or leading zeros (`u64::to_string`).
pub open spec fn dec(n: nat) -> Seq<char>
    decreases n,
{
    if n < 10 {
        seq![digit_char(n)]
    } else {
        dec(n / 10).push(digit_char(n % 10))
    }
}

/// Appends the decimal text of `n` to `s`.
pub fn push_decimal(s: &mut String, n: u64)
    ensures
        final(s)@ == old(s)@ + dec(n as nat),
    decreases n,
{
    if n >= 10 {
        push_decimal(s, n / 10);
    }
    let d = ((n % 10) as u8 + 48u8) as char;
    push_char(s, d);
    proof {
        assert(d == digit_char((n % 10) as nat));
        if n >= 10 {
            assert(final(s)@ =~= old(s)@ + dec(n as nat));
        } else {
            assert(final(s)@ =~= old(s)@ + dec(n as nat));
        }
    }
}

/// Decimal text of `n`.
pub fn decimal(n: u64) -> (r: String)
    ensures
        r@ == dec(n as nat),
{
    let mut r = String::new();
    push_decimal(&mut r, n);
    assert(r@ =~= dec(n as nat));
    r
}

pub open spec fn is_digit(c: char) -> bool {
    '0' <= c && c <= '9'
}

pub open spec fn digit_value(c: char) -> nat {
    ((c as u32) - 48) as nat
}

/// The number written by the decimal digits `s`.
pub open spec fn digits_value(s: Seq<char>) -> nat
    decreases s.len(),
{
    if s.len() == 0 {
        0
    } else {
        digits_value(s.drop_last()) * 10 + digit_value(s.last())
    }
}

pub open spec fn all_digits(s: Seq<char>) -> bool {
    forall|i: int| 0 <= i < s.len() ==> is_digit(#[trigger] s[i])
}

/// `str::parse` for an unsigned integer type whose largest value is `max`:
/// an optional `+`, then at least one decimal digit, with a value no larger than `max`.
pub open spec fn parse_uint(s: Seq<char>, max: nat) -> Option<nat> {
    let body = if s.len() > 0 && s[0] == '+' {
        s.drop_first()
    } else {
        s
    };
    if body.len() > 0 && all_digits(body) && digits_value(body) <= max {
        Some(digits_value(body))
    } else {
        None
    }
}

pub proof fn lemma_digits_value_prefix(s: Seq<char>, k: int)
    requires
        0 <= k <= s.len(),
    ensures
        digits_value(s.subrange(0, k)) <= digits_value(s),
    decreases s.len() - k,
{
    if k < s.len() {
        lemma_digits_value_prefix(s, k + 1);
        assert(s.subrange(0, k + 1).drop_last() =~= s.subrange(0, k));
        assert(digits_value(s.subrange(0, k + 1)) == digits_value(s.subrange(0, k)) * 10
            + digit_value(s.subrange(0, k + 1).last()));
    } else {
        assert(s.subrange(0, k) =~= s);
    }
}

/// Parses `s` as a `u64` the way `str::parse::<u64>` does.
pub fn parse_u64(s: &[char]) -> (r: Option<u64>)
    ensures
        match r {
            Some(v) => parse_uint(s@, u64::MAX as nat) == Some(v as nat),
            None => parse_uint(s@, u64::MAX as nat) is None,
        },
{
    let start: usize = if s.len() > 0 && s[0] == '+' {
        1
    } else {
        0
    };
    let ghost body = s@.subrange(start as int, s@.len() as int);
    assert(body =~= (if s@.len() > 0 && s@[0] == '+' {
        s@.drop_first()
    } else {
        s@
    }));
    if start == s.len() {
        return None;
    }
    let mut acc: u64 = 0;
    let mut i: usize = start;
    while i < s.len()
        invariant
            start <= i <= s.len(),
            body == s@.subrange(start as int, s@.len() as int),
            body == (if s@.len() > 0 && s@[0] == '+' {
                s@.drop_first()
            } else {
                s@
            }),
            acc == digits_value(body.subrange(0, i - start)),
            all_digits(body.subrange(0, i - start)),
        decreases s.len() - i,
    {
        let c = s[i];
        if !('0' <= c && c <= '9') {
            assert(body[i - start] == c);
            assert(!is_digit(body[i - start]));
            assert(!all_digits(body));
            return None;
        }
        let d = (c as u32 - 48) as u64;
        let ghost pre = body.subrange(0, i - start);
        let ghost next = body.subrange(0, i - start + 1);
        assert(next.drop_last() =~= pre);
        assert(next.last() == c);
        match acc.checked_mul(10) {
            None => {
                proof {
                    lemma_digits_value_prefix(body, i - start + 1);
                }
                return None;
            },
            Some(m) => match m.checked_add(d) {
                None => {
                    proof {
                        lemma_digits_value_prefix(body, i - start + 1);
                    }
                    return None;
                },
                Some(v) => {
                    acc = v;
                },
            },
        }
        i = i + 1;
        assert(all_digits(body.subrange(0, i - start)));
    }
    assert(body.subrange(0, s@.len() - start) =~= body);
    Some(acc)
}

} // verus!

verus! {

/// Facts about the decimal text of a number.
pub proof fn lemma_dec(n: nat)
    ensures
        dec(n).len() >= 1,
        all_digits(dec(n)),
        digits_value(dec(n)) == n,
        !has_ws(dec(n)),
        dec(n)[0] != '+',
        n < 10 ==> dec(n).len() == 1,
        n >= 10 ==> dec(n).len() == dec(n / 10).len() + 1,
        !dec(n).contains('\t'),
        !dec(n).contains('\n'),
        !dec(n).contains('\r'),
        !dec(n).contains('-'),
        !dec(n).contains('='),
    decreases n,
{
    if n >= 10 {
        lemma_dec(n / 10);
        let d = dec(n / 10);
        let s = d.push(digit_char(n % 10));
        assert(s.drop_last() =~= d);
        assert forall|i: int| 0 <= i < s.len() implies is_digit(#[trigger] s[i]) by {
            if i < d.len() {
                assert(is_digit(d[i]));
            }
        }
        assert forall|i: int| 0 <= i < s.len() implies !is_ws(#[trigger] s[i]) by {
            assert(is_digit(s[i]));
        }
        assert forall|c: char| is_digit(c) implies c != '\t' && c != '\n' && c != '\r' && c
            != '-' && c != '=' && c != '+' by {}
        if s.contains('\t') {
            let i = choose|i: int| 0 <= i < s.len() && s[i] == '\t';
            assert(is_digit(s[i]));
        }
        if s.contains('\n') {
            let i = choose|i: int| 0 <= i < s.len() && s[i] == '\n';
            assert(is_digit(s[i]));
        }
        if s.contains('\r') {
            let i = choose|i: int| 0 <= i < s.len() && s[i] == '\r';
            assert(is_digit(s[i]));
        }
        if s.contains('-') {
            let i = choose|i: int| 0 <= i < s.len() && s[i] == '-';
            assert(is_digit(s[i]));
        }
        if s.contains('=') {
            let i = choose|i: int| 0 <= i < s.len() && s[i] == '=';
            assert(is_digit(s[i]));
        }
        assert(is_digit(s[0]));
    } else {
        let s = dec(n);
        assert(s.drop_last() =~= Seq::<char>::empty());
        assert(digits_value(Seq::<char>::empty()) == 0);
    }
}

/// Decimal text has at most 20 digits for a `u64`.
pub proof fn lemma_dec_len_u64(n: nat)
    requires
        n <= u64::MAX,
    ensures
        dec(n).len() <= 20,
{
    reveal_with_fuel(pow10, 21);
    assert(pow10(20) == 100000000000000000000nat);
    lemma_dec_len_bound(n, 20);
}

proof fn lemma_dec_len_bound(n: nat, k: nat)
    requires
        k >= 1,
        n <= pow10(k) - 1,
    ensures
        dec(n).len() <= k,
    decreases k,
{
    lemma_dec(n);
    if n >= 10 {
        assert(k > 1) by {
            if k == 1 {
                assert(pow10(1) == 10 * pow10(0));
            }
        }
        assert(pow10(k) == 10 * pow10((k - 1) as nat));
        assert(n / 10 <= pow10((k - 1) as nat) - 1);
        lemma_dec_len_bound(n / 10, (k - 1) as nat);
    }
}

pub open spec fn pow10(k: nat) -> nat
    decreases k,
{
    if k == 0 {
        1
    } else {
        10 * pow10((k - 1) as nat)
    }
}

/// Parsing the decimal text of a number gives the number back.
pub proof fn lemma_parse_dec(n: nat, max: nat)
    requires
        n <= max,
    ensures
        parse_uint(dec(n), max) == Some(n),
{
    lemma_dec(n);
}

/// The first whitespace of `a + b`, when `a` has none, is found in `b`.
pub proof fn lemma_first_ws_concat(a: Seq<char>, b: Seq<char>)
    requires
        !has_ws(a),
    ensures
        first_ws_from(a + b, 0) == a.len() + first_ws_from(b, 0),
{
    lemma_first_ws_concat_from(a, b, 0);
}

proof fn lemma_first_ws_concat_from(a: Seq<char>, b: Seq<char>, i: int)
    requires
        !has_ws(a),
        0 <= i <= a.len(),
    ensures
        first_ws_from(a + b, i) == a.len() + first_ws_from(b, 0),
    decreases a.len() - i,
{
    if i < a.len() {
        assert((a + b)[i] == a[i]);
        assert(!is_ws(a[i]));
        lemma_first_ws_concat_from(a, b, i + 1);
    } else {
        lemma_first_ws_shift(a, b, 0);
    }
}

pub proof fn lemma_first_ws_shift(a: Seq<char>, b: Seq<char>, j: int)
    requires
        0 <= j <= b.len(),
    ensures
        first_ws_from(a + b, a.len() + j) == a.len() + first_ws_from(b, j),
    decreases b.len() - j,
{
    if j < b.len() {
        assert((a + b)[a.len() + j] == b[j]);
        lemma_first_ws_shift(a, b, j + 1);
    }
}

/// Skipping the whitespace of `a + b`, when `a` is all whitespace, continues into `b`.
pub proof fn lemma_skip_ws_concat(a: Seq<char>, b: Seq<char>)
    requires
        forall|i: int| 0 <= i < a.len() ==> is_ws(#[trigger] a[i]),
    ensures
        skip_ws_from(a + b, 0) == a.len() + skip_ws_from(b, 0),
{
    lemma_skip_ws_concat_from(a, b, 0);
}

proof fn lemma_skip_ws_concat_from(a: Seq<char>, b: Seq<char>, i: int)
    requires
        forall|i: int| 0 <= i < a.len() ==> is_ws(#[trigger] a[i]),
        0 <= i <= a.len(),
    ensures
        skip_ws_from(a + b, i) == a.len() + skip_ws_from(b, 0),
    decreases a.len() - i,
{
    if i < a.len() {
        assert((a + b)[i] == a[i]);
        lemma_skip_ws_concat_from(a, b, i + 1);
    } else {
        lemma_skip_ws_shift(a, b, 0);
    }
}

pub proof fn lemma_skip_ws_shift(a: Seq<char>, b: Seq<char>, j: int)
    requires
        0 <= j <= b.len(),
    ensures
        skip_ws_from(a + b, a.len() + j) == a.len() + skip_ws_from(b, j),
    decreases b.len() - j,
{
    if j < b.len() {
        assert((a + b)[a.len() + j] == b[j]);
        lemma_skip_ws_shift(a, b, j + 1);
    }
}

/// Splitting `a + b` at whitespace, where `a` has none and `b` starts with some.
pub proof fn lemma_split_ws_concat(a: Seq<char>, b: Seq<char>)
    requires
        !has_ws(a),
        b.len() > 0,
        is_ws(b[0]),
    ensures
        split_ws(a + b) == (a, b),
{
    lemma_first_ws_concat(a, b);
    assert((a + b).subrange(0, a.len() as int) =~= a);
    assert((a + b).subrange(a.len() as int, (a + b).len() as int) =~= b);
}

/// Splitting a word without whitespace gives the word and nothing.
pub proof fn lemma_split_ws_word(a: Seq<char>)
    requires
        !has_ws(a),
    ensures
        split_ws(a) == (a, Seq::<char>::empty()),
{
    lemma_first_ws_concat(a, Seq::<char>::empty());
    assert(a + Seq::<char>::empty() =~= a);
    assert(a.subrange(0, a.len() as int) =~= a);
    assert(a.subrange(a.len() as int, a.len() as int) =~= Seq::<char>::empty());
}

/// Trimming the start of one space followed by text that starts with no whitespace.
pub proof fn lemma_trim_start_space(v: Seq<char>)
    requires
        v.len() == 0 || !is_ws(v[0]),
    ensures
        trim_start(seq![' '] + v) == v,
        trim_start(v) == v,
{
    assert(is_ws(' '));
    lemma_skip_ws_concat(seq![' '], v);
    assert(skip_ws_from(v, 0) == 0);
    assert((seq![' '] + v).subrange(1, (seq![' '] + v).len() as int) =~= v);
    assert(v.subrange(0, v.len() as int) =~= v);
}

/// A text whose last character is neither `'\r'` nor `'\n'` has no newlines to trim.
pub proof fn lemma_trim_newlines_none(s: Seq<char>)
    requires
        s.len() > 0,
        s.last() != '\r',
        s.last() != '\n',
    ensures
        trim_newlines(s) == s,
{
    assert(s.subrange(0, s.len() as int) =~= s);
}

} // verus!

verus! {

/// `str::trim_start`.
pub fn trim_front(s: &[char]) -> (r: Vec<char>)
    ensures
        r@ == trim_start(s@),
{
    let i = skip_ws(s, 0);
    proof {
        lemma_skip_ws_from(s@, 0);
    }
    slice_chars(s, i, s.len())
}

/// `str::trim_end_matches(['\r', '\n'])`.
pub fn trim_line_end(s: &[char]) -> (r: Vec<char>)
    ensures
        r@ == trim_newlines(s@),
{
    let e = end_newlines(s, s.len());
    proof {
        lemma_end_without_newlines(s@, s@.len() as int);
    }
    slice_chars(s, 0, e)
}

/// Whether `s` is empty or all whitespace.
pub fn is_blank(s: &[char]) -> (b: bool)
    ensures
        b == all_ws(s@),
{
    skip_ws(s, 0) == s.len()
}

/// Splits `s` at its first whitespace character.
pub fn split_word(s: &[char]) -> (r: (Vec<char>, Vec<char>))
    ensures
        (r.0@, r.1@) == split_ws(s@),
{
    let f = find_ws(s, 0);
    proof {
        lemma_first_ws_from(s@, 0);
    }
    (slice_chars(s, 0, f), slice_chars(s, f, s.len()))
}

/// The whitespace-separated words of `s[i..]` (`str::split_whitespace`).
pub open spec fn words_from(s: Seq<char>, i: int) -> Seq<Seq<char>>
    decreases s.len() - i,
{
    if i < 0 || i >= s.len() {
        Seq::empty()
    } else {
        let j = skip_ws_from(s, i);
        if j >= s.len() {
            Seq::empty()
        } else {
            let k = first_ws_from(s, j);
            proof {
                lemma_skip_ws_from(s, i);
                lemma_first_ws_from(s, j);
            }
            seq![s.subrange(j, k)] + words_from(s, k)
        }
    }
}

/// The whitespace-separated words of `s` (`str::split_whitespace`).
pub open spec fn words(s: Seq<char>) -> Seq<Seq<char>> {
    words_from(s, 0)
}

/// The views of a sequence of strings.
pub open spec fn views(v: Seq<String>) -> Seq<Seq<char>> {
    v.map_values(|s: String| s@)
}

/// The whitespace-separated words of `s`, as strings.
pub fn split_words(s: &[char]) -> (r: Vec<String>)
    ensures
        views(r@) == words(s@),
{
    let mut r: Vec<String> = Vec::new();
    let mut i: usize = 0;
    while i < s.len()
        invariant
            i <= s.len(),
            views(r@) + words_from(s@, i as int) == words(s@),
        decreases s.len() - i,
    {
        let j = skip_ws(s, i);
        proof {
            lemma_skip_ws_from(s@, i as int);
        }
        if j >= s.len() {
            assert(words_from(s@, i as int) =~= Seq::<Seq<char>>::empty());
            assert(views(r@) + Seq::<Seq<char>>::empty() =~= views(r@));
            i = s.len();
        } else {
            let k = find_ws(s, j);
            proof {
                lemma_first_ws_from(s@, j as int);
            }
            let w = slice_chars(s, j, k);
            let ghost old_r = r@;
            r.push(string_of(&w));
            proof {
                assert(views(r@) =~= views(old_r).push(w@));
                assert(words_from(s@, i as int) == seq![w@] + words_from(s@, k as int));
                assert(views(r@) + words_from(s@, k as int) =~= views(old_r) + words_from(
                    s@,
                    i as int,
                ));
            }
            i = k;
        }
    }
    proof {
        assert(words_from(s@, i as int) =~= Seq::<Seq<char>>::empty());
        assert(views(r@) + Seq::<Seq<char>>::empty() =~= views(r@));
    }
    r
}

/// The strings of `ws` with `sep` between each two (`[T]::join`).
pub open spec fn join(ws: Seq<Seq<char>>, sep: Seq<char>) -> Seq<char>
    decreases ws.len(),
{
    if ws.len() == 0 {
        Seq::empty()
    } else if ws.len() == 1 {
        ws[0]
    } else {
        join(ws.drop_last(), sep) + sep + ws.last()
    }
}

/// Appends the strings of `ws`, separated by `sep`, to `out`.
pub fn push_joined(out: &mut String, ws: &Vec<String>, sep: &str)
    ensures
        final(out)@ == old(out)@ + join(views(ws@), sep@),
{
    let mut i: usize = 0;
    while i < ws.len()
        invariant
            i <= ws.len(),
            out@ == old(out)@ + join(views(ws@).subrange(0, i as int), sep@),
        decreases ws.len() - i,
    {
        let ghost pre = out@;
        if i > 0 {
            out.append(sep);
        }
        out.append(ws[i].as_str());
        i = i + 1;
        proof {
            let vs = views(ws@).subrange(0, i as int);
            assert(vs.drop_last() =~= views(ws@).subrange(0, i - 1));
            assert(vs.last() == ws@[i - 1]@);
            if i == 1 {
                assert(join(views(ws@).subrange(0, 0), sep@) =~= Seq::<char>::empty());
                assert(out@ =~= old(out)@ + join(vs, sep@));
            } else {
                assert(out@ =~= old(out)@ + join(vs, sep@));
            }
        }
    }
    assert(views(ws@).subrange(0, ws@.len() as int) =~= views(ws@));
}

/// Index of the first `c` in `s` at or after `i`, or `s.len()`.
pub open spec fn find_from(s: Seq<char>, c: char, i: int) -> int
    decreases s.len() - i,
{
    if i >= s.len() {
        s.len() as int
    } else if s[i] == c {
        i
    } else {
        find_from(s, c, i + 1)
    }
}

pub proof fn lemma_find_from(s: Seq<char>, c: char, i: int)
    requires
        0 <= i <= s.len(),
    ensures
        i <= find_from(s, c, i) <= s.len(),
        forall|j: int| i <= j < find_from(s, c, i) ==> #[trigger] s[j] != c,
        find_from(s, c, i) < s.len() ==> s[find_from(s, c, i)] == c,
    decreases s.len() - i,
{
    if i < s.len() && s[i] != c {
        lemma_find_from(s, c, i + 1);
    }
}

/// Index of the first `c` in `s` at or after `i`, or `s.len()`.
pub fn find_char(s: &[char], c: char, i: usize) -> (f: usize)
    requires
        i <= s.len(),
    ensures
        f == find_from(s@, c, i as int),
{
    let mut j = i;
    while j < s.len() && s[j] != c
        invariant
            i <= j <= s.len(),
            find_from(s@, c, j as int) == find_from(s@, c, i as int),
        decreases s.len() - j,
    {
        j = j + 1;
    }
    j
}

} // verus!

verus! {

/// The words of `x + y` from a position inside `y` are those of `y` from there.
pub proof fn lemma_words_shift(x: Seq<char>, y: Seq<char>, j: int)
    requires
        0 <= j <= y.len(),
    ensures
        words_from(x + y, x.len() + j) == words_from(y, j),
    decreases y.len() - j,
{
    let s = x + y;
    if j < y.len() {
        lemma_skip_ws_shift(x, y, j);
        lemma_skip_ws_from(y, j);
        let k = skip_ws_from(y, j);
        if k < y.len() {
            lemma_first_ws_shift(x, y, k);
            lemma_first_ws_from(y, k);
            let e = first_ws_from(y, k);
            assert(s.subrange(x.len() + k, x.len() + e) =~= y.subrange(k, e));
            lemma_words_shift(x, y, e);
        }
    }
}

/// A whitespace character in front of the words changes nothing.
pub proof fn lemma_words_skip_one(s: Seq<char>, i: int)
    requires
        0 <= i < s.len(),
        is_ws(s[i]),
    ensures
        words_from(s, i) == words_from(s, i + 1),
{
}

/// The words of `w`, a word without whitespace, then a space, then `rest`.
pub proof fn lemma_words_cons(w: Seq<char>, rest: Seq<char>)
    requires
        w.len() > 0,
        !has_ws(w),
    ensures
        words(w + seq![' '] + rest) == seq![w] + words(rest),
{
    let s = w + (seq![' '] + rest);
    assert(w + seq![' '] + rest =~= s);
    assert(is_ws(' '));
    assert(!is_ws(w[0]));
    assert(s[0] == w[0]);
    assert(skip_ws_from(s, 0) == 0);
    lemma_first_ws_concat(w, seq![' '] + rest);
    assert(first_ws_from(seq![' '] + rest, 0) == 0);
    assert(s.subrange(0, w.len() as int) =~= w);
    lemma_words_shift(w, seq![' '] + rest, 0);
    lemma_words_skip_one(seq![' '] + rest, 0);
    lemma_words_shift(seq![' '], rest, 0);
}

/// The words of a single word.
pub proof fn lemma_words_single(w: Seq<char>)
    requires
        w.len() > 0,
        !has_ws(w),
    ensures
        words(w) == seq![w],
{
    assert(!is_ws(w[0]));
    assert(skip_ws_from(w, 0) == 0);
    lemma_first_ws_concat(w, Seq::<char>::empty());
    assert(w + Seq::<char>::empty() =~= w);
    assert(w.subrange(0, w.len() as int) =~= w);
    assert(words_from(w, w.len() as int) =~= Seq::<Seq<char>>::empty());
    assert(seq![w] + Seq::<Seq<char>>::empty() =~= seq![w]);
}

/// A join of two or more parts, seen from the front.
pub proof fn lemma_join_front(ws: Seq<Seq<char>>, sep: Seq<char>)
    requires
        ws.len() >= 2,
    ensures
        join(ws, sep) == ws[0] + sep + join(ws.drop_first(), sep),
    decreases ws.len(),
{
    if ws.len() == 2 {
        assert(ws.drop_last() =~= seq![ws[0]]);
        assert(ws.drop_first() =~= seq![ws[1]]);
        assert(join(ws.drop_last(), sep) == ws[0]);
        assert(join(ws.drop_first(), sep) == ws[1]);
        assert(join(ws, sep) =~= ws[0] + sep + join(ws.drop_first(), sep));
    } else {
        lemma_join_front(ws.drop_last(), sep);
        assert(ws.drop_last().drop_first() =~= ws.drop_first().drop_last());
        assert(ws.drop_first().last() == ws.last());
        assert(ws.drop_last()[0] == ws[0]);
        let df = ws.drop_first();
        assert(join(df, sep) == join(df.drop_last(), sep) + sep + df.last());
        assert(join(ws, sep) =~= ws[0] + sep + join(ws.drop_first(), sep));
    }
}

/// Splitting words joined by spaces gives the words back.
pub proof fn lemma_words_join(ws: Seq<Seq<char>>)
    requires
        forall|i: int| 0 <= i < ws.len() ==> (#[trigger] ws[i]).len() > 0 && !has_ws(ws[i]),
    ensures
        words(join(ws, seq![' '])) == ws,
    decreases ws.len(),
{
    if ws.len() == 0 {
        assert(join(ws, seq![' ']) =~= Seq::<char>::empty());
        assert(words(Seq::<char>::empty()) =~= ws);
    } else if ws.len() == 1 {
        lemma_words_single(ws[0]);
        assert(seq![ws[0]] =~= ws);
    } else {
        lemma_join_front(ws, seq![' ']);
        let t = ws.drop_first();
        assert forall|i: int| 0 <= i < t.len() implies (#[trigger] t[i]).len() > 0 && !has_ws(
            t[i],
        ) by {
            assert(t[i] == ws[i + 1]);
        }
        lemma_words_join(t);
        assert(ws[0].len() > 0 && !has_ws(ws[0]));
        lemma_words_cons(ws[0], join(t, seq![' ']));
        assert(seq![ws[0]] + t =~= ws);
    }
}

/// Looking for `c` in `a + b`, where `a` does not hold it, continues into `b`.
pub proof fn lemma_find_concat(a: Seq<char>, b: Seq<char>, c: char)
    requires
        !a.contains(c),
    ensures
        find_from(a + b, c, 0) == a.len() + find_from(b, c, 0),
{
    lemma_find_concat_from(a, b, c, 0);
}

proof fn lemma_find_concat_from(a: Seq<char>, b: Seq<char>, c: char, i: int)
    requires
        !a.contains(c),
        0 <= i <= a.len(),
    ensures
        find_from(a + b, c, i) == a.len() + find_from(b, c, 0),
    decreases a.len() - i,
{
    if i < a.len() {
        assert((a + b)[i] == a[i]);
        if a[i] == c {
            assert(a.contains(c));
        }
        lemma_find_concat_from(a, b, c, i + 1);
    } else {
        lemma_find_shift(a, b, c, 0);
    }
}

proof fn lemma_find_shift(a: Seq<char>, b: Seq<char>, c: char, j: int)
    requires
        0 <= j <= b.len(),
    ensures
        find_from(a + b, c, a.len() + j) == a.len() + find_from(b, c, j),
    decreases b.len() - j,
{
    if j < b.len() {
        assert((a + b)[a.len() + j] == b[j]);
        lemma_find_shift(a, b, c, j + 1);
    }
}

/// The ends of a join of non-empty parts.
pub proof fn lemma_join_ends(ws: Seq<Seq<char>>, sep: Seq<char>)
    requires
        ws.len() > 0,
        forall|i: int| 0 <= i < ws.len() ==> (#[trigger] ws[i]).len() > 0,
    ensures
        join(ws, sep).len() > 0,
        join(ws, sep)[0] == ws[0][0],
        join(ws, sep).last() == ws.last().last(),
    decreases ws.len(),
{
    if ws.len() > 1 {
        let d = ws.drop_last();
        assert forall|i: int| 0 <= i < d.len() implies (#[trigger] d[i]).len() > 0 by {
            assert(d[i] == ws[i]);
        }
        lemma_join_ends(d, sep);
        assert(ws.last().len() > 0);
    }
}

/// Strict lexicographic order of character sequences by code point: the order of `str`
/// (and of `String`), since UTF-8 keeps the order of code points.
pub open spec fn lex_lt(a: Seq<char>, b: Seq<char>) -> bool
    decreases a.len(),
{
    if a.len() == 0 {
        b.len() > 0
    } else if b.len() == 0 {
        false
    } else if a[0] != b[0] {
        (a[0] as u32) < (b[0] as u32)
    } else {
        lex_lt(a.drop_first(), b.drop_first())
    }
}

pub proof fn lemma_lex_irreflexive(a: Seq<char>)
    ensures
        !lex_lt(a, a),
    decreases a.len(),
{
    if a.len() > 0 {
        lemma_lex_irreflexive(a.drop_first());
    }
}

pub proof fn lemma_lex_transitive(a: Seq<char>, b: Seq<char>, c: Seq<char>)
    requires
        lex_lt(a, b),
        lex_lt(b, c),
    ensures
        lex_lt(a, c),
    decreases a.len(),
{
    if a.len() > 0 && b.len() > 0 && c.len() > 0 {
        if a[0] == b[0] && b[0] == c[0] {
            lemma_lex_transitive(a.drop_first(), b.drop_first(), c.drop_first());
        }
    }
}

pub proof fn lemma_lex_total(a: Seq<char>, b: Seq<char>)
    ensures
        a == b || lex_lt(a, b) || lex_lt(b, a),
    decreases a.len(),
{
    if a.len() > 0 && b.len() > 0 {
        if a[0] == b[0] {
            lemma_lex_total(a.drop_first(), b.drop_first());
            if a.drop_first() == b.drop_first() {
                assert(a =~= seq![a[0]] + a.drop_first());
                assert(b =~= seq![b[0]] + b.drop_first());
            }
        } else {
            vstd::utf8::char_u32_cast(a[0], a[0] as u32);
            vstd::utf8::char_u32_cast(b[0], b[0] as u32);
            assert((a[0] as u32) != (b[0] as u32));
        }
    } else if a.len() == 0 && b.len() == 0 {
        assert(a =~= b);
    }
}

pub proof fn lemma_lex_asymmetric(a: Seq<char>, b: Seq<char>)
    requires
        lex_lt(a, b),
    ensures
        !lex_lt(b, a),
        a != b,
{
    if lex_lt(b, a) {
        lemma_lex_transitive(a, b, a);
        lemma_lex_irreflexive(a);
    }
    if a == b {
        lemma_lex_irreflexive(a);
    }
}

/// The key order is the order of `str`: two texts that agree on their first `i` characters
/// compare by the code points of their characters at `i`, and a proper prefix comes first.
pub proof fn lemma_lex_lt_code_points(a: Seq<char>, b: Seq<char>, i: int)
    requires
        0 <= i <= a.len(),
        i <= b.len(),
        forall|j: int| 0 <= j < i ==> a[j] == b[j],
    ensures
        i < a.len() && i < b.len() && a[i] != b[i] ==> lex_lt(a, b) == ((a[i] as u32) < (
        b[i] as u32)),
        i == a.len() && i < b.len() ==> lex_lt(a, b),
        i == b.len() ==> !lex_lt(a, b),
    decreases i,
{
    if i > 0 {
        lemma_lex_lt_code_points(a.drop_first(), b.drop_first(), i - 1);
        assert(a[0] == b[0]);
    }
}

proof fn lemma_lex_skip(a: Seq<char>, b: Seq<char>, i: int)
    requires
        0 <= i < a.len(),
        i < b.len(),
        a[i] == b[i],
    ensures
        lex_lt(a.skip(i), b.skip(i)) == lex_lt(a.skip(i + 1), b.skip(i + 1)),
{
    assert(a.skip(i).drop_first() =~= a.skip(i + 1));
    assert(b.skip(i).drop_first() =~= b.skip(i + 1));
}

/// The result of comparing two texts.
pub enum Cmp {
    Less,
    Equal,
    Greater,
}

/// Compares two texts in the order of `str`.
pub fn compare(a: &[char], b: &[char]) -> (r: Cmp)
    ensures
        r is Less <==> lex_lt(a@, b@),
        r is Equal <==> a@ == b@,
        r is Greater <==> lex_lt(b@, a@),
{
    let mut i: usize = 0;
    assert(a@.skip(0) =~= a@);
    assert(b@.skip(0) =~= b@);
    while i < a.len() && i < b.len() && a[i] == b[i]
        invariant
            i <= a.len(),
            i <= b.len(),
            forall|j: int| 0 <= j < i ==> a@[j] == b@[j],
            lex_lt(a@, b@) == lex_lt(a@.skip(i as int), b@.skip(i as int)),
            lex_lt(b@, a@) == lex_lt(b@.skip(i as int), a@.skip(i as int)),
        decreases a.len() - i,
    {
        proof {
            lemma_lex_skip(a@, b@, i as int);
            lemma_lex_skip(b@, a@, i as int);
        }
        i = i + 1;
    }
    let ghost sa = a@.skip(i as int);
    let ghost sb = b@.skip(i as int);
    proof {
        lemma_lex_total(a@, b@);
        lemma_lex_irreflexive(a@);
    }
    if i == a.len() && i == b.len() {
        assert(a@ =~= b@);
        Cmp::Equal
    } else if i == a.len() {
        assert(sa.len() == 0 && sb.len() > 0);
        proof {
            lemma_lex_asymmetric(a@, b@);
        }
        Cmp::Less
    } else if i == b.len() {
        assert(sb.len() == 0 && sa.len() > 0);
        proof {
            lemma_lex_asymmetric(b@, a@);
        }
        Cmp::Greater
    } else if (a[i] as u32) < (b[i] as u32) {
        assert(sa[0] == a@[i as int] && sb[0] == b@[i as int]);
        proof {
            lemma_lex_asymmetric(a@, b@);
        }
        Cmp::Less
    } else {
        assert(sa[0] == a@[i as int] && sb[0] == b@[i as int]);
        assert(a@[i as int] != b@[i as int]);
        proof {
            lemma_lex_asymmetric(b@, a@);
        }
        Cmp::Greater
    }
}

/// The UTF-8 encoding of a concatenation is the concatenation of the encodings.
pub proof fn lemma_encode_utf8_concat(a: Seq<char>, b: Seq<char>)
    ensures
        encode_utf8(a + b) == encode_utf8(a) + encode_utf8(b),
    decreases a.len(),
{
    if a.len() == 0 {
        assert(a + b =~= b);
        assert(encode_utf8(a) =~= Seq::<u8>::empty());
        assert(encode_utf8(a) + encode_utf8(b) =~= encode_utf8(b));
    } else {
        lemma_encode_utf8_concat(a.drop_first(), b);
        assert((a + b).drop_first() =~= a.drop_first() + b);
        assert((a + b)[0] == a[0]);
        assert(encode_utf8(a + b) =~= encode_utf8(a) + encode_utf8(b));
    }
}

proof fn lemma_encode_scalar_ascii(c: char, b: u8)
    requires
        b < 0x80,
        c != b as char,
    ensures
        !encode_scalar(c as u32).contains(b),
{
    let v = c as u32;
    vstd::utf8::char_is_scalar(c);
    let e = encode_scalar(v);
    if vstd::utf8::has_width_1_encoding(v) {
        assert((v & 0x7F) as u8 == v) by (bit_vector)
            requires
                v <= 0x7F,
        ;
        if e.contains(b) {
            assert(e[0] == b);
            assert(v == b as u32);
            char_u32_cast(c, v);
        }
    } else {
        assert(0x80 <= v);
        assert(0x80 <= (0xC0 | ((v >> 6) & 0x1F) as u8)) by (bit_vector);
        assert(0x80 <= (0xE0 | ((v >> 12) & 0x0F) as u8)) by (bit_vector);
        assert(0x80 <= (0xF0 | ((v >> 18) & 0x7) as u8)) by (bit_vector);
        assert(0x80 <= (0x80 | (v & 0x3F) as u8)) by (bit_vector);
        assert(0x80 <= (0x80 | ((v >> 6) & 0x3F) as u8)) by (bit_vector);
        assert(0x80 <= (0x80 | ((v >> 12) & 0x3F) as u8)) by (bit_vector);
        assert forall|i: int| 0 <= i < e.len() implies 0x80 <= #[trigger] e[i] by {}
    }
}

/// An ASCII byte occurs in the UTF-8 encoding of a text only where its character does.
pub proof fn lemma_encode_utf8_ascii(s: Seq<char>, b: u8)
    requires
        b < 0x80,
        !s.contains(b as char),
    ensures
        !encode_utf8(s).contains(b),
    decreases s.len(),
{
    if s.len() > 0 {
        assert(s[0] != b as char);
        lemma_encode_scalar_ascii(s[0], b);
        assert(!s.drop_first().contains(b as char)) by {
            if s.drop_first().contains(b as char) {
                let i = choose|i: int| 0 <= i < s.drop_first().len() && s.drop_first()[i] == b as char;
                assert(s[i + 1] == b as char);
            }
        }
        lemma_encode_utf8_ascii(s.drop_first(), b);
        let x = encode_scalar(s[0] as u32);
        let y = encode_utf8(s.drop_first());
        if (x + y).contains(b) {
            let i = choose|i: int| 0 <= i < (x + y).len() && (x + y)[i] == b;
            if i < x.len() {
                assert(x[i] == b);
            } else {
                assert(y[i - x.len()] == b);
            }
        }
    }
}

/// The end of `s[..j]` once trailing whitespace is dropped.
pub open spec fn end_without_ws(s: Seq<char>, j: int) -> int
    decreases j,
{
    if j <= 0 {
        0
    } else if is_ws(s[j - 1]) {
        end_without_ws(s, j - 1)
    } else {
        j
    }
}

/// `str::trim_end`.
pub open spec fn trim_end(s: Seq<char>) -> Seq<char> {
    s.subrange(0, end_without_ws(s, s.len() as int))
}

proof fn lemma_end_without_ws(s: Seq<char>, j: int)
    requires
        0 <= j <= s.len(),
    ensures
        0 <= end_without_ws(s, j) <= j,
    decreases j,
{
    if j > 0 && is_ws(s[j - 1]) {
        lemma_end_without_ws(s, j - 1);
    }
}

/// `str::trim_end`.
pub fn trim_back(s: &[char]) -> (r: Vec<char>)
    ensures
        r@ == trim_end(s@),
{
    let mut k = s.len();
    while k > 0 && is_whitespace(s[k - 1])
        invariant
            k <= s.len(),
            end_without_ws(s@, k as int) == end_without_ws(s@, s@.len() as int),
        decreases k,
    {
        k = k - 1;
    }
    proof {
        lemma_end_without_ws(s@, s@.len() as int);
    }
    slice_chars(s, 0, k)
}

/// The text of bytes that are valid UTF-8 (`std::str::from_utf8`): `Some` exactly for valid
/// UTF-8, and then the text those bytes encode.
#[verifier::external_body]
pub(crate) fn utf8_text(bytes: &[u8]) -> (r: Option<String>)
    ensures
        r is Some <==> valid_utf8(bytes@),
        r matches Some(t) ==> t@ == decode_utf8(bytes@),
{
    match std::str::from_utf8(bytes) {
        Ok(t) => Some(t.to_string()),
        Err(_) => None,
    }
}

} // verus!
