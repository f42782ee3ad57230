//! Shared text-parsing helpers: decimal digit strings and field splitting.
//!
//! Both the line-oriented simulation protocol and the handler binding records
//! are built from fields separated by `,` and `:`, with numeric fields written
//! as plain decimal digit strings.

use vstd::prelude::*;

use crate::input::{ErrorKind, InputError};

verus! {

/// Whether `c` is an ASCII decimal digit.
pub open spec fn is_digit(c: char) -> bool {
    48 <= c as u32 <= 57
}

/// Whether `s` is a well-formed unsigned decimal numeral: at least one
/// character, all of them digits.
pub open spec fn is_digits(s: Seq<char>) -> bool {
    s.len() > 0 && forall|i: int| 0 <= i < s.len() ==> is_digit(#[trigger] s[i])
}

/// Whether every character of `s` is a digit; an empty `s` qualifies.
pub open spec fn all_digits(s: Seq<char>) -> bool {
    forall|i: int| 0 <= i < s.len() ==> is_digit(#[trigger] s[i])
}

/// Ten to the power `k`.
pub open spec fn pow10(k: nat) -> int
    decreases k,
{
    if k == 0 {
        1
    } else {
        10 * pow10((k - 1) as nat)
    }
}

/// Powers of ten are positive.
pub proof fn lemma_pow10_pos(k: nat)
    ensures
        pow10(k) >= 1,
    decreases k,
{
    if k > 0 {
        lemma_pow10_pos((k - 1) as nat);
    }
}

/// Powers of ten grow with the exponent.
pub proof fn lemma_pow10_le(a: nat, b: nat)
    requires
        a <= b,
    ensures
        pow10(a) <= pow10(b),
{
    lemma_pow10_adds(a, (b - a) as nat);
    lemma_pow10_pos(a);
    lemma_pow10_pos((b - a) as nat);
    assert(pow10(a) * 1 <= pow10(a) * pow10((b - a) as nat)) by (nonlinear_arith)
        requires
            pow10(a) >= 1,
            pow10((b - a) as nat) >= 1,
    ;
}

/// Powers of ten multiply by adding exponents.
pub proof fn lemma_pow10_adds(a: nat, b: nat)
    ensures
        pow10(a + b) == pow10(a) * pow10(b),
    decreases a,
{
    if a > 0 {
        lemma_pow10_adds((a - 1) as nat, b);
        assert(pow10(a + b) == 10 * pow10((a + b - 1) as nat));
        assert(10 * (pow10((a - 1) as nat) * pow10(b)) == (10 * pow10((a - 1) as nat)) * pow10(
            b,
        )) by (nonlinear_arith);
    }
}

/// The numeric value of a digit string, most significant digit first.
pub open spec fn digits_val(s: Seq<char>) -> int
    decreases s.len(),
{
    if s.len() == 0 {
        0
    } else {
        digits_val(s.drop_last()) * 10 + (s.last() as u32 - 48)
    }
}

/// The value of an all-digit string is bounded by the power of ten of its
/// length.
pub proof fn lemma_digits_val_bound(s: Seq<char>)
    requires
        all_digits(s),
    ensures
        0 <= digits_val(s) < pow10(s.len()),
    decreases s.len(),
{
    if s.len() > 0 {
        assert(all_digits(s.drop_last()));
        lemma_digits_val_bound(s.drop_last());
        assert(digits_val(s.drop_last()) <= pow10((s.len() - 1) as nat) - 1);
        assert(digits_val(s.drop_last()) * 10 <= (pow10((s.len() - 1) as nat) - 1) * 10)
            by (nonlinear_arith)
            requires
                digits_val(s.drop_last()) <= pow10((s.len() - 1) as nat) - 1,
        ;
    }
}

proof fn lemma_digits_val_nonneg(s: Seq<char>)
    requires
        all_digits(s),
    ensures
        digits_val(s) >= 0,
    decreases s.len(),
{
    if s.len() > 0 {
        assert(all_digits(s.drop_last()));
        lemma_digits_val_nonneg(s.drop_last());
    }
}

/// Cutting a digit string at position `i` splits its value positionally:
/// the prefix's value times the power of ten of the suffix length, plus the
/// suffix's value.
pub proof fn lemma_digits_val_split(s: Seq<char>, i: int)
    requires
        all_digits(s),
        0 <= i <= s.len(),
    ensures
        digits_val(s) == digits_val(s.take(i)) * pow10((s.len() - i) as nat) + digits_val(
            s.skip(i),
        ),
    decreases s.len(),
{
    if i == s.len() {
        assert(s.take(i) =~= s);
        assert(s.skip(i) =~= Seq::<char>::empty());
        assert(digits_val(s) == digits_val(s) * 1 + 0);
    } else {
        let t = s.drop_last();
        assert(all_digits(t));
        lemma_digits_val_split(t, i);
        assert(t.take(i) =~= s.take(i));
        assert(t.skip(i) =~= s.skip(i).drop_last());
        let m = (s.len() - i - 1) as nat;
        let p = digits_val(s.take(i));
        let d = s.last() as u32 - 48;
        assert(digits_val(s.skip(i)) == digits_val(s.skip(i).drop_last()) * 10 + d);
        assert(digits_val(s) == digits_val(t) * 10 + d);
        assert(digits_val(t) == p * pow10(m) + digits_val(s.skip(i).drop_last()));
        assert((p * pow10(m) + digits_val(s.skip(i).drop_last())) * 10 == p * (10 * pow10(m))
            + digits_val(s.skip(i).drop_last()) * 10) by (nonlinear_arith);
        assert(pow10((s.len() - i) as nat) == 10 * pow10(m));
    }
}

proof fn lemma_digits_val_prefix_le(s: Seq<char>, i: int)
    requires
        forall|k: int| 0 <= k < s.len() ==> is_digit(#[trigger] s[k]),
        0 <= i <= s.len(),
    ensures
        digits_val(s.take(i)) <= digits_val(s),
    decreases s.len() - i,
{
    if i < s.len() {
        lemma_digits_val_prefix_le(s, i + 1);
        let t = s.take(i + 1);
        assert(t.drop_last() =~= s.take(i));
        assert(forall|k: int| 0 <= k < t.len() ==> is_digit(#[trigger] t[k]));
        lemma_digits_val_nonneg(t.drop_last());
        assert(digits_val(s.take(i)) <= digits_val(s.take(i + 1)));
    } else {
        assert(s.take(i) =~= s);
    }
}

/// Parses an unsigned decimal numeral into a byte. Succeeds exactly on
/// non-empty all-digit strings whose value fits.
pub fn parse_u8(s: &str) -> (r: Result<u8, InputError>)
    ensures
        r is Ok <==> is_digits(s@) && digits_val(s@) <= 255,
        r is Ok ==> r->Ok_0 == digits_val(s@),
        r is Err ==> r->Err_0@.kind == ErrorKind::Parse,
{
    let n = s.unicode_len();
    if n == 0 {
        proof {
            assert(!is_digits(s@));
        }
        return Err(InputError::from_str("empty numeric field"));
    }
    let mut acc: u32 = 0;
    let mut i: usize = 0;
    while i < n
        invariant
            0 < n == s@.len(),
            i <= n,
            forall|k: int| 0 <= k < i ==> is_digit(#[trigger] s@[k]),
            acc == digits_val(s@.take(i as int)),
            acc <= 255,
        decreases n - i,
    {
        let c = s.get_char(i);
        let d = c as u32;
        if d < 48 || d > 57 {
            proof {
                assert(!is_digit(s@[i as int]));
            }
            return Err(InputError::from_str("numeric field holds a non-digit"));
        }
        proof {
            assert(s@.take(i + 1).drop_last() =~= s@.take(i as int));
            assert(s@.take(i + 1).last() == s@[i as int]);
        }
        let next = acc * 10 + (d - 48);
        if next > 255 {
            proof {
                if is_digits(s@) {
                    lemma_digits_val_prefix_le(s@, i + 1);
                }
            }
            return Err(InputError::from_str("numeric field too large"));
        }
        acc = next;
        i = i + 1;
    }
    proof {
        assert(s@.take(n as int) =~= s@);
    }
    Ok(acc as u8)
}

/// Tests whether an all-digit string denotes zero, that is, holds only
/// zero digits.
pub fn check_zero_value(s: &str) -> (r: bool)
    requires
        all_digits(s@),
    ensures
        r == (digits_val(s@) == 0),
{
    let n = s.unicode_len();
    let mut i: usize = 0;
    proof {
        assert(s@.take(0) =~= Seq::<char>::empty());
    }
    while i < n
        invariant
            n == s@.len(),
            i <= n,
            all_digits(s@),
            digits_val(s@.take(i as int)) == 0,
        decreases n - i,
    {
        let d = s.get_char(i) as u32;
        proof {
            assert(is_digit(s@[i as int]));
            assert(s@.take(i + 1).drop_last() =~= s@.take(i as int));
            assert(s@.take(i + 1).last() == s@[i as int]);
        }
        if d != 48 {
            proof {
                assert(digits_val(s@.take(i + 1)) >= 1);
                lemma_digits_val_prefix_le(s@, i + 1);
            }
            return false;
        }
        i = i + 1;
    }
    proof {
        assert(s@.take(n as int) =~= s@);
    }
    true
}

/// The character for one decimal digit value.
pub open spec fn digit_char(d: u8) -> char {
    if d == 0 {
        '0'
    } else if d == 1 {
        '1'
    } else if d == 2 {
        '2'
    } else if d == 3 {
        '3'
    } else if d == 4 {
        '4'
    } else if d == 5 {
        '5'
    } else if d == 6 {
        '6'
    } else if d == 7 {
        '7'
    } else if d == 8 {
        '8'
    } else {
        '9'
    }
}

/// The decimal numeral for a byte, most significant digit first, without
/// leading zeros.
pub open spec fn spec_u8_digits(n: u8) -> Seq<char>
    decreases n,
{
    if n < 10 {
        seq![digit_char(n)]
    } else {
        spec_u8_digits(n / 10).push(digit_char(n % 10))
    }
}

/// One digit as a borrowed string.
fn digit_str(d: u8) -> (r: &'static str)
    requires
        d < 10,
    ensures
        r@ =~= seq![digit_char(d)],
{
    proof {
        reveal_strlit("0");
        reveal_strlit("1");
        reveal_strlit("2");
        reveal_strlit("3");
        reveal_strlit("4");
        reveal_strlit("5");
        reveal_strlit("6");
        reveal_strlit("7");
        reveal_strlit("8");
        reveal_strlit("9");
    }
    match d {
        0 => "0",
        1 => "1",
        2 => "2",
        3 => "3",
        4 => "4",
        5 => "5",
        6 => "6",
        7 => "7",
        8 => "8",
        _ => "9",
    }
}

/// Renders a byte as its decimal numeral.
pub fn u8_to_string(n: u8) -> (r: String)
    ensures
        r@ == spec_u8_digits(n),
{
    let mut out = String::new();
    if n >= 100 {
        out.append(digit_str(n / 100));
    }
    if n >= 10 {
        out.append(digit_str((n / 10) % 10));
    }
    out.append(digit_str(n % 10));
    proof {
        if n < 10 {
            assert(n % 10 == n);
            assert(out@ =~= spec_u8_digits(n));
        } else if n < 100 {
            assert((n / 10) % 10 == n / 10);
            assert(n / 10 < 10);
            assert(out@ =~= spec_u8_digits(n / 10).push(digit_char(n % 10)));
        } else {
            assert(n / 10 >= 10);
            assert(n / 100 < 10);
            assert(n / 10 / 10 == n / 100) by (nonlinear_arith);
            assert((n / 10) % 10 == n / 10 - (n / 100) * 10) by (nonlinear_arith);
            assert(spec_u8_digits(n / 100) =~= seq![digit_char(n / 100)]);
            assert(spec_u8_digits(n / 10) =~= seq![digit_char(n / 100)].push(
                digit_char((n / 10) % 10),
            ));
            assert(out@ =~= spec_u8_digits(n / 10).push(digit_char(n % 10)));
        }
    }
    out
}

/// Whether `c` is ASCII whitespace.
pub open spec fn is_space(c: char) -> bool {
    c == ' ' || c == '\t' || c == '\r' || c == '\n'
}

/// `s` with leading whitespace removed.
pub open spec fn spec_trim_start(s: Seq<char>) -> Seq<char>
    decreases s.len(),
{
    if s.len() > 0 && is_space(s[0]) {
        spec_trim_start(s.drop_first())
    } else {
        s
    }
}

/// `s` with trailing whitespace removed.
pub open spec fn spec_trim_end(s: Seq<char>) -> Seq<char>
    decreases s.len(),
{
    if s.len() > 0 && is_space(s.last()) {
        spec_trim_end(s.drop_last())
    } else {
        s
    }
}

/// `s` with whitespace removed from both ends.
pub open spec fn spec_trim(s: Seq<char>) -> Seq<char> {
    spec_trim_end(spec_trim_start(s))
}

/// Removes ASCII whitespace from both ends of `s`.
pub fn trim_ascii(s: &str) -> (r: &str)
    ensures
        r@ == spec_trim(s@),
{
    let n = s.unicode_len();
    let mut a: usize = 0;
    proof {
        assert(s@.skip(0) =~= s@);
    }
    while a < n
        invariant
            n == s@.len(),
            a <= n,
            spec_trim_start(s@) == spec_trim_start(s@.skip(a as int)),
        ensures
            a <= n,
            spec_trim_start(s@) == spec_trim_start(s@.skip(a as int)),
            a == n || !is_space(s@[a as int]),
        decreases n - a,
    {
        let c = s.get_char(a);
        if !(c == ' ' || c == '\t' || c == '\r' || c == '\n') {
            break ;
        }
        proof {
            assert(s@.skip(a as int).drop_first() =~= s@.skip(a + 1));
        }
        a = a + 1;
    }
    proof {
        assert(spec_trim_start(s@.skip(a as int)) == s@.skip(a as int));
        assert(s@.skip(a as int) =~= s@.subrange(a as int, n as int));
    }
    let mut b: usize = n;
    while b > a
        invariant
            n == s@.len(),
            a <= b <= n,
            spec_trim_end(s@.skip(a as int)) == spec_trim_end(s@.subrange(a as int, b as int)),
        ensures
            a <= b <= n,
            spec_trim_end(s@.skip(a as int)) == spec_trim_end(s@.subrange(a as int, b as int)),
            b == a || !is_space(s@[b - 1]),
        decreases b,
    {
        let c = s.get_char(b - 1);
        if !(c == ' ' || c == '\t' || c == '\r' || c == '\n') {
            break ;
        }
        proof {
            assert(s@.subrange(a as int, b as int).drop_last() =~= s@.subrange(a as int, b - 1));
        }
        b = b - 1;
    }
    proof {
        if b > a {
            assert(!is_space(s@[b - 1]));
            assert(s@.subrange(a as int, b as int).last() == s@[b - 1]);
        }
        assert(spec_trim_end(s@.subrange(a as int, b as int)) == s@.subrange(a as int, b as int));
    }
    let r = s.substring_char(a, b);
    proof {
        assert(r@ =~= s@.subrange(a as int, b as int));
    }
    r
}

/// Tests whether every character of `s` is a digit.
pub fn check_all_digits(s: &str) -> (r: bool)
    ensures
        r == all_digits(s@),
{
    let n = s.unicode_len();
    let mut i: usize = 0;
    while i < n
        invariant
            n == s@.len(),
            i <= n,
            forall|k: int| 0 <= k < i ==> is_digit(#[trigger] s@[k]),
        decreases n - i,
    {
        let d = s.get_char(i) as u32;
        if d < 48 || d > 57 {
            proof {
                assert(!is_digit(s@[i as int]));
            }
            return false;
        }
        i = i + 1;
    }
    true
}

/// The fields of `s` separated by `sep`, in order. An empty string has one
/// empty field; a separator at either end or two in a row contribute empty
/// fields, as `str::split` does.
pub open spec fn spec_split(s: Seq<char>, sep: char) -> Seq<Seq<char>>
    decreases s.len(),
{
    if s.len() == 0 {
        seq![Seq::<char>::empty()]
    } else if s[0] == sep {
        seq![Seq::<char>::empty()] + spec_split(s.drop_first(), sep)
    } else {
        let rest = spec_split(s.drop_first(), sep);
        seq![seq![s[0]] + rest[0]] + rest.drop_first()
    }
}

/// A split has at least one field.
pub proof fn lemma_split_len(s: Seq<char>, sep: char)
    ensures
        spec_split(s, sep).len() >= 1,
    decreases s.len(),
{
    if s.len() > 0 {
        lemma_split_len(s.drop_first(), sep);
    }
}

/// A separator-free string is one whole field.
proof fn lemma_split_whole(s: Seq<char>, sep: char)
    requires
        forall|i: int| 0 <= i < s.len() ==> #[trigger] s[i] != sep,
    ensures
        spec_split(s, sep) =~~= seq![s],
    decreases s.len(),
{
    if s.len() > 0 {
        assert(forall|i: int|
            0 <= i < s.drop_first().len() ==> #[trigger] s.drop_first()[i] != sep);
        lemma_split_whole(s.drop_first(), sep);
        assert(seq![s[0]] + s.drop_first() =~= s);
    }
}

/// Splitting off the first field: if `s` starts with a separator-free field
/// `t` followed by one separator and a tail `v`, then the split of `s` is
/// `t` followed by the split of `v`.
proof fn lemma_split_step(t: Seq<char>, sep: char, v: Seq<char>)
    requires
        forall|i: int| 0 <= i < t.len() ==> #[trigger] t[i] != sep,
    ensures
        spec_split(t + seq![sep] + v, sep) =~~= seq![t] + spec_split(v, sep),
    decreases t.len(),
{
    let s = t + seq![sep] + v;
    if t.len() == 0 {
        assert(s[0] == sep);
        assert(s.drop_first() =~= v);
    } else {
        assert(forall|i: int|
            0 <= i < t.drop_first().len() ==> #[trigger] t.drop_first()[i] != sep);
        lemma_split_step(t.drop_first(), sep, v);
        let s1 = t.drop_first() + seq![sep] + v;
        assert(s.drop_first() =~= s1);
        assert(s[0] == t[0] && t[0] != sep);
        lemma_split_len(s1, sep);
        assert(spec_split(s1, sep)[0] == t.drop_first());
        assert(seq![s[0]] + spec_split(s1, sep)[0] =~= t);
    }
}

/// The views of a sequence of borrowed fields.
pub open spec fn views_of(s: Seq<&str>) -> Seq<Seq<char>> {
    s.map_values(|t: &str| t@)
}

/// Splits `s` into its fields separated by `sep`, as `str::split` would.
pub fn split_on<'a>(s: &'a str, sep: char) -> (r: Vec<&'a str>)
    ensures
        views_of(r@) == spec_split(s@, sep),
{
    let n = s.unicode_len();
    let mut parts: Vec<&'a str> = Vec::new();
    proof {
        assert(s@.skip(0) =~= s@);
        assert(views_of(parts@) + spec_split(s@, sep) =~~= spec_split(s@, sep));
    }
    let mut start: usize = 0;
    let mut i: usize = 0;
    while i < n
        invariant
            n == s@.len(),
            start <= i <= n,
            forall|k: int| start <= k < i ==> #[trigger] s@[k] != sep,
            views_of(parts@) + spec_split(s@.skip(start as int), sep) =~~= spec_split(s@, sep),
        decreases n - i,
    {
        let c = s.get_char(i);
        if c == sep {
            let token = s.substring_char(start, i);
            proof {
                let tail = s@.skip(i + 1);
                assert(s@.skip(start as int) =~= token@ + seq![sep] + tail);
                lemma_split_step(token@, sep, tail);
                assert(views_of(parts@.push(token)) =~= views_of(parts@) + seq![token@]);
            }
            parts.push(token);
            start = i + 1;
        }
        i = i + 1;
    }
    let token = s.substring_char(start, n);
    proof {
        assert(s@.skip(start as int) =~= token@);
        lemma_split_whole(token@, sep);
        assert(views_of(parts@.push(token)) =~= views_of(parts@) + seq![token@]);
    }
    parts.push(token);
    proof {
        assert(views_of(parts@) =~= spec_split(s@, sep));
    }
    parts
}

} // verus!
