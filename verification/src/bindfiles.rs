//! Parsing of handler binding records and sound file specifications.
//!
//! A binding line reads `device_name, bit_index, handler_name, on_sound,
//! off_sound`. A sound field is empty (no sound for that direction), a bare
//! file path (played at full volume), or `path:volume` with `volume` a
//! decimal fraction of full volume in (0, 1], written with digits and at
//! most one `.`. The volume is converted to the mixer's integer scale of 0
//! to [`MAX_VOLUME`] by exact decimal arithmetic, rounding down.

use vstd::arithmetic::div_mod::{
    lemma_div_denominator, lemma_div_pos_is_pos, lemma_fundamental_div_mod,
    lemma_fundamental_div_mod_converse, lemma_hoist_over_denominator,
    lemma_mod_division_less_than_divisor, lemma_multiply_divide_lt,
};
use vstd::prelude::*;

use crate::input::{ErrorKind, InputError};
use crate::parse::{
    all_digits, check_all_digits, digits_val, is_digit, is_digits, lemma_digits_val_bound,
    lemma_digits_val_split, lemma_pow10_adds, lemma_pow10_le, lemma_pow10_pos, parse_u8, pow10,
    spec_split, spec_trim, split_on, trim_ascii, views_of,
};
use crate::simulation::{
    default_handler_event, sound_model, spec_default_key, EventHandler, EventHandlerModel,
    HandlerMap, SoundFile, SoundFileModel,
};

verus! {

/// The mixer's full volume, the unit the parsed volume fraction is scaled
/// by.
pub const MAX_VOLUME: i32 = 128;

/// Whether `s` is a well-formed volume fraction: digits with at most one
/// `.`, at least one digit somewhere, and a value in (0, 1] — exactly one,
/// or zero followed by a nonzero fraction.
pub open spec fn is_volume_token(s: Seq<char>) -> bool {
    let p = spec_split(s, '.');
    &&& 1 <= p.len() <= 2
    &&& all_digits(p[0])
    &&& (p.len() == 2 ==> all_digits(p[1]))
    &&& p[0].len() + (if p.len() == 2 {
        p[1].len()
    } else {
        0
    }) > 0
    &&& {
        let int_val = digits_val(p[0]);
        let frac_val = if p.len() == 2 {
            digits_val(p[1])
        } else {
            0
        };
        (int_val == 1 && frac_val == 0) || (int_val == 0 && frac_val > 0)
    }
}

/// The mixer volume a well-formed volume fraction denotes: the fraction
/// times [`MAX_VOLUME`], rounded down.
pub open spec fn spec_volume(s: Seq<char>) -> int {
    let p = spec_split(s, '.');
    let int_val = digits_val(p[0]);
    let frac_val = if p.len() == 2 {
        (digits_val(p[1]) * 128) / pow10(p[1].len())
    } else {
        0
    };
    int_val * 128 + frac_val
}

/// Adding less than 128 to a multiple of 128 never carries across a
/// multiple of a billion, because a billion is itself a multiple of 128.
proof fn lemma_sat_div(q: int, e: int)
    requires
        0 <= q,
        0 <= e < 128,
    ensures
        (q * 128 + e) / 1000000000 == (q * 128) / 1000000000,
{
    let n = 1000000000int;
    let x = q * 128;
    assert(x >= 0) by (nonlinear_arith)
        requires
            q >= 0,
            x == q * 128,
    ;
    lemma_fundamental_div_mod(x, n);
    let qq = x / n;
    let r = x % n;
    lemma_mod_division_less_than_divisor(x, n);
    assert(x == n * qq + r);
    let s = q - 7812500 * qq;
    assert(r == 128 * s) by (nonlinear_arith)
        requires
            x == n * qq + r,
            x == q * 128,
            s == q - 7812500 * qq,
            n == 1000000000,
    ;
    assert(s < 7812500) by (nonlinear_arith)
        requires
            r == 128 * s,
            r < 1000000000,
    ;
    assert(s >= 0) by (nonlinear_arith)
        requires
            r == 128 * s,
            r >= 0,
    ;
    assert(r <= 1000000000 - 128) by (nonlinear_arith)
        requires
            r == 128 * s,
            s <= 7812499,
    ;
    lemma_fundamental_div_mod_converse(x + e, n, qq, r + e);
}

/// Only the first nine fraction digits can move the scaled volume: the
/// mixer scale is 128ths, and every multiple of 1/128 has at most seven
/// decimal places.
proof fn lemma_frac_truncate(s: Seq<char>)
    requires
        all_digits(s),
        s.len() > 9,
    ensures
        (digits_val(s) * 128) / pow10(s.len()) == (digits_val(s.take(9)) * 128) / pow10(9),
{
    let m = (s.len() - 9) as nat;
    let f9 = digits_val(s.take(9));
    assert(all_digits(s.take(9))) by {
        assert(forall|i: int| 0 <= i < 9 ==> s.take(9)[i] == s[i]);
    }
    assert(all_digits(s.skip(9))) by {
        assert(forall|i: int| 0 <= i < s.skip(9).len() ==> s.skip(9)[i] == s[i + 9]);
    }
    let r = digits_val(s.skip(9));
    lemma_digits_val_split(s, 9);
    lemma_digits_val_bound(s.skip(9));
    lemma_digits_val_bound(s.take(9));
    lemma_pow10_adds(9, m);
    lemma_pow10_pos(m);
    let p = pow10(m);
    let n = pow10(9);
    assert(n == 1000000000) by {
        reveal_with_fuel(pow10, 10);
    }
    let a = digits_val(s) * 128;
    assert(a == (f9 * p + r) * 128);
    assert((f9 * p + r) * 128 == (f9 * 128) * p + r * 128) by (nonlinear_arith);
    assert(r * 128 >= 0) by (nonlinear_arith)
        requires
            r >= 0,
    ;
    assert(a >= 0);
    lemma_div_denominator(a, p, n);
    assert((a / p) / n == a / (p * n));
    assert(pow10(s.len()) == n * p);
    assert(p * n == n * p) by (nonlinear_arith);
    lemma_hoist_over_denominator(r * 128, f9 * 128, p as nat);
    assert(a / p == f9 * 128 + (r * 128) / p);
    let e = (r * 128) / p;
    assert(r * 128 < p * 128) by (nonlinear_arith)
        requires
            r < p,
    ;
    lemma_multiply_divide_lt(r * 128, p, 128);
    lemma_div_pos_is_pos(r * 128, p);
    lemma_sat_div(f9, e);
    assert((f9 * 128 + e) / n == (f9 * 128) / n);
}

/// Cap at which the integer-part parse saturates. A volume in range has an
/// integer part of at most one, so any capped value is already out of range.
const INT_CAP: u32 = 16777216;

/// The value of an all-digit string, saturated at [`INT_CAP`].
fn digits_capped(s: &str) -> (r: u32)
    requires
        all_digits(s@),
    ensures
        digits_val(s@) < INT_CAP ==> r == digits_val(s@),
        digits_val(s@) >= INT_CAP ==> r == INT_CAP,
{
    let n = s.unicode_len();
    let mut acc: u32 = 0;
    let mut i: usize = 0;
    proof {
        assert(s@.take(0) =~= Seq::<char>::empty());
    }
    while i < n
        invariant
            n == s@.len(),
            i <= n,
            all_digits(s@),
            acc <= INT_CAP,
            digits_val(s@.take(i as int)) < INT_CAP ==> acc == digits_val(s@.take(i as int)),
            digits_val(s@.take(i as int)) >= INT_CAP ==> acc == INT_CAP,
        decreases n - i,
    {
        let d = s.get_char(i) as u32 - 48;
        proof {
            assert(is_digit(s@[i as int]));
            assert(s@.take(i + 1).drop_last() =~= s@.take(i as int));
            assert(s@.take(i + 1).last() == s@[i as int]);
            assert(all_digits(s@.take(i as int))) by {
                assert(forall|k: int| 0 <= k < i ==> s@.take(i as int)[k] == s@[k]);
            }
            lemma_digits_val_bound(s@.take(i as int));
        }
        let next = if acc >= INT_CAP {
            INT_CAP
        } else {
            let grown = acc * 10 + d;
            if grown >= INT_CAP {
                INT_CAP
            } else {
                grown
            }
        };
        proof {
            let v = digits_val(s@.take(i as int));
            let v1 = digits_val(s@.take(i + 1));
            assert(v1 == v * 10 + (s@[i as int] as u32 - 48));
            if v >= INT_CAP {
                assert(v1 >= v * 10) by (nonlinear_arith)
                    requires
                        v >= 0,
                        v1 >= v * 10,
                ;
                assert(v * 10 >= v) by (nonlinear_arith)
                    requires
                        v >= 0,
                ;
            }
        }
        acc = next;
        i = i + 1;
    }
    proof {
        assert(s@.take(n as int) =~= s@);
    }
    acc
}

/// The exact value of the first `upto` digits of an all-digit string.
fn digits_prefix_val(s: &str, upto: usize) -> (r: u32)
    requires
        all_digits(s@),
        upto <= s@.len(),
        upto <= 9,
    ensures
        r == digits_val(s@.take(upto as int)),
{
    let mut acc: u32 = 0;
    let mut j: usize = 0;
    proof {
        assert(s@.take(0) =~= Seq::<char>::empty());
    }
    while j < upto
        invariant
            upto <= s@.len(),
            upto <= 9,
            j <= upto,
            all_digits(s@),
            acc == digits_val(s@.take(j as int)),
        decreases upto - j,
    {
        let d = s.get_char(j) as u32 - 48;
        proof {
            assert(is_digit(s@[j as int]));
            assert(s@.take(j + 1).drop_last() =~= s@.take(j as int));
            assert(s@.take(j + 1).last() == s@[j as int]);
            assert(all_digits(s@.take(j as int))) by {
                assert(forall|k: int| 0 <= k < j ==> s@.take(j as int)[k] == s@[k]);
            }
            lemma_digits_val_bound(s@.take(j as int));
            lemma_pow10_le(j as nat, 8);
            assert(pow10(8) == 100000000) by {
                reveal_with_fuel(pow10, 9);
            }
        }
        acc = acc * 10 + d;
        j = j + 1;
    }
    acc
}

/// Ten to the power `k`, as a machine word.
fn pow10_u64(k: usize) -> (r: u64)
    requires
        k <= 9,
    ensures
        r == pow10(k as nat),
        r >= 1,
{
    let mut p: u64 = 1;
    let mut j: usize = 0;
    while j < k
        invariant
            j <= k <= 9,
            p == pow10(j as nat),
            p >= 1,
            p <= 1000000000,
        decreases k - j,
    {
        proof {
            lemma_pow10_le((j + 1) as nat, 9);
            assert(pow10(9) == 1000000000) by {
                reveal_with_fuel(pow10, 10);
            }
            lemma_pow10_pos((j + 1) as nat);
        }
        p = p * 10;
        j = j + 1;
    }
    p
}

/// Parses a volume fraction, scaling it to 128ths rounded down. Succeeds
/// exactly on strings of digits with at most one `.`, at least one digit,
/// and a value in (0, 1].
pub fn parse_volume(s: &str) -> (r: Result<i32, InputError>)
    ensures
        r is Ok <==> is_volume_token(s@),
        r is Ok ==> r->Ok_0 == spec_volume(s@),
        r is Err ==> r->Err_0@.kind == ErrorKind::Parse,
{
    let parts = split_on(s, '.');
    let ghost p = spec_split(s@, '.');
    proof {
        crate::parse::lemma_split_len(s@, '.');
        assert(parts@.len() == p.len());
    }
    if parts.len() > 2 {
        return Err(InputError::from_str("volume holds more than one point"));
    }
    if !check_all_digits(parts[0]) {
        return Err(InputError::from_str("volume holds a non-digit"));
    }
    if parts.len() == 2 && !check_all_digits(parts[1]) {
        return Err(InputError::from_str("volume holds a non-digit"));
    }
    if parts[0].unicode_len() == 0 && (parts.len() == 1 || parts[1].unicode_len() == 0) {
        return Err(InputError::from_str("volume holds no digit"));
    }
    let int_part = digits_capped(parts[0]);
    let frac_zero = if parts.len() == 2 {
        crate::parse::check_zero_value(parts[1])
    } else {
        true
    };
    proof {
        assert(parts@[0]@ == p[0]);
        if parts@.len() == 2 {
            assert(parts@[1]@ == p[1]);
            lemma_digits_val_bound(p[1]);
        }
        let iv = digits_val(p[0]);
        if int_part <= 1 {
            assert(iv == int_part);
        } else {
            assert(iv >= 2);
        }
    }
    // the fraction must lie in (0, 1]: exactly one, or a nonzero fraction
    // below one
    if !((int_part == 1 && frac_zero) || (int_part == 0 && !frac_zero)) {
        return Err(InputError::from_str("volume must lie in (0, 1]"));
    }
    let frac: u64 = if parts.len() == 2 {
        let f = parts[1];
        let k = f.unicode_len();
        let kk = if k > 9 {
            9
        } else {
            k
        };
        let f9 = digits_prefix_val(f, kk);
        let den = pow10_u64(kk);
        proof {
            assert(all_digits(f@.take(kk as int))) by {
                assert(forall|i: int| 0 <= i < kk ==> f@.take(kk as int)[i] == f@[i]);
            }
            lemma_digits_val_bound(f@.take(kk as int));
            if k > 9 {
                lemma_frac_truncate(f@);
            } else {
                assert(f@.take(kk as int) =~= f@);
            }
            assert((f9 as int) * 128 < (den as int) * 128) by (nonlinear_arith)
                requires
                    (f9 as int) < (den as int),
            ;
            lemma_multiply_divide_lt((f9 as int) * 128, den as int, 128);
            lemma_div_pos_is_pos((f9 as int) * 128, den as int);
        }
        (f9 as u64) * 128 / den
    } else {
        0
    };
    proof {
        assert(frac < 128);
        assert(frac == (if p.len() == 2 {
            (digits_val(p[1]) * 128) / pow10(p[1].len())
        } else {
            0int
        }));
        lemma_digits_val_bound(p[0]);
    }
    let raw: u64 = (int_part as u64) * 128 + frac;
    Ok(raw as i32)
}

/// Splits one handler binding line on commas and validates its shape:
/// exactly five fields, and a handler name that is not blank. An error's
/// message names the offending line.
pub fn split_sound_line(line: &str) -> (r: Result<Vec<&str>, InputError>)
    ensures
        r is Ok <==> (spec_split(line@, ',').len() == 5 && spec_trim(
            spec_split(line@, ',')[2],
        ).len() != 0),
        r is Ok ==> views_of(r->Ok_0@) == spec_split(line@, ','),
        r is Err ==> r->Err_0@.kind == ErrorKind::Parse,
        spec_split(line@, ',').len() != 5 ==> r is Err && r->Err_0@.message
            == "Incorrect number of elements for "@ + line@,
        spec_split(line@, ',').len() == 5 && spec_trim(spec_split(line@, ',')[2]).len() == 0
            ==> r is Err && r->Err_0@.message == "Missing name for event: "@ + line@,
{
    let parts = split_on(line, ',');
    if parts.len() != 5 {
        let mut message = String::new();
        message.append("Incorrect number of elements for ");
        message.append(line);
        proof {
            assert(message@ =~= "Incorrect number of elements for "@ + line@);
        }
        return Err(InputError::new(message));
    }
    let name = trim_ascii(parts[2]);
    if name.is_empty() {
        let mut message = String::new();
        message.append("Missing name for event: ");
        message.append(line);
        proof {
            assert(message@ =~= "Missing name for event: "@ + line@);
        }
        return Err(InputError::new(message));
    }
    Ok(parts)
}

/// Whether a sound field is well-formed: empty, a bare path, or a path and
/// a volume fraction separated by one colon.
pub open spec fn spec_sound_ok(s: Seq<char>) -> bool {
    ||| s.len() == 0
    ||| spec_split(s, ':').len() == 1
    ||| (spec_split(s, ':').len() == 2 && is_volume_token(spec_split(s, ':')[1]))
}

/// The sound a well-formed sound field denotes: none for the empty field, a
/// path at full volume, or a path at the given fraction of full volume.
pub open spec fn spec_sound_file(s: Seq<char>) -> Option<SoundFileModel> {
    if s.len() == 0 {
        Option::None
    } else {
        let parts = spec_split(s, ':');
        if parts.len() == 1 {
            Option::Some(SoundFileModel { path: parts[0], volume: 128 })
        } else {
            Option::Some(SoundFileModel { path: parts[0], volume: spec_volume(parts[1]) })
        }
    }
}

/// Parses a sound field: an empty field means no sound, a bare filename
/// plays at full volume, and `path:volume` plays at the given fraction of
/// full volume.
pub fn parse_sound_filename(filename: &str) -> (r: Result<Option<SoundFile>, InputError>)
    ensures
        r is Ok <==> spec_sound_ok(filename@),
        r is Ok ==> sound_model(r->Ok_0) == spec_sound_file(filename@),
        r is Err ==> r->Err_0@.kind == ErrorKind::Parse,
{
    if filename.is_empty() {
        return Ok(None);
    }
    let parts = split_on(filename, ':');
    proof {
        crate::parse::lemma_split_len(filename@, ':');
        assert(parts@.len() == spec_split(filename@, ':').len());
    }
    if parts.len() == 1 {
        return Ok(Some(SoundFile { path: parts[0].to_owned(), volume: MAX_VOLUME }));
    }
    if parts.len() == 2 {
        let volume = parse_volume(parts[1])?;
        return Ok(Some(SoundFile { path: parts[0].to_owned(), volume }));
    }
    Err(InputError::from_str("sound field holds more than one colon"))
}

/// Builds the handler for one binding, if the binding asks for anything: a
/// binding with no sound in either direction yields no handler, since it
/// carries no effect to perform.
pub fn create_handler(
    handler_name: String,
    on_file: Option<SoundFile>,
    off_file: Option<SoundFile>,
) -> (r: Option<EventHandler>)
    ensures
        r is Some <==> (on_file is Some || off_file is Some),
        r is Some ==> r->Some_0@ == (EventHandlerModel {
            name: handler_name@,
            on_sound: sound_model(on_file),
            off_sound: sound_model(off_file),
        }),
{
    if on_file.is_some() || off_file.is_some() {
        Some(EventHandler::new(handler_name, on_file, off_file))
    } else {
        None
    }
}

/// Whether one handler binding line is well-formed: five comma-separated
/// fields, a non-blank handler name, a key that is either the reserved
/// default name or a device name with a bit index fitting a byte, and two
/// well-formed sound fields.
pub open spec fn spec_binding_ok(l: Seq<char>) -> bool {
    let p = spec_split(l, ',');
    &&& p.len() == 5
    &&& spec_trim(p[2]).len() != 0
    &&& (p[0] == crate::DEFAULT_NAME@ || (is_digits(spec_trim(p[1])) && digits_val(
        spec_trim(p[1]),
    ) <= 255))
    &&& spec_sound_ok(spec_trim(p[3]))
    &&& spec_sound_ok(spec_trim(p[4]))
}

/// The handler map key a well-formed binding line registers.
pub open spec fn spec_binding_key(l: Seq<char>) -> (Seq<char>, u8) {
    let p = spec_split(l, ',');
    if p[0] == crate::DEFAULT_NAME@ {
        spec_default_key()
    } else {
        (p[0], digits_val(spec_trim(p[1])) as u8)
    }
}

/// The handler a well-formed binding line registers, if it registers one.
pub open spec fn spec_binding_handler(l: Seq<char>) -> Option<EventHandlerModel> {
    let p = spec_split(l, ',');
    let on = spec_sound_file(spec_trim(p[3]));
    let off = spec_sound_file(spec_trim(p[4]));
    if on is Some || off is Some {
        Option::Some(EventHandlerModel { name: spec_trim(p[2]), on_sound: on, off_sound: off })
    } else {
        Option::None
    }
}

/// Parses one handler binding line into its key and handler. The key is the
/// reserved default key when the device field is the default name, else the
/// device name and bit index; a binding with no sounds yields no handler.
pub fn parse_handler_line(line: &str) -> (r: Result<
    ((String, u8), Option<EventHandler>),
    InputError,
>)
    ensures
        r is Ok <==> spec_binding_ok(line@),
        r is Ok ==> {
            &&& (r->Ok_0.0.0@, r->Ok_0.0.1) == spec_binding_key(line@)
            &&& (r->Ok_0.1 is Some <==> spec_binding_handler(line@) is Some)
            &&& (r->Ok_0.1 is Some ==> r->Ok_0.1->Some_0@ == spec_binding_handler(
                line@,
            )->Some_0)
        },
        r is Err ==> r->Err_0@.kind == ErrorKind::Parse,
{
    let parts = split_sound_line(line)?;
    let device_field: String = parts[0].to_owned();
    let default_name: String = crate::DEFAULT_NAME.to_owned();
    let key: (String, u8) = if device_field == default_name {
        default_handler_event()
    } else {
        let bit = parse_u8(trim_ascii(parts[1]))?;
        (device_field, bit)
    };
    let on_file = parse_sound_filename(trim_ascii(parts[3]))?;
    let off_file = parse_sound_filename(trim_ascii(parts[4]))?;
    let name = trim_ascii(parts[2]).to_owned();
    let handler = create_handler(name, on_file, off_file);
    Ok((key, handler))
}

/// The handler map a sequence of well-formed binding lines builds: bindings
/// registered in order, later bindings for a key replacing earlier ones,
/// bindings with no sounds registering nothing.
pub open spec fn spec_bindings_map(lines: Seq<Seq<char>>) -> Map<
    (Seq<char>, u8),
    EventHandlerModel,
>
    decreases lines.len(),
{
    if lines.len() == 0 {
        Map::empty()
    } else {
        let m = spec_bindings_map(lines.drop_last());
        match spec_binding_handler(lines.last()) {
            Option::None => m,
            Option::Some(h) => m.insert(spec_binding_key(lines.last()), h),
        }
    }
}

/// The views of a sequence of owned lines.
pub open spec fn line_views(lines: Seq<String>) -> Seq<Seq<char>> {
    lines.map_values(|l: String| l@)
}

/// Builds the handler registry from the lines of a bindings file, already
/// read by the embedding program. Fails on the first malformed line, before
/// any polling begins; a well-formed file yields the registry with later
/// bindings for a key replacing earlier ones.
pub fn load_handlers(lines: &Vec<String>) -> (r: Result<HandlerMap, InputError>)
    ensures
        r is Ok <==> (forall|i: int|
            0 <= i < lines@.len() ==> spec_binding_ok(#[trigger] line_views(lines@)[i])),
        r is Ok ==> r->Ok_0@ == spec_bindings_map(line_views(lines@)),
        r is Err ==> r->Err_0@.kind == ErrorKind::Parse,
{
    let mut result = HandlerMap::new();
    let mut i: usize = 0;
    proof {
        assert(line_views(lines@).take(0) =~= Seq::<Seq<char>>::empty());
    }
    while i < lines.len()
        invariant
            i <= lines@.len(),
            forall|k: int| 0 <= k < i ==> spec_binding_ok(#[trigger] line_views(lines@)[k]),
            result@ == spec_bindings_map(line_views(lines@).take(i as int)),
        decreases lines@.len() - i,
    {
        let line: &String = &lines[i];
        let ((key_name, key_bit), handler) = match parse_handler_line(line.as_str()) {
            Ok(parsed) => parsed,
            Err(e) => {
                proof {
                    assert(!spec_binding_ok(line_views(lines@)[i as int]));
                }
                return Err(e);
            },
        };
        if let Some(h) = handler {
            let _ = result.insert(key_name, key_bit, h);
        }
        proof {
            assert(line_views(lines@).take(i + 1).drop_last() =~= line_views(lines@).take(
                i as int,
            ));
            assert(line_views(lines@).take(i + 1).last() == line_views(lines@)[i as int]);
        }
        i = i + 1;
    }
    proof {
        assert(line_views(lines@).take(lines@.len() as int) =~= line_views(lines@));
    }
    Ok(result)
}

} // verus!
