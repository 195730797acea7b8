//! Convert numbers between positional numeral systems with user-defined
//! alphabets: any string of at least two distinct characters may serve as a
//! base, and its character count is the radix. Digit-strings decode to a
//! machine-word value and values encode back to digit-strings; overflow of
//! the machine range is reported, never wrapped.

pub mod errs;
pub mod model;

use vstd::arithmetic::power::{lemma_pow_increases, pow};
use vstd::prelude::*;
use vstd::string::StrSliceExecFns;

use crate::model::{
    bad_at, char_in, count_char, decode_ok, decoded, digit_of, distinct, encoded, encoded_full,
    first_bad, first_dup_index, first_index, is_first_duplicate, lemma_count_at_least_one,
    lemma_count_take_step, lemma_count_two_not_distinct, lemma_dup_count, lemma_first_index,
    lemma_first_index_found, lemma_partial_acc_step, lemma_take_all, partial_acc, valid_base,
};
use vstd::arithmetic::div_mod::lemma_div_decreases;
use vstd::arithmetic::mul::{lemma_mul_by_zero_is_zero, lemma_mul_is_commutative};

verus! {

/// The binary alphabet.
pub const BASE2: &'static str = "01";

/// The octal alphabet.
pub const BASE8: &'static str = "01234567";

/// The decimal alphabet.
pub const BASE10: &'static str = "0123456789";

/// The hexadecimal alphabet.
pub const BASE16: &'static str = "0123456789ABCDEF";

/// Why a candidate base string cannot serve as an alphabet.
#[derive(Debug, Clone, PartialEq, Eq)]
pub enum CheckBaseError {
    /// The base has fewer than two characters.
    BaseLenTooShort(String),
    /// The character `c` occurs more than once in the base.
    DuplicateCharInBase { base: String, c: char },
}

/// Why a conversion between bases failed.
#[derive(Debug, Clone, PartialEq, Eq)]
pub enum ConversionError {
    /// The base has fewer than two characters.
    BaseLenTooShort(String),
    /// The character `c` occurs more than once in the base.
    DuplicateCharInBase { base: String, c: char },
    /// The digit-string character `c` is not a symbol of `base`.
    CharNotFoundInBase { base: String, c: char },
    /// `base` of length `base_length` raised to `power` left the
    /// machine-word range while decoding.
    ConversionOverflow { base: String, base_length: usize, power: usize },
}

/// What [`check_base`] returns for a base that views as `b`.
pub open spec fn check_base_spec(b: Seq<char>, r: Result<(), CheckBaseError>) -> bool {
    &&& (r is Ok <==> valid_base(b))
    &&& (b.len() < 2 ==> (r matches Err(CheckBaseError::BaseLenTooShort(t)) && t@ == b))
    &&& (b.len() >= 2 && !distinct(b) ==> (r matches Err(CheckBaseError::DuplicateCharInBase {
        base,
        c,
    }) && base@ == b && is_first_duplicate(b, c)))
}

/// The error a decoding of `s` in base `b` reports when it first stops at
/// position `j`: the character itself when it is not a symbol of `b`, and
/// the overflowing weight's exponent otherwise.
pub open spec fn decode_err_at<T>(
    s: Seq<char>,
    b: Seq<char>,
    j: int,
    r: Result<T, ConversionError>,
) -> bool {
    if !char_in(b, s[j]) {
        r matches Err(ConversionError::CharNotFoundInBase { base, c }) && base@ == b && c == s[j]
    } else {
        r matches Err(ConversionError::ConversionOverflow { base, base_length, power }) && base@
            == b && base_length == b.len() && power as int == s.len() - 1 - j
    }
}

/// What [`base_to_decimal`] returns for a digit-string `s` and a base `b`.
pub open spec fn decode_spec(s: Seq<char>, b: Seq<char>, r: Result<usize, ConversionError>) -> bool {
    &&& (r is Ok <==> valid_base(b) && decode_ok(s, b))
    &&& (b.len() < 2 ==> (r matches Err(ConversionError::BaseLenTooShort(t)) && t@ == b))
    &&& (b.len() >= 2 && !distinct(b) ==> (r matches Err(ConversionError::DuplicateCharInBase {
        base,
        c,
    }) && base@ == b && is_first_duplicate(b, c)))
    &&& (valid_base(b) && decode_ok(s, b) ==> (r matches Ok(v) && v == decoded(s, b)))
    &&& (valid_base(b) ==> forall|j: int| first_bad(s, b, j) ==> decode_err_at(s, b, j, r))
}

/// What [`decimal_to_base`] returns for a value `v` and a base `b`.
pub open spec fn encode_spec(v: nat, b: Seq<char>, r: Result<String, CheckBaseError>) -> bool {
    &&& (r is Ok <==> valid_base(b))
    &&& (b.len() < 2 ==> (r matches Err(CheckBaseError::BaseLenTooShort(t)) && t@ == b))
    &&& (b.len() >= 2 && !distinct(b) ==> (r matches Err(CheckBaseError::DuplicateCharInBase {
        base,
        c,
    }) && base@ == b && is_first_duplicate(b, c)))
    &&& (valid_base(b) ==> (r matches Ok(out) && out@ == encoded_full(v, b)))
}

/// What [`base_to_base`] returns for a digit-string `s`, a source base `fb`
/// and a destination base `tb`: the source base and the digit-string are
/// judged first, the destination base only once decoding went through.
pub open spec fn convert_spec(
    s: Seq<char>,
    fb: Seq<char>,
    tb: Seq<char>,
    r: Result<String, ConversionError>,
) -> bool {
    &&& (r is Ok <==> valid_base(fb) && decode_ok(s, fb) && valid_base(tb))
    &&& (fb.len() < 2 ==> (r matches Err(ConversionError::BaseLenTooShort(t)) && t@ == fb))
    &&& (fb.len() >= 2 && !distinct(fb) ==> (r matches Err(ConversionError::DuplicateCharInBase {
        base,
        c,
    }) && base@ == fb && is_first_duplicate(fb, c)))
    &&& (valid_base(fb) ==> forall|j: int| first_bad(s, fb, j) ==> decode_err_at(s, fb, j, r))
    &&& (valid_base(fb) && decode_ok(s, fb) && tb.len() < 2 ==> (r matches Err(
        ConversionError::BaseLenTooShort(t),
    ) && t@ == tb))
    &&& (valid_base(fb) && decode_ok(s, fb) && tb.len() >= 2 && !distinct(tb) ==> (r matches Err(
        ConversionError::DuplicateCharInBase { base, c },
    ) && base@ == tb && is_first_duplicate(tb, c)))
    &&& (valid_base(fb) && decode_ok(s, fb) && valid_base(tb) ==> (r matches Ok(out) && out@
        == encoded_full(decoded(s, fb), tb)))
}

/// Relies on String::push: appends exactly the given character.
#[verifier::external_body]
fn push_char(out: &mut String, c: char)
    ensures
        final(out)@ == old(out)@.push(c),
{
    out.push(c);
}

/// The characters of `s`, one `char` per Unicode scalar value.
fn chars_of(s: &str) -> (r: Vec<char>)
    ensures
        r@ == s@,
{
    let n: usize = s.unicode_len();
    let mut r: Vec<char> = Vec::new();
    let mut i: usize = 0;
    while i < n
        invariant
            n == s@.len(),
            i <= n,
            r@ == s@.take(i as int),
        decreases n - i,
    {
        r.push(s.get_char(i));
        proof {
            assert(r@ =~= s@.take(i + 1));
        }
        i = i + 1;
    }
    proof {
        assert(r@ =~= s@);
    }
    r
}

/// The string whose characters are exactly those of `v`, in order.
fn string_from_chars(v: &Vec<char>) -> (r: String)
    ensures
        r@ == v@,
{
    let mut out = String::new();
    let n: usize = v.len();
    let mut i: usize = 0;
    while i < n
        invariant
            n == v@.len(),
            i <= n,
            out@ == v@.take(i as int),
        decreases n - i,
    {
        push_char(&mut out, v[i]);
        proof {
            assert(out@ =~= v@.take(i + 1));
        }
        i = i + 1;
    }
    proof {
        assert(out@ =~= v@);
    }
    out
}

/// How many times `c` occurs in `v`.
fn count_occurrences(v: &Vec<char>, c: char) -> (cnt: usize)
    ensures
        cnt == count_char(v@, c),
{
    let mut cnt: usize = 0;
    let n: usize = v.len();
    let mut k: usize = 0;
    while k < n
        invariant
            n == v@.len(),
            k <= n,
            cnt <= k,
            cnt == count_char(v@.take(k as int), c),
        decreases n - k,
    {
        proof {
            lemma_count_take_step(v@, c, k as int);
        }
        if v[k] == c {
            cnt = cnt + 1;
        }
        k = k + 1;
    }
    proof {
        lemma_take_all(v@);
    }
    cnt
}

/// The position of the first occurrence of `c` in `v`, if `c` occurs.
fn position_of(v: &Vec<char>, c: char) -> (r: Option<usize>)
    ensures
        match r {
            Some(i) => first_index(v@, c) == i && i < v@.len(),
            None => !char_in(v@, c),
        },
{
    let n: usize = v.len();
    let mut k: usize = 0;
    while k < n
        invariant
            n == v@.len(),
            k <= n,
            forall|j: int| 0 <= j < k ==> v@[j] != c,
        decreases n - k,
    {
        if v[k] == c {
            proof {
                lemma_first_index_found(v@, c, k as int);
            }
            return Some(k);
        }
        k = k + 1;
    }
    proof {
        lemma_first_index(v@, c);
        if first_index(v@, c) >= 0 {
            assert(v@[first_index(v@, c)] == c);
        }
    }
    None
}

/// `base` raised to `exp`, or `None` when the power exceeds the machine
/// range.
fn checked_pow_usize(base: usize, exp: usize) -> (r: Option<usize>)
    ensures
        match r {
            Some(p) => p == pow(base as int, exp as nat),
            None => pow(base as int, exp as nat) > usize::MAX as int,
        },
{
    proof {
        reveal(pow);
    }
    let mut acc: usize = 1;
    let mut k: usize = 0;
    while k < exp
        invariant
            k <= exp,
            acc == pow(base as int, k as nat),
        decreases exp - k,
    {
        proof {
            reveal(pow);
            assert(pow(base as int, (k + 1) as nat) == base * pow(base as int, k as nat));
            lemma_mul_is_commutative(base as int, acc as int);
        }
        acc = match acc.checked_mul(base) {
            Some(a) => a,
            None => {
                proof {
                    if base == 0 {
                        assert(base as int * acc as int == 0);
                    }
                    lemma_pow_increases(base as nat, (k + 1) as nat, exp as nat);
                }
                return None;
            },
        };
        k = k + 1;
    }
    Some(acc)
}

/// Checks that a candidate base string can serve as an alphabet: at least
/// two characters, none of them repeated. Reports the first character
/// (scanning left to right) that occurs more than once.
pub fn check_base(base: &str) -> (r: Result<(), CheckBaseError>)
    ensures
        check_base_spec(base@, r),
{
    let v = chars_of(base);
    if v.len() < 2 {
        return Err(CheckBaseError::BaseLenTooShort(base.to_owned()));
    }
    let n: usize = v.len();
    let mut i: usize = 0;
    while i < n
        invariant
            v@ == base@,
            n == v@.len(),
            n >= 2,
            i <= n,
            forall|j: int| 0 <= j < i ==> count_char(v@, v@[j]) == 1,
        decreases n - i,
    {
        let cnt: usize = count_occurrences(&v, v[i]);
        if cnt >= 2 {
            proof {
                lemma_count_two_not_distinct(base@, base@[i as int]);
                assert(first_dup_index(base@, i as int));
                assert(is_first_duplicate(base@, base@[i as int]));
            }
            return Err(
                CheckBaseError::DuplicateCharInBase { base: base.to_owned(), c: v[i] },
            );
        }
        proof {
            lemma_count_at_least_one(base@, i as int);
        }
        i = i + 1;
    }
    proof {
        assert forall|p: int, q: int| 0 <= p < q < base@.len() implies base@[p] != base@[q] by {
            if base@[p] == base@[q] {
                lemma_dup_count(base@, p, q);
            }
        }
    }
    Ok(())
}

/// Decodes a digit-string in the given base to its machine-word value,
/// scanning left to right. The empty digit-string decodes to zero. Reports
/// the first failure: a character that is not a symbol of the base, or a
/// positional weight or running total that leaves the machine range.
pub fn base_to_decimal(nbr: &str, from_base: &str) -> (r: Result<usize, ConversionError>)
    ensures
        decode_spec(nbr@, from_base@, r),
{
    match check_base(from_base) {
        Err(CheckBaseError::BaseLenTooShort(t)) => {
            return Err(ConversionError::BaseLenTooShort(t));
        },
        Err(CheckBaseError::DuplicateCharInBase { base, c }) => {
            return Err(ConversionError::DuplicateCharInBase { base, c });
        },
        Ok(()) => {},
    }
    let b = chars_of(from_base);
    let s = chars_of(nbr);
    let n: usize = s.len();
    let blen: usize = b.len();
    let mut total: usize = 0;
    let mut j: usize = 0;
    proof {
        assert(s@.take(0) =~= Seq::<char>::empty());
        lemma_mul_by_zero_is_zero(pow(b@.len() as int, (s@.len() - 0) as nat));
    }
    while j < n
        invariant
            valid_base(from_base@),
            b@ == from_base@,
            s@ == nbr@,
            n == s@.len(),
            blen == b@.len(),
            j <= n,
            forall|k: int| 0 <= k < j ==> !bad_at(s@, b@, k),
            total == partial_acc(s@, b@, j as int),
        decreases n - j,
    {
        let c: char = s[j];
        let x: usize = match position_of(&b, c) {
            Some(x) => x,
            None => {
                proof {
                    assert(bad_at(s@, b@, j as int));
                    lemma_first_bad_here(s@, b@, j as int);
                }
                return Err(
                    ConversionError::CharNotFoundInBase { base: from_base.to_owned(), c },
                );
            },
        };
        let e: usize = n - 1 - j;
        let w: usize = match checked_pow_usize(blen, e) {
            Some(w) => w,
            None => {
                proof {
                    assert(bad_at(s@, b@, j as int));
                    lemma_first_bad_here(s@, b@, j as int);
                }
                return Err(
                    ConversionError::ConversionOverflow {
                        base: from_base.to_owned(),
                        base_length: blen,
                        power: e,
                    },
                );
            },
        };
        proof {
            lemma_partial_acc_step(s@, b@, j as int);
            assert(digit_of(b@, c) == x);
        }
        let prod: usize = match x.checked_mul(w) {
            Some(p) => p,
            None => {
                proof {
                    assert(partial_acc(s@, b@, j as int + 1) > usize::MAX as int);
                    assert(bad_at(s@, b@, j as int));
                    lemma_first_bad_here(s@, b@, j as int);
                }
                return Err(
                    ConversionError::ConversionOverflow {
                        base: from_base.to_owned(),
                        base_length: blen,
                        power: e,
                    },
                );
            },
        };
        total = match total.checked_add(prod) {
            Some(t) => t,
            None => {
                proof {
                    assert(partial_acc(s@, b@, j as int + 1) > usize::MAX as int);
                    assert(bad_at(s@, b@, j as int));
                    lemma_first_bad_here(s@, b@, j as int);
                }
                return Err(
                    ConversionError::ConversionOverflow {
                        base: from_base.to_owned(),
                        base_length: blen,
                        power: e,
                    },
                );
            },
        };
        j = j + 1;
    }
    proof {
        lemma_take_all(s@);
        reveal(pow);
        assert(total == decoded(s@, b@) * pow(b@.len() as int, 0));
    }
    Ok(total)
}

/// Decoding of `s` in `b` first stops exactly at `j` when every earlier
/// character went through; no other position is the first stop.
proof fn lemma_first_bad_here(s: Seq<char>, b: Seq<char>, j: int)
    requires
        0 <= j < s.len(),
        bad_at(s, b, j),
        forall|k: int| 0 <= k < j ==> !bad_at(s, b, k),
    ensures
        first_bad(s, b, j),
        !decode_ok(s, b),
        forall|k: int| first_bad(s, b, k) ==> k == j,
{
    assert forall|k: int| first_bad(s, b, k) implies k == j by {
        if k < j {
            assert(!bad_at(s, b, k));
        } else if k > j {
            assert(!bad_at(s, b, j));
        }
    }
}

/// Encodes a machine-word value as a digit-string in the given base. Zero
/// encodes to the single symbol at position 0; any other value to its
/// standard positional form without leading zero symbols. Only an invalid
/// base fails.
pub fn decimal_to_base(nbr: usize, to_base: &str) -> (r: Result<String, CheckBaseError>)
    ensures
        encode_spec(nbr as nat, to_base@, r),
{
    match check_base(to_base) {
        Err(e) => {
            return Err(e);
        },
        Ok(()) => {},
    }
    let b = chars_of(to_base);
    if nbr == 0 {
        let mut out = String::new();
        push_char(&mut out, b[0]);
        proof {
            assert(out@ =~= encoded_full(0, to_base@));
        }
        return Ok(out);
    }
    let blen: usize = b.len();
    let mut digits: Vec<char> = Vec::new();
    let mut v: usize = nbr;
    while v > 0
        invariant
            valid_base(to_base@),
            b@ == to_base@,
            blen == b@.len(),
            encoded(nbr as nat, b@) == encoded(v as nat, b@) + digits@,
        decreases v,
    {
        let ghost dpre = digits@;
        let d: usize = v % blen;
        digits.insert(0, b[d]);
        proof {
            lemma_div_decreases(v as int, blen as int);
            assert(digits@ =~= seq![b@[d as int]] + dpre);
            assert(encoded(v as nat, b@) == encoded((v as nat) / b@.len(), b@).push(
                b@[d as int],
            ));
            assert(encoded((v as nat) / b@.len(), b@).push(b@[d as int]) + dpre =~= encoded(
                (v as nat) / b@.len(),
                b@,
            ) + digits@);
        }
        v = v / blen;
    }
    proof {
        assert(encoded(nbr as nat, b@) =~= digits@);
    }
    let out = string_from_chars(&digits);
    Ok(out)
}

/// Converts a digit-string from one base to another: decodes it in the
/// source base, then encodes the value in the destination base. Reports
/// whichever failure the two steps meet first.
pub fn base_to_base(nbr: &str, from_base: &str, to_base: &str) -> (r: Result<
    String,
    ConversionError,
>)
    ensures
        convert_spec(nbr@, from_base@, to_base@, r),
{
    let v: usize = match base_to_decimal(nbr, from_base) {
        Ok(v) => v,
        Err(e) => {
            proof {
                if valid_base(from_base@) {
                    assert forall|j: int| first_bad(nbr@, from_base@, j) implies decode_err_at(
                        nbr@,
                        from_base@,
                        j,
                        Err::<String, ConversionError>(e),
                    ) by {
                        assert(decode_err_at(
                            nbr@,
                            from_base@,
                            j,
                            Err::<usize, ConversionError>(e),
                        ));
                    }
                }
            }
            return Err(e);
        },
    };
    proof {
        assert forall|j: int| !first_bad(nbr@, from_base@, j) by {
            if 0 <= j < nbr@.len() {
                assert(!bad_at(nbr@, from_base@, j));
            }
        }
    }
    match decimal_to_base(v, to_base) {
        Ok(out) => Ok(out),
        Err(CheckBaseError::BaseLenTooShort(t)) => Err(ConversionError::BaseLenTooShort(t)),
        Err(CheckBaseError::DuplicateCharInBase { base, c }) => Err(
            ConversionError::DuplicateCharInBase { base, c },
        ),
    }
}

} // verus!
