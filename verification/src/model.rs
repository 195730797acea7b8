//! Mathematical model of positional numeral systems with user-defined
//! alphabets: what a valid alphabet is, what value a digit-string denotes,
//! which digit-string denotes a given value, and when decoding must stop
//! because a positional weight or the running total leaves the machine range.

use vstd::arithmetic::div_mod::{
    lemma_div_decreases, lemma_fundamental_div_mod, lemma_mod_bound,
};
use vstd::arithmetic::mul::{lemma_mul_left_inequality, lemma_mul_nonnegative};
use vstd::arithmetic::power::{lemma_pow_increases, lemma_pow_positive, pow};
use vstd::prelude::*;

verus! {

/// No character occurs twice in `s`.
pub open spec fn distinct(s: Seq<char>) -> bool {
    forall|i: int, j: int| 0 <= i < j < s.len() ==> s[i] != s[j]
}

/// A usable alphabet: at least two symbols, all distinct.
/// Its length is the radix of the positional system it defines.
pub open spec fn valid_base(b: Seq<char>) -> bool {
    &&& b.len() >= 2
    &&& distinct(b)
}

/// How many times `c` occurs in `s`.
pub open spec fn count_char(s: Seq<char>, c: char) -> nat
    decreases s.len(),
{
    if s.len() == 0 {
        0
    } else {
        count_char(s.drop_last(), c) + (if s.last() == c {
            1nat
        } else {
            0nat
        })
    }
}

/// Index of the first occurrence of `c` in `s`, or -1 if `c` is absent.
pub open spec fn first_index(s: Seq<char>, c: char) -> int
    decreases s.len(),
{
    if s.len() == 0 {
        -1
    } else if s[0] == c {
        0
    } else {
        let r = first_index(s.drop_first(), c);
        if r < 0 {
            -1
        } else {
            r + 1
        }
    }
}

/// `c` is a symbol of the alphabet `b`.
pub open spec fn char_in(b: Seq<char>, c: char) -> bool {
    first_index(b, c) >= 0
}

/// The digit value of symbol `c` in alphabet `b`: its position, or 0 when
/// `c` is not a symbol of `b` (decoding rejects that case separately).
pub open spec fn digit_of(b: Seq<char>, c: char) -> nat {
    if first_index(b, c) >= 0 {
        first_index(b, c) as nat
    } else {
        0
    }
}

/// The value the digit-string `s` denotes in alphabet `b`, in standard
/// positional notation: the leftmost symbol carries the highest weight.
/// The empty digit-string denotes zero.
pub open spec fn decoded(s: Seq<char>, b: Seq<char>) -> nat
    decreases s.len(),
{
    if s.len() == 0 {
        0
    } else {
        decoded(s.drop_last(), b) * b.len() + digit_of(b, s.last())
    }
}

/// The digit-string that denotes `v` in alphabet `b`, without leading zero
/// symbols; empty for `v == 0` (encoding gives zero its one-symbol form
/// separately, see [`encoded_full`]).
pub open spec fn encoded(v: nat, b: Seq<char>) -> Seq<char>
    decreases v,
        via encoded_decreases
{
    if v == 0 || b.len() < 2 {
        Seq::empty()
    } else {
        encoded(v / b.len(), b).push(b[(v % b.len()) as int])
    }
}

#[via_fn]
proof fn encoded_decreases(v: nat, b: Seq<char>) {
    if v > 0 && b.len() >= 2 {
        lemma_div_decreases(v as int, b.len() as int);
    }
}

/// The digit-string that encoding returns for `v` in alphabet `b`:
/// the symbol at position 0 alone for zero, [`encoded`] otherwise.
pub open spec fn encoded_full(v: nat, b: Seq<char>) -> Seq<char> {
    if v == 0 {
        seq![b[0]]
    } else {
        encoded(v, b)
    }
}

/// The running total after the leftmost `j` characters of `s` have been
/// accumulated, each multiplied by its final positional weight.
pub open spec fn partial_acc(s: Seq<char>, b: Seq<char>, j: int) -> int {
    decoded(s.take(j), b) * pow(b.len() as int, (s.len() - j) as nat)
}

/// Decoding `s` in alphabet `b` stops with an error while processing the
/// character at position `j`: the character is not a symbol of `b`, or its
/// positional weight exceeds the machine range, or the running total does.
pub open spec fn bad_at(s: Seq<char>, b: Seq<char>, j: int) -> bool {
    ||| !char_in(b, s[j])
    ||| pow(b.len() as int, (s.len() - 1 - j) as nat) > usize::MAX as int
    ||| partial_acc(s, b, j + 1) > usize::MAX as int
}

/// Decoding `s` in alphabet `b` runs through every character without error.
pub open spec fn decode_ok(s: Seq<char>, b: Seq<char>) -> bool {
    forall|j: int| 0 <= j < s.len() ==> !bad_at(s, b, j)
}

/// Position `j` is where decoding `s` in alphabet `b` first stops:
/// characters are processed left to right, so every earlier one went through.
pub open spec fn first_bad(s: Seq<char>, b: Seq<char>, j: int) -> bool {
    &&& 0 <= j < s.len()
    &&& bad_at(s, b, j)
    &&& forall|k: int| 0 <= k < j ==> !bad_at(s, b, k)
}

/// A decoding that cannot run through every character stops first at some
/// position: the error clauses of the decoding contract are never vacuous.
pub proof fn lemma_first_bad_exists(s: Seq<char>, b: Seq<char>)
    requires
        !decode_ok(s, b),
    ensures
        exists|j: int| first_bad(s, b, j),
{
    let j0 = choose|j: int| 0 <= j < s.len() && bad_at(s, b, j);
    lemma_first_bad_below(s, b, j0);
}

proof fn lemma_first_bad_below(s: Seq<char>, b: Seq<char>, j: int)
    requires
        0 <= j < s.len(),
        bad_at(s, b, j),
    ensures
        exists|k: int| first_bad(s, b, k),
    decreases j,
{
    if forall|k: int| 0 <= k < j ==> !bad_at(s, b, k) {
        assert(first_bad(s, b, j));
    } else {
        let k = choose|k: int| 0 <= k < j && bad_at(s, b, k);
        lemma_first_bad_below(s, b, k);
    }
}

/// Position `i` holds the first character of `s` (left to right) that
/// occurs more than once in `s`.
pub open spec fn first_dup_index(s: Seq<char>, i: int) -> bool {
    &&& 0 <= i < s.len()
    &&& count_char(s, s[i]) >= 2
    &&& forall|j: int| 0 <= j < i ==> count_char(s, s[j]) == 1
}

/// `c` is the first character of `s` that occurs more than once in `s`.
pub open spec fn is_first_duplicate(s: Seq<char>, c: char) -> bool {
    exists|i: int| first_dup_index(s, i) && s[i] == c
}

/// Extending a prefix of `s` by one character raises the count of that
/// character by one and keeps every other count.
pub proof fn lemma_count_take_step(s: Seq<char>, c: char, k: int)
    requires
        0 <= k < s.len(),
    ensures
        count_char(s.take(k + 1), c) == count_char(s.take(k), c) + (if s[k] == c {
            1nat
        } else {
            0nat
        }),
{
    assert(s.take(k + 1).drop_last() =~= s.take(k));
    assert(s.take(k + 1).last() == s[k]);
}

/// A whole sequence is one of its own prefixes.
pub proof fn lemma_take_all(s: Seq<char>)
    ensures
        s.take(s.len() as int) =~= s,
{
}

/// A character that stands in `s` is counted at least once.
pub proof fn lemma_count_at_least_one(s: Seq<char>, i: int)
    requires
        0 <= i < s.len(),
    ensures
        count_char(s, s[i]) >= 1,
    decreases s.len(),
{
    if i < s.len() - 1 {
        lemma_count_at_least_one(s.drop_last(), i);
        assert(s.drop_last()[i] == s[i]);
    }
}

/// Two occurrences of the same character make its count at least two.
pub proof fn lemma_dup_count(s: Seq<char>, i: int, j: int)
    requires
        0 <= i < j < s.len(),
        s[i] == s[j],
    ensures
        count_char(s, s[i]) >= 2,
    decreases s.len(),
{
    if j == s.len() - 1 {
        lemma_count_at_least_one(s.drop_last(), i);
        assert(s.drop_last()[i] == s[i]);
    } else {
        lemma_dup_count(s.drop_last(), i, j);
        assert(s.drop_last()[i] == s[i]);
    }
}

/// A character counted at least once stands somewhere in `s`.
pub proof fn lemma_count_pos_exists(s: Seq<char>, c: char)
    requires
        count_char(s, c) >= 1,
    ensures
        exists|i: int| 0 <= i < s.len() && s[i] == c,
    decreases s.len(),
{
    if s.last() == c {
        assert(s[s.len() - 1] == c);
    } else {
        lemma_count_pos_exists(s.drop_last(), c);
        let i = choose|i: int| 0 <= i < s.len() - 1 && s.drop_last()[i] == c;
        assert(s[i] == c);
    }
}

/// A character counted at least twice breaks distinctness.
pub proof fn lemma_count_two_not_distinct(s: Seq<char>, c: char)
    requires
        count_char(s, c) >= 2,
    ensures
        !distinct(s),
    decreases s.len(),
{
    if s.last() == c {
        lemma_count_pos_exists(s.drop_last(), c);
        let i = choose|i: int| 0 <= i < s.len() - 1 && s.drop_last()[i] == c;
        assert(s[i] == s[s.len() - 1]);
    } else {
        lemma_count_two_not_distinct(s.drop_last(), c);
        let (i, j) = choose|i: int, j: int|
            0 <= i < j < s.len() - 1 && s.drop_last()[i] == s.drop_last()[j];
        assert(s[i] == s[j]);
    }
}

/// What [`first_index`] returns: the position of `c` when `c` stands in
/// `s`, with nothing equal to `c` before it; -1 exactly when `c` is absent.
pub proof fn lemma_first_index(s: Seq<char>, c: char)
    ensures
        first_index(s, c) >= -1,
        first_index(s, c) >= 0 ==> first_index(s, c) < s.len() && s[first_index(s, c)] == c
            && (forall|k: int| 0 <= k < first_index(s, c) ==> s[k] != c),
        first_index(s, c) < 0 ==> (forall|k: int| 0 <= k < s.len() ==> s[k] != c),
    decreases s.len(),
{
    if s.len() == 0 {
    } else if s[0] == c {
    } else {
        let t = s.drop_first();
        lemma_first_index(t, c);
        let r = first_index(t, c);
        if r >= 0 {
            assert(s[r + 1] == t[r]);
            assert forall|k: int| 0 <= k < r + 1 implies s[k] != c by {
                if k > 0 {
                    assert(t[k - 1] == s[k]);
                }
            }
        } else {
            assert forall|k: int| 0 <= k < s.len() implies s[k] != c by {
                if k > 0 {
                    assert(t[k - 1] == s[k]);
                }
            }
        }
    }
}

/// A scan that finds `c` at position `i` with every earlier character
/// different finds the first occurrence.
pub proof fn lemma_first_index_found(s: Seq<char>, c: char, i: int)
    requires
        0 <= i < s.len(),
        s[i] == c,
        forall|k: int| 0 <= k < i ==> s[k] != c,
    ensures
        first_index(s, c) == i,
    decreases i,
{
    if i > 0 {
        let t = s.drop_first();
        assert(s[0] != c);
        assert(t[i - 1] == s[i]);
        assert forall|k: int| 0 <= k < i - 1 implies t[k] != c by {
            assert(t[k] == s[k + 1]);
        }
        lemma_first_index_found(t, c, i - 1);
    }
}

/// In a valid alphabet every symbol's digit value is its own position.
pub proof fn lemma_digit_of_base(b: Seq<char>, d: int)
    requires
        valid_base(b),
        0 <= d < b.len(),
    ensures
        first_index(b, b[d]) == d,
        char_in(b, b[d]),
        digit_of(b, b[d]) == d,
{
    assert forall|k: int| 0 <= k < d implies b[k] != b[d] by {
        assert(distinct(b));
    }
    lemma_first_index_found(b, b[d], d);
}

/// One decoding step: the value of a prefix one character longer.
pub proof fn lemma_decoded_step(s: Seq<char>, b: Seq<char>, j: int)
    requires
        0 <= j < s.len(),
    ensures
        decoded(s.take(j + 1), b) == decoded(s.take(j), b) * b.len() + digit_of(b, s[j]),
{
    assert(s.take(j + 1).drop_last() =~= s.take(j));
    assert(s.take(j + 1).last() == s[j]);
}

/// One accumulation step: the running total grows by the digit value of
/// the character at `j` times its positional weight.
pub proof fn lemma_partial_acc_step(s: Seq<char>, b: Seq<char>, j: int)
    requires
        0 <= j < s.len(),
        b.len() >= 1,
    ensures
        partial_acc(s, b, j + 1) == partial_acc(s, b, j) + digit_of(b, s[j]) * pow(
            b.len() as int,
            (s.len() - 1 - j) as nat,
        ),
{
    reveal(pow);
    let r = b.len() as int;
    let e = (s.len() - 1 - j) as nat;
    let d0 = decoded(s.take(j), b) as int;
    let d1 = decoded(s.take(j + 1), b) as int;
    let x = digit_of(b, s[j]) as int;
    let p = pow(r, e);
    lemma_decoded_step(s, b, j);
    assert((s.len() - j) as nat == e + 1);
    assert(pow(r, e + 1) == r * p);
    assert(d1 * p == d0 * pow(r, e + 1) + x * p) by (nonlinear_arith)
        requires
            d1 == d0 * r + x,
            pow(r, e + 1) == r * p,
    ;
}

/// No running total exceeds the value of the whole digit-string.
pub proof fn lemma_partial_acc_le(s: Seq<char>, b: Seq<char>, j: int)
    requires
        0 <= j <= s.len(),
        b.len() >= 1,
    ensures
        partial_acc(s, b, j) <= decoded(s, b),
    decreases s.len() - j,
{
    reveal(pow);
    if j == s.len() {
        assert(s.take(j) =~= s);
        assert(pow(b.len() as int, 0) == 1);
    } else {
        lemma_partial_acc_step(s, b, j);
        lemma_pow_positive(b.len() as int, (s.len() - 1 - j) as nat);
        lemma_mul_nonnegative(
            digit_of(b, s[j]) as int,
            pow(b.len() as int, (s.len() - 1 - j) as nat),
        );
        lemma_partial_acc_le(s, b, j + 1);
    }
}

/// Decoding inverts encoding: the digit-string for `v` denotes `v`, all its
/// characters are symbols of the alphabet, and for positive `v` its leading
/// positional weight is at most `v`.
pub proof fn lemma_encoded_decodes(v: nat, b: Seq<char>)
    requires
        valid_base(b),
    ensures
        decoded(encoded(v, b), b) == v,
        forall|j: int| 0 <= j < encoded(v, b).len() ==> char_in(b, #[trigger] encoded(v, b)[j]),
        v > 0 ==> encoded(v, b).len() >= 1,
        v > 0 ==> pow(b.len() as int, (encoded(v, b).len() - 1) as nat) <= v,
    decreases v,
{
    reveal(pow);
    let r = b.len() as int;
    if v > 0 {
        let q = v / b.len();
        let d = (v % b.len()) as int;
        lemma_mod_bound(v as int, r);
        lemma_div_decreases(v as int, r);
        lemma_encoded_decodes(q, b);
        lemma_digit_of_base(b, d);
        lemma_fundamental_div_mod(v as int, r);
        let e = encoded(v, b);
        let t = encoded(q, b);
        assert(e == t.push(b[d]));
        assert(e.drop_last() =~= t);
        assert(e.last() == b[d]);
        assert(decoded(e, b) == decoded(t, b) * b.len() + d);
        assert forall|j: int| 0 <= j < e.len() implies char_in(b, #[trigger] e[j]) by {
            if j < e.len() - 1 {
                assert(e[j] == t[j]);
            } else {
                assert(e[j] == b[d]);
            }
        }
        if q == 0 {
            assert(e.len() == 1);
            assert(pow(r, 0) == 1);
        } else {
            let lq = (t.len() - 1) as nat;
            assert((e.len() - 1) as nat == lq + 1);
            assert(pow(r, lq + 1) == r * pow(r, lq));
            lemma_mul_left_inequality(r, pow(r, lq), q as int);
            assert(r * (q as int) <= v);
        }
    }
}

/// Round trip: for every valid alphabet and every machine-range value,
/// decoding the encoded digit-string gives the value back, and decoding
/// runs through it without any error.
pub proof fn lemma_round_trip(v: nat, b: Seq<char>)
    requires
        valid_base(b),
        v <= usize::MAX,
    ensures
        decoded(encoded_full(v, b), b) == v,
        decode_ok(encoded_full(v, b), b),
{
    reveal(pow);
    let r = b.len() as int;
    let e = encoded_full(v, b);
    if v == 0 {
        lemma_digit_of_base(b, 0);
        assert(e =~= seq![b[0]]);
        assert(e.drop_last() =~= Seq::<char>::empty());
        assert(e.last() == b[0]);
        assert(decoded(e.drop_last(), b) == 0);
        assert(digit_of(b, e.last()) == 0);
        assert(decoded(e, b) == decoded(e.drop_last(), b) * b.len() + digit_of(b, e.last()));
        assert(decoded(e, b) == 0);
        assert forall|j: int| 0 <= j < e.len() implies !bad_at(e, b, j) by {
            assert(j == 0);
            assert(char_in(b, e[0]));
            assert(pow(r, 0) == 1);
            assert(e.take(1) =~= e);
            assert(partial_acc(e, b, 1) == decoded(e, b) * pow(r, 0));
        }
    } else {
        lemma_encoded_decodes(v, b);
        let n = e.len() as int;
        assert forall|j: int| 0 <= j < n implies !bad_at(e, b, j) by {
            assert(char_in(b, e[j]));
            lemma_pow_increases(b.len(), (n - 1 - j) as nat, (n - 1) as nat);
            assert(pow(r, (n - 1 - j) as nat) <= v);
            lemma_partial_acc_le(e, b, j + 1);
        }
    }
}

/// Round trip across two bases: a digit-string that decodes without error
/// in one valid base, once its value is encoded in a second valid base,
/// decodes there without error to the same value — so re-encoding that
/// value in the first base reproduces the first base's form of it.
pub proof fn lemma_round_trip_two_bases(s: Seq<char>, b1: Seq<char>, b2: Seq<char>)
    requires
        valid_base(b1),
        valid_base(b2),
        decode_ok(s, b1),
    ensures
        decoded(encoded_full(decoded(s, b1), b2), b2) == decoded(s, b1),
        decode_ok(encoded_full(decoded(s, b1), b2), b2),
{
    reveal(pow);
    if s.len() > 0 {
        // With no overflow anywhere, the final running total is the value
        // itself, so the value fits the machine range.
        assert(!bad_at(s, b1, s.len() - 1));
        assert(s.take(s.len() as int) =~= s);
        assert(partial_acc(s, b1, s.len() as int) == decoded(s, b1) * pow(b1.len() as int, 0));
    }
    lemma_round_trip(decoded(s, b1), b2);
}

/// Zero handling: the empty digit-string decodes to zero without error in
/// every valid alphabet, and zero encodes to the alphabet's first symbol.
pub proof fn lemma_zero_conversions(b: Seq<char>)
    requires
        valid_base(b),
    ensures
        decoded(Seq::<char>::empty(), b) == 0,
        decode_ok(Seq::<char>::empty(), b),
        encoded_full(0, b) =~= seq![b[0]],
{
}

/// A digit-string so long that its leading positional weight exceeds the
/// machine range makes decoding stop at its very first character.
pub proof fn lemma_weight_overflow(s: Seq<char>, b: Seq<char>)
    requires
        valid_base(b),
        s.len() >= 1,
        pow(b.len() as int, (s.len() - 1) as nat) > usize::MAX as int,
    ensures
        !decode_ok(s, b),
        first_bad(s, b, 0),
{
    assert(bad_at(s, b, 0));
}

} // verus!
