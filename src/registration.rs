//! US N-Number registrations and the ICAO 24-bit block allocated to them.
//!
//! An N-Number is `N` followed by up to five symbols. The symbols are the
//! digits and the 24 letters `A`-`Z` without `I` and `O`. The numbers are
//! enumerated in a mixed-radix order and the position in that order, added to
//! the base of the US block, is the ICAO address.
use vstd::prelude::*;
use vstd::arithmetic::div_mod::{lemma_fundamental_div_mod, lemma_fundamental_div_mod_converse, lemma_mod_pos_bound, lemma_div_pos_is_pos};
use crate::text::{is_digit, digit_value, digit_char};

verus! {

pub const US_BASE: u32 = 0xA00000;
pub const US_MAX: u32 = 0xADF7C7;

/// Number of suffixes: the empty one, 24 of one letter, 24 * 24 of two.
pub const SUFFIX_SIZE: u32 = 1 + 24 * (1 + 24);
pub const BUCKET4_SIZE: u32 = 1 + 24 + 10;
pub const BUCKET3_SIZE: u32 = 10 * BUCKET4_SIZE + SUFFIX_SIZE;
pub const BUCKET2_SIZE: u32 = 10 * BUCKET3_SIZE + SUFFIX_SIZE;
pub const BUCKET1_SIZE: u32 = 10 * BUCKET2_SIZE + SUFFIX_SIZE;

/// Why a registration or an address could not be converted.
#[derive(Debug, Clone, Copy, PartialEq, Eq)]
pub enum NNumberError {
    NotStartingWithN,
    TooLong,
    InvalidCharacter,
    LetterBeforeSuffixPosition,
    OutOfAllocatedRange,
    AddressOutsideUSBlock,
}

/// A letter of the suffix alphabet: `A`-`Z` without `I` and `O`.
pub open spec fn is_letter(c: char) -> bool {
    65 <= c as u32 <= 90 && c as u32 != 73 && c as u32 != 79
}

/// A symbol of an N-Number: a letter or a digit.
pub open spec fn is_symbol(c: char) -> bool {
    is_letter(c) || is_digit(c)
}

/// Position of a letter in `ABCDEFGHJKLMNPQRSTUVWXYZ`.
pub open spec fn letter_index(c: char) -> int {
    let v = c as u32 - 65;
    if (c as u32) < 73 {
        v
    } else if (c as u32) < 79 {
        v - 1
    } else {
        v - 2
    }
}

/// The letter at position `k` of `ABCDEFGHJKLMNPQRSTUVWXYZ`.
pub open spec fn letter_at(k: int) -> char {
    if k < 8 {
        ((65 + k) as u8) as char
    } else if k < 13 {
        ((66 + k) as u8) as char
    } else {
        ((67 + k) as u8) as char
    }
}

/// Position of a symbol in `ABCDEFGHJKLMNPQRSTUVWXYZ0123456789`.
pub open spec fn symbol_index(c: char) -> int {
    if is_letter(c) {
        letter_index(c)
    } else {
        24 + digit_value(c)
    }
}

/// The symbol at position `k` of `ABCDEFGHJKLMNPQRSTUVWXYZ0123456789`.
pub open spec fn symbol_at(k: int) -> char {
    if k < 24 {
        letter_at(k)
    } else {
        digit_char(k - 24)
    }
}

/// The suffix numbered `k` in `0..601`: none, then `A`, `AA`, .., `AZ`, `B`, ..
pub open spec fn suffix_of(k: int) -> Seq<char> {
    if k == 0 {
        Seq::empty()
    } else if (k - 1) % 25 == 0 {
        seq![letter_at((k - 1) / 25)]
    } else {
        seq![letter_at((k - 1) / 25), letter_at((k - 1) % 25 - 1)]
    }
}

/// Whether `t` is a suffix: at most two letters.
pub open spec fn is_suffix(t: Seq<char>) -> bool {
    t.len() <= 2 && forall|j: int| 0 <= j < t.len() ==> is_letter(#[trigger] t[j])
}

/// The number of a suffix, inverse of `suffix_of`.
pub open spec fn suffix_value(t: Seq<char>) -> int {
    if t.len() == 0 {
        0
    } else if t.len() == 1 {
        25 * letter_index(t[0]) + 1
    } else {
        25 * letter_index(t[0]) + 1 + letter_index(t[1]) + 1
    }
}

/// The size of the block of numbers under a digit at position `i` of the tail.
pub open spec fn bucket(i: int) -> int {
    if i == 0 {
        BUCKET1_SIZE as int
    } else if i == 1 {
        BUCKET2_SIZE as int
    } else if i == 2 {
        BUCKET3_SIZE as int
    } else {
        BUCKET4_SIZE as int
    }
}

/// What a digit `d` at position `i` of the tail adds to the address offset.
pub open spec fn digit_weight(i: int, d: int) -> int {
    if i == 0 {
        (d - 1) * bucket(0)
    } else {
        d * bucket(i) + SUFFIX_SIZE
    }
}

/// The address offset contributed by the tail `t` standing at position `i`
/// of what follows the `N`; `None` where a letter is followed by a digit or
/// starts a run of more than two letters.
pub open spec fn tail_value(t: Seq<char>, i: int) -> Option<int>
    decreases t.len(),
{
    if t.len() == 0 {
        Some(0)
    } else if i >= 4 {
        Some(symbol_index(t[0]) + 1)
    } else if is_letter(t[0]) {
        if is_suffix(t) {
            Some(suffix_value(t))
        } else {
            None
        }
    } else {
        match tail_value(t.drop_first(), i + 1) {
            Some(v) => Some(digit_weight(i, digit_value(t[0])) + v),
            None => None,
        }
    }
}

/// The ICAO address of an N-Number, or why it has none.
pub open spec fn nnumber_address(s: Seq<char>) -> Result<u32, NNumberError> {
    if s.len() == 0 || s[0] != 'N' {
        Err(NNumberError::NotStartingWithN)
    } else if s.len() > 6 {
        Err(NNumberError::TooLong)
    } else if exists|k: int| 0 <= k < s.len() && !is_symbol(#[trigger] s[k]) {
        Err(NNumberError::InvalidCharacter)
    } else {
        match tail_value(s.drop_first(), 0) {
            None => Err(NNumberError::LetterBeforeSuffixPosition),
            Some(v) => if US_BASE < US_BASE + 1 + v <= US_MAX {
                Ok((US_BASE + 1 + v) as u32)
            } else {
                Err(NNumberError::OutOfAllocatedRange)
            },
        }
    }
}

/// The symbols that stand for the offset `x` from position `i` of the tail on.
pub open spec fn tail_of(x: int, i: int) -> Seq<char>
    decreases 4 - i,
{
    if i >= 3 {
        let d = x / bucket(3);
        let rem = x % bucket(3);
        if rem == 0 {
            seq![digit_char(d)]
        } else {
            seq![digit_char(d), symbol_at(rem - 1)]
        }
    } else {
        let d = x / bucket(i);
        let rem = x % bucket(i);
        let head = if i == 0 {
            digit_char(d + 1)
        } else {
            digit_char(d)
        };
        if rem < SUFFIX_SIZE {
            seq![head] + suffix_of(rem)
        } else {
            seq![head] + tail_of(rem - SUFFIX_SIZE, i + 1)
        }
    }
}

/// The N-Number of an address of the US block.
pub open spec fn address_nnumber(a: int) -> Seq<char> {
    seq!['N'] + tail_of(a - US_BASE - 1, 0)
}

/// A tail at position `i`: digits (the first not `0`), then at most two
/// letters before position 4, or any one symbol at position 4.
pub open spec fn is_valid_tail(t: Seq<char>, i: int) -> bool
    decreases t.len(),
{
    &&& 1 <= t.len() <= 5 - i
    &&& is_digit(t[0])
    &&& (i == 0 ==> t[0] != '0')
    &&& ({
        let u = t.drop_first();
        ||| u.len() == 0
        ||| (i == 3 && is_symbol(u[0]))
        ||| (i < 3 && is_letter(u[0]) && is_suffix(u))
        ||| (i < 3 && is_valid_tail(u, i + 1))
    })
}

/// A well-formed N-Number: `N`, then a tail.
pub open spec fn is_valid_nnumber(s: Seq<char>) -> bool {
    s.len() >= 2 && s[0] == 'N' && is_valid_tail(s.drop_first(), 0)
}

proof fn lemma_letter_at(k: int)
    requires
        0 <= k < 24,
    ensures
        is_letter(letter_at(k)),
        letter_index(letter_at(k)) == k,
{
}

proof fn lemma_letter_index(c: char)
    requires
        is_letter(c),
    ensures
        0 <= letter_index(c) < 24,
        letter_at(letter_index(c)) == c,
{
    assert((((c as u32) as u8) as char) == c);
}

proof fn lemma_digit_char(d: int)
    requires
        0 <= d < 10,
    ensures
        is_digit(digit_char(d)),
        !is_letter(digit_char(d)),
        digit_value(digit_char(d)) == d,
{
}

proof fn lemma_digit_value(c: char)
    requires
        is_digit(c),
    ensures
        0 <= digit_value(c) < 10,
        digit_char(digit_value(c)) == c,
        !is_letter(c),
{
    assert((((c as u32) as u8) as char) == c);
}

proof fn lemma_symbol_at(k: int)
    requires
        0 <= k < 34,
    ensures
        is_symbol(symbol_at(k)),
        symbol_index(symbol_at(k)) == k,
{
    if k < 24 {
        lemma_letter_at(k);
    } else {
        lemma_digit_char(k - 24);
    }
}

proof fn lemma_symbol_index(c: char)
    requires
        is_symbol(c),
    ensures
        0 <= symbol_index(c) < 34,
        symbol_at(symbol_index(c)) == c,
{
    if is_letter(c) {
        lemma_letter_index(c);
    } else {
        lemma_digit_value(c);
    }
}

proof fn lemma_suffix_of(k: int)
    requires
        0 <= k < SUFFIX_SIZE,
    ensures
        is_suffix(suffix_of(k)),
        suffix_value(suffix_of(k)) == k,
{
    if k > 0 {
        let f = (k - 1) / 25;
        let r = (k - 1) % 25;
        lemma_letter_at(f);
        if r != 0 {
            lemma_letter_at(r - 1);
        }
    }
}

proof fn lemma_suffix_value(t: Seq<char>)
    requires
        is_suffix(t),
    ensures
        0 <= suffix_value(t) < SUFFIX_SIZE,
        suffix_of(suffix_value(t)) == t,
{
    if t.len() >= 1 {
        lemma_letter_index(t[0]);
        let f = letter_index(t[0]);
        if t.len() == 1 {
            lemma_fundamental_div_mod_converse(suffix_value(t) - 1, 25, f, 0);
            assert(suffix_of(suffix_value(t)) =~= t);
        } else {
            lemma_letter_index(t[1]);
            let g = letter_index(t[1]);
            lemma_fundamental_div_mod_converse(suffix_value(t) - 1, 25, f, g + 1);
            assert(suffix_of(suffix_value(t)) =~= t);
        }
    } else {
        assert(suffix_of(0) =~= t);
    }
}

/// The offset that `tail_of` reads at position `i`, out of a tail value.
pub open spec fn level_offset(i: int) -> int {
    if i == 0 {
        0
    } else {
        SUFFIX_SIZE as int
    }
}

/// The largest tail offset at position `i`, plus one.
pub open spec fn level_limit(i: int) -> int {
    if i == 0 {
        9 * bucket(0)
    } else {
        10 * bucket(i)
    }
}

proof fn lemma_digit_split(x: int, b: int, n: int)
    requires
        b > 0,
        0 <= x < n * b,
    ensures
        0 <= x / b < n,
        0 <= x % b < b,
        x == (x / b) * b + x % b,
{
    lemma_fundamental_div_mod(x, b);
    lemma_mod_pos_bound(x, b);
    lemma_div_pos_is_pos(x, b);
    let q = x / b;
    let r = x % b;
    vstd::arithmetic::mul::lemma_mul_is_commutative(b, q);
    assert(q < n) by (nonlinear_arith)
        requires
            x == b * q + r,
            0 <= r,
            x < n * b,
            b > 0,
    ;
}

proof fn lemma_tail_of(x: int, i: int)
    requires
        0 <= i <= 3,
        0 <= x < level_limit(i),
    ensures
        is_valid_tail(tail_of(x, i), i),
        tail_value(tail_of(x, i), i) == Some(x + level_offset(i)),
    decreases 4 - i,
{
    let b = bucket(i);
    let d = x / b;
    let rem = x % b;
    let t = tail_of(x, i);
    let u = t.drop_first();
    let dd = if i == 0 { d + 1 } else { d };
    lemma_digit_split(x, b, if i == 0 { 9 } else { 10 });
    lemma_digit_char(dd);
    assert(t[0] == digit_char(dd));
    assert(!is_letter(t[0]));
    assert(digit_weight(i, dd) == d * b + level_offset(i));
    if i == 3 {
        if rem == 0 {
            assert(u =~= Seq::<char>::empty());
            assert(tail_value(u, 4) == Some(0int));
        } else {
            lemma_symbol_at(rem - 1);
            assert(u =~= seq![symbol_at(rem - 1)]);
            assert(u.drop_first() =~= Seq::<char>::empty());
            assert(tail_value(u, 4) == Some(rem));
        }
    } else if rem < SUFFIX_SIZE {
        lemma_suffix_of(rem);
        assert(u =~= suffix_of(rem));
        if u.len() > 0 {
            assert(tail_value(u, i + 1) == Some(rem));
        } else {
            assert(tail_value(u, i + 1) == Some(0int));
        }
    } else {
        lemma_tail_of(rem - SUFFIX_SIZE, i + 1);
        assert(u =~= tail_of(rem - SUFFIX_SIZE, i + 1));
    }
}

proof fn lemma_tail_value(t: Seq<char>, i: int)
    requires
        0 <= i <= 3,
        is_valid_tail(t, i),
    ensures
        forall|j: int| 0 <= j < t.len() ==> is_symbol(#[trigger] t[j]),
        tail_value(t, i) is Some,
        0 <= tail_value(t, i)->Some_0 - level_offset(i) < level_limit(i),
        tail_of(tail_value(t, i)->Some_0 - level_offset(i), i) == t,
    decreases t.len(),
{
    let b = bucket(i);
    let u = t.drop_first();
    lemma_digit_value(t[0]);
    let dv = digit_value(t[0]);
    let d = if i == 0 { dv - 1 } else { dv };
    let rem: int = if u.len() == 0 {
        0
    } else if i == 3 {
        lemma_symbol_index(u[0]);
        symbol_index(u[0]) + 1
    } else if is_letter(u[0]) && is_suffix(u) {
        lemma_suffix_value(u);
        suffix_value(u)
    } else {
        lemma_tail_value(u, i + 1);
        tail_value(u, i + 1)->Some_0
    };
    if u.len() == 0 {
        assert(tail_value(u, i + 1) == Some(0int));
    } else if i == 3 {
        assert(u.drop_first() =~= Seq::<char>::empty());
        assert(tail_value(u, i + 1) == Some(rem));
    } else if is_letter(u[0]) && is_suffix(u) {
        assert(tail_value(u, i + 1) == Some(rem));
    }
    assert(tail_value(t, i) == Some(digit_weight(i, dv) + rem));
    let x = tail_value(t, i)->Some_0 - level_offset(i);
    assert(x == d * b + rem);
    assert(0 <= rem < b);
    let n = if i == 0 { 9int } else { 10int };
    assert(0 <= d < n);
    assert(0 <= x < n * b) by (nonlinear_arith)
        requires
            x == d * b + rem,
            0 <= rem < b,
            0 <= d < n,
    ;
    lemma_fundamental_div_mod_converse(x, b, d, rem);
    if u.len() == 0 {
        assert(tail_of(x, i) =~= t);
    } else if i == 3 {
        assert(tail_of(x, i) =~= t);
    } else if is_letter(u[0]) && is_suffix(u) {
        assert(tail_of(x, i) =~= t);
    } else {
        assert(tail_of(x, i) =~= t);
    }
    assert forall|j: int| 0 <= j < t.len() implies is_symbol(#[trigger] t[j]) by {
        if j > 0 {
            assert(t[j] == u[j - 1]);
        }
    }
}

/// Every address of the US block has an N-Number, and that N-Number leads back
/// to the address.
pub proof fn lemma_address_round_trip(a: u32)
    requires
        US_BASE < a <= US_MAX,
    ensures
        is_valid_nnumber(address_nnumber(a as int)),
        nnumber_address(address_nnumber(a as int)) == Ok::<u32, NNumberError>(a),
{
    let x = a - US_BASE - 1;
    lemma_tail_of(x, 0);
    let s = address_nnumber(a as int);
    assert(s.drop_first() =~= tail_of(x, 0));
    lemma_tail_value(tail_of(x, 0), 0);
    assert forall|k: int| 0 <= k < s.len() implies is_symbol(#[trigger] s[k]) by {
        if k > 0 {
            assert(s[k] == s.drop_first()[k - 1]);
        }
    }
}

/// Every well-formed N-Number has an address, and that address leads back to
/// the N-Number.
pub proof fn lemma_nnumber_round_trip(s: Seq<char>)
    requires
        is_valid_nnumber(s),
    ensures
        nnumber_address(s) is Ok,
        address_nnumber(nnumber_address(s)->Ok_0 as int) == s,
{
    let t = s.drop_first();
    lemma_tail_value(t, 0);
    assert forall|k: int| 0 <= k < s.len() implies is_symbol(#[trigger] s[k]) by {
        if k > 0 {
            assert(s[k] == t[k - 1]);
        }
    }
    assert(seq!['N'] + t =~= s);
}


fn letter_char(k: u32) -> (c: char)
    requires
        k < 24,
    ensures
        c == letter_at(k as int),
{
    if k < 8 {
        ((65 + k) as u8) as char
    } else if k < 13 {
        ((66 + k) as u8) as char
    } else {
        ((67 + k) as u8) as char
    }
}

fn digit_to_char(d: u32) -> (c: char)
    requires
        d < 10,
    ensures
        c == digit_char(d as int),
{
    ((48 + d) as u8) as char
}

fn symbol_char(k: u32) -> (c: char)
    requires
        k < 34,
    ensures
        c == symbol_at(k as int),
{
    if k < 24 {
        letter_char(k)
    } else {
        digit_to_char(k - 24)
    }
}

/// The position of `c` among the suffix letters, if it is one.
fn letter_position(c: char) -> (r: Option<u32>)
    ensures
        r == (if is_letter(c) {
            Some(letter_index(c) as u32)
        } else {
            None
        }),
{
    let v = c as u32;
    if v < 65 || v > 90 || v == 73 || v == 79 {
        None
    } else if v < 73 {
        Some(v - 65)
    } else if v < 79 {
        Some(v - 66)
    } else {
        Some(v - 67)
    }
}

/// The value of `c` as a decimal digit, if it is one.
fn digit_of(c: char) -> (r: Option<u32>)
    ensures
        r == (if is_digit(c) {
            Some(digit_value(c) as u32)
        } else {
            None
        }),
{
    let v = c as u32;
    if 48 <= v && v <= 57 {
        Some(v - 48)
    } else {
        None
    }
}

/// The suffix numbered `offset`: 0 is none, 1 is `A`, 2 is `AA`, .., 600 is `ZZ`.
pub fn get_suffix(offset: u32) -> (r: String)
    requires
        offset < SUFFIX_SIZE,
    ensures
        r@ == suffix_of(offset as int),
{
    let mut r = String::new();
    if offset == 0 {
        return r;
    }
    let first = (offset - 1) / 25;
    let rem = (offset - 1) % 25;
    r.push(letter_char(first));
    if rem != 0 {
        r.push(letter_char(rem - 1));
    }
    assert(r@ =~= suffix_of(offset as int));
    r
}

/// The number of a suffix of at most two letters, inverse of `get_suffix`.
pub fn suffix_offset(s: &str) -> (r: Option<u32>)
    ensures
        r == (if is_suffix(s@) {
            Some(suffix_value(s@) as u32)
        } else {
            None
        }),
{
    let n = s.unicode_len();
    if n == 0 {
        return Some(0);
    }
    if n > 2 {
        return None;
    }
    let idx0 = match letter_position(s.get_char(0)) {
        Some(k) => k,
        None => {
            return None;
        },
    };
    let mut count: u32 = 25 * idx0 + 1;
    if n == 2 {
        let idx1 = match letter_position(s.get_char(1)) {
            Some(k) => k,
            None => {
                return None;
            },
        };
        count = count + idx1 + 1;
    }
    assert(forall|j: int| 0 <= j < n ==> is_letter(#[trigger] s@[j]));
    Some(count)
}

/// What a digit `d` at position `i` of the tail adds to the address offset.
fn weight_of(i: usize, d: u32) -> (w: i64)
    requires
        i < 4,
        d < 10,
    ensures
        w == digit_weight(i as int, d as int),
        i == 0 ==> -101711 <= w <= 815688,
        i > 0 ==> 0 <= w <= 91600,
{
    assert(SUFFIX_SIZE == 601 && BUCKET1_SIZE == 101711 && BUCKET2_SIZE == 10111);
    assert(BUCKET3_SIZE == 951 && BUCKET4_SIZE == 35);
    let v = d as i64;
    if i == 0 {
        (v - 1) * 101711
    } else if i == 1 {
        v * 10111 + 601
    } else if i == 2 {
        v * 951 + 601
    } else {
        v * 35 + 601
    }
}

/// The address at offset `v` past the first of the US block, if it lies there.
fn address_at(v: i64) -> (r: Result<u32, NNumberError>)
    ensures
        r == (if US_BASE < US_BASE + 1 + v <= US_MAX {
            Ok::<u32, NNumberError>((US_BASE + 1 + v) as u32)
        } else {
            Err(NNumberError::OutOfAllocatedRange)
        }),
{
    if v < 0 || v > (US_MAX - US_BASE - 1) as i64 {
        Err(NNumberError::OutOfAllocatedRange)
    } else {
        Ok(US_BASE + 1 + v as u32)
    }
}

/// The ICAO address of a US N-Number.
pub fn us_n_to_icao_u32(nnumber: &str) -> (r: Result<u32, NNumberError>)
    ensures
        r == nnumber_address(nnumber@),
{
    let ghost s = nnumber@;
    let n = nnumber.unicode_len();
    if n == 0 || nnumber.get_char(0) != 'N' {
        return Err(NNumberError::NotStartingWithN);
    }
    if n > 6 {
        return Err(NNumberError::TooLong);
    }
    let mut k: usize = 0;
    while k < n
        invariant
            s == nnumber@,
            n == s.len(),
            1 <= n <= 6,
            s[0] == 'N',
            k <= n,
            forall|j: int| 0 <= j < k ==> is_symbol(#[trigger] s[j]),
        decreases n - k,
    {
        let c = nnumber.get_char(k);
        if letter_position(c).is_none() && digit_of(c).is_none() {
            assert(!is_symbol(s[k as int]));
            return Err(NNumberError::InvalidCharacter);
        }
        k = k + 1;
    }
    let ghost t = s.drop_first();
    let mut acc: i64 = 0;
    let mut i: usize = 0;
    assert(t.subrange(0, t.len() as int) =~= t);
    while i + 1 < n
        invariant
            s == nnumber@,
            n == s.len(),
            1 <= n <= 6,
            s[0] == 'N',
            2 <= n + 1 <= 7,
            t == s.drop_first(),
            i + 1 <= n,
            i <= 4,
            i == 0 ==> acc == 0,
            -101711 <= acc <= 815688 + 91600 * i,
            forall|j: int| 0 <= j < s.len() ==> is_symbol(#[trigger] s[j]),
            tail_value(t, 0) == match tail_value(t.subrange(i as int, t.len() as int), i as int) {
                Some(v) => Some(acc + v),
                None => None,
            },
        decreases n - i,
    {
        let ghost u = t.subrange(i as int, t.len() as int);
        assert(u[0] == s[i + 1]);
        let c = nnumber.get_char(i + 1);
        if i == 4 {
            let k = match letter_position(c) {
                Some(k) => k,
                None => 24 + digit_of(c).unwrap(),
            };
            assert(k == symbol_index(c));
            assert(tail_value(u, i as int) == Some(symbol_index(c) + 1));
            return address_at(acc + k as i64 + 1);
        }
        match letter_position(c) {
            Some(_) => {
                let suffix = nnumber.substring_char(i + 1, n);
                assert(suffix@ =~= u);
                assert(is_letter(u[0]));
                assert(tail_value(u, i as int) == (if is_suffix(u) {
                    Some(suffix_value(u))
                } else {
                    None
                }));
                return match suffix_offset(suffix) {
                    Some(o) => address_at(acc + o as i64),
                    None => Err(NNumberError::LetterBeforeSuffixPosition),
                };
            },
            None => {},
        }
        let d = digit_of(c).unwrap();
        let w = weight_of(i, d);
        assert(u.drop_first() =~= t.subrange(i + 1, t.len() as int));
        acc = acc + w;
        i = i + 1;
    }
    assert(t.subrange(i as int, t.len() as int) =~= Seq::<char>::empty());
    address_at(acc)
}


/// The value of three big-endian bytes.
pub open spec fn arr3_value(a: [u8; 3]) -> int {
    a@[0] * 65536 + a@[1] * 256 + a@[2]
}

/// Whether `a` lies in the US block.
pub open spec fn in_us_block(a: int) -> bool {
    US_BASE < a <= US_MAX
}

pub(crate) fn u32_to_arr3(x: u32) -> (r: [u8; 3])
    requires
        x < 0x1000000,
    ensures
        arr3_value(r) == x,
{
    let r = [(x / 65536) as u8, ((x / 256) % 256) as u8, (x % 256) as u8];
    assert(r@[0] == x / 65536 && r@[1] == (x / 256) % 256 && r@[2] == x % 256);
    r
}

pub(crate) fn arr3_to_u32(a: [u8; 3]) -> (r: u32)
    ensures
        r == arr3_value(a),
{
    (a[0] as u32) * 65536 + (a[1] as u32) * 256 + (a[2] as u32)
}

fn bucket_size(i: usize) -> (b: u32)
    requires
        i < 4,
    ensures
        b == bucket(i as int),
{
    if i == 0 {
        BUCKET1_SIZE
    } else if i == 1 {
        BUCKET2_SIZE
    } else if i == 2 {
        BUCKET3_SIZE
    } else {
        BUCKET4_SIZE
    }
}

/// The N-Number of an address of the US block.
pub fn icao_u32_to_us(icao: u32) -> (r: Result<String, NNumberError>)
    ensures
        match r {
            Ok(s) => in_us_block(icao as int) && s@ == address_nnumber(icao as int),
            Err(e) => !in_us_block(icao as int) && e == NNumberError::AddressOutsideUSBlock,
        },
{
    if icao <= US_BASE || icao > US_MAX {
        return Err(NNumberError::AddressOutsideUSBlock);
    }
    let mut x: u32 = icao - US_BASE - 1;
    let mut output = String::new();
    output.push('N');
    let mut i: usize = 0;
    assert(output@ + tail_of(x as int, 0) =~= address_nnumber(icao as int));
    while i < 4
        invariant
            i <= 3,
            in_us_block(icao as int),
            0 <= x < level_limit(i as int),
            output@ + tail_of(x as int, i as int) == address_nnumber(icao as int),
        decreases 4 - i,
    {
        let b = bucket_size(i);
        proof {
            lemma_digit_split(x as int, b as int, if i == 0 { 9 } else { 10 });
        }
        let d = x / b;
        let rem = x % b;
        if i == 3 {
            output.push(digit_to_char(d));
            if rem != 0 {
                output.push(symbol_char(rem - 1));
            }
            assert(output@ =~= address_nnumber(icao as int));
            return Ok(output);
        }
        let head = if i == 0 { d + 1 } else { d };
        let ghost before = output@;
        output.push(digit_to_char(head));
        if rem < SUFFIX_SIZE {
            let suffix = get_suffix(rem);
            output.append(suffix.as_str());
            assert(output@ =~= address_nnumber(icao as int));
            return Ok(output);
        }
        x = rem - SUFFIX_SIZE;
        i = i + 1;
        assert(output@ + tail_of(x as int, i as int) =~= before + seq![digit_char(head as int)]
            + tail_of(x as int, i as int));
    }
    Err(NNumberError::AddressOutsideUSBlock)
}

/// The ICAO address of a US registration, as three big-endian bytes.
pub fn registration_to_icao(reg: &str) -> (r: Result<[u8; 3], NNumberError>)
    ensures
        match r {
            Ok(b) => nnumber_address(reg@) == Ok::<u32, NNumberError>(arr3_value(b) as u32),
            Err(e) => nnumber_address(reg@) == Err::<u32, NNumberError>(e),
        },
{
    match us_n_to_icao_u32(reg) {
        Ok(a) => Ok(u32_to_arr3(a)),
        Err(e) => Err(e),
    }
}

/// The US registration of an ICAO address given as three big-endian bytes.
pub fn icao_to_registration(icao: [u8; 3]) -> (r: Result<String, NNumberError>)
    ensures
        match r {
            Ok(s) => in_us_block(arr3_value(icao)) && s@ == address_nnumber(arr3_value(icao)),
            Err(e) => !in_us_block(arr3_value(icao)) && e == NNumberError::AddressOutsideUSBlock,
        },
{
    let a = arr3_to_u32(icao);
    if a <= US_BASE || a > US_MAX {
        return Err(NNumberError::AddressOutsideUSBlock);
    }
    icao_u32_to_us(a)
}

} // verus!
