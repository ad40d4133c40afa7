//! Decoding of device identity words into their base-40 text form.
use vstd::prelude::*;
use vstd::string::StringSliceAdditionalSpecFns;

use crate::error::BootError;

verus! {

/// The ASCII code of `_`, which separates identity words.
pub const WORD_SEPARATOR: u8 = 0x5f;

/// The ASCII code of `+`, which may lead a hexadecimal word.
pub const PLUS_SIGN: u8 = 0x2b;

pub open spec fn is_hex_digit(b: u8) -> bool {
    (0x30 <= b <= 0x39) || (0x41 <= b <= 0x46) || (0x61 <= b <= 0x66)
}

pub open spec fn hex_digit_value(b: u8) -> nat {
    if 0x30 <= b <= 0x39 {
        (b - 0x30) as nat
    } else if 0x41 <= b <= 0x46 {
        (b - 0x41 + 10) as nat
    } else {
        (b - 0x61 + 10) as nat
    }
}

/// Value of a run of hexadecimal digits, most significant first.
pub open spec fn hex_number(s: Seq<u8>) -> nat
    decreases s.len(),
{
    if s.len() == 0 {
        0
    } else {
        hex_number(s.drop_last()) * 16 + hex_digit_value(s.last())
    }
}

/// A segment without its leading `+`, if any.
pub open spec fn unsigned_digits(seg: Seq<u8>) -> Seq<u8> {
    if seg.len() > 0 && seg[0] == PLUS_SIGN {
        seg.drop_first()
    } else {
        seg
    }
}

/// A segment read as a 32-bit hexadecimal word: an optional leading `+`, then
/// at least one hexadecimal digit (either case), with a value below 2^32.
pub open spec fn hex_word(seg: Seq<u8>) -> Option<u32> {
    let digits = unsigned_digits(seg);
    if digits.len() > 0 && (forall|i: int| 0 <= i < digits.len() ==> is_hex_digit(#[trigger] digits[i]))
        && hex_number(digits) <= u32::MAX {
        Some(hex_number(digits) as u32)
    } else {
        None
    }
}

/// The half-words of one identity word: the low half always, the high half
/// only when it is nonzero.
pub open spec fn word_halves(w: u32) -> Seq<u16> {
    let low = (w & 0xffff) as u16;
    let high = (w >> 16) as u16;
    if high != 0 {
        seq![low, high]
    } else {
        seq![low]
    }
}

/// The half-words of the underscore-separated words of `s`, reading the
/// segment that starts at `seg_start` and has been scanned up to `i`.
/// Reading stops at the first segment that is not a hexadecimal word.
pub open spec fn half_words_from(s: Seq<u8>, seg_start: int, i: int) -> Seq<u16>
    decreases s.len() - i,
{
    if 0 <= i < s.len() && s[i] != WORD_SEPARATOR {
        half_words_from(s, seg_start, i + 1)
    } else {
        match hex_word(s.subrange(seg_start, i)) {
            None => seq![],
            Some(w) => word_halves(w) + if 0 <= i < s.len() {
                half_words_from(s, i + 1, i + 1)
            } else {
                seq![]
            },
        }
    }
}

pub open spec fn half_words(s: Seq<u8>) -> Seq<u16> {
    half_words_from(s, 0, 0)
}

/// The three base-40 symbols of a half-word.
pub open spec fn half_symbols(h: u16) -> Seq<i32> {
    let s0 = (h - 1) / 1600;
    let rem1 = h - s0 * 1600;
    let s1 = (rem1 - 1) / 40;
    let rem2 = rem1 - s1 * 40;
    seq![s0 as i32, s1 as i32, (rem2 - 1) as i32]
}

pub open spec fn symbols(hs: Seq<u16>) -> Seq<i32>
    decreases hs.len(),
{
    if hs.len() == 0 {
        seq![]
    } else {
        symbols(hs.drop_last()) + half_symbols(hs.last())
    }
}

/// The character of a symbol code: 4..13 are the digits, 14..39 the capitals.
pub open spec fn symbol_char(v: int) -> Option<char> {
    if 4 <= v <= 13 {
        Some((v - 4 + 0x30) as u8 as char)
    } else if 14 <= v <= 39 {
        Some((v - 14 + 0x41) as u8 as char)
    } else {
        None
    }
}

/// The symbol code of a character; lower-case letters share the code of
/// their capital.
pub open spec fn char_code(c: char) -> Option<i32> {
    let v = c as u32;
    if 0x61 <= v <= 0x7a {
        Some((v - 0x61 + 14) as i32)
    } else if 0x30 <= v <= 0x39 {
        Some((v - 0x30 + 4) as i32)
    } else if 0x41 <= v <= 0x5a {
        Some((v - 0x41 + 14) as i32)
    } else {
        None
    }
}

/// The decoded identity string of `s`, or `None` when a symbol lies outside
/// the alphabet.
pub open spec fn duid_decoded(s: Seq<u8>) -> Option<Seq<char>> {
    let syms = symbols(half_words(s));
    if forall|i: int| 0 <= i < syms.len() ==> (#[trigger] symbol_char(syms[i] as int)) is Some {
        Some(syms.map_values(|v: i32| symbol_char(v as int)->Some_0))
    } else {
        None
    }
}

/// Relies on String::push: appends one character.
#[verifier::external_body]
fn push_char(s: &mut String, c: char)
    ensures
        final(s)@ == old(s)@.push(c),
{
    s.push(c)
}

/// Decodes an underscore-separated list of hexadecimal identity words.
/// Decoding stops, without error, at the first segment that is not a
/// hexadecimal word; a symbol outside the alphabet fails the whole call with
/// `DecodeError`.
pub fn duid_decode_c40(str_of_words: &str) -> (r: Result<String, BootError>)
    ensures
        match r {
            Ok(out) => duid_decoded(str_of_words.spec_bytes()) == Some(out@),
            Err(e) => duid_decoded(str_of_words.spec_bytes()) is None && e == BootError::DecodeError,
        },
{
    let bytes = str_of_words.as_bytes();
    let n = bytes.len();
    let mut c40_list: Vec<i32> = Vec::new();
    let ghost mut hws: Seq<u16> = seq![];
    let mut start: usize = 0;
    loop
        invariant_except_break
            half_words(bytes@) == hws + half_words_from(bytes@, start as int, start as int),
            c40_list@ == symbols(hws),
        invariant
            n == bytes@.len(),
            start <= n,
        ensures
            half_words(bytes@) == hws,
            c40_list@ == symbols(hws),
        decreases n - start,
    {
        let mut end: usize = start;
        while end < n && bytes[end] != WORD_SEPARATOR
            invariant
                n == bytes@.len(),
                start <= end <= n,
                half_words_from(bytes@, start as int, start as int) == half_words_from(
                    bytes@,
                    start as int,
                    end as int,
                ),
            decreases n - end,
        {
            end = end + 1;
        }
        let word = match parse_hex_word(bytes, start, end) {
            Some(w) => w,
            None => {
                assert(hws + seq![] =~= hws);
                break ;
            },
        };
        let rest = Ghost(
            if end < n {
                half_words_from(bytes@, end + 1, end + 1)
            } else {
                seq![]
            },
        );
        assert(word & 0xffff <= 0xffff && word >> 16 <= 0xffff) by (bit_vector);
        let low = (word & 0xffff) as u16;
        decode_half_word(low, &mut c40_list);
        proof {
            assert(hws.push(low).drop_last() =~= hws);
            assert(symbols(hws.push(low)) == symbols(hws) + half_symbols(low));
            hws = hws.push(low);
        }
        let msig = (word >> 16) as u16;
        if msig > 0 {
            decode_half_word(msig, &mut c40_list);
            proof {
                assert(hws.push(msig).drop_last() =~= hws);
                assert(symbols(hws.push(msig)) == symbols(hws) + half_symbols(msig));
                hws = hws.push(msig);
            }
        }
        assert(half_words(bytes@) == hws + rest@) by {
            assert(word_halves(word) + rest@ == half_words_from(bytes@, start as int, end as int));
            if msig > 0 {
                assert(hws =~= hws.drop_last().drop_last() + word_halves(word));
            } else {
                assert(hws =~= hws.drop_last() + word_halves(word));
            }
            assert(hws + rest@ =~= (hws.subrange(0, hws.len() - word_halves(word).len())
                + word_halves(word)) + rest@);
        }
        if end >= n {
            assert(hws + seq![] =~= hws);
            break ;
        }
        start = end + 1;
    }
    let mut c40_str = String::new();
    let mut c: usize = 0;
    while c < c40_list.len()
        invariant
            c <= c40_list@.len(),
            c40_list@ == symbols(half_words(bytes@)),
            bytes@ == str_of_words.spec_bytes(),
            forall|j: int| 0 <= j < c ==> (#[trigger] symbol_char(c40_list@[j] as int)) is Some,
            c40_str@ == c40_list@.take(c as int).map_values(
                |v: i32| symbol_char(v as int)->Some_0,
            ),
        decreases c40_list@.len() - c,
    {
        match c40_to_char(c40_list[c]) {
            Some(ch) => {
                push_char(&mut c40_str, ch);
            },
            None => {
                assert(symbol_char(c40_list@[c as int] as int) is None);
                assert(bytes@ == str_of_words.spec_bytes());
                let ghost syms = symbols(half_words(bytes@));
                assert(symbol_char(syms[c as int] as int) is None);
                return Err(BootError::DecodeError);
            },
        }
        assert(c40_list@.take(c + 1) =~= c40_list@.take(c as int).push(c40_list@[c as int]));
        c = c + 1;
    }
    assert(c40_list@.take(c as int) =~= c40_list@);
    Ok(c40_str)
}

/// The decoded identity of `value`, or `value` itself when a symbol lies
/// outside the alphabet.
pub fn decoded_or_raw(value: &str) -> (r: String)
    ensures
        match duid_decoded(value.spec_bytes()) {
            Some(d) => r@ == d,
            None => r@ == value@,
        },
{
    match duid_decode_c40(value) {
        Ok(d) => d,
        Err(_) => value.to_owned(),
    }
}

/// Reads `bytes[start..end]` as a 32-bit hexadecimal word.
pub fn parse_hex_word(bytes: &[u8], start: usize, end: usize) -> (r: Option<u32>)
    requires
        start <= end <= bytes@.len(),
    ensures
        r == hex_word(bytes@.subrange(start as int, end as int)),
{
    let ghost seg = bytes@.subrange(start as int, end as int);
    let mut i: usize = start;
    if i < end && bytes[i] == PLUS_SIGN {
        i = i + 1;
    }
    let first = i;
    let ghost digits = bytes@.subrange(first as int, end as int);
    assert(digits =~= unsigned_digits(seg));
    if first == end {
        return None;
    }
    let mut acc: u64 = 0;
    while i < end
        invariant
            first <= i <= end <= bytes@.len(),
            digits == bytes@.subrange(first as int, end as int),
            seg == bytes@.subrange(start as int, end as int),
            digits == unsigned_digits(seg),
            forall|k: int| first <= k < i ==> is_hex_digit(#[trigger] bytes@[k]),
            acc == hex_number(bytes@.subrange(first as int, i as int)),
            acc <= u32::MAX,
        decreases end - i,
    {
        let b = bytes[i];
        assert(digits[i - first] == b);
        let d: u64 = if 0x30 <= b && b <= 0x39 {
            (b - 0x30) as u64
        } else if 0x41 <= b && b <= 0x46 {
            (b - 0x41 + 10) as u64
        } else if 0x61 <= b && b <= 0x66 {
            (b - 0x61 + 10) as u64
        } else {
            assert(!is_hex_digit(digits[i - first]));
            assert(!(forall|k: int| 0 <= k < digits.len() ==> is_hex_digit(#[trigger] digits[k])));
            return None;
        };
        let ghost next = bytes@.subrange(first as int, i + 1);
        assert(next.drop_last() =~= bytes@.subrange(first as int, i as int));
        assert(next.last() == b);
        assert(d == hex_digit_value(b));
        acc = acc * 16 + d;
        assert(acc == hex_number(next));
        i = i + 1;
        if acc > 0xffff_ffff {
            proof {
                lemma_hex_number_grows(digits, i - first, digits.len() as int);
                assert(digits.subrange(0, i - first) =~= next);
                assert(digits.subrange(0, digits.len() as int) =~= digits);
                assert(hex_number(digits) > u32::MAX);
            }
            return None;
        }
    }
    assert(bytes@.subrange(first as int, i as int) =~= digits);
    Some(acc as u32)
}

/// A longer prefix of a digit run never has a smaller value.
proof fn lemma_hex_number_grows(s: Seq<u8>, i: int, j: int)
    requires
        0 <= i <= j <= s.len(),
    ensures
        hex_number(s.subrange(0, i)) <= hex_number(s.subrange(0, j)),
    decreases j - i,
{
    if i < j {
        lemma_hex_number_grows(s, i, j - 1);
        assert(s.subrange(0, j).drop_last() =~= s.subrange(0, j - 1));
    }
}

/// Appends the three base-40 symbols of a half-word.
pub fn decode_half_word(half_word: u16, c40_list: &mut Vec<i32>)
    ensures
        final(c40_list)@ == old(c40_list)@ + half_symbols(half_word),
{
    if half_word == 0 {
        c40_list.push(-1);
        c40_list.push(39);
        c40_list.push(39);
    } else {
        let s0: u16 = (half_word - 1) / 1600;
        assert(s0 * 1600 <= half_word - 1) by (nonlinear_arith)
            requires
                s0 == (half_word - 1) / 1600,
                half_word >= 1,
        ;
        let rem1: u16 = half_word - s0 * 1600;
        let s1: u16 = (rem1 - 1) / 40;
        assert(s1 * 40 <= rem1 - 1) by (nonlinear_arith)
            requires
                s1 == (rem1 - 1) / 40,
                rem1 >= 1,
        ;
        let rem2: u16 = rem1 - s1 * 40;
        c40_list.push(s0 as i32);
        c40_list.push(s1 as i32);
        c40_list.push((rem2 - 1) as i32);
    }
    assert(final(c40_list)@ =~= old(c40_list)@ + half_symbols(half_word));
}

/// The symbol code of a character: digits are 4..13, letters 14..39 in
/// either case; anything else has no code.
pub fn char_to_c40(val: char) -> (r: Option<i32>)
    ensures
        r == char_code(val),
{
    let v = val as u32;
    if v >= 0x61 && v <= 0x7a {
        return Some((v - 0x61 + 14) as i32);
    }
    if v >= 0x30 && v <= 0x39 {
        Some((v - 0x30 + 4) as i32)
    } else if v >= 0x41 && v <= 0x5a {
        Some((v - 0x41 + 14) as i32)
    } else {
        None
    }
}

/// The character of a symbol code, or `None` outside 4..39.
pub fn c40_to_char(val: i32) -> (r: Option<char>)
    ensures
        r == symbol_char(val as int),
{
    if let Some(zero) = char_to_c40('0') {
        if val >= zero && val <= zero + 9 {
            return Some((0x30u8 + (val - zero) as u8) as char);
        }
    }
    if let Some(a) = char_to_c40('A') {
        if val >= a && val <= a + 25 {
            return Some((0x41u8 + (val - a) as u8) as char);
        }
    }
    None
}

/// A segment that is not a hexadecimal word ends the decoding: what follows
/// it is ignored, and the half-words are exactly those of the text before it.
pub proof fn lemma_bad_segment_ends_decoding(before: Seq<u8>, bad: Seq<u8>, after: Seq<u8>)
    requires
        forall|i: int| 0 <= i < bad.len() ==> #[trigger] bad[i] != WORD_SEPARATOR,
        hex_word(bad) is None,
        after.len() == 0 || after[0] == WORD_SEPARATOR,
    ensures
        half_words(before + seq![WORD_SEPARATOR] + bad + after) == half_words(before),
        duid_decoded(before + seq![WORD_SEPARATOR] + bad + after) == duid_decoded(before),
{
    lemma_prefix_half_words(before, bad, after, 0, 0);
}

proof fn lemma_bad_segment_is_empty(before: Seq<u8>, bad: Seq<u8>, after: Seq<u8>, j: int)
    requires
        forall|i: int| 0 <= i < bad.len() ==> #[trigger] bad[i] != WORD_SEPARATOR,
        hex_word(bad) is None,
        after.len() == 0 || after[0] == WORD_SEPARATOR,
        before.len() + 1 <= j <= before.len() + 1 + bad.len(),
    ensures
        half_words_from(
            before + seq![WORD_SEPARATOR] + bad + after,
            before.len() + 1 as int,
            j,
        ) == Seq::<u16>::empty(),
    decreases before.len() + 1 + bad.len() - j,
{
    let t = before + seq![WORD_SEPARATOR] + bad + after;
    let k = before.len() + 1 as int;
    if j < k + bad.len() {
        assert(t[j] == bad[j - k]);
        lemma_bad_segment_is_empty(before, bad, after, j + 1);
    } else {
        assert(t.subrange(k, j) =~= bad);
        if j < t.len() {
            assert(t[j] == after[0]);
        }
    }
}

proof fn lemma_prefix_half_words(before: Seq<u8>, bad: Seq<u8>, after: Seq<u8>, st: int, i: int)
    requires
        forall|i: int| 0 <= i < bad.len() ==> #[trigger] bad[i] != WORD_SEPARATOR,
        hex_word(bad) is None,
        after.len() == 0 || after[0] == WORD_SEPARATOR,
        0 <= st <= i <= before.len(),
    ensures
        half_words_from(before + seq![WORD_SEPARATOR] + bad + after, st, i) == half_words_from(
            before,
            st,
            i,
        ),
    decreases before.len() - i,
{
    let t = before + seq![WORD_SEPARATOR] + bad + after;
    assert(t.subrange(st, i) =~= before.subrange(st, i));
    if i < before.len() {
        assert(t[i] == before[i]);
        if before[i] != WORD_SEPARATOR {
            lemma_prefix_half_words(before, bad, after, st, i + 1);
        } else {
            lemma_prefix_half_words(before, bad, after, i + 1, i + 1);
        }
    } else {
        assert(t[i] == WORD_SEPARATOR);
        lemma_bad_segment_is_empty(before, bad, after, i + 1);
        match hex_word(before.subrange(st, i)) {
            Some(w) => {
                assert(word_halves(w) + Seq::<u16>::empty() =~= word_halves(w));
            },
            None => {},
        }
    }
}

/// A first segment that is not a hexadecimal word ends the decoding before
/// anything is read: the result is the empty string, without error.
pub proof fn lemma_bad_first_segment_decodes_empty(bad: Seq<u8>, after: Seq<u8>)
    requires
        forall|i: int| 0 <= i < bad.len() ==> #[trigger] bad[i] != WORD_SEPARATOR,
        hex_word(bad) is None,
        after.len() == 0 || after[0] == WORD_SEPARATOR,
    ensures
        half_words(bad + after) == Seq::<u16>::empty(),
        duid_decoded(bad + after) == Some(Seq::<char>::empty()),
{
    lemma_bad_first_segment_is_empty(bad, after, 0);
    let syms = symbols(Seq::<u16>::empty());
    assert(syms =~= Seq::<i32>::empty());
    assert(syms.map_values(|v: i32| symbol_char(v as int)->Some_0) =~= Seq::<char>::empty());
}

proof fn lemma_bad_first_segment_is_empty(bad: Seq<u8>, after: Seq<u8>, j: int)
    requires
        forall|i: int| 0 <= i < bad.len() ==> #[trigger] bad[i] != WORD_SEPARATOR,
        hex_word(bad) is None,
        after.len() == 0 || after[0] == WORD_SEPARATOR,
        0 <= j <= bad.len(),
    ensures
        half_words_from(bad + after, 0, j) == Seq::<u16>::empty(),
    decreases bad.len() - j,
{
    let t = bad + after;
    if j < bad.len() {
        assert(t[j] == bad[j]);
        lemma_bad_first_segment_is_empty(bad, after, j + 1);
    } else {
        assert(t.subrange(0, j) =~= bad);
        if j < t.len() {
            assert(t[j] == after[0]);
        }
    }
}

} // verus!
