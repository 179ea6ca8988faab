//! Identifiers, the indices they stand for, and the places of their files.
//!
//! An identifier is the text `URS` followed by ten upper-case hexadecimal
//! digits, which write a 40-bit index with leading zeros. Its file lives
//! four directories deep below `<base>/URS`, each directory named by two of
//! the first eight digits.
use vstd::prelude::*;
use vstd::string::*;
use crate::text::{
    after_last, copy_range, find_after_last, find_char, first_index_of, from_chars,
    lemma_after_last, lemma_first_index_of, lemma_replaced_after, lemma_replaced_hits,
    lemma_replaced_keeps, lemma_replaced_skips, remove_all, texts, to_chars, without,
    without_from,
};

verus! {

/// Why an identifier could not be read or written.
#[derive(Clone, Copy, Debug, PartialEq, Eq, Structural)]
pub enum UrsError {
    /// The text is not `URS` followed by ten upper-case hexadecimal digits.
    MalformedIdentifier,
    /// The index needs more than ten hexadecimal digits.
    EncodingOverflow,
}

/// Number of hexadecimal digits in an identifier.
pub const DIGITS: usize = 10;

/// Number of characters in an identifier.
pub const URS_LEN: usize = 13;

/// One more than the largest index an identifier can write: 16 to the 10th.
pub const INDEX_LIMIT: u64 = 0x100_0000_0000;

/// The prefix every identifier starts with.
pub open spec fn prefix() -> Seq<char> {
    seq!['U', 'R', 'S']
}

/// The sixteen digits, by value.
pub open spec fn hex_digits() -> Seq<char> {
    seq!['0', '1', '2', '3', '4', '5', '6', '7', '8', '9', 'A', 'B', 'C', 'D', 'E', 'F']
}

/// The digit that writes `d`, for `0 <= d < 16`.
pub open spec fn hex_digit(d: int) -> char {
    hex_digits()[d]
}

/// Whether `c` is one of `0`-`9`, `A`-`F`.
pub open spec fn is_upper_hex(c: char) -> bool {
    ('0' <= c && c <= '9') || ('A' <= c && c <= 'F')
}

/// The value of the digit `c`.
pub open spec fn hex_value(c: char) -> int {
    if c <= '9' {
        c as int - '0' as int
    } else {
        c as int - 'A' as int + 10
    }
}

/// `value` written with exactly `digits` hexadecimal digits: leading zeros
/// are added, and digits beyond the `digits` lowest are dropped.
pub open spec fn hex_text(value: nat, digits: nat) -> Seq<char>
    decreases digits,
{
    if digits == 0 {
        Seq::empty()
    } else {
        hex_text(value / 16, (digits - 1) as nat).push(hex_digit((value % 16) as int))
    }
}

/// The number that the hexadecimal digits `text` write.
pub open spec fn hex_number(text: Seq<char>) -> nat
    decreases text.len(),
{
    if text.len() == 0 {
        0
    } else {
        (hex_number(text.drop_last()) * 16 + hex_value(text.last())) as nat
    }
}

/// Whether every character of `text` is an upper-case hexadecimal digit.
pub open spec fn all_upper_hex(text: Seq<char>) -> bool {
    forall|i: int| 0 <= i < text.len() ==> is_upper_hex(#[trigger] text[i])
}

/// Whether `text` is an identifier: `URS` and ten upper-case hexadecimal
/// digits, nothing before and nothing after.
pub open spec fn valid_urs(text: Seq<char>) -> bool {
    &&& text.len() == URS_LEN
    &&& text.subrange(0, 3) == prefix()
    &&& all_upper_hex(text.subrange(3, URS_LEN as int))
}

/// The identifier of `index`.
pub open spec fn urs_of(index: nat) -> Seq<char> {
    prefix() + hex_text(index, DIGITS as nat)
}

/// The index that the identifier `urs` stands for.
pub open spec fn index_of(urs: Seq<char>) -> nat {
    hex_number(urs.subrange(3, urs.len() as int))
}

/// 16 to the power `n`.
pub open spec fn pow16(n: nat) -> nat
    decreases n,
{
    if n == 0 {
        1
    } else {
        16 * pow16((n - 1) as nat)
    }
}

/// Every digit value has an upper-case digit, and the digit gives the value
/// back.
pub proof fn lemma_hex_digit(d: int)
    requires
        0 <= d < 16,
    ensures
        is_upper_hex(hex_digit(d)),
        hex_value(hex_digit(d)) == d,
{
}

/// Every upper-case digit has a value below 16 and is the digit of that
/// value.
pub proof fn lemma_hex_value(c: char)
    requires
        is_upper_hex(c),
    ensures
        0 <= hex_value(c) < 16,
        hex_digit(hex_value(c)) == c,
{
}

/// `hex_text` gives as many characters as asked for, all of them upper-case
/// hexadecimal digits.
pub proof fn lemma_hex_text_shape(value: nat, digits: nat)
    ensures
        hex_text(value, digits).len() == digits,
        all_upper_hex(hex_text(value, digits)),
    decreases digits,
{
    if digits > 0 {
        lemma_hex_text_shape(value / 16, (digits - 1) as nat);
        lemma_hex_digit((value % 16) as int);
    }
}

/// Reading back what `hex_text` wrote gives the value, up to the digits that
/// did not fit.
pub proof fn lemma_hex_number_of_text(value: nat, digits: nat)
    ensures
        hex_number(hex_text(value, digits)) == value % pow16(digits),
    decreases digits,
{
    if digits > 0 {
        let rest = hex_text(value / 16, (digits - 1) as nat);
        let text = hex_text(value, digits);
        lemma_hex_number_of_text(value / 16, (digits - 1) as nat);
        lemma_hex_digit((value % 16) as int);
        lemma_pow16_positive((digits - 1) as nat);
        assert(text.drop_last() == rest);
        assert(text.last() == hex_digit((value % 16) as int));
        vstd::arithmetic::div_mod::lemma_mod_breakdown(
            value as int,
            16,
            pow16((digits - 1) as nat) as int,
        );
    }
}

/// Powers of 16 are positive.
pub proof fn lemma_pow16_positive(n: nat)
    ensures
        pow16(n) > 0,
    decreases n,
{
    if n > 0 {
        lemma_pow16_positive((n - 1) as nat);
    }
}

/// Upper-case digits write a number below 16 to the power of their count,
/// and writing that number with as many digits gives them back.
pub proof fn lemma_hex_text_of_number(text: Seq<char>)
    requires
        all_upper_hex(text),
    ensures
        hex_number(text) < pow16(text.len()),
        hex_text(hex_number(text), text.len()) == text,
    decreases text.len(),
{
    if text.len() > 0 {
        let front = text.drop_last();
        assert forall|i: int| 0 <= i < front.len() implies is_upper_hex(#[trigger] front[i]) by {
            assert(front[i] == text[i]);
        }
        lemma_hex_text_of_number(front);
        lemma_hex_value(text.last());
        let n = hex_number(text);
        assert(n == hex_number(front) * 16 + hex_value(text.last()));
        assert(n / 16 == hex_number(front));
        assert(n % 16 == hex_value(text.last()));
        assert(hex_text(n, text.len()) == hex_text(hex_number(front), front.len()).push(
            text.last(),
        ));
        assert(front.push(text.last()) == text);
    }
}

/// The limit on indices is 16 to the power of the number of digits.
pub proof fn lemma_index_limit()
    ensures
        pow16(DIGITS as nat) == INDEX_LIMIT,
{
    reveal_with_fuel(pow16, 11);
}

/// Every index, however large, is written as a well-formed identifier.
pub proof fn lemma_urs_of_is_valid(index: nat)
    ensures
        valid_urs(urs_of(index)),
{
    lemma_hex_text_shape(index, DIGITS as nat);
    assert(urs_of(index).subrange(0, 3) == prefix());
    assert(urs_of(index).subrange(3, URS_LEN as int) == hex_text(index, DIGITS as nat));
}

/// Reading the identifier of an index below the limit gives the index back.
pub proof fn lemma_index_of_urs_of(index: nat)
    requires
        index < INDEX_LIMIT,
    ensures
        valid_urs(urs_of(index)),
        index_of(urs_of(index)) == index,
{
    lemma_urs_of_is_valid(index);
    lemma_hex_text_shape(index, DIGITS as nat);
    lemma_hex_number_of_text(index, DIGITS as nat);
    lemma_index_limit();
    assert(urs_of(index).subrange(3, urs_of(index).len() as int) == hex_text(
        index,
        DIGITS as nat,
    ));
    vstd::arithmetic::div_mod::lemma_small_mod(index, INDEX_LIMIT as nat);
}

/// The index of an identifier is below the limit, and writing it gives the
/// identifier back.
pub proof fn lemma_urs_of_index_of(urs: Seq<char>)
    requires
        valid_urs(urs),
    ensures
        index_of(urs) < INDEX_LIMIT,
        urs_of(index_of(urs)) == urs,
{
    let digits = urs.subrange(3, URS_LEN as int);
    lemma_hex_text_of_number(digits);
    lemma_index_limit();
    assert(urs == urs.subrange(0, 3) + digits);
}

/// Two identifiers with the same index are the same identifier.
pub proof fn lemma_index_of_is_injective(a: Seq<char>, b: Seq<char>)
    requires
        valid_urs(a),
        valid_urs(b),
        index_of(a) == index_of(b),
    ensures
        a == b,
{
    lemma_urs_of_index_of(a);
    lemma_urs_of_index_of(b);
}

/// The digit that writes `d`.
fn hex_char(d: u8) -> (c: char)
    requires
        d < 16,
    ensures
        c == hex_digit(d as int),
{
    if d < 10 {
        (48 + d) as char
    } else {
        (55 + d) as char
    }
}

/// The value of `c` where it is an upper-case hexadecimal digit.
fn hex_char_value(c: char) -> (v: Option<u8>)
    ensures
        match v {
            Some(d) => is_upper_hex(c) && d == hex_value(c),
            None => !is_upper_hex(c),
        },
{
    if '0' <= c && c <= '9' {
        Some(c as u8 - 48)
    } else if 'A' <= c && c <= 'F' {
        Some(c as u8 - 55)
    } else {
        None
    }
}

/// Writes `index` as an identifier: `URS` and the index in ten upper-case
/// hexadecimal digits, with leading zeros. An index that needs more digits
/// is refused.
pub fn int_to_urs(index: u64) -> (r: Result<String, UrsError>)
    ensures
        match r {
            Ok(urs) => index < INDEX_LIMIT && urs@ == urs_of(index as nat) && valid_urs(urs@),
            Err(e) => index >= INDEX_LIMIT && e == UrsError::EncodingOverflow,
        },
{
    if index >= INDEX_LIMIT {
        return Err(UrsError::EncodingOverflow);
    }
    let mut chars: Vec<char> = vec![
        'U', 'R', 'S', '0', '0', '0', '0', '0', '0', '0', '0', '0', '0',
    ];
    let mut rest: u64 = index;
    let mut pos: usize = URS_LEN;
    assert(chars@.subrange(0, 3) == prefix());
    assert(hex_text(rest as nat, 10) + chars@.subrange(13, 13) == hex_text(index as nat, 10));
    while pos > 3
        invariant
            3 <= pos <= 13,
            chars.len() == 13,
            chars@.subrange(0, 3) == prefix(),
            hex_text(rest as nat, (pos - 3) as nat) + chars@.subrange(pos as int, 13) == hex_text(
                index as nat,
                10,
            ),
        decreases pos,
    {
        let ghost before = chars@;
        let ghost written = hex_text(rest as nat, (pos - 3) as nat);
        pos -= 1;
        let digit = hex_char((rest % 16) as u8);
        chars.set(pos, digit);
        rest = rest / 16;
        proof {
            let shorter = hex_text(rest as nat, (pos - 3) as nat);
            assert(written == shorter.push(digit));
            assert(chars@.subrange(pos as int, 13) == seq![digit] + before.subrange(pos + 1, 13));
            assert(shorter + (seq![digit] + before.subrange(pos + 1, 13)) == shorter.push(digit)
                + before.subrange(pos + 1, 13));
            assert(chars@.subrange(0, 3) == before.subrange(0, 3));
        }
    }
    let urs = from_chars(&chars, 0, URS_LEN);
    proof {
        assert(hex_text(rest as nat, 0) + chars@.subrange(3, 13) == chars@.subrange(3, 13));
        assert(chars@.subrange(0, 13) == chars@.subrange(0, 3) + chars@.subrange(3, 13));
        lemma_urs_of_is_valid(index as nat);
    }
    Ok(urs)
}

/// Whether the characters are an identifier, and the index if so.
fn chars_to_index(chars: &Vec<char>) -> (r: Option<u64>)
    ensures
        match r {
            Some(index) => valid_urs(chars@) && index == index_of(chars@) && index < INDEX_LIMIT,
            None => !valid_urs(chars@),
        },
{
    if chars.len() != URS_LEN || chars[0] != 'U' || chars[1] != 'R' || chars[2] != 'S' {
        assert(chars.len() == URS_LEN ==> chars@.subrange(0, 3)[0] == chars@[0]
            && chars@.subrange(0, 3)[1] == chars@[1] && chars@.subrange(0, 3)[2] == chars@[2]);
        return None;
    }
    assert(chars@.subrange(0, 3) == prefix());
    let ghost digits = chars@.subrange(3, 13);
    let mut index: u64 = 0;
    let mut i: usize = 3;
    assert(digits.subrange(0, 0) == Seq::<char>::empty());
    while i < URS_LEN
        invariant
            3 <= i <= 13,
            chars.len() == 13,
            digits == chars@.subrange(3, 13),
            all_upper_hex(digits.subrange(0, i - 3)),
            index == hex_number(digits.subrange(0, i - 3)),
            index < pow16((i - 3) as nat),
            pow16((i - 3) as nat) <= INDEX_LIMIT,
        decreases 13 - i,
    {
        match hex_char_value(chars[i]) {
            None => {
                assert(!is_upper_hex(digits[i - 3]));
                return None;
            },
            Some(d) => {
                proof {
                    let read = digits.subrange(0, i - 3);
                    let more = digits.subrange(0, i - 2);
                    assert(more.drop_last() == read);
                    assert(more.last() == chars@[i as int]);
                    assert forall|j: int| 0 <= j < more.len() implies is_upper_hex(
                        #[trigger] more[j],
                    ) by {
                        if j < read.len() {
                            assert(more[j] == read[j]);
                        }
                    }
                    lemma_index_limit();
                    reveal_with_fuel(pow16, 11);
                }
                index = index * 16 + d as u64;
            },
        }
        i += 1;
    }
    proof {
        assert(digits.subrange(0, 10) == digits);
        lemma_index_limit();
    }
    Some(index)
}

/// Reads the index out of an identifier. Anything but `URS` followed by ten
/// upper-case hexadecimal digits is refused.
pub fn urs_to_index(urs: &str) -> (r: Result<u64, UrsError>)
    ensures
        match r {
            Ok(index) => valid_urs(urs@) && index == index_of(urs@) && index < INDEX_LIMIT,
            Err(e) => !valid_urs(urs@) && e == UrsError::MalformedIdentifier,
        },
{
    let chars = to_chars(urs);
    match chars_to_index(&chars) {
        Some(index) => Ok(index),
        None => Err(UrsError::MalformedIdentifier),
    }
}

/// Whether `urs` is an identifier: `URS`, ten upper-case hexadecimal digits,
/// and nothing else.
pub fn is_urs(urs: &str) -> (valid: bool)
    ensures
        valid == valid_urs(urs@),
{
    let chars = to_chars(urs);
    chars_to_index(&chars).is_some()
}

/// `base` with the component `part` below it. A `/` is put between the two
/// unless `base` is empty or already ends with one.
pub open spec fn joined(base: Seq<char>, part: Seq<char>) -> Seq<char> {
    if base.len() == 0 || base.last() == '/' {
        base + part
    } else {
        base.push('/') + part
    }
}

/// The name of the `k`-th directory below `<base>/URS`, for `k` from 0 to 3:
/// two characters of the identifier, starting at 3, 5, 7 and 9.
pub open spec fn shard(urs: Seq<char>, k: int) -> Seq<char> {
    urs.subrange(3 + 2 * k, 5 + 2 * k)
}

/// The directory that holds the files of `urs`:
/// `<base>/URS/<shard 0>/<shard 1>/<shard 2>/<shard 3>`.
pub open spec fn directory_of(base: Seq<char>, urs: Seq<char>) -> Seq<char> {
    joined(
        joined(joined(joined(joined(base, prefix()), shard(urs, 0)), shard(urs, 1)), shard(urs, 2)),
        shard(urs, 3),
    )
}

/// The path of the files of `urs` without an extension: the identifier
/// itself, in its directory.
pub open spec fn stem_of(base: Seq<char>, urs: Seq<char>) -> Seq<char> {
    joined(directory_of(base, urs), urs)
}

/// The extension of a diagram that is not compressed.
pub open spec fn svg_extension() -> Seq<char> {
    seq!['.', 's', 'v', 'g']
}

/// The extension of a compressed diagram.
pub open spec fn gz_extension() -> Seq<char> {
    seq!['.', 'g', 'z']
}

/// Where the diagram of `urs` lies before it is compressed.
pub open spec fn uncompressed_of(base: Seq<char>, urs: Seq<char>) -> Seq<char> {
    stem_of(base, urs) + svg_extension()
}

/// The one place where the diagram of `urs` belongs: compressed, in its
/// directory.
pub open spec fn compressed_of(base: Seq<char>, urs: Seq<char>) -> Seq<char> {
    stem_of(base, urs) + svg_extension() + gz_extension()
}

/// The places where older runs left the diagram of `urs`. There is one: the
/// compressed name with `.svg.` put before its last extension, which gives
/// `<urs>.svg..svg.gz`.
pub open spec fn legacy_of(base: Seq<char>, urs: Seq<char>) -> Seq<Seq<char>> {
    seq![stem_of(base, urs) + svg_extension() + seq!['.'] + svg_extension() + gz_extension()]
}

/// The directory of an identifier is `<base>/URS` followed by four times a
/// `/` and two characters of the identifier, which are hexadecimal digits.
pub proof fn lemma_directory_shape(base: Seq<char>, urs: Seq<char>)
    requires
        valid_urs(urs),
    ensures
        forall|k: int| 0 <= k < 4 ==> (#[trigger] shard(urs, k)).len() == 2,
        forall|k: int| 0 <= k < 4 ==> all_upper_hex(#[trigger] shard(urs, k)),
        directory_of(base, urs) == joined(base, prefix()) + seq!['/'] + shard(urs, 0) + seq!['/']
            + shard(urs, 1) + seq!['/'] + shard(urs, 2) + seq!['/'] + shard(urs, 3),
        directory_of(base, urs).len() == joined(base, prefix()).len() + 12,
        stem_of(base, urs) == directory_of(base, urs) + seq!['/'] + urs,
{
    let digits = urs.subrange(3, URS_LEN as int);
    assert forall|k: int| 0 <= k < 4 implies all_upper_hex(#[trigger] shard(urs, k)) by {
        assert forall|i: int| 0 <= i < shard(urs, k).len() implies is_upper_hex(
            #[trigger] shard(urs, k)[i],
        ) by {
            assert(shard(urs, k)[i] == digits[2 * k + i]);
        }
    }
    let root = joined(base, prefix());
    assert(root.last() == 'S');
    let d0 = joined(root, shard(urs, 0));
    assert(d0 == root + seq!['/'] + shard(urs, 0));
    assert(d0.last() == shard(urs, 0)[1]);
    assert(is_upper_hex(shard(urs, 0)[1]));
    let d1 = joined(d0, shard(urs, 1));
    assert(d1 == d0 + seq!['/'] + shard(urs, 1));
    assert(d1.last() == shard(urs, 1)[1]);
    assert(is_upper_hex(shard(urs, 1)[1]));
    let d2 = joined(d1, shard(urs, 2));
    assert(d2 == d1 + seq!['/'] + shard(urs, 2));
    assert(d2.last() == shard(urs, 2)[1]);
    assert(is_upper_hex(shard(urs, 2)[1]));
    let d3 = joined(d2, shard(urs, 3));
    assert(d3 == d2 + seq!['/'] + shard(urs, 3));
    assert(d3.last() == shard(urs, 3)[1]);
    assert(is_upper_hex(shard(urs, 3)[1]));
    assert(stem_of(base, urs) == d3 + seq!['/'] + urs);
}

/// The eight digits that name the directories of an identifier write its
/// index without the last two digits.
pub proof fn lemma_shards_of_index(urs: Seq<char>)
    requires
        valid_urs(urs),
    ensures
        urs.subrange(3, 11) == hex_text(index_of(urs) / 256, 8),
        index_of(urs) / 256 < pow16(8),
{
    let index = index_of(urs);
    lemma_urs_of_index_of(urs);
    let digits = hex_text(index, 10);
    assert(urs.subrange(3, 13) == digits) by {
        assert(urs_of(index).subrange(3, 13) == digits);
    }
    let nine = hex_text(index / 16, 9);
    let eight = hex_text(index / 16 / 16, 8);
    assert(digits == nine.push(hex_digit((index % 16) as int)));
    assert(nine == eight.push(hex_digit((index / 16 % 16) as int)));
    lemma_hex_text_shape(index / 16 / 16, 8);
    assert(index / 16 / 16 == index / 256);
    assert(urs.subrange(3, 11) == urs.subrange(3, 13).subrange(0, 8));
    assert(digits.subrange(0, 8) == eight);
    lemma_index_limit();
    reveal_with_fuel(pow16, 11);
}

/// Two identifiers have the same directory exactly where their indices
/// differ in the last two digits at most: a directory holds 256 identifiers
/// in a row.
pub proof fn lemma_same_directory(base: Seq<char>, a: Seq<char>, b: Seq<char>)
    requires
        valid_urs(a),
        valid_urs(b),
    ensures
        directory_of(base, a) == directory_of(base, b) <==> index_of(a) / 256 == index_of(b)
            / 256,
{
    lemma_shards_of_index(a);
    lemma_shards_of_index(b);
    lemma_directory_shape(base, a);
    lemma_directory_shape(base, b);
    let named_a = a.subrange(3, 11);
    let named_b = b.subrange(3, 11);
    assert forall|k: int| 0 <= k < 4 implies #[trigger] shard(a, k) == named_a.subrange(
        2 * k,
        2 * k + 2,
    ) by {}
    assert forall|k: int| 0 <= k < 4 implies #[trigger] shard(b, k) == named_b.subrange(
        2 * k,
        2 * k + 2,
    ) by {}
    if index_of(a) / 256 == index_of(b) / 256 {
        assert(named_a == named_b);
        assert(shard(a, 0) == shard(b, 0));
        assert(shard(a, 1) == shard(b, 1));
        assert(shard(a, 2) == shard(b, 2));
        assert(shard(a, 3) == shard(b, 3));
    }
    if directory_of(base, a) == directory_of(base, b) {
        let root = joined(base, prefix());
        let dir = directory_of(base, a);
        let at = root.len() as int;
        assert forall|i: int| 0 <= i < 8 implies named_a[i] == named_b[i] by {
            let k = i / 2;
            let place = at + 1 + 3 * k + i % 2;
            assert(shard(a, k)[i % 2] == named_a[i]);
            assert(shard(b, k)[i % 2] == named_b[i]);
            assert(dir[place] == shard(a, k)[i % 2]);
            assert(directory_of(base, b)[place] == shard(b, k)[i % 2]);
        }
        assert(named_a == named_b);
        lemma_hex_number_of_text(index_of(a) / 256, 8);
        lemma_hex_number_of_text(index_of(b) / 256, 8);
        vstd::arithmetic::div_mod::lemma_small_mod(index_of(a) / 256, pow16(8));
        vstd::arithmetic::div_mod::lemma_small_mod(index_of(b) / 256, pow16(8));
    }
}

/// Whether a component put below `path` needs a `/` before it.
fn needs_separator(path: &str) -> (needed: bool)
    ensures
        needed == (path@.len() > 0 && path@.last() != '/'),
{
    let mut last: Option<char> = None;
    for c in it: path.chars()
        invariant
            it.seq() == path@,
            last == if it.index() == 0 {
                None
            } else {
                Some(path@[it.index() - 1])
            },
    {
        last = Some(c);
    }
    match last {
        Some(c) => c != '/',
        None => false,
    }
}

/// Puts the component `part` below `path`.
fn push_component(path: &mut String, part: &str)
    ensures
        final(path)@ == joined(old(path)@, part@),
{
    if needs_separator(path.as_str()) {
        path.push('/');
    }
    path.append(part);
}

/// The directory that holds the files of the identifier `urs` below `base`:
/// `<base>/URS` and four directories named by two digits each.
pub fn directory_path(base: &str, urs: &str) -> (path: String)
    requires
        valid_urs(urs@),
    ensures
        path@ == directory_of(base@, urs@),
{
    proof {
        reveal_strlit("URS");
        assert("URS"@ == prefix());
    }
    let mut path = String::from_str(base);
    push_component(&mut path, "URS");
    push_component(&mut path, urs.substring_char(3, 5));
    push_component(&mut path, urs.substring_char(5, 7));
    push_component(&mut path, urs.substring_char(7, 9));
    push_component(&mut path, urs.substring_char(9, 11));
    path
}

/// The path of the files of `urs` without an extension.
fn stem_path(base: &str, urs: &str) -> (path: String)
    requires
        valid_urs(urs@),
    ensures
        path@ == stem_of(base@, urs@),
{
    let mut path = directory_path(base, urs);
    push_component(&mut path, urs);
    path
}

/// Where the diagram of `urs` lies below `base` before it is compressed:
/// in its directory, under the name `<urs>.svg`.
pub fn uncompressed_path(base: &str, urs: &str) -> (path: String)
    requires
        valid_urs(urs@),
    ensures
        path@ == uncompressed_of(base@, urs@),
{
    proof {
        reveal_strlit(".svg");
        assert(".svg"@ == svg_extension());
    }
    let mut path = stem_path(base, urs);
    path.append(".svg");
    path
}

/// The one place where the diagram of `urs` belongs below `base`: in its
/// directory, under the name `<urs>.svg.gz`.
pub fn path_for(base: &str, urs: &str) -> (path: String)
    requires
        valid_urs(urs@),
    ensures
        path@ == compressed_of(base@, urs@),
{
    proof {
        reveal_strlit(".gz");
        assert(".gz"@ == gz_extension());
    }
    let mut path = uncompressed_path(base, urs);
    path.append(".gz");
    path
}

/// The places below `base` where older runs left the diagram of `urs`; a
/// file found at one of them has to be renamed.
pub fn incorrect_paths(base: &str, urs: &str) -> (paths: Vec<String>)
    requires
        valid_urs(urs@),
    ensures
        texts(paths@) == legacy_of(base@, urs@),
{
    proof {
        reveal_strlit(".");
        reveal_strlit(".svg");
        reveal_strlit(".gz");
        assert("."@ == seq!['.']);
        assert(".svg"@ == svg_extension());
        assert(".gz"@ == gz_extension());
    }
    let mut standard_path = uncompressed_path(base, urs);
    standard_path.append(".");
    standard_path.append(".svg");
    standard_path.append(".gz");
    let mut paths: Vec<String> = Vec::new();
    paths.push(standard_path);
    assert(texts(paths@) == legacy_of(base@, urs@));
    paths
}

/// Where `path[..end]` ends once the `/` and the components `.` at its end
/// are dropped, which name no file.
pub open spec fn path_end(path: Seq<char>, end: int) -> int
    decreases end,
{
    if end <= 0 {
        0
    } else if path[end - 1] == '/' {
        path_end(path, end - 1)
    } else if path[end - 1] == '.' && (end == 1 || path[end - 2] == '/') {
        path_end(path, end - 1)
    } else {
        end
    }
}

/// The file name of `path`: its last component, which is what stands
/// between the last `/` and the end. A `/` at the end and a component `.`
/// there are not looked at. A path without a component has the empty name.
pub open spec fn file_name_of(path: Seq<char>) -> Seq<char> {
    let end = path_end(path, path.len() as int);
    path.subrange(after_last(path, '/', end), end)
}

/// The marker of a diagram that was coloured.
pub open spec fn colored_marker() -> Seq<char> {
    seq!['.', 'c', 'o', 'l', 'o', 'r', 'e', 'd']
}

/// The extension that older runs wrote with two dots.
pub open spec fn dotted_svg_extension() -> Seq<char> {
    seq!['.', '.', 's', 'v', 'g']
}

/// `text` without its model qualifier: the first `-` of its last line and
/// all that follows, where something follows. A `-` at the very end is no
/// qualifier, and none reaches over a line break.
pub open spec fn without_qualifier(text: Seq<char>) -> Seq<char> {
    let line = after_last(text, '\n', text.len() as int);
    let dash = first_index_of(text, '-', line);
    if dash + 1 < text.len() {
        text.take(dash)
    } else {
        text
    }
}

/// What is left of a file name once the marks of its format are taken out,
/// in this order: every `.gz`, every `..svg`, every `.svg`, every
/// `.colored`, and then the model qualifier.
pub open spec fn stripped_name(name: Seq<char>) -> Seq<char> {
    let name = without(name, gz_extension());
    let name = without(name, dotted_svg_extension());
    let name = without(name, svg_extension());
    let name = without(name, colored_marker());
    without_qualifier(name)
}

/// Whether `text` ends with an identifier: its last thirteen characters are
/// `URS` and ten upper-case hexadecimal digits. What stands before them is
/// not looked at.
pub open spec fn ends_with_urs(text: Seq<char>) -> bool {
    text.len() >= URS_LEN && valid_urs(text.subrange(text.len() - URS_LEN, text.len() as int))
}

/// The identifier that the file name of `path` carries: the stripped name,
/// all of it, where it ends with an identifier.
pub open spec fn parsed_urs(path: Seq<char>) -> Option<Seq<char>> {
    let stem = stripped_name(file_name_of(path));
    if ends_with_urs(stem) {
        Some(stem)
    } else {
        None
    }
}

/// Whether the characters end with an identifier.
fn chars_end_with_urs(chars: &Vec<char>) -> (found: bool)
    ensures
        found == ends_with_urs(chars@),
{
    if chars.len() < URS_LEN {
        return false;
    }
    let tail = copy_range(chars, chars.len() - URS_LEN, chars.len());
    chars_to_index(&tail).is_some()
}

/// Whether `urs` ends with an identifier: `URS` and ten upper-case
/// hexadecimal digits as its last thirteen characters.
pub fn looks_like_urs(urs: &str) -> (found: bool)
    ensures
        found == ends_with_urs(urs@),
{
    let chars = to_chars(urs);
    chars_end_with_urs(&chars)
}

/// The characters of the file name of `path`.
fn file_name_chars(path: &Vec<char>) -> (name: Vec<char>)
    ensures
        name@ == file_name_of(path@),
{
    let mut end: usize = path.len();
    while end > 0 && (path[end - 1] == '/' || (path[end - 1] == '.' && (end == 1 || path[end - 2]
        == '/')))
        invariant
            end <= path.len(),
            path_end(path@, end as int) == path_end(path@, path.len() as int),
        decreases end,
    {
        end -= 1;
    }
    let start = find_after_last(path, '/', end);
    copy_range(path, start, end)
}

/// The file name of `path`: its last component.
pub fn file_name(path: &str) -> (name: String)
    ensures
        name@ == file_name_of(path@),
{
    let name = file_name_chars(&to_chars(path));
    assert(name@.subrange(0, name.len() as int) == name@);
    from_chars(&name, 0, name.len())
}

/// The characters without their model qualifier.
fn drop_qualifier(text: Vec<char>) -> (stem: Vec<char>)
    ensures
        stem@ == without_qualifier(text@),
{
    let line = find_after_last(&text, '\n', text.len());
    let dash = find_char(&text, '-', line);
    if dash < text.len() && dash + 1 < text.len() {
        let stem = copy_range(&text, 0, dash);
        assert(text@.subrange(0, dash as int) == text@.take(dash as int));
        stem
    } else {
        text
    }
}

/// Recovers the identifier from the file name of `path`. The marks `.gz`,
/// `..svg`, `.svg` and `.colored` are taken out of the name wherever they
/// stand, then a model qualifier (a `-` and what follows it up to the end).
/// What is left is the identifier, if it ends with `URS` and ten upper-case
/// hexadecimal digits; else the name carries none.
pub fn filename_urs(path: &str) -> (urs: Option<String>)
    ensures
        match urs {
            Some(found) => parsed_urs(path@) == Some(found@),
            None => parsed_urs(path@) is None,
        },
{
    proof {
        reveal_strlit(".gz");
        reveal_strlit("..svg");
        reveal_strlit(".svg");
        reveal_strlit(".colored");
        assert(".gz"@ == gz_extension());
        assert("..svg"@ == dotted_svg_extension());
        assert(".svg"@ == svg_extension());
        assert(".colored"@ == colored_marker());
    }
    let chars = to_chars(path);
    let name = file_name_chars(&chars);
    let name = remove_all(&name, &to_chars(".gz"));
    let name = remove_all(&name, &to_chars("..svg"));
    let name = remove_all(&name, &to_chars(".svg"));
    let name = remove_all(&name, &to_chars(".colored"));
    let stem = drop_qualifier(name);
    if chars_end_with_urs(&stem) {
        let found = from_chars(&stem, 0, stem.len());
        assert(stem@.subrange(0, stem.len() as int) == stem@);
        Some(found)
    } else {
        None
    }
}

/// The file name of a path that ends with `/` and a name is that name,
/// where the name holds no `/` and does not end with a `.`.
pub proof fn lemma_file_name_of(dir: Seq<char>, name: Seq<char>)
    requires
        name.len() > 0,
        name.last() != '.',
        forall|i: int| 0 <= i < name.len() ==> name[i] != '/',
    ensures
        file_name_of(dir.push('/') + name) == name,
{
    let path = dir.push('/') + name;
    let start = dir.len() as int + 1;
    assert(path[path.len() - 1] == name.last());
    assert(path_end(path, path.len() as int) == path.len());
    assert forall|i: int| start <= i < path.len() implies path[i] != '/' by {
        assert(path[i] == name[i - start]);
    }
    lemma_after_last(path, '/', start, path.len() as int);
    assert(path.subrange(start, path.len() as int) == name);
}

/// No character of an identifier is a `.`, a `-`, a `/` or a line break.
pub proof fn lemma_urs_characters(urs: Seq<char>)
    requires
        valid_urs(urs),
    ensures
        forall|i: int|
            0 <= i < urs.len() ==> urs[i] != '.' && urs[i] != '-' && urs[i] != '/' && urs[i]
                != '\n',
{
    assert forall|i: int| 0 <= i < urs.len() implies urs[i] != '.' && urs[i] != '-' && urs[i]
        != '/' && urs[i] != '\n' by {
        if i < 3 {
            assert(urs[i] == urs.subrange(0, 3)[i]);
        } else {
            assert(urs[i] == urs.subrange(3, URS_LEN as int)[i - 3]);
        }
    }
}

/// `.svg.gz` without `.gz` is `.svg`.
proof fn lemma_compressed_without_gz()
    ensures
        without(svg_extension() + gz_extension(), gz_extension()) == svg_extension(),
{
    let text = svg_extension() + gz_extension();
    let pat = gz_extension();
    let none = Seq::<char>::empty();
    lemma_replaced_keeps(text, 0, pat, none, 1);
    lemma_replaced_skips(text, 1, 4, pat, none);
    lemma_replaced_hits(text, 4, pat, none);
    assert(without_from(text, 7, pat) == none);
    assert(seq![text[0]] + (text.subrange(1, 4) + (none + none)) == svg_extension());
}

/// `.svg` holds no `.gz`.
proof fn lemma_svg_without_gz()
    ensures
        without(svg_extension(), gz_extension()) == svg_extension(),
{
    let text = svg_extension();
    let pat = gz_extension();
    let none = Seq::<char>::empty();
    lemma_replaced_keeps(text, 0, pat, none, 1);
    lemma_replaced_skips(text, 1, 4, pat, none);
    assert(without_from(text, 4, pat) == none);
    assert(seq![text[0]] + (text.subrange(1, 4) + none) == svg_extension());
}

/// `.svg..svg.gz` without `.gz` is `.svg..svg`.
proof fn lemma_legacy_without_gz()
    ensures
        without(
            svg_extension() + seq!['.'] + svg_extension() + gz_extension(),
            gz_extension(),
        ) == svg_extension() + dotted_svg_extension(),
{
    let text = svg_extension() + seq!['.'] + svg_extension() + gz_extension();
    let pat = gz_extension();
    let none = Seq::<char>::empty();
    lemma_replaced_keeps(text, 0, pat, none, 1);
    lemma_replaced_skips(text, 1, 4, pat, none);
    lemma_replaced_keeps(text, 4, pat, none, 1);
    lemma_replaced_keeps(text, 5, pat, none, 1);
    lemma_replaced_skips(text, 6, 9, pat, none);
    lemma_replaced_hits(text, 9, pat, none);
    assert(without_from(text, 12, pat) == none);
    assert(seq![text[0]] + (text.subrange(1, 4) + (seq![text[4]] + (seq![text[5]] + (
    text.subrange(6, 9) + (none + none))))) == svg_extension() + dotted_svg_extension());
}

/// `.svg` holds no `..svg`.
proof fn lemma_svg_without_dotted()
    ensures
        without(svg_extension(), dotted_svg_extension()) == svg_extension(),
{
    let text = svg_extension();
    let pat = dotted_svg_extension();
    let none = Seq::<char>::empty();
    lemma_replaced_keeps(text, 0, pat, none, 1);
    lemma_replaced_skips(text, 1, 4, pat, none);
    assert(without_from(text, 4, pat) == none);
    assert(seq![text[0]] + (text.subrange(1, 4) + none) == svg_extension());
}

/// `.svg..svg` without `..svg` is `.svg`.
proof fn lemma_legacy_without_dotted()
    ensures
        without(svg_extension() + dotted_svg_extension(), dotted_svg_extension())
            == svg_extension(),
{
    let text = svg_extension() + dotted_svg_extension();
    let pat = dotted_svg_extension();
    let none = Seq::<char>::empty();
    lemma_replaced_keeps(text, 0, pat, none, 1);
    lemma_replaced_skips(text, 1, 4, pat, none);
    lemma_replaced_hits(text, 4, pat, none);
    assert(without_from(text, 9, pat) == none);
    assert(seq![text[0]] + (text.subrange(1, 4) + (none + none)) == svg_extension());
}

/// `.svg` without `.svg` is empty.
proof fn lemma_svg_without_svg()
    ensures
        without(svg_extension(), svg_extension()) == Seq::<char>::empty(),
{
    let text = svg_extension();
    let none = Seq::<char>::empty();
    lemma_replaced_hits(text, 0, text, none);
    assert(without_from(text, 4, text) == none);
    assert(none + none == none);
}

/// An identifier followed by `.svg` is stripped down to the identifier.
proof fn lemma_stripped_svg_name(urs: Seq<char>)
    requires
        valid_urs(urs),
    ensures
        stripped_name(urs + svg_extension()) == urs,
{
    let none = Seq::<char>::empty();
    lemma_urs_characters(urs);
    lemma_replaced_after(urs, svg_extension(), gz_extension(), none);
    lemma_svg_without_gz();
    lemma_replaced_after(urs, svg_extension(), dotted_svg_extension(), none);
    lemma_svg_without_dotted();
    lemma_replaced_after(urs, svg_extension(), svg_extension(), none);
    lemma_svg_without_svg();
    assert(urs + none == urs);
    lemma_replaced_after(urs, none, colored_marker(), none);
    assert(without(none, colored_marker()) == none);
    lemma_after_last(urs, '\n', 0, urs.len() as int);
    lemma_first_index_of(urs, '-', 0);
    assert(first_index_of(urs, '-', 0) == urs.len());
}

/// The file names at the places of an identifier are stripped down to the
/// identifier.
pub proof fn lemma_stripped_names(urs: Seq<char>)
    requires
        valid_urs(urs),
    ensures
        stripped_name(urs + svg_extension()) == urs,
        stripped_name(urs + svg_extension() + gz_extension()) == urs,
        stripped_name(urs + svg_extension() + seq!['.'] + svg_extension() + gz_extension())
            == urs,
{
    let none = Seq::<char>::empty();
    let plain = urs + svg_extension();
    lemma_urs_characters(urs);
    lemma_stripped_svg_name(urs);
    lemma_replaced_after(urs, svg_extension(), gz_extension(), none);
    lemma_svg_without_gz();
    assert(without(plain, gz_extension()) == plain);

    let packed = urs + svg_extension() + gz_extension();
    assert(packed == urs + (svg_extension() + gz_extension()));
    lemma_replaced_after(urs, svg_extension() + gz_extension(), gz_extension(), none);
    lemma_compressed_without_gz();
    assert(without(packed, gz_extension()) == plain);

    let legacy_tail = svg_extension() + seq!['.'] + svg_extension() + gz_extension();
    let legacy = urs + svg_extension() + seq!['.'] + svg_extension() + gz_extension();
    assert(legacy == urs + legacy_tail);
    lemma_replaced_after(urs, legacy_tail, gz_extension(), none);
    lemma_legacy_without_gz();
    let dotted = svg_extension() + dotted_svg_extension();
    assert(without(legacy, gz_extension()) == urs + dotted);
    lemma_replaced_after(urs, dotted, dotted_svg_extension(), none);
    lemma_legacy_without_dotted();
    assert(without(urs + dotted, dotted_svg_extension()) == plain);
    lemma_replaced_after(urs, svg_extension(), dotted_svg_extension(), none);
    lemma_svg_without_dotted();
    assert(without(plain, dotted_svg_extension()) == plain);
}

/// The name of a file at one of the places of an identifier carries that
/// identifier.
pub proof fn lemma_places_carry_urs(base: Seq<char>, urs: Seq<char>)
    requires
        valid_urs(urs),
    ensures
        parsed_urs(compressed_of(base, urs)) == Some(urs),
        parsed_urs(uncompressed_of(base, urs)) == Some(urs),
        forall|i: int|
            0 <= i < legacy_of(base, urs).len() ==> parsed_urs(#[trigger] legacy_of(base, urs)[i])
                == Some(urs),
{
    lemma_directory_shape(base, urs);
    lemma_urs_characters(urs);
    lemma_stripped_names(urs);
    let dir = directory_of(base, urs);
    let plain = urs + svg_extension();
    let packed = urs + svg_extension() + gz_extension();
    let legacy = urs + svg_extension() + seq!['.'] + svg_extension() + gz_extension();
    assert(uncompressed_of(base, urs) == dir.push('/') + plain);
    assert(compressed_of(base, urs) == dir.push('/') + packed);
    assert(legacy_of(base, urs)[0] == dir.push('/') + legacy);
    lemma_file_name_of(dir, plain);
    lemma_file_name_of(dir, packed);
    lemma_file_name_of(dir, legacy);
    assert(urs.subrange(0, URS_LEN as int) == urs);
}

} // verus!
