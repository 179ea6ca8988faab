//! Character-level helpers shared by the rest of the library.
//!
//! Texts are handled as sequences of characters: a `&str` is turned into a
//! `Vec<char>` once, worked on by index, and turned back into a `String`.
use vstd::prelude::*;

verus! {

/// `String::push` of the standard library: the character is appended at the
/// end and nothing else of the string changes.
pub assume_specification[ String::push ](s: &mut String, ch: char)
    ensures
        final(s)@ == old(s)@.push(ch),
;

/// Whether `c` is white space: what `char::is_whitespace` of the standard
/// library answers for it.
pub uninterp spec fn is_white_space(c: char) -> bool;

/// `char::is_whitespace` of the standard library looks at the character
/// alone; its answer is what `is_white_space` names.
pub assume_specification[ char::is_whitespace ](c: char) -> (white: bool)
    ensures
        white == is_white_space(c),
;

/// The characters of `s`, in order.
pub fn to_chars(s: &str) -> (chars: Vec<char>)
    ensures
        chars@ == s@,
{
    let mut chars: Vec<char> = Vec::new();
    for c in it: s.chars()
        invariant
            it.seq() == s@,
            chars@ == it.seq().take(it.index() as int),
    {
        chars.push(c);
    }
    chars
}

/// The string made of the characters `chars[from..to]`.
pub fn from_chars(chars: &Vec<char>, from: usize, to: usize) -> (s: String)
    requires
        from <= to <= chars.len(),
    ensures
        s@ == chars@.subrange(from as int, to as int),
{
    let mut s = String::new();
    let mut i: usize = from;
    while i < to
        invariant
            from <= i <= to <= chars.len(),
            s@ == chars@.subrange(from as int, i as int),
        decreases to - i,
    {
        s.push(chars[i]);
        i += 1;
    }
    s
}

/// A copy of `chars[from..to]`.
pub fn copy_range(chars: &Vec<char>, from: usize, to: usize) -> (part: Vec<char>)
    requires
        from <= to <= chars.len(),
    ensures
        part@ == chars@.subrange(from as int, to as int),
{
    let mut part: Vec<char> = Vec::new();
    let mut i: usize = from;
    while i < to
        invariant
            from <= i <= to <= chars.len(),
            part@ == chars@.subrange(from as int, i as int),
        decreases to - i,
    {
        part.push(chars[i]);
        i += 1;
    }
    part
}

/// The texts of a sequence of strings, in order.
pub open spec fn texts(strings: Seq<String>) -> Seq<Seq<char>> {
    Seq::new(strings.len(), |i: int| strings[i]@)
}

/// True when `pat` occurs in `text` at position `at`.
pub open spec fn occurs_at(text: Seq<char>, at: int, pat: Seq<char>) -> bool {
    &&& 0 <= at
    &&& at + pat.len() <= text.len()
    &&& text.subrange(at, at + pat.len()) == pat
}

/// Whether `pat` occurs in `text` at position `at`.
pub fn matches_at(text: &Vec<char>, at: usize, pat: &Vec<char>) -> (found: bool)
    ensures
        found == occurs_at(text@, at as int, pat@),
{
    if pat.len() > text.len() || at > text.len() - pat.len() {
        return false;
    }
    let mut k: usize = 0;
    while k < pat.len()
        invariant
            k <= pat.len(),
            at + pat.len() <= text.len(),
            forall|j: int| 0 <= j < k ==> text@[at + j] == pat@[j],
        decreases pat.len() - k,
    {
        if text[at + k] != pat[k] {
            assert(text@.subrange(at as int, at + pat.len())[k as int] != pat@[k as int]);
            return false;
        }
        k += 1;
    }
    assert(text@.subrange(at as int, at + pat.len()) =~= pat@);
    true
}

/// Whether two texts are the same, character by character.
pub fn same_chars(a: &Vec<char>, b: &Vec<char>) -> (same: bool)
    ensures
        same == (a@ == b@),
{
    if a.len() != b.len() {
        return false;
    }
    let same = matches_at(a, 0, b);
    assert(a@.subrange(0, a.len() as int) == a@);
    same
}

/// The position of the first `c` in `text` at or after `from`, or the length
/// of `text` where there is none.
pub open spec fn first_index_of(text: Seq<char>, c: char, from: int) -> int
    decreases text.len() - from,
{
    if from < 0 || from >= text.len() {
        text.len() as int
    } else if text[from] == c {
        from
    } else {
        first_index_of(text, c, from + 1)
    }
}

/// `first_index_of` stays within `from..=len`, points at a `c` where it
/// points into the text, and passes over no `c`.
pub proof fn lemma_first_index_of(text: Seq<char>, c: char, from: int)
    requires
        0 <= from <= text.len(),
    ensures
        from <= first_index_of(text, c, from) <= text.len(),
        first_index_of(text, c, from) < text.len() ==> text[first_index_of(text, c, from)] == c,
        forall|j: int| from <= j < first_index_of(text, c, from) ==> text[j] != c,
    decreases text.len() - from,
{
    if from < text.len() && text[from] != c {
        lemma_first_index_of(text, c, from + 1);
    }
}

/// The position of the first `c` in `text[from..]`, or the length of `text`.
pub fn find_char(text: &Vec<char>, c: char, from: usize) -> (at: usize)
    requires
        from <= text.len(),
    ensures
        at == first_index_of(text@, c, from as int),
        from <= at <= text.len(),
{
    let mut i: usize = from;
    while i < text.len() && text[i] != c
        invariant
            from <= i <= text.len(),
            first_index_of(text@, c, i as int) == first_index_of(text@, c, from as int),
        decreases text.len() - i,
    {
        i += 1;
    }
    i
}

/// The position after the last `c` in `text[..end]`, or 0 where there is
/// none.
pub open spec fn after_last(text: Seq<char>, c: char, end: int) -> int
    decreases end,
{
    if end <= 0 {
        0
    } else if text[end - 1] == c {
        end
    } else {
        after_last(text, c, end - 1)
    }
}

/// `after_last` is the start of a stretch without `c` that begins the text
/// or follows a `c`.
pub proof fn lemma_after_last(text: Seq<char>, c: char, start: int, end: int)
    requires
        0 <= start <= end <= text.len(),
        start == 0 || text[start - 1] == c,
        forall|i: int| start <= i < end ==> text[i] != c,
    ensures
        after_last(text, c, end) == start,
    decreases end - start,
{
    if end > start {
        lemma_after_last(text, c, start, end - 1);
    }
}

/// The position after the last `c` in `text[..end]`, or 0.
pub fn find_after_last(text: &Vec<char>, c: char, end: usize) -> (at: usize)
    requires
        end <= text.len(),
    ensures
        at == after_last(text@, c, end as int),
        at <= end,
{
    let mut at: usize = end;
    while at > 0 && text[at - 1] != c
        invariant
            at <= end <= text.len(),
            after_last(text@, c, at as int) == after_last(text@, c, end as int),
        decreases at,
    {
        at -= 1;
    }
    at
}

/// `text` from position `at` on, with every occurrence of `pat` replaced by
/// `with`. Occurrences are found from left to right and do not overlap;
/// what a replacement puts in is not searched again. An empty `pat` occurs
/// nowhere.
pub open spec fn replaced_from(text: Seq<char>, at: int, pat: Seq<char>, with: Seq<char>) -> Seq<
    char,
>
    decreases text.len() - at,
{
    if at < 0 || at >= text.len() || pat.len() == 0 {
        text.skip(at)
    } else if occurs_at(text, at, pat) {
        with + replaced_from(text, at + pat.len(), pat, with)
    } else {
        seq![text[at]] + replaced_from(text, at + 1, pat, with)
    }
}

/// `text` with every occurrence of `pat` replaced by `with`, left to right.
pub open spec fn replaced(text: Seq<char>, pat: Seq<char>, with: Seq<char>) -> Seq<char> {
    replaced_from(text, 0, pat, with)
}

/// `text` from position `at` on, with every occurrence of `pat` taken out.
pub open spec fn without_from(text: Seq<char>, at: int, pat: Seq<char>) -> Seq<char> {
    replaced_from(text, at, pat, Seq::empty())
}

/// `text` with every occurrence of `pat` taken out, left to right.
pub open spec fn without(text: Seq<char>, pat: Seq<char>) -> Seq<char> {
    replaced(text, pat, Seq::empty())
}

/// Replaces every occurrence of `pat` in `text` by `with`, as `replaced`
/// states.
pub fn replace_all(text: &Vec<char>, pat: &Vec<char>, with: &Vec<char>) -> (out: Vec<char>)
    ensures
        out@ == replaced(text@, pat@, with@),
{
    let mut out: Vec<char> = Vec::new();
    let mut i: usize = 0;
    while i < text.len()
        invariant
            i <= text.len(),
            out@ + replaced_from(text@, i as int, pat@, with@) == replaced(text@, pat@, with@),
        decreases text.len() - i,
    {
        let ghost done = out@;
        if pat.len() > 0 && matches_at(text, i, pat) {
            let mut k: usize = 0;
            while k < with.len()
                invariant
                    k <= with.len(),
                    out@ == done + with@.take(k as int),
                decreases with.len() - k,
            {
                out.push(with[k]);
                k += 1;
            }
            proof {
                let rest = replaced_from(text@, i + pat.len(), pat@, with@);
                assert(with@.take(with.len() as int) == with@);
                assert((done + with@) + rest == done + (with@ + rest));
            }
            i += pat.len();
        } else {
            proof {
                let rest = replaced_from(text@, i + 1, pat@, with@);
                if pat.len() == 0 {
                    assert(text@.skip(i as int) == seq![text@[i as int]] + text@.skip(i + 1));
                }
                assert(done.push(text@[i as int]) + rest == done + (seq![text@[i as int]] + rest));
            }
            out.push(text[i]);
            i += 1;
        }
    }
    assert(out@ + Seq::<char>::empty() == out@);
    out
}

/// Takes every occurrence of `pat` out of `text`, as `without` states.
pub fn remove_all(text: &Vec<char>, pat: &Vec<char>) -> (out: Vec<char>)
    ensures
        out@ == without(text@, pat@),
{
    let nothing: Vec<char> = Vec::new();
    replace_all(text, pat, &nothing)
}

/// Where `text` differs from `pat` at some place of `pat`, or ends before
/// it, `pat` does not occur and the character at `at` is kept.
pub proof fn lemma_replaced_keeps(
    text: Seq<char>,
    at: int,
    pat: Seq<char>,
    with: Seq<char>,
    k: int,
)
    requires
        0 <= at < text.len(),
        0 <= k < pat.len(),
        at + k >= text.len() || text[at + k] != pat[k],
    ensures
        !occurs_at(text, at, pat),
        replaced_from(text, at, pat, with) == seq![text[at]] + replaced_from(
            text,
            at + 1,
            pat,
            with,
        ),
{
    if occurs_at(text, at, pat) {
        assert(text.subrange(at, at + pat.len())[k] == pat[k]);
    }
}

/// Where `text` agrees with `pat` at every place of `pat`, `pat` occurs and
/// is replaced.
pub proof fn lemma_replaced_hits(text: Seq<char>, at: int, pat: Seq<char>, with: Seq<char>)
    requires
        0 <= at,
        pat.len() > 0,
        at + pat.len() <= text.len(),
        forall|k: int| 0 <= k < pat.len() ==> text[at + k] == pat[k],
    ensures
        occurs_at(text, at, pat),
        replaced_from(text, at, pat, with) == with + replaced_from(
            text,
            at + pat.len(),
            pat,
            with,
        ),
{
    assert(text.subrange(at, at + pat.len()) =~= pat);
}

/// A stretch of `text` that nowhere holds the first character of `pat` is
/// kept as it is.
pub proof fn lemma_replaced_skips(
    text: Seq<char>,
    at: int,
    upto: int,
    pat: Seq<char>,
    with: Seq<char>,
)
    requires
        pat.len() > 0,
        0 <= at <= upto <= text.len(),
        forall|j: int| at <= j < upto ==> text[j] != pat[0],
    ensures
        replaced_from(text, at, pat, with) == text.subrange(at, upto) + replaced_from(
            text,
            upto,
            pat,
            with,
        ),
    decreases upto - at,
{
    if at == upto {
        assert(text.subrange(at, upto) + replaced_from(text, upto, pat, with) == replaced_from(
            text,
            upto,
            pat,
            with,
        ));
    } else {
        lemma_replaced_keeps(text, at, pat, with, 0);
        lemma_replaced_skips(text, at + 1, upto, pat, with);
        assert(seq![text[at]] + (text.subrange(at + 1, upto) + replaced_from(
            text,
            upto,
            pat,
            with,
        )) == text.subrange(at, upto) + replaced_from(text, upto, pat, with));
    }
}

/// What stands before a text does not change what is replaced in it.
pub proof fn lemma_replaced_shift(
    head: Seq<char>,
    tail: Seq<char>,
    at: int,
    pat: Seq<char>,
    with: Seq<char>,
)
    requires
        0 <= at <= tail.len(),
    ensures
        replaced_from(head + tail, head.len() + at, pat, with) == replaced_from(
            tail,
            at,
            pat,
            with,
        ),
    decreases tail.len() - at,
{
    let text = head + tail;
    let here = head.len() + at;
    if at >= tail.len() || pat.len() == 0 {
        assert(text.skip(here) == tail.skip(at));
    } else {
        if at + pat.len() <= tail.len() {
            assert(text.subrange(here, here + pat.len()) == tail.subrange(at, at + pat.len()));
        }
        assert(occurs_at(text, here, pat) == occurs_at(tail, at, pat));
        if occurs_at(tail, at, pat) {
            lemma_replaced_shift(head, tail, at + pat.len(), pat, with);
        } else {
            lemma_replaced_shift(head, tail, at + 1, pat, with);
        }
    }
}

/// A start that nowhere holds the first character of `pat` is kept, and the
/// rest is replaced as if it stood alone.
pub proof fn lemma_replaced_after(
    head: Seq<char>,
    tail: Seq<char>,
    pat: Seq<char>,
    with: Seq<char>,
)
    requires
        pat.len() > 0,
        forall|j: int| 0 <= j < head.len() ==> head[j] != pat[0],
    ensures
        replaced(head + tail, pat, with) == head + replaced(tail, pat, with),
{
    let text = head + tail;
    assert forall|j: int| 0 <= j < head.len() implies text[j] != pat[0] by {
        assert(text[j] == head[j]);
    }
    lemma_replaced_skips(text, 0, head.len() as int, pat, with);
    lemma_replaced_shift(head, tail, 0, pat, with);
    assert(text.subrange(0, head.len() as int) == head);
}

/// The position of the first character of `text` at or after `from` that is
/// not white space; the length of `text` where there is none.
pub open spec fn white_prefix_end(text: Seq<char>, from: int) -> int
    decreases text.len() - from,
{
    if 0 <= from < text.len() && is_white_space(text[from]) {
        white_prefix_end(text, from + 1)
    } else {
        from
    }
}

/// The position after the last character of `text[start..end]` that is not
/// white space; `start` where all of it is white space.
pub open spec fn white_suffix_start(text: Seq<char>, start: int, end: int) -> int
    decreases end - start,
{
    if 0 <= start < end <= text.len() && is_white_space(text[end - 1]) {
        white_suffix_start(text, start, end - 1)
    } else {
        end
    }
}

/// `text` without the white space at its start and at its end.
pub open spec fn trimmed(text: Seq<char>) -> Seq<char> {
    let start = white_prefix_end(text, 0);
    let end = white_suffix_start(text, start, text.len() as int);
    text.subrange(start, end)
}

/// `text` without the white space at its start and at its end.
pub fn trim_chars(text: &Vec<char>) -> (inner: Vec<char>)
    ensures
        inner@ == trimmed(text@),
{
    let mut start: usize = 0;
    while start < text.len() && text[start].is_whitespace()
        invariant
            start <= text.len(),
            white_prefix_end(text@, start as int) == white_prefix_end(text@, 0),
        decreases text.len() - start,
    {
        start += 1;
    }
    let mut end: usize = text.len();
    while end > start && text[end - 1].is_whitespace()
        invariant
            start <= end <= text.len(),
            white_suffix_start(text@, start as int, end as int) == white_suffix_start(
                text@,
                start as int,
                text.len() as int,
            ),
        decreases end,
    {
        end -= 1;
    }
    copy_range(text, start, end)
}

/// The ten decimal digits, by value.
pub open spec fn decimal_digits() -> Seq<char> {
    seq!['0', '1', '2', '3', '4', '5', '6', '7', '8', '9']
}

/// Whether `c` is one of `0`-`9`.
pub open spec fn is_decimal_digit(c: char) -> bool {
    '0' <= c && c <= '9'
}

/// `n` written in decimal digits, without leading zeros.
pub open spec fn decimal_text(n: nat) -> Seq<char>
    decreases n,
{
    if n < 10 {
        seq![decimal_digits()[n as int]]
    } else {
        decimal_text(n / 10).push(decimal_digits()[(n % 10) as int])
    }
}

/// The number that the decimal digits `text` write.
pub open spec fn decimal_number(text: Seq<char>) -> nat
    decreases text.len(),
{
    if text.len() == 0 {
        0
    } else {
        (decimal_number(text.drop_last()) * 10 + (text.last() as int - '0' as int)) as nat
    }
}

/// Whether every character of `text` is a decimal digit.
pub open spec fn all_decimal_digits(text: Seq<char>) -> bool {
    forall|i: int| 0 <= i < text.len() ==> is_decimal_digit(#[trigger] text[i])
}

/// A number is at least what its first digits write.
pub proof fn lemma_decimal_number_grows(text: Seq<char>, upto: int)
    requires
        all_decimal_digits(text),
        0 <= upto <= text.len(),
    ensures
        decimal_number(text.take(upto)) <= decimal_number(text),
    decreases text.len() - upto,
{
    if upto < text.len() {
        let front = text.drop_last();
        assert forall|i: int| 0 <= i < front.len() implies is_decimal_digit(
            #[trigger] front[i],
        ) by {
            assert(front[i] == text[i]);
        }
        assert(is_decimal_digit(text[text.len() - 1]));
        lemma_decimal_number_grows(front, upto);
        assert(front.take(upto) == text.take(upto));
    } else {
        assert(text.take(upto) == text);
    }
}

/// The decimal digit that writes `d`.
fn decimal_char(d: u8) -> (c: char)
    requires
        d < 10,
    ensures
        c == decimal_digits()[d as int],
{
    (48 + d) as char
}

/// The digits of `n` that stand before those already written: none once
/// nothing of `n` is left.
pub open spec fn leading_digits(n: nat) -> Seq<char> {
    if n > 0 {
        decimal_text(n)
    } else {
        Seq::empty()
    }
}

/// Writes `n` in decimal digits.
pub fn decimal(n: usize) -> (text: String)
    ensures
        text@ == decimal_text(n as nat),
{
    let mut low_first: Vec<char> = Vec::new();
    low_first.push(decimal_char((n % 10) as u8));
    let mut rest: usize = n / 10;
    assert(low_first@.reverse() == seq![decimal_digits()[n as int % 10]]);
    assert(Seq::<char>::empty() + low_first@.reverse() == low_first@.reverse());
    while rest > 0
        invariant
            decimal_text(n as nat) == leading_digits(rest as nat) + low_first@.reverse(),
        decreases rest,
    {
        let ghost before = low_first@;
        let digit = decimal_char((rest % 10) as u8);
        low_first.push(digit);
        proof {
            let higher = leading_digits((rest / 10) as nat);
            assert(decimal_text(rest as nat) == higher.push(digit));
            assert(low_first@.reverse() == seq![digit] + before.reverse());
            assert(higher.push(digit) + before.reverse() == higher + (seq![digit]
                + before.reverse()));
        }
        rest = rest / 10;
    }
    let mut text = String::new();
    let mut k: usize = low_first.len();
    while k > 0
        invariant
            k <= low_first.len(),
            text@ == low_first@.reverse().take(low_first.len() - k),
        decreases k,
    {
        k -= 1;
        text.push(low_first[k]);
        assert(low_first@.reverse().take(low_first.len() - k) == low_first@.reverse().take(
            low_first.len() - k - 1,
        ).push(low_first@[k as int]));
    }
    assert(low_first@.reverse().take(low_first.len() as int) == low_first@.reverse());
    text
}

/// `text` without the `+` that may stand at its start.
pub open spec fn unsigned_digits(text: Seq<char>) -> Seq<char> {
    if text.len() > 0 && text[0] == '+' {
        text.skip(1)
    } else {
        text
    }
}

/// The number that `text` writes in decimal digits, with a `+` before them
/// or without. Anything else writes no number, and neither do no digits at
/// all.
pub open spec fn unsigned_number(text: Seq<char>) -> Option<nat> {
    let digits = unsigned_digits(text);
    if digits.len() > 0 && all_decimal_digits(digits) {
        Some(decimal_number(digits))
    } else {
        None
    }
}

/// Reading what `decimal_text` wrote gives the number back.
pub proof fn lemma_decimal_round_trip(n: nat)
    ensures
        decimal_text(n).len() > 0,
        all_decimal_digits(decimal_text(n)),
        decimal_number(decimal_text(n)) == n,
        unsigned_number(decimal_text(n)) == Some(n),
    decreases n,
{
    let text = decimal_text(n);
    if n < 10 {
        assert(text.drop_last() == Seq::<char>::empty());
        assert(decimal_number(text.drop_last()) == 0);
    } else {
        let front = decimal_text(n / 10);
        lemma_decimal_round_trip(n / 10);
        assert(text.drop_last() == front);
        assert forall|i: int| 0 <= i < text.len() implies is_decimal_digit(#[trigger] text[i]) by {
            if i < front.len() {
                assert(text[i] == front[i]);
            }
        }
    }
    assert(text[0] != '+');
}

/// Reads `text` as a number in decimal digits that fits a `usize`.
pub fn parse_unsigned(text: &Vec<char>) -> (number: Option<usize>)
    ensures
        number == match unsigned_number(text@) {
            Some(n) => if n <= usize::MAX {
                Some(n as usize)
            } else {
                None
            },
            None => None,
        },
{
    let start: usize = if text.len() > 0 && text[0] == '+' {
        1
    } else {
        0
    };
    let ghost digits = unsigned_digits(text@);
    assert(digits == text@.skip(start as int));
    if start == text.len() {
        return None;
    }
    let mut number: usize = 0;
    let mut i: usize = start;
    assert(digits.take(0) == Seq::<char>::empty());
    while i < text.len()
        invariant
            start <= i <= text.len(),
            digits == unsigned_digits(text@),
            digits == text@.skip(start as int),
            digits.len() > 0,
            all_decimal_digits(digits.take(i - start)),
            number == decimal_number(digits.take(i - start)),
        decreases text.len() - i,
    {
        let c = text[i];
        let ghost read = digits.take(i - start);
        let ghost more = digits.take(i - start + 1);
        proof {
            assert(more.drop_last() == read);
            assert(more.last() == c);
        }
        if !('0' <= c && c <= '9') {
            assert(!is_decimal_digit(digits[i - start]));
            return None;
        }
        assert(all_decimal_digits(more)) by {
            assert forall|j: int| 0 <= j < more.len() implies is_decimal_digit(
                #[trigger] more[j],
            ) by {
                if j < read.len() {
                    assert(more[j] == read[j]);
                }
            }
        }
        let next = match number.checked_mul(10) {
            Some(tens) => tens.checked_add((c as u8 - 48) as usize),
            None => None,
        };
        match next {
            Some(n) => {
                number = n;
            },
            None => {
                proof {
                    assert(decimal_number(more) > usize::MAX);
                    if all_decimal_digits(digits) {
                        lemma_decimal_number_grows(digits, i - start + 1);
                    }
                }
                return None;
            },
        }
        i += 1;
    }
    assert(digits.take(digits.len() as int) == digits);
    Some(number)
}

} // verus!
