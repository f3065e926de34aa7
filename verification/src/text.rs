//! Reading puzzle text: characters, digits and numbers.

use crate::table::rows;
use crate::{lines_view, AdventError};
use vstd::prelude::*;
use vstd::string::StringExecFns;

verus! {

/// The value of the decimal digit `c`.
pub open spec fn digit_value(c: char) -> Option<u32> {
    if '0' <= c && c <= '9' {
        Some((c as u32 - '0' as u32) as u32)
    } else {
        None
    }
}

/// The value of `c` as a decimal digit, if it is one.
pub fn to_digit(c: char) -> (r: Option<u32>)
    ensures
        r == digit_value(c),
        r matches Some(d) ==> d <= 9,
{
    if '0' <= c && c <= '9' {
        Some(c as u32 - '0' as u32)
    } else {
        None
    }
}

/// The characters of `s`.
pub fn chars_of(s: &str) -> (r: Vec<char>)
    ensures
        r@ == s@,
{
    let mut out: Vec<char> = Vec::new();
    for c in it: s.chars()
        invariant
            out@ == it.seq().take(it.index()),
            it.seq() == s@,
    {
        out.push(c);
        assert(it.seq().take(it.index() + 1) =~= it.seq().take(it.index()).push(c));
    }
    assert(s@.take(s@.len() as int) =~= s@);
    out
}

/// The characters of every line of `lines`.
pub fn chars_of_lines(lines: &Vec<String>) -> (r: Vec<Vec<char>>)
    ensures
        rows(r) == lines_view(*lines),
{
    let mut out: Vec<Vec<char>> = Vec::new();
    let mut i: usize = 0;
    while i < lines.len()
        invariant
            i <= lines.len(),
            out.len() == i,
            forall|k: int| 0 <= k < i ==> (#[trigger] out[k])@ == lines[k]@,
        decreases lines.len() - i,
    {
        out.push(chars_of(lines[i].as_str()));
        i += 1;
    }
    assert(rows(out) =~= lines_view(*lines));
    out
}

/// An `InputParseError` with the message `message`.
pub fn parse_error(message: &str) -> (r: AdventError)
    ensures
        r is InputParseError,
        r->InputParseError_0@ == message@,
{
    AdventError::InputParseError(message.to_owned())
}

/// Every character of `s` is a decimal digit.
pub open spec fn all_digits(s: Seq<char>) -> bool {
    forall|i: int| 0 <= i < s.len() ==> digit_value(#[trigger] s[i]) is Some
}

/// The number that the decimal digits `s` write.
pub open spec fn decimal_value(s: Seq<char>) -> nat
    decreases s.len(),
{
    if s.len() == 0 {
        0
    } else {
        10 * decimal_value(s.drop_last()) + digit_value(s.last())->0 as nat
    }
}

/// The digits of a number that may begin with a plus sign.
pub open spec fn unsigned_digits(s: Seq<char>) -> Seq<char> {
    if s.len() > 0 && s[0] == '+' {
        s.drop_first()
    } else {
        s
    }
}

/// `s` writes a number of at most `max`: digits, at least one, with or
/// without a plus sign before them.
pub open spec fn writes_unsigned(s: Seq<char>, max: nat) -> bool {
    let d = unsigned_digits(s);
    d.len() > 0 && all_digits(d) && decimal_value(d) <= max
}

/// The number that `s` writes, if it writes one of at most `max`.
pub open spec fn unsigned_value(s: Seq<char>, max: nat) -> Option<nat> {
    if writes_unsigned(s, max) {
        Some(decimal_value(unsigned_digits(s)))
    } else {
        None
    }
}

/// The number that `s` writes with a sign or without, if it writes one
/// between `-(max + 1)` and `max`.
pub open spec fn signed_value(s: Seq<char>, max: nat) -> Option<int> {
    if s.len() > 0 && s[0] == '-' {
        let d = s.drop_first();
        if d.len() > 0 && all_digits(d) && decimal_value(d) <= max + 1 {
            Some(-(decimal_value(d) as int))
        } else {
            None
        }
    } else {
        match unsigned_value(s, max) {
            Some(v) => Some(v as int),
            None => None,
        }
    }
}

/// More digits write no smaller number.
pub proof fn lemma_decimal_prefix(s: Seq<char>, k: int)
    requires
        0 <= k <= s.len(),
    ensures
        decimal_value(s.take(k)) <= decimal_value(s),
    decreases s.len() - k,
{
    if k < s.len() {
        lemma_decimal_prefix(s, k + 1);
        assert(s.take(k + 1).drop_last() =~= s.take(k));
    } else {
        assert(s.take(k) =~= s);
    }
}

/// The number that the digits of `s` from `from` on write, if they are
/// digits, at least one, and write a number that a `u64` holds.
fn parse_digits(s: &Vec<char>, from: usize) -> (r: Option<u64>)
    requires
        from <= s.len(),
    ensures
        r matches Some(v) ==> s@.skip(from as int).len() > 0 && all_digits(s@.skip(from as int))
            && v == decimal_value(s@.skip(from as int)),
        r is None ==> !(s@.skip(from as int).len() > 0 && all_digits(s@.skip(from as int))
            && decimal_value(s@.skip(from as int)) <= u64::MAX),
{
    let ghost d = s@.skip(from as int);
    if from == s.len() {
        return None;
    }
    let mut value: u64 = 0;
    let mut i = from;
    while i < s.len()
        invariant
            from <= i <= s.len(),
            d == s@.skip(from as int),
            all_digits(d.take(i - from)),
            value == decimal_value(d.take(i - from)),
        decreases s.len() - i,
    {
        let ghost upto = d.take(i - from + 1);
        proof {
            assert(upto.drop_last() =~= d.take(i - from));
            assert(upto.last() == s@[i as int]);
        }
        let digit = match to_digit(s[i]) {
            None => {
                assert(digit_value(d[i - from]) is None);
                return None;
            },
            Some(digit) => digit,
        };
        let next = match value.checked_mul(10) {
            None => None,
            Some(tens) => tens.checked_add(digit as u64),
        };
        match next {
            None => {
                proof {
                    assert(decimal_value(upto) > u64::MAX);
                    lemma_decimal_prefix(d, i - from + 1);
                }
                return None;
            },
            Some(v) => {
                value = v;
            },
        }
        proof {
            assert forall|k: int| 0 <= k < upto.len() implies digit_value(
                #[trigger] upto[k],
            ) is Some by {
                if k < i - from {
                    assert(upto[k] == d.take(i - from)[k]);
                }
            }
        }
        i += 1;
    }
    assert(d.take(s.len() - from) =~= d);
    Some(value)
}

/// Reads a `u64` as the standard library does: digits, with or without a
/// plus sign before them.
pub fn parse_u64(s: &Vec<char>) -> (r: Option<u64>)
    ensures
        match r {
            Some(v) => unsigned_value(s@, u64::MAX as nat) == Some(v as nat),
            None => unsigned_value(s@, u64::MAX as nat) is None,
        },
{
    let from: usize = if s.len() > 0 && s[0] == '+' {
        1
    } else {
        0
    };
    assert(s@.skip(from as int) =~= unsigned_digits(s@));
    parse_digits(s, from)
}

/// Reads a `u32` as the standard library does.
pub fn parse_u32(s: &Vec<char>) -> (r: Option<u32>)
    ensures
        match r {
            Some(v) => unsigned_value(s@, u32::MAX as nat) == Some(v as nat),
            None => unsigned_value(s@, u32::MAX as nat) is None,
        },
{
    match parse_u64(s) {
        Some(v) => if v <= u32::MAX as u64 {
            Some(v as u32)
        } else {
            None
        },
        None => None,
    }
}

/// Reads a `u8` as the standard library does.
pub fn parse_u8(s: &Vec<char>) -> (r: Option<u8>)
    ensures
        match r {
            Some(v) => unsigned_value(s@, u8::MAX as nat) == Some(v as nat),
            None => unsigned_value(s@, u8::MAX as nat) is None,
        },
{
    match parse_u64(s) {
        Some(v) => if v <= u8::MAX as u64 {
            Some(v as u8)
        } else {
            None
        },
        None => None,
    }
}

/// Reads a `usize` as the standard library does.
pub fn parse_usize(s: &Vec<char>) -> (r: Option<usize>)
    ensures
        match r {
            Some(v) => unsigned_value(s@, usize::MAX as nat) == Some(v as nat),
            None => unsigned_value(s@, usize::MAX as nat) is None,
        },
{
    match parse_u64(s) {
        Some(v) => if v <= usize::MAX as u64 {
            Some(v as usize)
        } else {
            None
        },
        None => None,
    }
}

/// Reads an `i64` as the standard library does: digits, with or without a
/// sign before them.
pub fn parse_i64(s: &Vec<char>) -> (r: Option<i64>)
    ensures
        match r {
            Some(v) => signed_value(s@, i64::MAX as nat) == Some(v as int),
            None => signed_value(s@, i64::MAX as nat) is None,
        },
{
    if s.len() > 0 && s[0] == '-' {
        assert(s@.skip(1) =~= s@.drop_first());
        match parse_digits(s, 1) {
            Some(v) => if v <= i64::MAX as u64 {
                Some(-(v as i64))
            } else if v == 0x8000_0000_0000_0000 {
                Some(i64::MIN)
            } else {
                None
            },
            None => None,
        }
    } else {
        match parse_u64(s) {
            Some(v) => if v <= i64::MAX as u64 {
                Some(v as i64)
            } else {
                None
            },
            None => None,
        }
    }
}

/// The character that writes the digit `d`.
pub open spec fn digit_char(d: nat) -> char {
    if d == 0 {
        '0'
    } else if d == 1 {
        '1'
    } else if d == 2 {
        '2'
    } else if d == 3 {
        '3'
    } else if d == 4 {
        '4'
    } else if d == 5 {
        '5'
    } else if d == 6 {
        '6'
    } else if d == 7 {
        '7'
    } else if d == 8 {
        '8'
    } else {
        '9'
    }
}

/// The digits that write `n`, without leading zeros.
pub open spec fn decimal(n: nat) -> Seq<char>
    decreases n,
{
    if n < 10 {
        seq![digit_char(n)]
    } else {
        decimal(n / 10).push(digit_char(n % 10))
    }
}

/// The character that writes the digit `d`.
pub fn char_of_digit(d: u64) -> (r: char)
    requires
        d < 10,
    ensures
        r == digit_char(d as nat),
{
    if d == 0 {
        '0'
    } else if d == 1 {
        '1'
    } else if d == 2 {
        '2'
    } else if d == 3 {
        '3'
    } else if d == 4 {
        '4'
    } else if d == 5 {
        '5'
    } else if d == 6 {
        '6'
    } else if d == 7 {
        '7'
    } else if d == 8 {
        '8'
    } else {
        '9'
    }
}

/// The digits that write `n`, as `n.to_string()` gives them.
pub fn digits_of(n: u64) -> (r: Vec<char>)
    ensures
        r@ == decimal(n as nat),
    decreases n,
{
    if n < 10 {
        let mut out: Vec<char> = Vec::new();
        out.push(char_of_digit(n));
        assert(out@ =~= decimal(n as nat));
        out
    } else {
        let mut out = digits_of(n / 10);
        out.push(char_of_digit(n % 10));
        out
    }
}

/// `sep` stands in `text` at `i`.
pub open spec fn occurs_at(text: Seq<char>, sep: Seq<char>, i: int) -> bool {
    0 <= i && i + sep.len() <= text.len() && text.subrange(i, i + sep.len()) == sep
}

/// `i` is the first place at which `sep` stands in `text`.
pub open spec fn first_at(text: Seq<char>, sep: Seq<char>, i: int) -> bool {
    occurs_at(text, sep, i) && forall|j: int| 0 <= j < i ==> !occurs_at(text, sep, j)
}

/// The pieces into which the occurrences of `sep` cut `text`, found from
/// left to right, as `str::split` gives them.
pub open spec fn split_spec(text: Seq<char>, sep: Seq<char>) -> Seq<Seq<char>>
    decreases text.len(),
{
    if sep.len() > 0 && exists|i: int| first_at(text, sep, i) {
        let i = choose|i: int| first_at(text, sep, i);
        seq![text.take(i)] + split_spec(text.skip(i + sep.len()), sep)
    } else {
        seq![text]
    }
}

/// `sep` stands in `text` at `i`.
pub fn stands_at(text: &Vec<char>, sep: &Vec<char>, i: usize) -> (r: bool)
    requires
        i <= text.len(),
    ensures
        r == occurs_at(text@, sep@, i as int),
{
    if sep.len() > text.len() - i {
        return false;
    }
    let mut k: usize = 0;
    while k < sep.len()
        invariant
            k <= sep.len(),
            i + sep.len() <= text.len(),
            forall|j: int| 0 <= j < k ==> text[i + j] == sep[j],
        decreases sep.len() - k,
    {
        if text[i + k] != sep[k] {
            assert(text@.subrange(i as int, i + sep.len())[k as int] != sep@[k as int]);
            return false;
        }
        k += 1;
    }
    assert(text@.subrange(i as int, i + sep.len()) =~= sep@);
    true
}

/// The characters of `text` from `from` up to `to`.
pub fn slice_of(text: &Vec<char>, from: usize, to: usize) -> (r: Vec<char>)
    requires
        from <= to <= text.len(),
    ensures
        r@ == text@.subrange(from as int, to as int),
{
    let mut out: Vec<char> = Vec::new();
    let mut i = from;
    while i < to
        invariant
            from <= i <= to <= text.len(),
            out@ == text@.subrange(from as int, i as int),
        decreases to - i,
    {
        out.push(text[i]);
        assert(text@.subrange(from as int, i + 1) =~= text@.subrange(from as int, i as int).push(
            text[i as int],
        ));
        i += 1;
    }
    out
}

/// Cuts `text` at every occurrence of `sep`, as `str::split` does.
pub fn split(text: &Vec<char>, sep: &Vec<char>) -> (r: Vec<Vec<char>>)
    requires
        sep.len() > 0,
    ensures
        rows(r) == split_spec(text@, sep@),
{
    let mut pieces: Vec<Vec<char>> = Vec::new();
    let mut start: usize = 0;
    let mut i: usize = 0;
    proof {
        assert(text@.skip(0) =~= text@);
        assert(rows(pieces) + split_spec(text@, sep@) =~= split_spec(text@, sep@));
    }
    while sep.len() <= text.len() - i
        invariant
            start <= i <= text.len(),
            sep.len() > 0,
            rows(pieces) + split_spec(text@.skip(start as int), sep@) == split_spec(text@, sep@),
            forall|j: int| start <= j < i ==> !occurs_at(text@, sep@, j),
        decreases text.len() - i,
    {
        if stands_at(text, sep, i) {
            let piece = slice_of(text, start, i);
            proof {
                let rest = text@.skip(start as int);
                lemma_occurs_skip(text@, sep@, start as int);
                assert(first_at(rest, sep@, i - start));
                lemma_first_at_unique(rest, sep@, i - start);
                assert(rest.take(i - start) =~= piece@);
                assert(rest.skip(i - start + sep.len()) =~= text@.skip(i + sep.len()));
                assert(rows(pieces).push(piece@) + split_spec(text@.skip(i + sep.len()), sep@)
                    =~= rows(pieces) + split_spec(rest, sep@));
            }
            let ghost before = rows(pieces);
            pieces.push(piece);
            assert(rows(pieces) =~= before.push(piece@));
            i = i + sep.len();
            start = i;
        } else {
            i += 1;
        }
    }
    let piece = slice_of(text, start, text.len());
    proof {
        let rest = text@.skip(start as int);
        lemma_occurs_skip(text@, sep@, start as int);
        assert forall|j: int| !first_at(rest, sep@, j) by {
            if occurs_at(rest, sep@, j) {
                assert(occurs_at(text@, sep@, j + start));
            }
        }
        assert(piece@ =~= rest);
    }
    let ghost before = rows(pieces);
    pieces.push(piece);
    assert(rows(pieces) =~= before.push(piece@));
    pieces
}

/// `sep` stands in what is left of `text` after `start` characters where
/// it stands in `text`, `start` places earlier.
pub proof fn lemma_occurs_skip(text: Seq<char>, sep: Seq<char>, start: int)
    requires
        0 <= start <= text.len(),
    ensures
        forall|j: int|
            0 <= j ==> (#[trigger] occurs_at(text.skip(start), sep, j) <==> occurs_at(
                text,
                sep,
                j + start,
            )),
{
    assert forall|j: int| 0 <= j implies (#[trigger] occurs_at(text.skip(start), sep, j)
        <==> occurs_at(text, sep, j + start)) by {
        if j + sep.len() <= text.len() - start {
            assert(text.skip(start).subrange(j, j + sep.len()) =~= text.subrange(
                j + start,
                j + start + sep.len(),
            ));
        }
    }
}

/// There is one first place.
pub proof fn lemma_first_at_unique(text: Seq<char>, sep: Seq<char>, i: int)
    requires
        first_at(text, sep, i),
    ensures
        (choose|j: int| first_at(text, sep, j)) == i,
{
    let j = choose|j: int| first_at(text, sep, j);
    assert(first_at(text, sep, j));
    if j < i {
        assert(!occurs_at(text, sep, j));
    } else if i < j {
        assert(!occurs_at(text, sep, i));
    }
}

/// The text that writes the digit `d`.
pub fn digit_str(d: u64) -> (r: &'static str)
    requires
        d < 10,
    ensures
        r@ == seq![digit_char(d as nat)],
{
    proof {
        reveal_strlit("0");
        reveal_strlit("1");
        reveal_strlit("2");
        reveal_strlit("3");
        reveal_strlit("4");
        reveal_strlit("5");
        reveal_strlit("6");
        reveal_strlit("7");
        reveal_strlit("8");
        reveal_strlit("9");
    }
    let r = if d == 0 {
        "0"
    } else if d == 1 {
        "1"
    } else if d == 2 {
        "2"
    } else if d == 3 {
        "3"
    } else if d == 4 {
        "4"
    } else if d == 5 {
        "5"
    } else if d == 6 {
        "6"
    } else if d == 7 {
        "7"
    } else if d == 8 {
        "8"
    } else {
        "9"
    };
    assert(r@ =~= seq![digit_char(d as nat)]);
    r
}

/// Writes `n` at the end of `s`, in decimal digits.
pub fn append_decimal(s: &mut String, n: u64)
    ensures
        final(s)@ == old(s)@ + decimal(n as nat),
    decreases n,
{
    if n >= 10 {
        append_decimal(s, n / 10);
    }
    let ghost before = s@;
    s.append(digit_str(n % 10));
    proof {
        if n >= 10 {
            assert(s@ =~= old(s)@ + decimal(n as nat));
        } else {
            assert(s@ =~= old(s)@ + decimal(n as nat));
        }
    }
}

/// Whether `char::is_whitespace` holds of `c`: `c` has the Unicode property
/// `White_Space`.
pub uninterp spec fn is_whitespace_char(c: char) -> bool;

/// `char::is_whitespace` of the standard library. Its result is taken on
/// trust to depend on the character alone.
#[verifier::external_body]
pub(crate) fn is_whitespace(c: char) -> (r: bool)
    ensures
        r == is_whitespace_char(c),
{
    c.is_whitespace()
}

/// The words of `text` from `i` on, where `begun` is the place at which a
/// word has begun that goes on at `i`, or -1 if there is none.
pub open spec fn words_at(text: Seq<char>, i: int, begun: int) -> Seq<Seq<char>>
    decreases text.len() - i,
{
    if i < 0 || i >= text.len() {
        if begun >= 0 {
            seq![text.subrange(begun, text.len() as int)]
        } else {
            Seq::empty()
        }
    } else if is_whitespace_char(text[i]) {
        if begun >= 0 {
            seq![text.subrange(begun, i)] + words_at(text, i + 1, -1)
        } else {
            words_at(text, i + 1, -1)
        }
    } else {
        words_at(
            text,
            i + 1,
            if begun >= 0 {
                begun
            } else {
                i
            },
        )
    }
}

/// The words of `text`: the longest runs of characters that are no white
/// space, as `str::split_whitespace` gives them.
pub open spec fn words(text: Seq<char>) -> Seq<Seq<char>> {
    words_at(text, 0, -1)
}

/// The words of `text`, as `str::split_whitespace` gives them.
pub fn split_whitespace(text: &Vec<char>) -> (r: Vec<Vec<char>>)
    ensures
        rows(r) == words(text@),
{
    let mut pieces: Vec<Vec<char>> = Vec::new();
    let mut begun: Option<usize> = None;
    let mut i: usize = 0;
    assert(rows(pieces) + words_at(text@, 0, -1) =~= words(text@));
    while i < text.len()
        invariant
            i <= text.len(),
            begun matches Some(b) ==> b < i,
            rows(pieces) + words_at(
                text@,
                i as int,
                match begun {
                    Some(b) => b as int,
                    None => -1,
                },
            ) == words(text@),
        decreases text.len() - i,
    {
        if is_whitespace(text[i]) {
            match begun {
                Some(b) => {
                    let piece = slice_of(text, b, i);
                    let ghost before = rows(pieces);
                    pieces.push(piece);
                    proof {
                        assert(rows(pieces) =~= before.push(piece@));
                        assert(rows(pieces) + words_at(text@, i + 1, -1) =~= before + words_at(
                            text@,
                            i as int,
                            b as int,
                        ));
                    }
                    begun = None;
                },
                None => {},
            }
        } else if begun.is_none() {
            begun = Some(i);
        }
        i += 1;
    }
    match begun {
        Some(b) => {
            let piece = slice_of(text, b, i);
            let ghost before = rows(pieces);
            pieces.push(piece);
            proof {
                assert(rows(pieces) =~= before.push(piece@));
                assert(rows(pieces) =~= before + words_at(text@, i as int, b as int));
            }
        },
        None => {
            assert(rows(pieces) + words_at(text@, i as int, -1) =~= rows(pieces));
        },
    }
    pieces
}

/// The numbers that `fields` write, if each writes one that a `u64` holds.
pub open spec fn values_of(fields: Seq<Seq<char>>) -> Option<Seq<u64>>
    decreases fields.len(),
{
    if fields.len() == 0 {
        Some(Seq::empty())
    } else {
        match (values_of(fields.drop_last()), unsigned_value(fields.last(), u64::MAX as nat)) {
            (Some(numbers), Some(v)) => Some(numbers.push(v as u64)),
            _ => None,
        }
    }
}

/// Where the first fields write no numbers, all of them write none.
pub proof fn lemma_values_prefix(fields: Seq<Seq<char>>, k: int)
    requires
        0 <= k <= fields.len(),
        values_of(fields.take(k)) is None,
    ensures
        values_of(fields) is None,
    decreases fields.len() - k,
{
    if k < fields.len() {
        assert(fields.take(k + 1).drop_last() =~= fields.take(k));
        lemma_values_prefix(fields, k + 1);
    } else {
        assert(fields.take(k) =~= fields);
    }
}

/// The numbers that `fields` write; `None` where one of them writes none.
pub fn parse_values(fields: &Vec<Vec<char>>) -> (r: Option<Vec<u64>>)
    ensures
        match r {
            Some(v) => values_of(rows(*fields)) == Some(v@),
            None => values_of(rows(*fields)) is None,
        },
{
    let mut parts: Vec<u64> = Vec::new();
    let mut i: usize = 0;
    while i < fields.len()
        invariant
            i <= fields.len(),
            values_of(rows(*fields).take(i as int)) == Some(parts@),
        decreases fields.len() - i,
    {
        proof {
            assert(rows(*fields).take(i + 1).drop_last() =~= rows(*fields).take(i as int));
            assert(rows(*fields).take(i + 1).last() == fields[i as int]@);
        }
        match parse_u64(&fields[i]) {
            Some(v) => {
                parts.push(v);
            },
            None => {
                proof {
                    assert(values_of(rows(*fields).take(i + 1)) is None);
                    lemma_values_prefix(rows(*fields), i + 1);
                }
                return None;
            },
        }
        i += 1;
    }
    assert(rows(*fields).take(fields.len() as int) =~= rows(*fields));
    Some(parts)
}

/// Whether `char::is_alphabetic` holds of `c`: `c` has the Unicode property
/// `Alphabetic`.
pub uninterp spec fn is_alphabetic_char(c: char) -> bool;

/// `char::is_alphabetic` of the standard library. Its result is taken on
/// trust to depend on the character alone.
#[verifier::external_body]
pub(crate) fn is_alphabetic(c: char) -> (r: bool)
    ensures
        r == is_alphabetic_char(c),
{
    c.is_alphabetic()
}

/// Whether `char::is_numeric` holds of `c`: `c` is a number of one of the
/// Unicode categories `Nd`, `Nl` and `No`.
pub uninterp spec fn is_numeric_char(c: char) -> bool;

/// `char::is_numeric` of the standard library. Its result is taken on
/// trust to depend on the character alone.
#[verifier::external_body]
pub(crate) fn is_numeric(c: char) -> (r: bool)
    ensures
        r == is_numeric_char(c),
{
    c.is_numeric()
}

/// How many characters of white space stand at the beginning of `s`.
pub open spec fn leading_space(s: Seq<char>) -> int
    decreases s.len(),
{
    if s.len() == 0 || !is_whitespace_char(s[0]) {
        0
    } else {
        1 + leading_space(s.drop_first())
    }
}

/// How many characters of white space stand at the end of `s`.
pub open spec fn trailing_space(s: Seq<char>) -> int
    decreases s.len(),
{
    if s.len() == 0 || !is_whitespace_char(s.last()) {
        0
    } else {
        1 + trailing_space(s.drop_last())
    }
}

/// `s` without the white space at its beginning and at its end, as
/// `str::trim` gives it.
pub open spec fn trimmed(s: Seq<char>) -> Seq<char> {
    let from = leading_space(s);
    if from >= s.len() {
        Seq::empty()
    } else {
        s.subrange(from, s.len() - trailing_space(s))
    }
}

/// `s` without the white space at its beginning and at its end.
pub fn trim(s: &Vec<char>) -> (r: Vec<char>)
    ensures
        r@ == trimmed(s@),
{
    let mut from: usize = 0;
    assert(s@.skip(0) =~= s@);
    while from < s.len() && is_whitespace(s[from])
        invariant
            from <= s.len(),
            leading_space(s@) == from + leading_space(s@.skip(from as int)),
        decreases s.len() - from,
    {
        proof {
            assert(s@.skip(from as int).drop_first() =~= s@.skip(from + 1));
            assert(s@.skip(from as int)[0] == s@[from as int]);
        }
        from += 1;
    }
    proof {
        if from < s.len() {
            assert(s@.skip(from as int)[0] == s@[from as int]);
        }
        assert(s@.skip(0) =~= s@);
    }
    if from == s.len() {
        return Vec::new();
    }
    let mut to: usize = s.len();
    assert(s@.take(s.len() as int) =~= s@);
    while to > from && is_whitespace(s[to - 1])
        invariant
            from < s.len(),
            from < to <= s.len(),
            !is_whitespace_char(s@[from as int]),
            trailing_space(s@) == (s.len() - to) + trailing_space(s@.take(to as int)),
        decreases to,
    {
        proof {
            assert(s@.take(to as int).drop_last() =~= s@.take(to - 1));
            assert(s@.take(to as int).last() == s@[to - 1]);
        }
        to -= 1;
    }
    proof {
        assert(s@.take(to as int).last() == s@[to - 1]);
    }
    slice_of(s, from, to)
}

} // verus!
