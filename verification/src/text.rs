//! Reading the text of a command: words and numbers.

use vstd::prelude::*;
use vstd::string::StrSliceExecFns;

verus! {

/// Whether `c` separates words: the characters that Unicode calls white
/// space.
pub open spec fn is_space(c: char) -> bool {
    let n = c as u32;
    ||| 0x09 <= n <= 0x0d
    ||| n == 0x20
    ||| n == 0x85
    ||| n == 0xa0
    ||| n == 0x1680
    ||| 0x2000 <= n <= 0x200a
    ||| n == 0x2028
    ||| n == 0x2029
    ||| n == 0x202f
    ||| n == 0x205f
    ||| n == 0x3000
}

/// Executable form of [`is_space`].
pub fn separates(c: char) -> (r: bool)
    ensures
        r == is_space(c),
{
    let n: u32 = c as u32;
    (0x09 <= n && n <= 0x0d) || n == 0x20 || n == 0x85 || n == 0xa0 || n == 0x1680 || (0x2000 <= n
        && n <= 0x200a) || n == 0x2028 || n == 0x2029 || n == 0x202f || n == 0x205f || n == 0x3000
}

/// The words of a text: its longest runs of characters that are no white
/// space, in order.
pub open spec fn words(text: Seq<char>) -> Seq<Seq<char>>
    decreases text.len(),
{
    if text.len() == 0 {
        Seq::empty()
    } else {
        let before = words(text.drop_last());
        if is_space(text.last()) {
            before
        } else if text.len() >= 2 && !is_space(text[text.len() - 2]) {
            before.drop_last().push(before.last().push(text.last()))
        } else {
            before.push(seq![text.last()])
        }
    }
}

/// The text of each string.
pub open spec fn texts(strings: Seq<String>) -> Seq<Seq<char>> {
    Seq::new(strings.len(), |i: int| strings[i]@)
}

/// The words of `text`: see [`words`].
pub fn split_words(text: &str) -> (r: Vec<String>)
    ensures
        texts(r@) == words(text@),
{
    let n = text.unicode_len();
    let mut out: Vec<String> = Vec::new();
    let mut start: usize = 0;
    let mut inside = false;
    let mut i: usize = 0;
    while i < n
        invariant
            i <= n,
            n == text@.len(),
            inside ==> start < i && !is_space(text@[i - 1]) && words(text@.take(i as int)).len() > 0
                && texts(out@) == words(text@.take(i as int)).drop_last() && words(
                text@.take(i as int),
            ).last() == text@.subrange(start as int, i as int),
            !inside ==> texts(out@) == words(text@.take(i as int)) && (i > 0 ==> is_space(
                text@[i - 1],
            )),
        decreases n - i,
    {
        let c = text.get_char(i);
        let ghost before = words(text@.take(i as int));
        proof {
            assert(text@.take(i + 1).drop_last() =~= text@.take(i as int));
            assert(text@.take(i + 1).last() == c);
            if i > 0 {
                assert(text@.take(i + 1)[i - 1] == text@[i - 1]);
            }
        }
        if separates(c) {
            if inside {
                let word = text.substring_char(start, i).to_owned();
                let ghost had = out@;
                out.push(word);
                proof {
                    assert(texts(out@) =~= texts(had).push(word@));
                    assert(before =~= before.drop_last().push(before.last()));
                }
                inside = false;
            }
        } else {
            if !inside {
                start = i;
                inside = true;
                proof {
                    let now = words(text@.take(i + 1));
                    assert(now == before.push(seq![c]));
                    assert(now.drop_last() =~= before);
                    assert(text@.subrange(i as int, i + 1) =~= seq![c]);
                }
            } else {
                proof {
                    let now = words(text@.take(i + 1));
                    assert(now == before.drop_last().push(before.last().push(c)));
                    assert(now.drop_last() =~= before.drop_last());
                    assert(text@.subrange(start as int, i + 1) =~= text@.subrange(
                        start as int,
                        i as int,
                    ).push(c));
                }
            }
        }
        i += 1;
    }
    proof {
        assert(text@.take(n as int) =~= text@);
    }
    if inside {
        let word = text.substring_char(start, n).to_owned();
        let ghost had = out@;
        out.push(word);
        proof {
            let all = words(text@);
            assert(texts(out@) =~= texts(had).push(word@));
            assert(all =~= all.drop_last().push(all.last()));
        }
    }
    out
}

/// Whether two texts are the same.
pub fn same_text(a: &str, b: &str) -> (r: bool)
    ensures
        r == (a@ == b@),
{
    let n = a.unicode_len();
    if n != b.unicode_len() {
        return false;
    }
    let mut i: usize = 0;
    while i < n
        invariant
            i <= n,
            n == a@.len(),
            n == b@.len(),
            forall|j: int| 0 <= j < i ==> a@[j] == b@[j],
        decreases n - i,
    {
        if a.get_char(i) != b.get_char(i) {
            return false;
        }
        i += 1;
    }
    assert(a@ =~= b@);
    true
}

/// Whether `c` is a decimal digit.
pub open spec fn is_digit(c: char) -> bool {
    '0' <= c <= '9'
}

/// Whether `text` is made of decimal digits.
pub open spec fn all_digits(text: Seq<char>) -> bool {
    forall|i: int| 0 <= i < text.len() ==> is_digit(#[trigger] text[i])
}

/// The number that the digits of `text` write in base ten.
pub open spec fn decimal(text: Seq<char>) -> nat
    decreases text.len(),
{
    if text.len() == 0 {
        0
    } else {
        decimal(text.drop_last()) * 10 + (text.last() as u32 - '0' as u32) as nat
    }
}

/// The number that `text` writes, if it is at least one digit, nothing but
/// digits, and no number above `limit`.
pub open spec fn number(text: Seq<char>, limit: nat) -> Option<nat> {
    if text.len() > 0 && all_digits(text) && decimal(text) <= limit {
        Some(decimal(text))
    } else {
        None
    }
}

/// The integer that `text` writes: digits, with `+` or `-` in front or
/// neither, within the range of `i64`.
pub open spec fn signed_number(text: Seq<char>) -> Option<int> {
    if text.len() > 0 && text[0] == '-' {
        match number(text.skip(1), 0x8000_0000_0000_0000) {
            Some(n) => Some(-(n as int)),
            None => None,
        }
    } else if text.len() > 0 && text[0] == '+' {
        match number(text.skip(1), 0x7fff_ffff_ffff_ffff) {
            Some(n) => Some(n as int),
            None => None,
        }
    } else {
        match number(text, 0x7fff_ffff_ffff_ffff) {
            Some(n) => Some(n as int),
            None => None,
        }
    }
}

/// The natural number that `text` writes: digits, with `+` in front or
/// not, within the range of `usize`.
pub open spec fn unsigned_number(text: Seq<char>) -> Option<nat> {
    if text.len() > 0 && text[0] == '+' {
        number(text.skip(1), usize::MAX as nat)
    } else {
        number(text, usize::MAX as nat)
    }
}

/// The number that a start of some digits writes is no greater than the
/// number that all of them write.
proof fn lemma_decimal_grows(text: Seq<char>, i: int)
    requires
        0 <= i <= text.len(),
        all_digits(text),
    ensures
        decimal(text.take(i)) <= decimal(text),
    decreases text.len() - i,
{
    if i < text.len() {
        lemma_decimal_grows(text, i + 1);
        assert(text.take(i + 1).drop_last() =~= text.take(i));
        assert(is_digit(text[i]));
    } else {
        assert(text.take(i) =~= text);
    }
}

/// Reads the number that the characters of `text` from `from` on write:
/// see [`number`].
fn read_number(text: &str, from: usize, limit: u64) -> (r: Option<u64>)
    requires
        from <= text@.len(),
    ensures
        match number(text@.skip(from as int), limit as nat) {
            Some(n) => r == Some(n as u64),
            None => r is None,
        },
{
    let n = text.unicode_len();
    let ghost body = text@.skip(from as int);
    if from == n {
        return None;
    }
    let mut value: u64 = 0;
    let mut i: usize = from;
    while i < n
        invariant
            from <= i <= n,
            n == text@.len(),
            body == text@.skip(from as int),
            all_digits(body.take(i - from)),
            value == decimal(body.take(i - from)),
            value <= limit,
        decreases n - i,
    {
        let c = text.get_char(i);
        proof {
            assert(body[i - from] == c);
            assert(body.take(i - from + 1).drop_last() =~= body.take(i - from));
        }
        if c < '0' || c > '9' {
            assert(!is_digit(body[i - from]));
            return None;
        }
        let digit: u64 = (c as u32 - '0' as u32) as u64;
        let next: u128 = value as u128 * 10 + digit as u128;
        proof {
            let so_far = body.take(i - from + 1);
            assert forall|j: int| 0 <= j < so_far.len() implies is_digit(#[trigger] so_far[j]) by {
                if j < i - from {
                    assert(body.take(i - from)[j] == so_far[j]);
                }
            }
        }
        if next > limit as u128 {
            proof {
                if all_digits(body) {
                    lemma_decimal_grows(body, i - from + 1);
                }
            }
            return None;
        }
        value = next as u64;
        i += 1;
    }
    proof {
        assert(body.take(n - from) =~= body);
    }
    Some(value)
}

/// Reads an integer: see [`signed_number`].
pub fn parse_i64(text: &str) -> (r: Option<i64>)
    ensures
        match signed_number(text@) {
            Some(n) => r == Some(n as i64),
            None => r is None,
        },
{
    let n = text.unicode_len();
    if n > 0 && text.get_char(0) == '-' {
        match read_number(text, 1, 0x8000_0000_0000_0000) {
            Some(m) => {
                if m == 0x8000_0000_0000_0000 {
                    Some(i64::MIN)
                } else {
                    Some(-(m as i64))
                }
            },
            None => None,
        }
    } else if n > 0 && text.get_char(0) == '+' {
        match read_number(text, 1, 0x7fff_ffff_ffff_ffff) {
            Some(m) => Some(m as i64),
            None => None,
        }
    } else {
        assert(text@.skip(0) =~= text@);
        match read_number(text, 0, 0x7fff_ffff_ffff_ffff) {
            Some(m) => Some(m as i64),
            None => None,
        }
    }
}

/// Reads a natural number: see [`unsigned_number`].
pub fn parse_usize(text: &str) -> (r: Option<usize>)
    ensures
        match unsigned_number(text@) {
            Some(n) => r == Some(n as usize),
            None => r is None,
        },
{
    let n = text.unicode_len();
    if n > 0 && text.get_char(0) == '+' {
        match read_number(text, 1, usize::MAX as u64) {
            Some(m) => Some(m as usize),
            None => None,
        }
    } else {
        assert(text@.skip(0) =~= text@);
        match read_number(text, 0, usize::MAX as u64) {
            Some(m) => Some(m as usize),
            None => None,
        }
    }
}

} // verus!
