//! Words and numbers in a line of a model file.

use crate::model::vector::{fits, VasValue};
use vstd::prelude::*;

verus! {

/// Whether `c` separates words: whether it is white space, as Unicode
/// has it. That is the blank, the characters from the tab to the carriage
/// return, the next-line character, the no-break space, the Ogham space
/// mark, the spaces from the en quad to the hair space, the line and the
/// paragraph separator, the narrow no-break space, the medium
/// mathematical space and the ideographic space.
pub open spec fn is_space(c: char) -> bool {
    ||| c == ' '
    ||| '\t' <= c <= '\r'
    ||| c == '\u{85}'
    ||| c == '\u{a0}'
    ||| c == '\u{1680}'
    ||| '\u{2000}' <= c <= '\u{200a}'
    ||| c == '\u{2028}'
    ||| c == '\u{2029}'
    ||| c == '\u{202f}'
    ||| c == '\u{205f}'
    ||| c == '\u{3000}'
}

/// The words of the first `upto` characters of `line` that have ended, and
/// the place where the word that has not ended yet begins, or `upto` when
/// no word is open.
pub open spec fn scanned(line: Seq<char>, upto: nat) -> (Seq<Seq<char>>, int)
    decreases upto,
{
    if upto == 0 {
        (Seq::empty(), 0)
    } else {
        let (done, start) = scanned(line, (upto - 1) as nat);
        if is_space(line[upto - 1]) {
            if start < upto - 1 {
                (done.push(line.subrange(start, upto - 1)), upto as int)
            } else {
                (done, upto as int)
            }
        } else {
            (done, start)
        }
    }
}

/// The words of `line`: its longest stretches without a separator, in
/// order.
pub open spec fn words_of(line: Seq<char>) -> Seq<Seq<char>> {
    let (done, start) = scanned(line, line.len());
    if start < line.len() {
        done.push(line.subrange(start, line.len() as int))
    } else {
        done
    }
}

/// The texts of `s`.
pub open spec fn texts(s: Seq<String>) -> Seq<Seq<char>> {
    Seq::new(s.len(), |i: int| s[i]@)
}

/// Whether `c` separates words.
pub fn separates(c: char) -> (r: bool)
    ensures
        r == is_space(c),
{
    c == ' ' || ('\t' <= c && c <= '\r') || c == '\u{85}' || c == '\u{a0}' || c == '\u{1680}' || (
    '\u{2000}' <= c && c <= '\u{200a}') || c == '\u{2028}' || c == '\u{2029}' || c == '\u{202f}'
        || c == '\u{205f}' || c == '\u{3000}'
}

/// The words of `line`.
pub fn split_words(line: &str) -> (r: Vec<String>)
    ensures
        texts(r@) == words_of(line@),
{
    let n = line.unicode_len();
    let mut out: Vec<String> = Vec::new();
    let mut start: usize = 0;
    let mut i: usize = 0;
    proof {
        assert(texts(out@) =~= scanned(line@, 0).0);
    }
    while i < n
        invariant
            i <= n,
            n == line@.len(),
            start <= i,
            texts(out@) == scanned(line@, i as nat).0,
            start == scanned(line@, i as nat).1,
        decreases n - i,
    {
        let c = line.get_char(i);
        if separates(c) {
            if start < i {
                let ghost before = texts(out@);
                let word = line.substring_char(start, i);
                out.push(word.to_owned());
                proof {
                    assert(texts(out@) =~= before.push(line@.subrange(start as int, i as int)));
                }
            }
            start = i + 1;
        }
        i += 1;
    }
    if start < n {
        let ghost before = texts(out@);
        let word = line.substring_char(start, n);
        out.push(word.to_owned());
        proof {
            assert(texts(out@) =~= before.push(line@.subrange(start as int, n as int)));
        }
    }
    out
}

/// Whether `c` is a decimal digit.
pub open spec fn is_digit(c: char) -> bool {
    '0' <= c <= '9'
}

/// The number that the decimal digits `digits` write.
pub open spec fn decimal_value(digits: Seq<char>) -> int
    decreases digits.len(),
{
    if digits.len() == 0 {
        0
    } else {
        10 * decimal_value(digits.drop_last()) + (digits.last() as int - '0' as int)
    }
}

/// Whether every character of `s` is a decimal digit.
pub open spec fn all_digits(s: Seq<char>) -> bool {
    forall|i: int| 0 <= i < s.len() ==> is_digit(#[trigger] s[i])
}

/// The digits of `word`: `word` without a sign at its front.
pub open spec fn digits_of(word: Seq<char>) -> Seq<char> {
    if word.len() > 0 && (word[0] == '-' || word[0] == '+') {
        word.skip(1)
    } else {
        word
    }
}

/// The number that `word` writes, read without regard to its size: the
/// value of its digits, negated after a minus sign.
pub open spec fn signed_value(word: Seq<char>) -> int {
    if word.len() > 0 && word[0] == '-' {
        -decimal_value(digits_of(word))
    } else {
        decimal_value(digits_of(word))
    }
}

/// The number that `word` writes, if it writes one that a `VasValue` can
/// hold: an optional sign, then one or more decimal digits and nothing
/// else.
pub open spec fn value_of(word: Seq<char>) -> Option<VasValue> {
    if digits_of(word).len() > 0 && all_digits(digits_of(word)) && fits(signed_value(word)) {
        Some(signed_value(word) as VasValue)
    } else {
        None
    }
}

/// The value of a longer row of digits is at least ten times that of the
/// row without its last digit, and none is negative.
pub proof fn lemma_decimal_value_grows(digits: Seq<char>, upto: nat)
    requires
        upto <= digits.len(),
        all_digits(digits),
    ensures
        0 <= decimal_value(digits.take(upto as int)) <= decimal_value(digits),
    decreases digits.len() - upto,
{
    lemma_decimal_nonnegative(digits.take(upto as int));
    if upto < digits.len() {
        lemma_decimal_value_grows(digits, upto + 1);
        let longer = digits.take(upto as int + 1);
        assert(longer.drop_last() =~= digits.take(upto as int));
        assert(is_digit(longer.last()));
    } else {
        assert(digits.take(upto as int) =~= digits);
    }
}

/// The value of a row of digits is not negative.
pub proof fn lemma_decimal_nonnegative(digits: Seq<char>)
    requires
        all_digits(digits),
    ensures
        0 <= decimal_value(digits),
    decreases digits.len(),
{
    if digits.len() > 0 {
        assert(is_digit(digits.last()));
        lemma_decimal_nonnegative(digits.drop_last());
    }
}

/// The number that `word` writes, if it writes one that a `VasValue` can
/// hold.
pub fn parse_value(word: &str) -> (r: Option<VasValue>)
    ensures
        r == value_of(word@),
{
    let n = word.unicode_len();
    if n == 0 {
        return None;
    }
    let first = word.get_char(0);
    let negative = first == '-';
    let begin: usize = if first == '-' || first == '+' {
        1
    } else {
        0
    };
    let ghost digits = digits_of(word@);
    proof {
        assert(digits =~= word@.skip(begin as int));
    }
    if begin == n {
        return None;
    }
    let mut total: VasValue = 0;
    let mut i: usize = begin;
    proof {
        assert(digits.take(0) =~= Seq::<char>::empty());
    }
    while i < n
        invariant
            begin <= i <= n,
            begin < n,
            n == word@.len(),
            digits == word@.skip(begin as int),
            digits == digits_of(word@),
            negative == (word@[0] == '-'),
            forall|k: int| 0 <= k < i - begin ==> is_digit(#[trigger] digits[k]),
            negative ==> total == -decimal_value(digits.take(i - begin)),
            !negative ==> total == decimal_value(digits.take(i - begin)),
        decreases n - i,
    {
        let c = word.get_char(i);
        assert(digits[i - begin] == c);
        if c < '0' || c > '9' {
            assert(!is_digit(digits[i - begin]));
            return None;
        }
        let d: VasValue = (c as u32 - '0' as u32) as VasValue;
        let ghost longer = digits.take(i - begin + 1);
        proof {
            assert(longer.drop_last() =~= digits.take(i - begin));
            assert(longer.last() == c);
        }
        let scaled = match total.checked_mul(10) {
            Some(s) => s,
            None => {
                proof {
                    assert(!fits(total * 10));
                    assert(digits.take(i - begin + 1 - 1) =~= digits.take(i - begin));
                    lemma_too_large(digits, (i - begin + 1) as nat, negative);
                }
                return None;
            },
        };
        let next = if negative {
            scaled.checked_sub(d)
        } else {
            scaled.checked_add(d)
        };
        total = match next {
            Some(t) => t,
            None => {
                proof {
                    assert(digits.take(i - begin + 1 - 1) =~= digits.take(i - begin));
                    assert(decimal_value(longer) == 10 * decimal_value(digits.take(i - begin))
                        + d);
                    lemma_too_large(digits, (i - begin + 1) as nat, negative);
                }
                return None;
            },
        };
        i += 1;
    }
    proof {
        assert(digits.take(n - begin) =~= digits);
        assert(all_digits(digits));
    }
    Some(total)
}

/// A number whose first digits already leave the range of `VasValue`
/// leaves it as a whole.
proof fn lemma_too_large(digits: Seq<char>, upto: nat, negative: bool)
    requires
        upto <= digits.len(),
        upto >= 1,
        forall|k: int| 0 <= k < upto ==> is_digit(#[trigger] digits[k]),
        negative ==> !fits(-decimal_value(digits.take(upto as int))) || !fits(
            -10 * decimal_value(digits.take(upto - 1)),
        ),
        !negative ==> !fits(decimal_value(digits.take(upto as int))) || !fits(
            10 * decimal_value(digits.take(upto - 1)),
        ),
    ensures
        !all_digits(digits) || (negative && !fits(-decimal_value(digits))) || (!negative && !fits(
            decimal_value(digits),
        )),
{
    if all_digits(digits) {
        lemma_decimal_value_grows(digits, upto);
        let shorter = digits.take(upto - 1);
        let longer = digits.take(upto as int);
        assert(longer.drop_last() =~= shorter);
        assert(is_digit(longer.last()));
        assert(all_digits(shorter)) by {
            assert forall|k: int| 0 <= k < shorter.len() implies is_digit(
                #[trigger] shorter[k],
            ) by {
                assert(shorter[k] == digits[k]);
            }
        }
        lemma_decimal_nonnegative(shorter);
    }
}

} // verus!
