//! The pieces of text that messages, paths and origins are put together from.

use vstd::arithmetic::div_mod::lemma_breakdown;
use vstd::arithmetic::power::{lemma_pow0, lemma_pow_positive, pow};
use vstd::prelude::*;

verus! {

/// `String::push` appends one character to the string's end.
pub assume_specification[ String::push ](string: &mut String, character: char)
    ensures
        final(string)@ == old(string)@.push(character),
;

/// What `Debug` formatting makes of a string: it in double quotes, with what
/// would not print escaped.
pub uninterp spec fn debug_text(text: Seq<char>) -> Seq<char>;

/// Formats `text` with `{:?}`, std's `Debug` for `str`. Which characters are
/// escaped, and how, is std's and is not stated here.
#[verifier::external_body]
pub(crate) fn quoted(text: &str) -> (quoted: String)
    ensures
        quoted@ == debug_text(text@),
{
    format!("{text:?}")
}

/// The digit that stands for `value` in bases up to sixteen.
pub open spec fn digit(value: nat) -> char {
    if value < 10 {
        (('0' as nat + value) as char)
    } else {
        (('a' as nat + value - 10) as char)
    }
}

/// `value` in decimal, without leading zeros.
pub open spec fn decimal(value: nat) -> Seq<char>
    decreases value,
{
    if value < 10 {
        seq![digit(value)]
    } else {
        decimal(value / 10).push(digit(value % 10))
    }
}

/// The last `width` hexadecimal digits of `value`.
pub open spec fn hex(value: nat, width: nat) -> Seq<char>
    decreases width,
{
    if width == 0 {
        Seq::empty()
    } else {
        hex(value / 16, (width - 1) as nat).push(digit(value % 16))
    }
}

fn digit_of(value: u64) -> (d: char)
    requires
        value < 16,
    ensures
        d == digit(value as nat),
{
    if value < 10 {
        ('0' as u8 + value as u8) as char
    } else {
        ('a' as u8 + (value - 10) as u8) as char
    }
}

/// `value` in decimal.
pub fn to_decimal(value: u64) -> (text: String)
    ensures
        text@ == decimal(value as nat),
    decreases value,
{
    let mut text = if value < 10 {
        String::new()
    } else {
        to_decimal(value / 10)
    };
    text.push(digit_of(value % 10));
    text
}

/// The last `width` hexadecimal digits of `value`.
pub fn to_hex(value: u64, width: u32) -> (text: String)
    ensures
        text@ == hex(value as nat, width as nat),
    decreases width,
{
    if width == 0 {
        return String::new();
    }
    let mut text = to_hex(value / 16, width - 1);
    text.push(digit_of(value % 16));
    text
}

/// `text` before and after the first `at` in it; `None` where there is none.
pub open spec fn cut(text: Seq<char>, at: char) -> Option<(Seq<char>, Seq<char>)>
    decreases text.len(),
{
    if text.len() == 0 {
        None
    } else if text[0] == at {
        Some((Seq::empty(), text.drop_first()))
    } else {
        match cut(text.drop_first(), at) {
            Some((before, after)) => Some((seq![text[0]] + before, after)),
            None => None,
        }
    }
}

/// `text` past the last `at` in it, all of it where there is none.
pub open spec fn past_last(text: Seq<char>, at: char) -> Seq<char>
    decreases text.len(),
{
    if text.len() == 0 {
        text
    } else if text.last() == at {
        Seq::empty()
    } else {
        past_last(text.drop_last(), at).push(text.last())
    }
}

/// `text` before and after the first `at` in it; `None` where there is none.
pub fn split_once(text: &str, at: char) -> (parts: Option<(String, String)>)
    ensures
        match (parts, cut(text@, at)) {
            (Some(parts), Some(model)) => parts@ == model,
            (None, None) => true,
            _ => false,
        },
{
    let mut before = String::new();
    let mut after = String::new();
    let mut found = false;
    let ghost whole = text@;
    let ghost model = cut(whole, at);
    proof {
        assert(whole.skip(0) =~= whole);
        if let Some((first, _)) = model {
            assert(before@ + first =~= first);
        }
    }
    for c in it: text.chars()
        invariant
            it.seq() == whole,
            found ==> model == Some((before@, after@ + whole.skip(it.index() as int))),
            !found ==> after@ == Seq::<char>::empty() && model == (match cut(
                whole.skip(it.index() as int),
                at,
            ) {
                Some((first, second)) => Some((before@ + first, second)),
                None => None,
            }),
    {
        let ghost left = whole.skip(it.index() as int);
        let ghost old_before = before@;
        let ghost old_after = after@;
        proof {
            assert(c == left[0]);
            assert(left.drop_first() =~= whole.skip(it.index() + 1));
        }
        if found {
            after.push(c);
            assert(after@ + left.drop_first() =~= old_after + left);
        } else if c == at {
            found = true;
            assert(old_before + Seq::<char>::empty() =~= old_before);
            assert(Seq::<char>::empty() + left.drop_first() =~= left.drop_first());
        } else {
            before.push(c);
            proof {
                if let Some((first, _)) = cut(left.drop_first(), at) {
                    assert(before@ + first =~= old_before + (seq![c] + first));
                }
            }
        }
    }
    assert(whole.skip(whole.len() as int) =~= Seq::empty());
    assert(after@ + Seq::<char>::empty() =~= after@);
    if found {
        Some((before, after))
    } else {
        None
    }
}

/// `text` past the last `at` in it, all of it where there is none.
pub fn rest_past_last(text: &str, at: char) -> (rest: String)
    ensures
        rest@ == past_last(text@, at),
{
    let mut rest = String::new();
    let ghost whole = text@;
    assert(whole.take(0) =~= Seq::empty());
    for c in it: text.chars()
        invariant
            it.seq() == whole,
            rest@ == past_last(whole.take(it.index() as int), at),
    {
        proof {
            let next = whole.take(it.index() + 1);
            assert(next.drop_last() =~= whole.take(it.index() as int));
            assert(next.last() == c);
        }
        if c == at {
            rest = String::new();
        } else {
            rest.push(c);
        }
    }
    assert(whole.take(whole.len() as int) =~= whole);
    rest
}

/// `first` followed by `second`.
pub fn join(first: &str, second: &str) -> (text: String)
    ensures
        text@ == first@ + second@,
{
    first.to_owned().concat(second)
}

/// A text is cut at the first `at`: what stands before it holds none, and the two
/// parts with `at` between them are the whole text. A text that holds one is cut.
pub proof fn law_a_text_is_cut_at_the_first(text: Seq<char>, at: char)
    ensures
        match cut(text, at) {
            Some((before, after)) => {
                &&& text == before + seq![at] + after
                &&& forall|i: int| 0 <= i < before.len() ==> before[i] != at
            },
            None => forall|i: int| 0 <= i < text.len() ==> text[i] != at,
        },
    decreases text.len(),
{
    if text.len() > 0 && text[0] != at {
        let rest = text.drop_first();
        law_a_text_is_cut_at_the_first(rest, at);
        assert(text =~= seq![text[0]] + rest);
        match cut(rest, at) {
            Some((before, after)) => {
                assert(text =~= (seq![text[0]] + before) + seq![at] + after);
            },
            None => {
                assert forall|i: int| 0 <= i < text.len() implies text[i] != at by {
                    if i > 0 {
                        assert(rest[i - 1] == text[i]);
                    }
                }
            },
        }
    } else if text.len() > 0 {
        assert(text =~= Seq::empty() + seq![at] + text.drop_first());
    }
}

/// What stands past the last `at` is the end of the text: it holds no `at`, and
/// one stands right before it, unless it is the whole text.
pub proof fn law_what_is_past_the_last_is_the_end(text: Seq<char>, at: char)
    ensures
        ({
            let rest = past_last(text, at);
            let begin = text.len() - rest.len();
            &&& begin >= 0
            &&& text.skip(begin) == rest
            &&& forall|i: int| 0 <= i < rest.len() ==> rest[i] != at
            &&& begin > 0 ==> text[begin - 1] == at
        }),
    decreases text.len(),
{
    if text.len() > 0 && text.last() != at {
        let shorter = text.drop_last();
        law_what_is_past_the_last_is_the_end(shorter, at);
        let rest = past_last(text, at);
        let begin = text.len() - rest.len();
        assert(text.skip(begin) =~= shorter.skip(begin).push(text.last()));
        if begin > 0 {
            assert(shorter[begin - 1] == text[begin - 1]);
        }
    } else {
        assert(text.skip(text.len() as int) =~= Seq::empty());
        assert(text.skip(0) =~= text);
    }
}

/// The number that a digit stands for.
pub open spec fn worth(digit: char) -> nat {
    if '0' <= digit <= '9' {
        (digit as int - '0' as int) as nat
    } else {
        (digit as int - 'a' as int + 10) as nat
    }
}

/// The number that `digits` stand for in `base`, the highest first.
pub open spec fn number_of(digits: Seq<char>, base: nat) -> nat
    decreases digits.len(),
{
    if digits.len() == 0 {
        0
    } else {
        base * number_of(digits.drop_last(), base) + worth(digits.last())
    }
}

/// A decimal is read back as the number it stands for: it is made of digits, and
/// does not begin with a zero unless it is the zero.
pub proof fn law_a_decimal_reads_back(value: nat)
    ensures
        number_of(decimal(value), 10) == value,
        decimal(value).len() > 0,
        decimal(value)[0] == '0' ==> value == 0,
        value == 0 ==> decimal(value).len() == 1,
        forall|i: int| 0 <= i < decimal(value).len() ==> '0' <= #[trigger] decimal(value)[i] <= '9',
    decreases value,
{
    reveal_with_fuel(number_of, 2);
    let digits = decimal(value);
    if value < 10 {
        assert(digits.drop_last() =~= Seq::empty());
        assert(worth(digits.last()) == value);
    } else {
        law_a_decimal_reads_back(value / 10);
        let shorter = decimal(value / 10);
        assert(digits.drop_last() =~= shorter);
        assert(worth(digits.last()) == value % 10);
        assert forall|i: int| 0 <= i < digits.len() implies '0' <= #[trigger] digits[i] <= '9' by {
            if i < shorter.len() {
                assert(digits[i] == shorter[i]);
            }
        }
        assert(digits[0] == shorter[0]);
    }
}

/// A number of so many hexadecimal digits is read back from them: there are as
/// many as asked for, each of `0` to `9` and `a` to `f`.
pub proof fn law_a_hexadecimal_reads_back(value: nat, width: nat)
    ensures
        hex(value, width).len() == width,
        number_of(hex(value, width), 16) == value % (pow(16, width) as nat),
        forall|i: int|
            0 <= i < width ==> '0' <= #[trigger] hex(value, width)[i] <= '9' || 'a' <= hex(
                value,
                width,
            )[i] <= 'f',
    decreases width,
{
    lemma_pow_positive(16, width);
    let digits = hex(value, width);
    if width == 0 {
        lemma_pow0(16);
    } else {
        let fewer = (width - 1) as nat;
        let left = value / 16;
        let below = pow(16, fewer) as nat;
        lemma_pow_positive(16, fewer);
        law_a_hexadecimal_reads_back(left, fewer);
        reveal(pow);
        assert(pow(16, width) == 16 * pow(16, fewer));
        let shorter = hex(left, fewer);
        assert(digits.drop_last() =~= shorter);
        assert(worth(digits.last()) == value % 16);
        assert(16 * (left % below) + value % 16 == value % (16 * below)) by {
            lemma_breakdown(value as int, 16, below as int);
        }
        assert forall|i: int| 0 <= i < width implies '0' <= #[trigger] digits[i] <= '9' || 'a'
            <= digits[i] <= 'f' by {
            if i < fewer {
                assert(digits[i] == shorter[i]);
            }
        }
    }
}

} // verus!
