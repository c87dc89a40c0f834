//! Names as they cross the wire: UTF-16, each unit little-endian.

use vstd::prelude::*;

verus! {

/// `char::from_u32` gives the character of a scalar value, and `None` for a
/// surrogate or a number past the last code point.
pub assume_specification[ char::from_u32 ](value: u32) -> (character: Option<char>)
    ensures
        character is Some <==> (value < 0xD800 || 0xE000 <= value <= 0x10FFFF),
        character matches Some(c) ==> c == value as char,
;

/// The character that stands where a unit could not be read.
pub const REPLACEMENT: char = '\u{FFFD}';

/// The one or two units that stand for `c`.
pub open spec fn units_of(c: char) -> Seq<u16> {
    let code = c as u32;
    if code < 0x1_0000 {
        seq![code as u16]
    } else {
        seq![
            (0xD800 + (code - 0x1_0000) / 0x400) as u16,
            (0xDC00 + (code - 0x1_0000) % 0x400) as u16,
        ]
    }
}

/// `units` as bytes, the low byte of each first.
pub open spec fn unit_bytes(units: Seq<u16>) -> Seq<u8> {
    Seq::new(
        2 * units.len(),
        |i: int|
            if i % 2 == 0 {
                (units[i / 2] % 256) as u8
            } else {
                (units[i / 2] / 256) as u8
            },
    )
}

/// The units that `bytes` hold; an odd byte at the end is not a unit.
pub open spec fn units_in(bytes: Seq<u8>) -> Seq<u16> {
    Seq::new(
        bytes.len() / 2,
        |i: int| (bytes[2 * i] + 256 * bytes[2 * i + 1]) as u16,
    )
}

/// `text` in UTF-16.
pub open spec fn utf16(text: Seq<char>) -> Seq<u8>
    decreases text.len(),
{
    if text.len() == 0 {
        Seq::empty()
    } else {
        unit_bytes(units_of(text[0])) + utf16(text.drop_first())
    }
}

pub open spec fn is_high(unit: u16) -> bool {
    0xD800 <= unit < 0xDC00
}

pub open spec fn is_low(unit: u16) -> bool {
    0xDC00 <= unit < 0xE000
}

/// The text of `units`, with [`REPLACEMENT`] for each surrogate that has no
/// partner.
pub open spec fn text_of(units: Seq<u16>) -> Seq<char>
    decreases units.len(),
{
    if units.len() == 0 {
        Seq::empty()
    } else if !is_high(units[0]) && !is_low(units[0]) {
        seq![units[0] as char] + text_of(units.skip(1))
    } else if is_high(units[0]) && units.len() > 1 && is_low(units[1]) {
        seq![(0x1_0000 + (units[0] - 0xD800) * 0x400 + (units[1] - 0xDC00)) as char] + text_of(
            units.skip(2),
        )
    } else {
        seq![REPLACEMENT] + text_of(units.skip(1))
    }
}

/// The text that `bytes` hold in UTF-16, whatever cannot be read replaced.
pub open spec fn from_utf16(bytes: Seq<u8>) -> Seq<char> {
    text_of(units_in(bytes))
}

proof fn lemma_text_of_char(c: char, rest: Seq<u16>)
    ensures
        text_of(units_of(c) + rest) == seq![c] + text_of(rest),
{
    let units = units_of(c) + rest;
    let code = c as u32;
    if code < 0x1_0000 {
        assert(units.skip(1) =~= rest);
        assert(units[0] as char == c);
    } else {
        assert(units.skip(2) =~= rest);
        assert(units[0] == 0xD800 + (code - 0x1_0000) / 0x400);
        assert(units[1] == 0xDC00 + (code - 0x1_0000) % 0x400);
    }
}

proof fn lemma_units_round(units: Seq<u16>, bytes: Seq<u8>)
    ensures
        units_in(unit_bytes(units) + bytes) == units + units_in(bytes),
{
    let all = unit_bytes(units) + bytes;
    assert(units_in(all).len() == units.len() + bytes.len() / 2);
    assert forall|i: int| 0 <= i < units_in(all).len() implies units_in(all)[i] == (units
        + units_in(bytes))[i] by {
        if i < units.len() {
            assert((2 * i) / 2 == i && (2 * i + 1) / 2 == i);
            assert(all[2 * i] == (units[i] % 256) as u8);
            assert(all[2 * i + 1] == (units[i] / 256) as u8);
        } else {
            let j = i - units.len();
            assert(all[2 * i] == bytes[2 * j]);
            assert(all[2 * i + 1] == bytes[2 * j + 1]);
        }
    }
    assert(units_in(all) =~= units + units_in(bytes));
}

/// No character takes more than four bytes.
pub(crate) proof fn lemma_utf16_length(text: Seq<char>)
    ensures
        utf16(text).len() <= 4 * text.len(),
    decreases text.len(),
{
    if text.len() > 0 {
        lemma_utf16_length(text.drop_first());
    }
}

/// Text read back from its own UTF-16 is the text.
pub proof fn law_utf16_reads_back(text: Seq<char>)
    ensures
        from_utf16(utf16(text)) == text,
    decreases text.len(),
{
    if text.len() == 0 {
        assert(units_in(utf16(text)) =~= Seq::empty());
        assert(text =~= Seq::empty());
    } else {
        let rest = text.drop_first();
        law_utf16_reads_back(rest);
        lemma_units_round(units_of(text[0]), utf16(rest));
        lemma_text_of_char(text[0], units_in(utf16(rest)));
        assert(seq![text[0]] + rest =~= text);
    }
}

/// Two texts have the same UTF-16 only if they are the same text.
pub proof fn law_utf16_is_injective(a: Seq<char>, b: Seq<char>)
    requires
        utf16(a) == utf16(b),
    ensures
        a == b,
{
    law_utf16_reads_back(a);
    law_utf16_reads_back(b);
}

fn push_char(bytes: &mut Vec<u8>, c: char)
    ensures
        final(bytes)@ == old(bytes)@ + unit_bytes(units_of(c)),
{
    let code = c as u32;
    if code < 0x1_0000 {
        bytes.push((code % 256) as u8);
        bytes.push((code / 256) as u8);
    } else {
        let high = 0xD800 + (code - 0x1_0000) / 0x400;
        let low = 0xDC00 + (code - 0x1_0000) % 0x400;
        bytes.push((high % 256) as u8);
        bytes.push((high / 256) as u8);
        bytes.push((low % 256) as u8);
        bytes.push((low / 256) as u8);
    }
    assert(bytes@ =~= old(bytes)@ + unit_bytes(units_of(c)));
}

/// `text` in UTF-16.
pub fn encode(text: &str) -> (bytes: Vec<u8>)
    ensures
        bytes@ == utf16(text@),
{
    let mut bytes: Vec<u8> = Vec::new();
    let ghost whole = text@;
    assert(whole.skip(0) =~= whole);
    for c in it: text.chars()
        invariant
            it.seq() == whole,
            bytes@ + utf16(whole.skip(it.index() as int)) == utf16(whole),
    {
        let ghost before = bytes@;
        let ghost at = it.index() as int;
        let ghost left = whole.skip(at);
        push_char(&mut bytes, c);
        proof {
            assert(c == left[0]);
            assert(left.drop_first() =~= whole.skip(at + 1));
            assert(bytes@ + utf16(whole.skip(at + 1)) =~= before + utf16(left));
        }
    }
    assert(whole.skip(whole.len() as int) =~= Seq::empty());
    assert(bytes@ + Seq::<u8>::empty() =~= bytes@);
    bytes
}

/// The text that `bytes` hold in UTF-16, whatever cannot be read replaced.
pub fn decode_lossy(bytes: &[u8]) -> (text: String)
    ensures
        text@ == from_utf16(bytes@),
{
    let mut text = String::new();
    let mut at: usize = 0;
    let ghost units = units_in(bytes@);
    assert(units.skip(0) =~= units);
    while bytes.len() - at >= 2
        invariant
            units == units_in(bytes@),
            at <= bytes.len(),
            at % 2 == 0,
            text@ + text_of(units.skip(at as int / 2)) == text_of(units),
        decreases bytes.len() - at,
    {
        let ghost before = text@;
        let ghost left = units.skip(at as int / 2);
        let first: u32 = bytes[at] as u32 + 256 * bytes[at + 1] as u32;
        assert(first == left[0]);
        let mut taken: usize = 2;
        let mut c = REPLACEMENT;
        if first < 0xD800 || first >= 0xE000 {
            if let Some(read) = char::from_u32(first) {
                c = read;
            }
        } else if first < 0xDC00 && bytes.len() - at >= 4 {
            let second: u32 = bytes[at + 2] as u32 + 256 * bytes[at + 3] as u32;
            assert(second == left[1]);
            if 0xDC00 <= second && second < 0xE000 {
                if let Some(read) = char::from_u32(
                    0x1_0000 + (first - 0xD800) * 0x400 + (second - 0xDC00),
                ) {
                    c = read;
                    taken = 4;
                }
            }
        }
        text.push(c);
        proof {
            assert(left.skip(taken as int / 2) =~= units.skip((at + taken) as int / 2));
            if taken == 4 {
                assert(c == (0x1_0000 + (left[0] - 0xD800) * 0x400 + (left[1] - 0xDC00)) as char);
            } else if !is_high(left[0]) && !is_low(left[0]) {
                assert(c == left[0] as char);
            } else {
                assert(c == REPLACEMENT);
                assert(!(is_high(left[0]) && left.len() > 1 && is_low(left[1])));
            }
            assert(text_of(left) == seq![c] + text_of(left.skip(taken as int / 2)));
            assert(text@ + text_of(units.skip((at + taken) as int / 2)) =~= before + text_of(left));
        }
        at = at + taken;
    }
    assert(units.skip(at as int / 2) =~= Seq::empty());
    assert(text@ + Seq::<char>::empty() =~= text@);
    text
}

/// A character below 0x10000 is one unit, its number, the low byte first; any
/// other is a high and a low surrogate that make up its number. A text is its
/// characters one after the other.
pub proof fn law_utf16_is_character_by_character(c: char, text: Seq<char>)
    ensures
        utf16(Seq::<char>::empty()).len() == 0,
        utf16(seq![c] + text).take(utf16(seq![c]).len() as int) == utf16(seq![c]),
        utf16(seq![c] + text).skip(utf16(seq![c]).len() as int) == utf16(text),
        ({
            let bytes = utf16(seq![c]);
            let code = c as int;
            if code < 0x1_0000 {
                bytes.len() == 2 && code == bytes[0] + 0x100 * bytes[1]
            } else {
                let high = bytes[0] + 0x100 * bytes[1];
                let low = bytes[2] + 0x100 * bytes[3];
                &&& bytes.len() == 4
                &&& 0xD800 <= high < 0xDC00
                &&& 0xDC00 <= low < 0xE000
                &&& code == 0x1_0000 + 0x400 * (high - 0xD800) + (low - 0xDC00)
            }
        }),
{
    reveal_with_fuel(utf16, 2);
    let one = seq![c];
    assert(one.drop_first() =~= Seq::empty());
    assert(utf16(one) =~= unit_bytes(units_of(c)));
    let both = one + text;
    assert(both.drop_first() =~= text);
    assert(both[0] == c);
    assert(utf16(both) =~= utf16(one) + utf16(text));
    assert(utf16(both).take(utf16(one).len() as int) =~= utf16(one));
    assert(utf16(both).skip(utf16(one).len() as int) =~= utf16(text));
    let units = units_of(c);
    let bytes = unit_bytes(units);
    assert(bytes[0] == (units[0] % 256) as u8 && bytes[1] == (units[0] / 256) as u8);
    if (c as int) >= 0x1_0000 {
        assert(bytes[2] == (units[1] % 256) as u8 && bytes[3] == (units[1] / 256) as u8);
    }
}

/// Text is read unit by unit: a unit that is no surrogate is the character of its
/// number, and a surrogate without its partner is replaced by one character. A
/// byte left over at the end is dropped.
pub proof fn law_what_cannot_be_read_is_replaced(low: u8, high: u8, rest: Seq<u8>)
    requires
        rest.len() % 2 == 0,
        !(0xD8 <= high < 0xDC) || rest.len() == 0 || !(0xDC <= rest[1] < 0xE0),
    ensures
        from_utf16(seq![low, high] + rest) == seq![
            if 0xD8 <= high < 0xE0 {
                '\u{FFFD}'
            } else {
                (low + 0x100 * high) as char
            },
        ] + from_utf16(rest),
        from_utf16(rest.push(low)) == from_utf16(rest),
{
    let bytes = seq![low, high] + rest;
    let units = units_in(bytes);
    assert(units[0] == (low + 0x100 * high) as u16);
    assert(units.skip(1) =~= units_in(rest)) by {
        assert forall|i: int| 0 <= i < units_in(rest).len() implies units.skip(1)[i] == units_in(
            rest,
        )[i] by {
            assert(bytes[2 * (i + 1)] == rest[2 * i]);
            assert(bytes[2 * (i + 1) + 1] == rest[2 * i + 1]);
        }
    }
    if rest.len() > 0 {
        assert(units.skip(1)[0] == units[1]);
        assert(units_in(rest)[0] == (rest[0] + 0x100 * rest[1]) as u16);
    }
    assert(units_in(rest.push(low)) =~= units_in(rest));
}

} // verus!
