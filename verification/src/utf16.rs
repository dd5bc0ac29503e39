//! UTF-16: text as the sequence of 16-bit code units in which Windows writes it.
//!
//! A path of the system is a sequence of code units that need not be well-formed, so decoding
//! comes in two forms. The strict one refuses a sequence with an unpaired surrogate, the lossy one
//! puts U+FFFD in its place.

use vstd::prelude::*;

verus! {

/// The first unit of a surrogate pair.
pub open spec fn is_high(u: u16) -> bool {
    0xD800 <= u <= 0xDBFF
}

/// The second unit of a surrogate pair.
pub open spec fn is_low(u: u16) -> bool {
    0xDC00 <= u <= 0xDFFF
}

/// The character that a surrogate pair stands for.
pub open spec fn paired(high: u16, low: u16) -> char {
    (0x10000 + (high - 0xD800) * 0x400 + (low - 0xDC00)) as char
}

/// The code units of one character: itself, or a surrogate pair above U+FFFF.
pub open spec fn char_units(c: char) -> Seq<u16> {
    let n = c as int;
    if n < 0x10000 {
        seq![n as u16]
    } else {
        seq![
            (0xD800 + (n - 0x10000) / 0x400) as u16,
            (0xDC00 + (n - 0x10000) % 0x400) as u16,
        ]
    }
}

/// The code units of a text, one character after the other.
pub open spec fn encoded(text: Seq<char>) -> Seq<u16>
    decreases text.len(),
{
    if text.len() == 0 {
        seq![]
    } else {
        char_units(text[0]) + encoded(text.skip(1))
    }
}

/// What a sequence of code units holds: its characters in order, `None` for each surrogate that
/// is not part of a pair.
pub open spec fn decoded(units: Seq<u16>) -> Seq<Option<char>>
    decreases units.len(),
{
    if units.len() == 0 {
        seq![]
    } else if is_high(units[0]) && units.len() >= 2 && is_low(units[1]) {
        seq![Some(paired(units[0], units[1]))] + decoded(units.skip(2))
    } else if is_high(units[0]) || is_low(units[0]) {
        seq![None] + decoded(units.skip(1))
    } else {
        seq![Some(units[0] as char)] + decoded(units.skip(1))
    }
}

/// The units hold no unpaired surrogate.
pub open spec fn well_formed(units: Seq<u16>) -> bool {
    forall|i: int| 0 <= i < decoded(units).len() ==> #[trigger] decoded(units)[i] is Some
}

/// The text with U+FFFD in place of each unpaired surrogate.
pub open spec fn lossy_text(units: Seq<u16>) -> Seq<char> {
    decoded(units).map_values(
        |c: Option<char>|
            match c {
                Some(c) => c,
                None => '\u{FFFD}',
            },
    )
}

/// The text, where the units are well-formed.
pub open spec fn strict_text(units: Seq<u16>) -> Option<Seq<char>> {
    if well_formed(units) {
        Some(lossy_text(units))
    } else {
        None
    }
}

/// The code units of a text.
pub fn encode(text: &str) -> (r: Vec<u16>)
    ensures
        r@ == encoded(text@),
{
    let mut out: Vec<u16> = Vec::new();
    assert(text@.skip(0) =~= text@);
    for c in it: text.chars()
        invariant
            it.seq() == text@,
            encoded(text@) == out@ + encoded(text@.skip(it.index())),
    {
        let ghost before = out@;
        push_char(&mut out, c);
        proof {
            let rest = text@.skip(it.index());
            assert(rest.skip(1) =~= text@.skip(it.index() + 1));
            assert(before + (char_units(c) + encoded(rest.skip(1))) =~= out@ + encoded(
                rest.skip(1),
            ));
        }
    }
    assert(out@ + encoded(text@.skip(text@.len() as int)) =~= out@);
    out
}

/// Appends the code units of one character.
fn push_char(out: &mut Vec<u16>, c: char)
    ensures
        final(out)@ == old(out)@ + char_units(c),
{
    let n: u32 = c as u32;
    if n < 0x10000 {
        out.push(n as u16);
    } else {
        let rest: u32 = n - 0x10000;
        let high: u32 = 0xD800 + rest / 0x400;
        let low: u32 = 0xDC00 + rest % 0x400;
        out.push(high as u16);
        out.push(low as u16);
    }
    assert(out@ =~= old(out)@ + char_units(c));
}

/// Reads the units one character at a time.
fn decode(units: &[u16]) -> (r: Vec<Option<char>>)
    ensures
        r@ == decoded(units@),
{
    let mut out: Vec<Option<char>> = Vec::new();
    let mut i: usize = 0;
    assert(units@.skip(0) =~= units@);
    while i < units.len()
        invariant
            i <= units@.len(),
            decoded(units@) == out@ + decoded(units@.skip(i as int)),
        decreases units@.len() - i,
    {
        let ghost before = out@;
        let ghost rest = units@.skip(i as int);
        let first: u16 = units[i];
        if 0xD800 <= first && first <= 0xDBFF && i + 1 < units.len() && 0xDC00 <= units[i + 1]
            && units[i + 1] <= 0xDFFF {
            let second: u16 = units[i + 1];
            let n: u32 = 0x10000 + (first as u32 - 0xD800) * 0x400 + (second as u32 - 0xDC00);
            out.push(char::from_u32(n));
            i = i + 2;
            proof {
                assert(out@.last() == Some(paired(first, second)));
                assert(rest.skip(2) =~= units@.skip(i as int));
                assert(before + (seq![out@.last()] + decoded(rest.skip(2))) =~= out@ + decoded(
                    rest.skip(2),
                ));
            }
        } else {
            if 0xD800 <= first && first <= 0xDFFF {
                out.push(None);
            } else {
                out.push(char::from_u32(first as u32));
            }
            i = i + 1;
            proof {
                assert(rest.skip(1) =~= units@.skip(i as int));
                assert(before + (seq![out@.last()] + decoded(rest.skip(1))) =~= out@ + decoded(
                    rest.skip(1),
                ));
            }
        }
    }
    assert(out@ + decoded(units@.skip(units@.len() as int)) =~= out@);
    out
}

/// The text that the units hold, with U+FFFD in place of each unpaired surrogate.
pub fn decode_lossy(units: &[u16]) -> (r: String)
    ensures
        r@ == lossy_text(units@),
{
    let chars = decode(units);
    let mut out = String::new();
    let mut i: usize = 0;
    while i < chars.len()
        invariant
            chars@ == decoded(units@),
            i <= chars@.len(),
            out@ == lossy_text(units@).take(i as int),
        decreases chars@.len() - i,
    {
        match chars[i] {
            Some(c) => out.push(c),
            None => out.push('\u{FFFD}'),
        }
        i = i + 1;
        assert(out@ =~= lossy_text(units@).take(i as int));
    }
    assert(lossy_text(units@).take(i as int) =~= lossy_text(units@));
    out
}

/// The text that the units hold, or `None` where a surrogate is unpaired.
pub fn decode_strict(units: &[u16]) -> (r: Option<String>)
    ensures
        r is Some <==> well_formed(units@),
        r matches Some(text) ==> Some(text@) == strict_text(units@),
{
    let chars = decode(units);
    let mut i: usize = 0;
    while i < chars.len()
        invariant
            chars@ == decoded(units@),
            i <= chars@.len(),
            forall|j: int| 0 <= j < i ==> #[trigger] chars@[j] is Some,
        decreases chars@.len() - i,
    {
        if chars[i].is_none() {
            assert(decoded(units@)[i as int] is None);
            return None;
        }
        i = i + 1;
    }
    Some(decode_lossy(units))
}

/// The units of a text, closed by a zero: the form in which the system takes a string.
pub fn to_wide(s: &str) -> (r: Vec<u16>)
    ensures
        r@ == encoded(s@).push(0),
{
    let mut out = encode(s);
    out.push(0);
    out
}

/// One character decodes to itself, whatever follows it.
proof fn lemma_decoded_char(c: char, rest: Seq<u16>)
    ensures
        decoded(char_units(c) + rest) == seq![Some(c)] + decoded(rest),
{
    let all = char_units(c) + rest;
    let n = c as int;
    if n < 0x10000 {
        assert(all[0] == n as u16);
        assert(all.skip(1) =~= rest);
    } else {
        let high = (0xD800 + (n - 0x10000) / 0x400) as u16;
        let low = (0xDC00 + (n - 0x10000) % 0x400) as u16;
        assert(all[0] == high && all[1] == low);
        assert(paired(high, low) == c);
        assert(all.skip(2) =~= rest);
    }
}

/// Decoding gives back what encoding wrote: the units of a text are well-formed and hold exactly
/// that text.
pub proof fn law_decode_undoes_encode(text: Seq<char>)
    ensures
        strict_text(encoded(text)) == Some(text),
        lossy_text(encoded(text)) == text,
{
    lemma_decoded_encoded(text);
    assert(lossy_text(encoded(text)) =~= text);
}

proof fn lemma_decoded_encoded(text: Seq<char>)
    ensures
        decoded(encoded(text)) == text.map_values(|c: char| Some(c)),
    decreases text.len(),
{
    if text.len() > 0 {
        lemma_decoded_encoded(text.skip(1));
        lemma_decoded_char(text[0], encoded(text.skip(1)));
    }
    assert(decoded(encoded(text)) =~= text.map_values(|c: char| Some(c)));
}

/// Encoding gives back what strict decoding read: no other units hold the same text.
pub proof fn law_encode_undoes_strict_decode(units: Seq<u16>)
    requires
        well_formed(units),
    ensures
        encoded(lossy_text(units)) == units,
    decreases units.len(),
{
    let text = lossy_text(units);
    if units.len() > 0 {
        let all = decoded(units);
        assert(all[0] is Some);
        let n: int = if is_high(units[0]) && units.len() >= 2 && is_low(units[1]) {
            2
        } else {
            1
        };
        let rest = units.skip(n);
        assert(all == seq![all[0]] + decoded(rest));
        assert forall|i: int| 0 <= i < decoded(rest).len() implies #[trigger] decoded(
            rest,
        )[i] is Some by {
            assert(decoded(rest)[i] == all[i + 1]);
        }
        law_encode_undoes_strict_decode(rest);
        assert(text.skip(1) =~= lossy_text(rest));
        assert(char_units(text[0]) =~= units.take(n));
        assert(units.take(n) + rest =~= units);
    }
}

/// The wide form of a text holds the text and the closing zero, and the first zero in it is the
/// closing one exactly where the text has no zero character itself.
pub proof fn law_to_wide_ends_the_text(s: Seq<char>)
    ensures
        lossy_text(encoded(s).push(0).drop_last()) == s,
        encoded(s).push(0).last() == 0,
        encoded(s).contains(0) <==> s.contains('\0'),
{
    law_decode_undoes_encode(s);
    assert(encoded(s).push(0).drop_last() =~= encoded(s));
    lemma_zero_unit(s);
}

proof fn lemma_zero_in_char(c: char, j: int)
    requires
        0 <= j < char_units(c).len(),
        char_units(c)[j] == 0,
    ensures
        c == '\0',
{
}

proof fn lemma_zero_unit(s: Seq<char>)
    ensures
        encoded(s).contains(0) <==> s.contains('\0'),
    decreases s.len(),
{
    if s.len() > 0 {
        let rest = s.skip(1);
        lemma_zero_unit(rest);
        let head = char_units(s[0]);
        let tail = encoded(rest);
        if tail.contains(0) {
            let i = choose|i: int| 0 <= i < rest.len() && rest[i] == '\0';
            assert(s[i + 1] == '\0');
            let j = choose|j: int| 0 <= j < tail.len() && tail[j] == 0;
            assert(encoded(s)[head.len() + j] == 0);
        }
        if s[0] == '\0' {
            assert(encoded(s)[0] == 0);
        }
        if s.contains('\0') {
            let i = choose|i: int| 0 <= i < s.len() && s[i] == '\0';
            if i > 0 {
                assert(rest[i - 1] == '\0');
            }
        }
        if encoded(s).contains(0) {
            let j = choose|j: int| 0 <= j < encoded(s).len() && encoded(s)[j] == 0;
            if j >= head.len() {
                assert(tail[j - head.len()] == 0);
            } else {
                lemma_zero_in_char(s[0], j);
            }
        }
    }
}

/// A unit that is no part of a surrogate pair.
pub open spec fn stands_alone(u: u16) -> bool {
    !is_high(u) && !is_low(u)
}

/// Units can be read in two parts, unless the cut goes through a surrogate pair.
proof fn lemma_decoded_parts(units: Seq<u16>, at: int)
    requires
        0 <= at <= units.len(),
        0 < at < units.len() ==> !(is_high(units[at - 1]) && is_low(units[at])),
    ensures
        decoded(units) == decoded(units.take(at)) + decoded(units.skip(at)),
    decreases units.len(),
{
    if at == 0 {
        assert(units.take(0) =~= seq![]);
        assert(units.skip(0) =~= units);
        assert(decoded(units.take(0)) + decoded(units) =~= decoded(units));
    } else {
        let n: int = if is_high(units[0]) && units.len() >= 2 && is_low(units[1]) {
            2
        } else {
            1
        };
        let rest = units.skip(n);
        let part = units.take(at);
        assert(n <= at);
        assert(part[0] == units[0]);
        if at > 1 {
            assert(part[1] == units[1]);
        }
        lemma_decoded_parts(rest, at - n);
        assert(rest.take(at - n) =~= part.skip(n));
        assert(rest.skip(at - n) =~= units.skip(at));
        assert(decoded(units) =~= seq![decoded(units)[0]] + decoded(rest));
        assert(decoded(part) =~= seq![decoded(units)[0]] + decoded(part.skip(n)));
        assert(decoded(units) =~= decoded(part) + decoded(units.skip(at)));
    }
}

/// A piece cut out of well-formed units is well-formed, where the units just outside it stand
/// alone.
pub proof fn law_pieces_are_well_formed(units: Seq<u16>, from: int, to: int)
    requires
        well_formed(units),
        0 <= from <= to <= units.len(),
        from > 0 ==> stands_alone(units[from - 1]),
        to < units.len() ==> stands_alone(units[to]),
    ensures
        well_formed(units.subrange(from, to)),
{
    let front = units.take(to);
    lemma_decoded_parts(units, to);
    if 0 < from < to {
        assert(front[from - 1] == units[from - 1]);
    }
    lemma_decoded_parts(front, from);
    assert(front.skip(from) =~= units.subrange(from, to));
    let piece = decoded(units.subrange(from, to));
    let before = decoded(front.take(from));
    assert forall|i: int| 0 <= i < piece.len() implies #[trigger] piece[i] is Some by {
        assert(piece[i] == decoded(front)[before.len() + i]);
        assert(decoded(front)[before.len() + i] == decoded(units)[before.len() + i]);
    }
}

/// Text is encoded piece by piece: the units of two texts, one after the other, are those of the
/// whole.
pub proof fn law_encoding_goes_on(a: Seq<char>, b: Seq<char>)
    ensures
        encoded(a + b) == encoded(a) + encoded(b),
    decreases a.len(),
{
    if a.len() == 0 {
        assert(a + b =~= b);
        assert(encoded(a) + encoded(b) =~= encoded(b));
    } else {
        law_encoding_goes_on(a.skip(1), b);
        assert((a + b).skip(1) =~= a.skip(1) + b);
        assert(char_units(a[0]) + (encoded(a.skip(1)) + encoded(b)) =~= (char_units(a[0])
            + encoded(a.skip(1))) + encoded(b));
    }
}

/// One character takes one unit, its own number, up to `0xFFFF`, and two units above: the first
/// from `0xD800` on with the upper ten bits of what is left behind `0x10000`, the second from
/// `0xDC00` on with the lower ten.
pub proof fn law_units_of_a_character(c: char)
    ensures
        ({
            let units = encoded(seq![c]);
            if c as int <= 0xFFFF {
                units.len() == 1 && units[0] == c as int
            } else {
                &&& units.len() == 2
                &&& 0xD800 <= units[0] < 0xDC00
                &&& 0xDC00 <= units[1] < 0xE000
                &&& c as int == 0x10000 + (units[0] - 0xD800) * 0x400 + (units[1] - 0xDC00)
            }
        }),
{
    let one = seq![c];
    assert(one.skip(1) =~= seq![]);
    assert(encoded(one.skip(1)) =~= seq![]);
    assert(encoded(one) =~= char_units(c));
}

/// Strict decoding is the inverse of encoding: it gives a text exactly where the units are those of
/// that text, and none where they are those of no text.
pub proof fn law_strict_text_is_what_was_encoded(units: Seq<u16>, text: Seq<char>)
    ensures
        strict_text(units) == Some(text) <==> encoded(text) == units,
        strict_text(units) matches Some(t) ==> encoded(t) == units,
        strict_text(units) matches Some(t) ==> lossy_text(units) == t,
{
    law_decode_undoes_encode(text);
    if well_formed(units) {
        law_encode_undoes_strict_decode(units);
    }
}

/// A surrogate that finds no partner costs exactly itself: the text before it and the text behind
/// it are read as if it were not there, it turns into U+FFFD, and the whole is no text in the
/// strict sense.
pub proof fn law_unpaired_surrogate_is_replaced(before: Seq<char>, u: u16, behind: Seq<u16>)
    requires
        0xD800 <= u <= 0xDFFF,
        u < 0xDC00 && behind.len() > 0 ==> !(0xDC00 <= behind[0] <= 0xDFFF),
    ensures
        lossy_text(encoded(before) + seq![u] + behind) == before.push('\u{FFFD}') + lossy_text(
            behind,
        ),
        strict_text(encoded(before) + seq![u] + behind) is None,
{
    let front = encoded(before);
    let tail = seq![u] + behind;
    let all = front + seq![u] + behind;
    assert(all =~= front + tail);
    lemma_decoded_behind_text(before, tail);
    lemma_decoded_encoded(before);
    assert(tail.skip(1) =~= behind);
    assert(tail[0] == u);
    if tail.len() >= 2 {
        assert(tail[1] == behind[0]);
    }
    assert(decoded(tail) == seq![None] + decoded(behind));
    assert(decoded(all)[before.len() as int] is None);
    assert(lossy_text(all) =~= before.push('\u{FFFD}') + lossy_text(behind));
}

/// Text in front of any units is read as itself.
proof fn lemma_decoded_behind_text(before: Seq<char>, tail: Seq<u16>)
    ensures
        decoded(encoded(before) + tail) == before.map_values(|c: char| Some(c)) + decoded(tail),
    decreases before.len(),
{
    let somes = before.map_values(|c: char| Some(c));
    if before.len() == 0 {
        assert(encoded(before) + tail =~= tail);
        assert(somes + decoded(tail) =~= decoded(tail));
    } else {
        let rest = before.skip(1);
        lemma_decoded_behind_text(rest, tail);
        lemma_decoded_char(before[0], encoded(rest) + tail);
        assert(encoded(before) + tail =~= char_units(before[0]) + (encoded(rest) + tail));
        assert(somes + decoded(tail) =~= seq![Some(before[0])] + (rest.map_values(
            |c: char| Some(c),
        ) + decoded(tail)));
    }
}

} // verus!
