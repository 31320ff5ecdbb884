//! Small text helpers: decimal rendering for generated names, and the
//! note-name form of a MIDI key number.

use vstd::prelude::*;
use vstd::string::StringExecFns;
use vstd::utf8::encode_utf8;
use vstd::utf8::is_ascii_chars;

verus! {

/// The decimal digit character for `d` (0 to 9).
pub open spec fn digit_char(d: int) -> char {
    if d == 0 {
        '0'
    } else if d == 1 {
        '1'
    } else if d == 2 {
        '2'
    } else if d == 3 {
        '3'
    } else if d == 4 {
        '4'
    } else if d == 5 {
        '5'
    } else if d == 6 {
        '6'
    } else if d == 7 {
        '7'
    } else if d == 8 {
        '8'
    } else {
        '9'
    }
}

/// The decimal form of a non-negative number, most significant digit first.
pub open spec fn spec_dec_digits(n: int) -> Seq<char>
    decreases n,
{
    if n < 10 {
        seq![digit_char(if n < 0 {
            0
        } else {
            n
        })]
    } else {
        spec_dec_digits(n / 10).push(digit_char(n % 10))
    }
}

/// The same decimal form, as bytes.
pub open spec fn spec_dec_bytes(n: int) -> Seq<u8> {
    encode_utf8(spec_dec_digits(n))
}

/// Decimal digits are ASCII.
pub proof fn lemma_dec_digits_ascii(n: int)
    ensures
        is_ascii_chars(spec_dec_digits(n)),
    decreases n,
{
    if n >= 10 {
        lemma_dec_digits_ascii(n / 10);
    }
}

/// Encoding distributes over concatenation.
pub proof fn lemma_encode_concat(a: Seq<char>, b: Seq<char>)
    ensures
        encode_utf8(a + b) == encode_utf8(a) + encode_utf8(b),
    decreases a.len(),
{
    if a.len() == 0 {
        assert(a + b =~= b);
        assert(encode_utf8(a) + encode_utf8(b) =~= encode_utf8(b));
    } else {
        assert((a + b).drop_first() =~= a.drop_first() + b);
        assert((a + b)[0] == a[0]);
        lemma_encode_concat(a.drop_first(), b);
        assert(encode_utf8(a + b) =~= encode_utf8(a) + encode_utf8(b));
    }
}

/// Append one decimal digit.
fn push_digit(s: &mut String, d: u8)
    requires
        d < 10,
    ensures
        final(s)@ == old(s)@ + seq![digit_char(d as int)],
{
    proof {
        reveal_strlit("0");
        reveal_strlit("1");
        reveal_strlit("2");
        reveal_strlit("3");
        reveal_strlit("4");
        reveal_strlit("5");
        reveal_strlit("6");
        reveal_strlit("7");
        reveal_strlit("8");
        reveal_strlit("9");
    }
    if d == 0 {
        s.append("0");
        proof {
            assert(final(s)@ =~= old(s)@ + seq![digit_char(0)]);
        }
    } else if d == 1 {
        s.append("1");
        proof {
            assert(final(s)@ =~= old(s)@ + seq![digit_char(1)]);
        }
    } else if d == 2 {
        s.append("2");
        proof {
            assert(final(s)@ =~= old(s)@ + seq![digit_char(2)]);
        }
    } else if d == 3 {
        s.append("3");
        proof {
            assert(final(s)@ =~= old(s)@ + seq![digit_char(3)]);
        }
    } else if d == 4 {
        s.append("4");
        proof {
            assert(final(s)@ =~= old(s)@ + seq![digit_char(4)]);
        }
    } else if d == 5 {
        s.append("5");
        proof {
            assert(final(s)@ =~= old(s)@ + seq![digit_char(5)]);
        }
    } else if d == 6 {
        s.append("6");
        proof {
            assert(final(s)@ =~= old(s)@ + seq![digit_char(6)]);
        }
    } else if d == 7 {
        s.append("7");
        proof {
            assert(final(s)@ =~= old(s)@ + seq![digit_char(7)]);
        }
    } else if d == 8 {
        s.append("8");
        proof {
            assert(final(s)@ =~= old(s)@ + seq![digit_char(8)]);
        }
    } else {
        s.append("9");
        proof {
            assert(final(s)@ =~= old(s)@ + seq![digit_char(9)]);
        }
    }
}

/// Append the decimal form of `n`.
pub fn push_decimal(s: &mut String, n: u64)
    ensures
        final(s)@ == old(s)@ + spec_dec_digits(n as int),
    decreases n,
{
    if n >= 10 {
        push_decimal(s, n / 10);
        push_digit(s, (n % 10) as u8);
        proof {
            assert(final(s)@ =~= old(s)@ + spec_dec_digits(n as int));
        }
    } else {
        push_digit(s, n as u8);
    }
}

/// The letter form of a pitch class (0 is C, 11 is B, sharps for the black
/// keys).
pub open spec fn spec_note_label(i: int) -> Seq<char> {
    if i == 0 {
        "C"@
    } else if i == 1 {
        "C#"@
    } else if i == 2 {
        "D"@
    } else if i == 3 {
        "D#"@
    } else if i == 4 {
        "E"@
    } else if i == 5 {
        "F"@
    } else if i == 6 {
        "F#"@
    } else if i == 7 {
        "G"@
    } else if i == 8 {
        "G#"@
    } else if i == 9 {
        "A"@
    } else if i == 10 {
        "A#"@
    } else {
        "B"@
    }
}

/// The note-name form of a MIDI key number: pitch class letter plus octave,
/// with key 0 lying in octave -1 (so key 60 is C4).
pub open spec fn spec_midi_to_note(note: int) -> Seq<char> {
    spec_note_label(note % 12) + (if note < 12 {
        "-1"@
    } else {
        spec_dec_digits(note / 12 - 1)
    })
}

/// Render a MIDI key number as its note name.
pub fn midi_to_note(note: u8) -> (r: String)
    ensures
        r@ == spec_midi_to_note(note as int),
{
    let idx = note % 12;
    let mut out = match idx {
        0 => String::from_str("C"),
        1 => String::from_str("C#"),
        2 => String::from_str("D"),
        3 => String::from_str("D#"),
        4 => String::from_str("E"),
        5 => String::from_str("F"),
        6 => String::from_str("F#"),
        7 => String::from_str("G"),
        8 => String::from_str("G#"),
        9 => String::from_str("A"),
        10 => String::from_str("A#"),
        _ => String::from_str("B"),
    };
    if note < 12 {
        out.append("-1");
    } else {
        push_decimal(&mut out, (note / 12 - 1) as u64);
    }
    out
}

} // verus!
