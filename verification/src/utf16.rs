//! UTF-16LE decoding, for the names carried in USN records.
//!
//! A name that is not well-formed UTF-16 makes its whole record invalid; the
//! enumerator skips such records and carries on.

use vstd::prelude::*;
use vstd::utf8::is_scalar;

verus! {

broadcast use vstd::utf8::char_u32_cast, vstd::utf8::char_is_scalar;

/// Whether a sequence of 16-bit units is well-formed UTF-16: every high
/// surrogate is followed by a low surrogate, and no low surrogate stands
/// alone.
pub open spec fn utf16_valid(units: Seq<u16>) -> bool
    decreases units.len(),
{
    if units.len() == 0 {
        true
    } else {
        let u = units[0] as u32;
        if u < 0xD800 || u > 0xDFFF {
            utf16_valid(units.skip(1))
        } else if u < 0xDC00 {
            units.len() >= 2 && 0xDC00 <= (units[1] as u32) < 0xE000 && utf16_valid(
                units.skip(2),
            )
        } else {
            false
        }
    }
}

/// The characters a well-formed UTF-16 sequence encodes. (On ill-formed
/// input the offending unit is ignored; only `utf16_valid` inputs matter.)
pub open spec fn utf16_chars(units: Seq<u16>) -> Seq<char>
    decreases units.len(),
{
    if units.len() == 0 {
        Seq::empty()
    } else {
        let u = units[0] as u32;
        if u < 0xD800 || u > 0xDFFF {
            seq![u as char] + utf16_chars(units.skip(1))
        } else if units.len() >= 2 && u < 0xDC00 && 0xDC00 <= (units[1] as u32) < 0xE000 {
            let cp = (0x10000 + (u - 0xD800) * 0x400 + ((units[1] as u32) - 0xDC00)) as u32;
            seq![cp as char] + utf16_chars(units.skip(2))
        } else {
            utf16_chars(units.skip(1))
        }
    }
}

/// Relies on `char::from_u32`: it returns `Some` exactly for Unicode scalar
/// values (codes that are not surrogates and at most 0x10FFFF), and the
/// returned character has that code.
#[verifier::external_body]
pub(crate) fn char_from_u32(u: u32) -> (r: Option<char>)
    ensures
        r is Some <==> is_scalar(u),
        r matches Some(c) ==> c == u as char && c as u32 == u,
{
    char::from_u32(u)
}

/// Relies on `String::push`: it appends exactly the one character.
#[verifier::external_body]
pub(crate) fn push_char(s: &mut String, c: char)
    ensures
        final (s)@ == old(s)@.push(c),
{
    s.push(c);
}

/// Decodes a UTF-16LE unit sequence, returning `None` exactly on ill-formed
/// input.
pub fn utf16_to_string(units: &Vec<u16>) -> (r: Option<String>)
    ensures
        r is Some <==> utf16_valid(units@),
        r matches Some(s) ==> s@ == utf16_chars(units@),
{
    let mut out = String::new();
    let mut i: usize = 0;
    proof {
        assert(units@.skip(0) =~= units@);
    }
    while i < units.len()
        invariant
            i <= units@.len(),
            utf16_valid(units@) == utf16_valid(units@.skip(i as int)),
            utf16_valid(units@) ==> utf16_chars(units@) == out@ + utf16_chars(
                units@.skip(i as int),
            ),
        decreases units@.len() - i,
    {
        let u = units[i];
        proof {
            assert(units@.skip(i as int)[0] == units@[i as int]);
            assert(units@.skip(i as int).skip(1) =~= units@.skip(i + 1));
        }
        if u < 0xD800 || u > 0xDFFF {
            let c = match char_from_u32(u as u32) {
                Some(c) => c,
                None => {
                    proof {
                        assert(is_scalar(u as u32));
                    }
                    return None;
                },
            };
            let ghost old_out = out@;
            push_char(&mut out, c);
            proof {
                if utf16_valid(units@) {
                    assert(utf16_chars(units@.skip(i as int)) == seq![(u as u32) as char]
                        + utf16_chars(units@.skip(i + 1)));
                    assert(old_out + (seq![c] + utf16_chars(units@.skip(i + 1))) =~= (old_out
                        + seq![c]) + utf16_chars(units@.skip(i + 1)));
                    assert(out@ =~= old_out + seq![c]);
                }
            }
            i = i + 1;
        } else if u < 0xDC00 {
            // A high surrogate: the next unit must be a low surrogate.
            if i + 1 >= units.len() {
                return None;
            }
            let low = units[i + 1];
            if !(0xDC00 <= low && low < 0xE000) {
                return None;
            }
            proof {
                assert(units@.skip(i as int).len() >= 2);
                assert(units@.skip(i as int)[1] == units@[i + 1]);
                assert(units@.skip(i as int).skip(2) =~= units@.skip(i + 2));
            }
            let cp: u32 = 0x10000 + ((u as u32) - 0xD800) * 0x400 + ((low as u32) - 0xDC00);
            let c = match char_from_u32(cp) {
                Some(c) => c,
                None => {
                    proof {
                        assert(is_scalar(cp));
                    }
                    return None;
                },
            };
            let ghost old_out = out@;
            push_char(&mut out, c);
            proof {
                if utf16_valid(units@) {
                    assert(utf16_chars(units@.skip(i as int)) == seq![cp as char] + utf16_chars(
                        units@.skip(i + 2),
                    ));
                    assert(old_out + (seq![c] + utf16_chars(units@.skip(i + 2))) =~= (old_out
                        + seq![c]) + utf16_chars(units@.skip(i + 2)));
                    assert(out@ =~= old_out + seq![c]);
                }
            }
            i = i + 2;
        } else {
            // An unpaired low surrogate.
            return None;
        }
    }
    proof {
        assert(units@.skip(i as int).len() == 0);
        if utf16_valid(units@) {
            assert(out@ + Seq::<char>::empty() =~= out@);
        }
    }
    Some(out)
}

} // verus!
