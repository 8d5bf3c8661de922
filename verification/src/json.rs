//! JSON export of the duplicate groups.
//!
//! The result set is written as a bare array of objects, each carrying the
//! common size and the list of paths. Quotes, backslashes (every Windows
//! path is full of them) and control characters are escaped; nothing else
//! is.

use crate::algorithm::DuplicateGroup;
use crate::utf16::{char_from_u32, push_char};
use vstd::prelude::*;
use vstd::string::{StrSliceExecFns, StringExecFns};

verus! {

broadcast use vstd::utf8::char_u32_cast, vstd::utf8::char_is_scalar;

/// The decimal digits of a number, most significant first.
pub open spec fn dec_str(n: nat) -> Seq<char>
    decreases n,
{
    if n < 10 {
        seq![((48 + n) as u32) as char]
    } else {
        dec_str(n / 10) + seq![((48 + n % 10) as u32) as char]
    }
}

/// The character of one decimal digit.
fn digit_char(d: u64) -> (r: char)
    requires
        d < 10,
    ensures
        r == ((48 + d as nat) as u32) as char,
{
    let c = match char_from_u32(48 + d as u32) {
        Some(c) => c,
        None => {
            proof {
                assert(vstd::utf8::is_scalar((48 + d) as u32));
            }
            '0'
        },
    };
    c
}

/// Appends the decimal form of `n`.
pub fn append_u64(out: &mut String, n: u64)
    ensures
        final (out)@ == old(out)@ + dec_str(n as nat),
    decreases n,
{
    if n < 10 {
        push_char(out, digit_char(n));
        proof {
            assert(old(out)@.push(((48 + n as nat) as u32) as char) =~= old(out)@ + dec_str(
                n as nat,
            ));
        }
    } else {
        append_u64(out, n / 10);
        push_char(out, digit_char(n % 10));
        proof {
            assert((old(out)@ + dec_str((n / 10) as nat)).push(
                ((48 + (n % 10) as nat) as u32) as char,
            ) =~= old(out)@ + dec_str(n as nat));
        }
    }
}

/// The decimal form of a number as a string.
pub fn u64_to_string(n: u64) -> (r: String)
    ensures
        r@ == dec_str(n as nat),
{
    let mut out = String::new();
    append_u64(&mut out, n);
    proof {
        assert(Seq::<char>::empty() + dec_str(n as nat) =~= dec_str(n as nat));
    }
    out
}

/// The character of one hexadecimal digit, lower case.
pub open spec fn hex_digit(d: nat) -> char {
    if d < 10 {
        ((48 + d) as u32) as char
    } else {
        ((87 + d) as u32) as char
    }
}

/// How one character appears inside a JSON string literal.
pub open spec fn esc_char(c: char) -> Seq<char> {
    if c == '"' {
        seq!['\\', '"']
    } else if c == '\\' {
        seq!['\\', '\\']
    } else if (c as u32) < 0x20 {
        seq!['\\', 'u', '0', '0', hex_digit(((c as u32) / 16) as nat), hex_digit(
            ((c as u32) % 16) as nat,
        )]
    } else {
        seq![c]
    }
}

/// A whole text escaped for a JSON string literal.
pub open spec fn json_escape(s: Seq<char>) -> Seq<char>
    decreases s.len(),
{
    if s.len() == 0 {
        Seq::empty()
    } else {
        esc_char(s[0]) + json_escape(s.skip(1))
    }
}

/// A JSON string literal: the escaped text in double quotes.
pub open spec fn json_string(s: Seq<char>) -> Seq<char> {
    seq!['"'] + json_escape(s) + seq!['"']
}

/// A JSON array of string literals, comma-separated.
pub open spec fn json_paths(paths: Seq<String>) -> Seq<char>
    decreases paths.len(),
{
    if paths.len() == 0 {
        Seq::empty()
    } else if paths.len() == 1 {
        json_string(paths[0]@)
    } else {
        json_string(paths[0]@) + seq![','] + json_paths(paths.skip(1))
    }
}

/// One group as a JSON object with its size and its paths.
pub open spec fn json_group(g: DuplicateGroup) -> Seq<char> {
    "{\"size\":"@ + dec_str(g.size as nat) + ",\"paths\":["@ + json_paths(g.paths@) + "]}"@
}

/// The group objects, comma-separated.
pub open spec fn json_groups(groups: Seq<DuplicateGroup>) -> Seq<char>
    decreases groups.len(),
{
    if groups.len() == 0 {
        Seq::empty()
    } else if groups.len() == 1 {
        json_group(groups[0])
    } else {
        json_group(groups[0]) + seq![','] + json_groups(groups.skip(1))
    }
}

/// The whole export: a bare array of group objects.
pub open spec fn json_export(groups: Seq<DuplicateGroup>) -> Seq<char> {
    seq!['['] + json_groups(groups) + seq![']']
}

/// The character of one hexadecimal digit.
fn hex_char(d: u32) -> (r: char)
    requires
        d < 16,
    ensures
        r == hex_digit(d as nat),
{
    let code: u32 = if d < 10 {
        48 + d
    } else {
        87 + d
    };
    match char_from_u32(code) {
        Some(c) => c,
        None => {
            proof {
                assert(vstd::utf8::is_scalar(code));
            }
            '0'
        },
    }
}

/// Appends one character in its escaped form.
fn append_escaped_char(out: &mut String, c: char)
    ensures
        final (out)@ == old(out)@ + esc_char(c),
{
    let ghost base = old(out)@;
    if c == '"' {
        push_char(out, '\\');
        push_char(out, '"');
        proof {
            assert(base.push('\\').push('"') =~= base + esc_char(c));
        }
    } else if c == '\\' {
        push_char(out, '\\');
        push_char(out, '\\');
        proof {
            assert(base.push('\\').push('\\') =~= base + esc_char(c));
        }
    } else if (c as u32) < 0x20 {
        let code = c as u32;
        push_char(out, '\\');
        push_char(out, 'u');
        push_char(out, '0');
        push_char(out, '0');
        push_char(out, hex_char(code / 16));
        push_char(out, hex_char(code % 16));
        proof {
            assert(base.push('\\').push('u').push('0').push('0').push(
                hex_digit((code / 16) as nat),
            ).push(hex_digit((code % 16) as nat)) =~= base + esc_char(c));
        }
    } else {
        push_char(out, c);
        proof {
            assert(base.push(c) =~= base + esc_char(c));
        }
    }
}

/// Appends a JSON string literal for the text.
fn append_json_string(out: &mut String, s: &str)
    ensures
        final (out)@ == old(out)@ + json_string(s@),
{
    let ghost base = old(out)@;
    push_char(out, '"');
    let n: usize = s.unicode_len();
    let mut i: usize = 0;
    proof {
        assert(s@.skip(0) =~= s@);
        assert(base.push('"') =~= base + seq!['"']);
    }
    while i < n
        invariant
            i <= n,
            n == s@.len(),
            out@ + json_escape(s@.skip(i as int)) == base + seq!['"'] + json_escape(s@),
        decreases n - i,
    {
        let c = s.get_char(i);
        let ghost before = out@;
        proof {
            assert(s@.skip(i as int)[0] == s@[i as int]);
            assert(s@.skip(i as int).skip(1) =~= s@.skip(i + 1));
            assert(json_escape(s@.skip(i as int)) == esc_char(c) + json_escape(s@.skip(i + 1)));
        }
        append_escaped_char(out, c);
        proof {
            assert((before + esc_char(c)) + json_escape(s@.skip(i + 1)) =~= before + (esc_char(c)
                + json_escape(s@.skip(i + 1))));
        }
        i = i + 1;
    }
    proof {
        assert(json_escape(s@.skip(n as int)) == Seq::<char>::empty());
        assert(out@ + Seq::<char>::empty() =~= out@);
    }
    push_char(out, '"');
    proof {
        assert((base + seq!['"'] + json_escape(s@)).push('"') =~= base + json_string(s@));
    }
}

/// Serializes the duplicate groups as JSON: an array of objects, each with
/// the group's size and its paths.
pub fn export_json(groups: &Vec<DuplicateGroup>) -> (r: String)
    ensures
        r@ == json_export(groups@),
{
    let mut out = String::new();
    push_char(&mut out, '[');
    proof {
        assert(out@ =~= seq!['[']);
    }
    let mut g: usize = 0;
    while g < groups.len()
        invariant
            g <= groups@.len(),
            g == 0 ==> out@ == seq!['['],
            g > 0 ==> out@ == seq!['['] + json_groups(groups@.take(g as int)),
        decreases groups@.len() - g,
    {
        if g > 0 {
            push_char(&mut out, ',');
        }
        let ghost before = out@;
        let group = &groups[g];
        append_group(&mut out, group);
        proof {
            assert(out@ == before + json_group(groups@[g as int]));
            if g == 0 {
                assert(groups@.take(1).len() == 1);
                assert(groups@.take(1)[0] == groups@[0]);
                assert(out@ =~= seq!['['] + json_groups(groups@.take(1)));
            } else {
                lemma_json_groups_last(groups@.take(g + 1));
                assert(groups@.take(g + 1).drop_last() =~= groups@.take(g as int));
                assert(groups@.take(g + 1).last() == groups@[g as int]);
                assert(before =~= seq!['['] + json_groups(groups@.take(g as int)) + seq![',']);
                assert(out@ =~= seq!['['] + (json_groups(groups@.take(g as int)) + seq![',']
                    + json_group(groups@[g as int])));
                assert(out@ =~= seq!['['] + json_groups(groups@.take(g + 1)));
            }
        }
        g = g + 1;
    }
    proof {
        if groups@.len() == 0 {
            assert(json_groups(groups@) == Seq::<char>::empty());
            assert(out@.push(']') =~= json_export(groups@));
        } else {
            assert(groups@.take(groups@.len() as int) =~= groups@);
            assert(out@.push(']') =~= json_export(groups@));
        }
    }
    push_char(&mut out, ']');
    out
}

/// Splitting the serialized list before its last group.
proof fn lemma_json_groups_last(s: Seq<DuplicateGroup>)
    requires
        s.len() >= 2,
    ensures
        json_groups(s) == json_groups(s.drop_last()) + seq![','] + json_group(s.last()),
    decreases s.len(),
{
    if s.len() == 2 {
        assert(s.skip(1).len() == 1);
        assert(s.skip(1)[0] == s[1]);
        assert(s.drop_last().len() == 1);
        assert(s.drop_last()[0] == s[0]);
        assert(json_groups(s.skip(1)) == json_group(s[1]));
        assert(json_groups(s.drop_last()) == json_group(s[0]));
        assert(json_groups(s) == json_group(s[0]) + seq![','] + json_groups(s.skip(1)));
        assert(json_groups(s) =~= json_groups(s.drop_last()) + seq![','] + json_group(s.last()));
    } else {
        lemma_json_groups_last(s.skip(1));
        assert(s.skip(1).drop_last() =~= s.drop_last().skip(1));
        assert(s.skip(1).last() == s.last());
        assert(s.drop_last().len() >= 2);
        assert(s.drop_last()[0] == s[0]);
        assert(json_group(s[0]) + seq![','] + (json_groups(s.drop_last().skip(1)) + seq![',']
            + json_group(s.last())) =~= (json_group(s[0]) + seq![','] + json_groups(
            s.drop_last().skip(1),
        )) + seq![','] + json_group(s.last()));
    }
}

/// Appends one group object.
fn append_group(out: &mut String, g: &DuplicateGroup)
    ensures
        final (out)@ == old(out)@ + json_group(*g),
{
    let ghost base = old(out)@;
    out.append("{\"size\":");
    append_u64(out, g.size);
    out.append(",\"paths\":[");
    let ghost mid = base + "{\"size\":"@ + dec_str(g.size as nat) + ",\"paths\":["@;
    proof {
        assert(out@ =~= mid);
    }
    let n: usize = g.paths.len();
    let mut j: usize = 0;
    while j < n
        invariant
            j <= n,
            n == g.paths@.len(),
            mid == base + "{\"size\":"@ + dec_str(g.size as nat) + ",\"paths\":["@,
            j == 0 ==> out@ == mid,
            j > 0 ==> out@ == mid + json_paths_take(g.paths@, j as int),
        decreases n - j,
    {
        if j > 0 {
            push_char(out, ',');
        }
        let ghost before = out@;
        append_json_string(out, g.paths[j].as_str());
        proof {
            if j == 0 {
                assert(g.paths@.take(1).len() == 1);
                assert(g.paths@.take(1)[0] == g.paths@[0]);
                assert(out@ =~= mid + json_paths_take(g.paths@, 1));
            } else {
                lemma_json_paths_last(g.paths@.take(j + 1));
                assert(g.paths@.take(j + 1).drop_last() =~= g.paths@.take(j as int));
                assert(g.paths@.take(j + 1).last() == g.paths@[j as int]);
                assert(before =~= mid + json_paths_take(g.paths@, j as int) + seq![',']);
                assert(out@ =~= mid + (json_paths_take(g.paths@, j as int) + seq![',']
                    + json_string(g.paths@[j as int]@)));
                assert(out@ =~= mid + json_paths_take(g.paths@, j + 1));
            }
        }
        j = j + 1;
    }
    proof {
        if g.paths@.len() == 0 {
            assert(json_paths(g.paths@) == Seq::<char>::empty());
        } else {
            assert(json_paths_take(g.paths@, n as int) == json_paths(g.paths@)) by {
                assert(g.paths@.take(n as int) =~= g.paths@);
            }
        }
    }
    out.append("]}");
    proof {
        assert(out@ =~= base + json_group(*g));
    }
}

/// The serialized form of the first `j` paths.
pub open spec fn json_paths_take(paths: Seq<String>, j: int) -> Seq<char> {
    json_paths(paths.take(j))
}

/// Splitting the serialized path list before its last element.
proof fn lemma_json_paths_last(s: Seq<String>)
    requires
        s.len() >= 2,
    ensures
        json_paths(s) == json_paths(s.drop_last()) + seq![','] + json_string(s.last()@),
    decreases s.len(),
{
    if s.len() == 2 {
        assert(s.skip(1).len() == 1);
        assert(s.skip(1)[0] == s[1]);
        assert(s.drop_last().len() == 1);
        assert(s.drop_last()[0] == s[0]);
        assert(json_paths(s.skip(1)) == json_string(s[1]@));
        assert(json_paths(s.drop_last()) == json_string(s[0]@));
        assert(json_paths(s) == json_string(s[0]@) + seq![','] + json_paths(s.skip(1)));
        assert(json_paths(s) =~= json_paths(s.drop_last()) + seq![','] + json_string(s.last()@));
    } else {
        lemma_json_paths_last(s.skip(1));
        assert(s.skip(1).drop_last() =~= s.drop_last().skip(1));
        assert(s.skip(1).last() == s.last());
        assert(s.drop_last().len() >= 2);
        assert(s.drop_last()[0] == s[0]);
        assert(json_string(s[0]@) + seq![','] + (json_paths(s.drop_last().skip(1)) + seq![',']
            + json_string(s.last()@)) =~= (json_string(s[0]@) + seq![','] + json_paths(
            s.drop_last().skip(1),
        )) + seq![','] + json_string(s.last()@));
    }
}

} // verus!
