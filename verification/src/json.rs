use vstd::prelude::*;

verus! {

/// The lower-case hexadecimal digit of `n` (below 16).
pub open spec fn lower_hex_digit(n: u32) -> char {
    if n < 10 {
        (48 + n) as char
    } else {
        (87 + n) as char
    }
}

/// How `serde_json` writes one character inside a string literal: a quote
/// and a backslash behind a backslash, the short escapes for backspace,
/// tab, line feed, form feed and carriage return, the other characters
/// below U+0020 as `\u00xx` in lower-case hex, every other character as
/// it is.
pub open spec fn json_char(c: char) -> Seq<char> {
    let v = c as u32;
    if c == '"' {
        seq!['\\', '"']
    } else if c == '\\' {
        seq!['\\', '\\']
    } else if v == 8 {
        seq!['\\', 'b']
    } else if v == 9 {
        seq!['\\', 't']
    } else if v == 10 {
        seq!['\\', 'n']
    } else if v == 12 {
        seq!['\\', 'f']
    } else if v == 13 {
        seq!['\\', 'r']
    } else if v < 0x20 {
        seq!['\\', 'u', '0', '0', lower_hex_digit(v / 16), lower_hex_digit(v % 16)]
    } else {
        seq![c]
    }
}

/// Every character of `s` as `serde_json` writes it.
pub open spec fn json_chars(s: Seq<char>) -> Seq<char>
    decreases s.len(),
{
    if s.len() == 0 {
        Seq::empty()
    } else {
        json_chars(s.drop_last()) + json_char(s.last())
    }
}

/// What `serde_json::to_string` gives for a string: the string as a JSON
/// string literal, between quotes.
pub open spec fn json_encoded(s: Seq<char>) -> Seq<char> {
    seq!['"'] + json_chars(s) + seq!['"']
}

/// `s` as a JSON string literal (`serde_json::to_string`, whose source
/// escapes by the table `ESCAPE` and `write_char_escape`, see
/// `json_char`). It writes a string into a `Vec<u8>`, which cannot fail, so
/// the error arm is never taken.
#[verifier::external_body]
pub(crate) fn json_string(s: &str) -> (r: String)
    ensures
        r@ == json_encoded(s@),
{
    match serde_json::to_string(s) {
        Ok(j) => j,
        Err(e) => e.to_string(),
    }
}

/// A character that JSON text cannot carry as it is: a quote, a backslash,
/// a control character, DEL, the line and paragraph separators, or one
/// beyond the basic multilingual plane.
pub open spec fn needs_escape(c: char) -> bool {
    let v = c as u32;
    c == '"' || c == '\\' || v <= 0x1F || v == 0x7F || v == 0x2028 || v == 0x2029 || v >= 0x10000
}

/// The upper-case hexadecimal digit of `n` (below 16).
pub open spec fn hex_digit(n: u32) -> char {
    if n < 10 {
        (48 + n) as char
    } else {
        (55 + n) as char
    }
}

/// `\uXXXX`: the escape of a UTF-16 code unit, four upper-case hex digits.
pub open spec fn hex_escape(v: u32) -> Seq<char> {
    seq![
        '\\',
        'u',
        hex_digit((v / 4096) % 16),
        hex_digit((v / 256) % 16),
        hex_digit((v / 16) % 16),
        hex_digit(v % 16),
    ]
}

/// How one character is written once a text needs escaping: the short
/// escapes, `\uXXXX` for the other control characters, DEL and the
/// separators, and for any character beyond ASCII its UTF-16 code units.
pub open spec fn escape_char(c: char) -> Seq<char> {
    let v = c as u32;
    if c == '"' {
        seq!['\\', '"']
    } else if c == '\\' {
        seq!['\\', '\\']
    } else if v == 8 {
        seq!['\\', 'b']
    } else if v == 9 {
        seq!['\\', 't']
    } else if v == 10 {
        seq!['\\', 'n']
    } else if v == 12 {
        seq!['\\', 'f']
    } else if v == 13 {
        seq!['\\', 'r']
    } else if v <= 0x1F || v == 0x7F || v == 0x2028 || v == 0x2029 {
        hex_escape(v)
    } else if v > 0x7F {
        if v < 0x10000 {
            hex_escape(v)
        } else {
            hex_escape((0xD800 + (v - 0x10000) / 1024) as u32) + hex_escape(
                (0xDC00 + (v - 0x10000) % 1024) as u32,
            )
        }
    } else {
        seq![c]
    }
}

/// Every character of `s` escaped.
pub open spec fn escape_all(s: Seq<char>) -> Seq<char>
    decreases s.len(),
{
    if s.len() == 0 {
        Seq::empty()
    } else {
        escape_all(s.drop_last()) + escape_char(s.last())
    }
}

/// `s` ready to stand inside a JSON string: unchanged when no character
/// needs escaping, else every character escaped.
pub open spec fn spec_escape_json(s: Seq<char>) -> Seq<char> {
    if exists|i: int| 0 <= i < s.len() && #[trigger] needs_escape(s[i]) {
        escape_all(s)
    } else {
        s
    }
}

/// Append `c` to `s` (`String::push`).
#[verifier::external_body]
fn push_char(s: &mut String, c: char)
    ensures
        final(s)@ == old(s)@.push(c),
{
    s.push(c);
}

/// The upper-case hexadecimal digit of `n`.
fn hex_digit_exec(n: u32) -> (c: char)
    requires
        n < 16,
    ensures
        c == hex_digit(n),
{
    if n < 10 {
        ((48 + n) as u8) as char
    } else {
        ((55 + n) as u8) as char
    }
}

/// Append `\uXXXX` for `v`.
fn push_hex_escape(out: &mut String, v: u32)
    ensures
        final(out)@ == old(out)@ + hex_escape(v),
{
    push_char(out, '\\');
    push_char(out, 'u');
    push_char(out, hex_digit_exec((v / 4096) % 16));
    push_char(out, hex_digit_exec((v / 256) % 16));
    push_char(out, hex_digit_exec((v / 16) % 16));
    push_char(out, hex_digit_exec(v % 16));
    assert(out@ =~= old(out)@ + hex_escape(v));
}

/// Append the escape of `c`.
fn push_escaped(out: &mut String, c: char)
    ensures
        final(out)@ == old(out)@ + escape_char(c),
{
    let v = c as u32;
    if c == '"' {
        push_char(out, '\\');
        push_char(out, '"');
    } else if c == '\\' {
        push_char(out, '\\');
        push_char(out, '\\');
    } else if v == 8 {
        push_char(out, '\\');
        push_char(out, 'b');
    } else if v == 9 {
        push_char(out, '\\');
        push_char(out, 't');
    } else if v == 10 {
        push_char(out, '\\');
        push_char(out, 'n');
    } else if v == 12 {
        push_char(out, '\\');
        push_char(out, 'f');
    } else if v == 13 {
        push_char(out, '\\');
        push_char(out, 'r');
    } else if v <= 0x1F || v == 0x7F || v == 0x2028 || v == 0x2029 {
        push_hex_escape(out, v);
    } else if v > 0x7F {
        if v < 0x10000 {
            push_hex_escape(out, v);
        } else {
            push_hex_escape(out, 0xD800 + (v - 0x10000) / 1024);
            push_hex_escape(out, 0xDC00 + (v - 0x10000) % 1024);
        }
    } else {
        push_char(out, c);
    }
    assert(out@ =~= old(out)@ + escape_char(c));
}

/// `input` ready to stand inside a JSON string (see `spec_escape_json`).
pub fn escape_json(input: &str) -> (r: String)
    ensures
        r@ == spec_escape_json(input@),
{
    let mut needs = false;
    for c in it: input.chars()
        invariant
            it.seq() == input@,
            needs == exists|i: int| 0 <= i < it.index() && #[trigger] needs_escape(input@[i]),
    {
        let ghost k = it.index();
        proof {
            assert(c == input@[k as int]);
        }
        let v = c as u32;
        if c == '"' || c == '\\' || v <= 0x1F || v == 0x7F || v == 0x2028 || v == 0x2029 || v >= 0x10000 {
            needs = true;
        }
        proof {
            if needs_escape(c) {
                assert(needs_escape(input@[k as int]));
            }
        }
    }
    let mut out = String::new();
    if !needs {
        for c in it: input.chars()
            invariant
                it.seq() == input@,
                out@ == input@.subrange(0, it.index() as int),
        {
            let ghost k = it.index();
            proof {
                assert(c == input@[k as int]);
            }
            push_char(&mut out, c);
            proof {
                assert(out@ =~= input@.subrange(0, k + 1));
            }
        }
        proof {
            assert(input@.subrange(0, input@.len() as int) =~= input@);
        }
        return out;
    }
    for c in it: input.chars()
        invariant
            it.seq() == input@,
            out@ == escape_all(input@.subrange(0, it.index() as int)),
    {
        let ghost k = it.index();
        proof {
            assert(c == input@[k as int]);
            assert(input@.subrange(0, k + 1).drop_last() =~= input@.subrange(0, k as int));
        }
        push_escaped(&mut out, c);
    }
    proof {
        assert(input@.subrange(0, input@.len() as int) =~= input@);
    }
    out
}

} // verus!
