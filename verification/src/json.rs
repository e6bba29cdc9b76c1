//! The JSON layout of the repository's files: objects, the index and the
//! list of conflicting paths are written as pretty-printed JSON, two spaces
//! per level of nesting.

use vstd::prelude::*;
use vstd::utf8::encode_utf8;

use crate::merge::{append_bytes, append_str};

verus! {

/// How `serde_json` writes character `c` inside a string literal: `"` and
/// `\` after a backslash; backspace, tab, line feed, form feed and carriage
/// return as `\b`, `\t`, `\n`, `\f` and `\r`; the other characters below
/// U+0020 as `\u00` and two lowercase hexadecimal digits; every other
/// character as itself.
pub open spec fn escape_char(c: char) -> Seq<char> {
    let n = c as u32;
    if c == '"' {
        seq!['\\', '"']
    } else if c == '\\' {
        seq!['\\', '\\']
    } else if n == 0x08 {
        seq!['\\', 'b']
    } else if n == 0x09 {
        seq!['\\', 't']
    } else if n == 0x0a {
        seq!['\\', 'n']
    } else if n == 0x0c {
        seq!['\\', 'f']
    } else if n == 0x0d {
        seq!['\\', 'r']
    } else if n < 0x20 {
        seq!['\\', 'u', '0', '0', crate::digest::hex_digit(n as int / 16), crate::digest::hex_digit(n as int % 16)]
    } else {
        seq![c]
    }
}

/// The characters of `s`, each written as [`escape_char`] gives.
pub open spec fn escaped(s: Seq<char>) -> Seq<char>
    decreases s.len(),
{
    if s.len() == 0 {
        Seq::empty()
    } else {
        escaped(s.drop_last()) + escape_char(s.last())
    }
}

/// The JSON string literal for `s`, as `serde_json` writes it: `s` escaped,
/// between double quotes.
pub open spec fn json_quoted(s: Seq<char>) -> Seq<char> {
    seq!['"'] + escaped(s) + seq!['"']
}

/// Calls `serde_json::to_string` on a string slice, which writes the JSON
/// string literal for `s`: a double quote, each character escaped as
/// [`escape_char`] says, and a double quote. Serialising a string slice
/// cannot fail.
#[verifier::external_body]
fn quote(s: &str) -> (r: String)
    ensures
        r@ == json_quoted(s@),
{
    match serde_json::to_string(s) {
        Ok(q) => q,
        Err(_) => String::new(),
    }
}

/// A JSON array of the string literals for `v`, laid out as
/// `serde_json::to_vec_pretty` writes it at the top level.
pub open spec fn json_string_list(v: Seq<Seq<char>>) -> Seq<u8> {
    json_array(v.map_values(|s: Seq<char>| json_str(s)), 1)
}

/// Calls `serde_json::to_vec_pretty` on a list of strings. Its pretty
/// formatter writes `[]` for an empty list, and otherwise `[`, each string
/// literal on a line of its own indented by two spaces, the lines separated
/// by commas, a line feed and `]` ([`json_string_list`]). Serialising a list
/// of strings cannot fail.
#[verifier::external_body]
pub(crate) fn pretty_string_list(v: &Vec<String>) -> (r: Vec<u8>)
    ensures
        r@ == json_string_list(string_views(v@)),
{
    match serde_json::to_vec_pretty(v) {
        Ok(b) => b,
        Err(_) => Vec::new(),
    }
}

/// The bytes of the JSON string literal for `s`.
pub open spec fn json_str(s: Seq<char>) -> Seq<u8> {
    encode_utf8(json_quoted(s))
}

/// The decimal digits of `n`, as ASCII bytes.
pub open spec fn decimal(n: nat) -> Seq<u8>
    decreases n,
{
    if n < 10 {
        seq![(48 + n) as u8]
    } else {
        decimal(n / 10) + seq![(48 + n % 10) as u8]
    }
}

/// `2 * level` spaces.
pub open spec fn indent(level: nat) -> Seq<u8> {
    Seq::new(2 * level, |i: int| 32u8)
}

/// The items of an array or object, each on its own line at `level`,
/// separated by commas.
pub open spec fn item_lines(items: Seq<Seq<u8>>, level: nat) -> Seq<u8>
    decreases items.len(),
{
    if items.len() == 0 {
        Seq::empty()
    } else {
        item_lines(items.drop_last(), level) + (if items.len() == 1 {
            seq![10u8]
        } else {
            seq![44u8, 10u8]
        }) + indent(level) + items.last()
    }
}

/// A bracketed list of items whose lines stand at `level`: `open` and
/// `close` are the brackets. An empty list is the two brackets alone.
pub open spec fn json_block(open: u8, close: u8, items: Seq<Seq<u8>>, level: nat) -> Seq<u8> {
    if items.len() == 0 {
        seq![open, close]
    } else {
        seq![open] + item_lines(items, level) + seq![10u8] + indent((level - 1) as nat) + seq![close]
    }
}

/// A JSON array of already written items.
pub open spec fn json_array(items: Seq<Seq<u8>>, level: nat) -> Seq<u8> {
    json_block(91u8, 93u8, items, level)
}

/// A JSON object of already written fields.
pub open spec fn json_object(fields: Seq<Seq<u8>>, level: nat) -> Seq<u8> {
    json_block(123u8, 125u8, fields, level)
}

/// One field of an object: the quoted key, a colon and a space, the value.
pub open spec fn json_field(key: Seq<char>, value: Seq<u8>) -> Seq<u8> {
    json_str(key) + seq![58u8, 32u8] + value
}

/// The views of a list of byte vectors.
pub open spec fn byte_views(v: Seq<Vec<u8>>) -> Seq<Seq<u8>> {
    v.map_values(|b: Vec<u8>| b@)
}

/// The JSON string literal for `s`.
pub fn write_str(s: &str) -> (r: Vec<u8>)
    ensures
        r@ == json_str(s@),
{
    let q = quote(s);
    let mut out: Vec<u8> = Vec::new();
    append_str(&mut out, q.as_str());
    out
}

/// Appends the decimal digits of `n`.
pub fn push_decimal(out: &mut Vec<u8>, n: u64)
    ensures
        final(out)@ == old(out)@ + decimal(n as nat),
    decreases n,
{
    if n >= 10 {
        push_decimal(out, n / 10);
    }
    out.push((48 + n % 10) as u8);
}

/// The decimal digits of `n`.
pub fn write_u64(n: u64) -> (r: Vec<u8>)
    ensures
        r@ == decimal(n as nat),
{
    let mut out: Vec<u8> = Vec::new();
    push_decimal(&mut out, n);
    assert(out@ =~= decimal(n as nat));
    out
}

/// Appends the indentation of nesting level `level`.
fn push_indent(out: &mut Vec<u8>, level: usize)
    ensures
        final(out)@ == old(out)@ + indent(level as nat),
{
    let ghost start = out@;
    let mut i: usize = 0;
    assert(start + indent(0) =~= start);
    while i < level
        invariant
            i <= level,
            out@ == start + indent(i as nat),
        decreases level - i,
    {
        out.push(32u8);
        out.push(32u8);
        i = i + 1;
        assert(out@ =~= start + indent(i as nat));
    }
}

/// Appends the separator before item `i` (a line feed, after a comma unless
/// it is the first) and the indentation of `level`.
fn push_item_start(out: &mut Vec<u8>, i: usize, level: usize)
    ensures
        final(out)@ == old(out)@ + (if i == 0 {
            seq![10u8]
        } else {
            seq![44u8, 10u8]
        }) + indent(level as nat),
{
    if i > 0 {
        out.push(44u8);
    }
    out.push(10u8);
    push_indent(out, level);
    assert(final(out)@ =~= old(out)@ + (if i == 0 { seq![10u8] } else { seq![44u8, 10u8] }) + indent(level as nat));
}

/// Adding one item to the listed items adds its line.
proof fn lemma_item_lines_step(items: Seq<Seq<u8>>, i: int, level: nat)
    requires
        0 <= i < items.len(),
    ensures
        item_lines(items.take(i + 1), level) == item_lines(items.take(i), level) + (if i == 0 {
            seq![10u8]
        } else {
            seq![44u8, 10u8]
        }) + indent(level) + items[i],
{
    assert(items.take(i + 1).drop_last() =~= items.take(i));
}

/// Writes a bracketed block of items at `level`.
fn write_block(open: u8, close: u8, items: &Vec<Vec<u8>>, level: usize) -> (r: Vec<u8>)
    requires
        1 <= level,
    ensures
        r@ == json_block(open, close, byte_views(items@), level as nat),
{
    let ghost views = byte_views(items@);
    let mut out: Vec<u8> = Vec::new();
    out.push(open);
    if items.len() == 0 {
        out.push(close);
        assert(out@ =~= json_block(open, close, views, level as nat));
        return out;
    }
    let mut i: usize = 0;
    assert(views.take(0) =~= Seq::<Seq<u8>>::empty());
    while i < items.len()
        invariant
            1 <= level,
            i <= items@.len(),
            views == byte_views(items@),
            out@ == seq![open] + item_lines(views.take(i as int), level as nat),
        decreases items.len() - i,
    {
        push_item_start(&mut out, i, level);
        append_bytes(&mut out, items[i].as_slice());
        proof {
            lemma_item_lines_step(views, i as int, level as nat);
        }
        i = i + 1;
    }
    assert(views.take(i as int) =~= views);
    out.push(10u8);
    push_indent(&mut out, level - 1);
    out.push(close);
    assert(out@ =~= json_block(open, close, views, level as nat));
    out
}

/// A JSON array of already written items, its items at `level`.
pub fn write_array(items: &Vec<Vec<u8>>, level: usize) -> (r: Vec<u8>)
    requires
        1 <= level,
    ensures
        r@ == json_array(byte_views(items@), level as nat),
{
    write_block(91u8, 93u8, items, level)
}

/// A JSON object of already written fields, its fields at `level`.
pub fn write_object(fields: &Vec<Vec<u8>>, level: usize) -> (r: Vec<u8>)
    requires
        1 <= level,
    ensures
        r@ == json_object(byte_views(fields@), level as nat),
{
    write_block(123u8, 125u8, fields, level)
}

/// One field of an object.
pub fn write_field(key: &str, value: &[u8]) -> (r: Vec<u8>)
    ensures
        r@ == json_field(key@, value@),
{
    let mut out = write_str(key);
    out.push(58u8);
    out.push(32u8);
    append_bytes(&mut out, value);
    assert(out@ =~= json_field(key@, value@));
    out
}

/// The decimal numbers of a byte string.
pub open spec fn byte_numbers(bytes: Seq<u8>) -> Seq<Seq<u8>> {
    bytes.map_values(|b: u8| decimal(b as nat))
}

/// A JSON array of the numbers of `bytes`, its items at `level`.
pub fn write_byte_array(bytes: &[u8], level: usize) -> (r: Vec<u8>)
    requires
        1 <= level,
    ensures
        r@ == json_array(byte_numbers(bytes@), level as nat),
{
    let ghost views = byte_numbers(bytes@);
    let mut out: Vec<u8> = Vec::new();
    out.push(91u8);
    if bytes.len() == 0 {
        out.push(93u8);
        assert(out@ =~= json_array(views, level as nat));
        return out;
    }
    let mut i: usize = 0;
    assert(views.take(0) =~= Seq::<Seq<u8>>::empty());
    while i < bytes.len()
        invariant
            1 <= level,
            i <= bytes@.len(),
            views == byte_numbers(bytes@),
            out@ == seq![91u8] + item_lines(views.take(i as int), level as nat),
        decreases bytes.len() - i,
    {
        push_item_start(&mut out, i, level);
        push_decimal(&mut out, bytes[i] as u64);
        proof {
            lemma_item_lines_step(views, i as int, level as nat);
        }
        i = i + 1;
    }
    assert(views.take(i as int) =~= views);
    out.push(10u8);
    push_indent(&mut out, level - 1);
    out.push(93u8);
    assert(out@ =~= json_array(views, level as nat));
    out
}

/// The views of a list of strings.
pub open spec fn string_views(v: Seq<String>) -> Seq<Seq<char>> {
    v.map_values(|s: String| s@)
}

/// A JSON array of string literals, its items at `level`.
pub fn write_string_array(strings: &Vec<String>, level: usize) -> (r: Vec<u8>)
    requires
        1 <= level,
    ensures
        r@ == json_array(string_views(strings@).map_values(|s: Seq<char>| json_str(s)), level as nat),
{
    let mut items: Vec<Vec<u8>> = Vec::new();
    let mut i: usize = 0;
    while i < strings.len()
        invariant
            i <= strings@.len(),
            byte_views(items@) == string_views(strings@).take(i as int).map_values(|s: Seq<char>| json_str(s)),
        decreases strings.len() - i,
    {
        let ghost before = byte_views(items@);
        let item = write_str(strings[i].as_str());
        items.push(item);
        assert(byte_views(items@) =~= before.push(json_str(strings@[i as int]@)));
        i = i + 1;
        assert(byte_views(items@) =~= string_views(strings@).take(i as int).map_values(|s: Seq<char>| json_str(s)));
    }
    assert(string_views(strings@).take(i as int) =~= string_views(strings@));
    write_array(&items, level)
}
} // verus!
