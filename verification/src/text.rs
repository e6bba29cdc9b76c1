//! Text rules of the repository: trimming file contents, the `ref: ` prefix
//! of `HEAD`, and which object names and branch names are valid.

use vstd::prelude::*;
use vstd::utf8::encode_utf8;

verus! {

/// The characters with the Unicode `White_Space` property: U+0009 to U+000D,
/// U+0020, U+0085, U+00A0, U+1680, U+2000 to U+200A, U+2028, U+2029,
/// U+202F, U+205F and U+3000.
pub open spec fn is_ws(c: char) -> bool {
    let n = c as u32;
    ||| 0x09 <= n <= 0x0d
    ||| n == 0x20
    ||| n == 0x85
    ||| n == 0xa0
    ||| n == 0x1680
    ||| 0x2000 <= n <= 0x200a
    ||| n == 0x2028
    ||| n == 0x2029
    ||| n == 0x202f
    ||| n == 0x205f
    ||| n == 0x3000
}

/// Whether `c` has the Unicode `White_Space` property, as
/// `char::is_whitespace` tells.
fn whitespace(c: char) -> (r: bool)
    ensures
        r == is_ws(c),
{
    let n = c as u32;
    (0x09 <= n && n <= 0x0d) || n == 0x20 || n == 0x85 || n == 0xa0 || n == 0x1680 || (0x2000 <= n && n <= 0x200a)
        || n == 0x2028 || n == 0x2029 || n == 0x202f || n == 0x205f || n == 0x3000
}

/// The number of whitespace characters that `s` starts with.
pub open spec fn leading_ws(s: Seq<char>) -> nat
    decreases s.len(),
{
    if s.len() > 0 && is_ws(s[0]) {
        1 + leading_ws(s.drop_first())
    } else {
        0
    }
}

/// The number of whitespace characters that `s` ends with.
pub open spec fn trailing_ws(s: Seq<char>) -> nat
    decreases s.len(),
{
    if s.len() > 0 && is_ws(s.last()) {
        1 + trailing_ws(s.drop_last())
    } else {
        0
    }
}

/// `s` without its leading and trailing whitespace, as `str::trim` gives it.
pub open spec fn trim(s: Seq<char>) -> Seq<char> {
    if leading_ws(s) >= s.len() {
        Seq::empty()
    } else {
        s.subrange(leading_ws(s) as int, s.len() - trailing_ws(s))
    }
}

/// Leading whitespace counted past a known whitespace prefix.
proof fn lemma_leading_ws(s: Seq<char>, i: int)
    requires
        0 <= i <= s.len(),
        forall|j: int| 0 <= j < i ==> is_ws(#[trigger] s[j]),
    ensures
        leading_ws(s) == i + leading_ws(s.skip(i)),
    decreases i,
{
    if i > 0 {
        assert(s.drop_first().skip(i - 1) =~= s.skip(i));
        lemma_leading_ws(s.drop_first(), i - 1);
    } else {
        assert(s.skip(0) =~= s);
    }
}

/// Trailing whitespace counted past a known whitespace suffix.
proof fn lemma_trailing_ws(s: Seq<char>, j: int)
    requires
        0 <= j <= s.len(),
        forall|k: int| j <= k < s.len() ==> is_ws(#[trigger] s[k]),
    ensures
        trailing_ws(s) == (s.len() - j) + trailing_ws(s.take(j)),
    decreases s.len() - j,
{
    if j < s.len() {
        assert(s.drop_last().take(j) =~= s.take(j));
        lemma_trailing_ws(s.drop_last(), j);
    } else {
        assert(s.take(j) =~= s);
    }
}

/// `s` without leading and trailing whitespace.
pub fn trim_str(s: &str) -> (r: String)
    ensures
        r@ == trim(s@),
{
    let n = s.unicode_len();
    let mut i: usize = 0;
    while i < n && whitespace(s.get_char(i))
        invariant
            n == s@.len(),
            i <= n,
            forall|j: int| 0 <= j < i ==> is_ws(#[trigger] s@[j]),
        decreases n - i,
    {
        i = i + 1;
    }
    proof {
        lemma_leading_ws(s@, i as int);
        if i < n {
            assert(leading_ws(s@.skip(i as int)) == 0);
        } else {
            assert(s@.skip(i as int).len() == 0);
        }
    }
    if i == n {
        return String::new();
    }
    let mut j: usize = n;
    while j > i && whitespace(s.get_char(j - 1))
        invariant
            n == s@.len(),
            i < n,
            i <= j <= n,
            forall|k: int| j <= k < n ==> is_ws(#[trigger] s@[k]),
            !is_ws(s@[i as int]),
        decreases j,
    {
        j = j - 1;
    }
    proof {
        lemma_trailing_ws(s@, j as int);
        assert(j > i);
        assert(s@.take(j as int).last() == s@[j - 1]);
        assert(trailing_ws(s@.take(j as int)) == 0);
    }
    String::from_str(s.substring_char(i, j))
}

/// `s` after the prefix `prefix`, if it starts with it.
pub open spec fn strip_prefix(s: Seq<char>, prefix: Seq<char>) -> Option<Seq<char>> {
    if prefix.len() <= s.len() && s.take(prefix.len() as int) == prefix {
        Some(s.skip(prefix.len() as int))
    } else {
        None
    }
}

/// `s` after `prefix`, if it starts with it.
pub fn strip_prefix_str(s: &str, prefix: &str) -> (r: Option<String>)
    ensures
        r matches Some(x) ==> strip_prefix(s@, prefix@) == Some(x@),
        r is None ==> strip_prefix(s@, prefix@) is None,
{
    let n = s.unicode_len();
    let m = prefix.unicode_len();
    if m > n {
        return None;
    }
    let mut i: usize = 0;
    while i < m
        invariant
            n == s@.len(),
            m == prefix@.len(),
            m <= n,
            i <= m,
            forall|j: int| 0 <= j < i ==> s@[j] == prefix@[j],
        decreases m - i,
    {
        if s.get_char(i) != prefix.get_char(i) {
            assert(s@.take(m as int)[i as int] != prefix@[i as int]);
            return None;
        }
        i = i + 1;
    }
    assert(s@.take(m as int) =~= prefix@);
    Some(String::from_str(s.substring_char(m, n)))
}

/// `b` is an ASCII hexadecimal digit (`u8::is_ascii_hexdigit`).
pub open spec fn is_hex_byte(b: u8) -> bool {
    (48 <= b <= 57) || (97 <= b <= 102) || (65 <= b <= 70)
}

/// `b` is an ASCII letter or digit, `-` or `_`.
pub open spec fn is_branch_byte(b: u8) -> bool {
    (48 <= b <= 57) || (97 <= b <= 122) || (65 <= b <= 90) || b == 45 || b == 95
}

/// A well-formed object name: 64 bytes, each a hexadecimal digit.
pub open spec fn valid_object_hash(h: Seq<char>) -> bool {
    let b = encode_utf8(h);
    b.len() == 64 && forall|i: int| 0 <= i < b.len() ==> is_hex_byte(#[trigger] b[i])
}

/// A well-formed branch name: not empty, each byte an ASCII letter or
/// digit, `-` or `_`.
pub open spec fn valid_branch_name(name: Seq<char>) -> bool {
    let b = encode_utf8(name);
    b.len() > 0 && forall|i: int| 0 <= i < b.len() ==> is_branch_byte(#[trigger] b[i])
}

/// Whether `h` is a well-formed object name.
pub fn is_valid_object_hash(h: &str) -> (r: bool)
    ensures
        r == valid_object_hash(h@),
{
    let b = h.as_bytes();
    if b.len() != 64 {
        return false;
    }
    let mut i: usize = 0;
    while i < b.len()
        invariant
            b@ == encode_utf8(h@),
            i <= b@.len(),
            forall|j: int| 0 <= j < i ==> is_hex_byte(#[trigger] b@[j]),
        decreases b.len() - i,
    {
        let c = b[i];
        if !((48 <= c && c <= 57) || (97 <= c && c <= 102) || (65 <= c && c <= 70)) {
            return false;
        }
        i = i + 1;
    }
    true
}

/// Whether `name` is a well-formed branch name.
pub fn is_valid_branch_name(name: &str) -> (r: bool)
    ensures
        r == valid_branch_name(name@),
{
    let b = name.as_bytes();
    if b.len() == 0 {
        return false;
    }
    let mut i: usize = 0;
    while i < b.len()
        invariant
            b@ == encode_utf8(name@),
            i <= b@.len(),
            forall|j: int| 0 <= j < i ==> is_branch_byte(#[trigger] b@[j]),
        decreases b.len() - i,
    {
        let c = b[i];
        if !((48 <= c && c <= 57) || (97 <= c && c <= 122) || (65 <= c && c <= 90) || c == 45 || c == 95) {
            return false;
        }
        i = i + 1;
    }
    true
}


/// Sixty-four hexadecimal digit characters make a well-formed object name.
pub proof fn lemma_hex_chars_valid(h: Seq<char>)
    requires
        h.len() == 64,
        forall|i: int| 0 <= i < 64 ==> crate::digest::is_hex_char(#[trigger] h[i]),
    ensures
        valid_object_hash(h),
{
    assert(vstd::utf8::is_ascii_chars(h));
    vstd::utf8::is_ascii_chars_encode_utf8(h);
    let b = encode_utf8(h);
    assert forall|i: int| 0 <= i < b.len() implies is_hex_byte(#[trigger] b[i]) by {
        assert(h[i] as u8 == b[i]);
        assert(crate::digest::is_hex_char(h[i]));
    }
}
/// Text that starts and ends with a non-whitespace character trims to
/// itself, alone or followed by a line feed.
pub proof fn lemma_trim_line(t: Seq<char>)
    requires
        t.len() > 0,
        !is_ws(t[0]),
        !is_ws(t.last()),
    ensures
        trim(t) == t,
        trim(t + seq!['\n']) == t,
{
    let u = t + seq!['\n'];
    assert(leading_ws(t) == 0);
    assert(trailing_ws(t) == 0);
    assert(t.subrange(0, t.len() as int) =~= t);
    assert(u[0] == t[0]);
    assert(leading_ws(u) == 0);
    assert(is_ws(u.last()));
    assert(u.drop_last() =~= t);
    assert(trailing_ws(u) == 1);
    assert(u.subrange(0, u.len() - 1) =~= t);
}

/// A nonempty run of hexadecimal digits trims to itself, alone or followed
/// by a line feed.
pub proof fn lemma_trim_hex(h: Seq<char>)
    requires
        h.len() > 0,
        forall|i: int| 0 <= i < h.len() ==> crate::digest::is_hex_char(#[trigger] h[i]),
    ensures
        trim(h) == h,
        trim(h + seq!['\n']) == h,
{
    assert(crate::digest::is_hex_char(h[0]));
    assert(crate::digest::is_hex_char(h.last()));
    lemma_trim_line(h);
}

/// A string whose UTF-8 bytes are all ASCII has one byte per character,
/// each equal to its character.
pub proof fn lemma_ascii_encoding(s: Seq<char>)
    requires
        forall|i: int| 0 <= i < encode_utf8(s).len() ==> #[trigger] encode_utf8(s)[i] < 128,
    ensures
        encode_utf8(s).len() == s.len(),
        forall|i: int| 0 <= i < s.len() ==> (#[trigger] s[i]) as u32 == encode_utf8(s)[i] as u32,
    decreases s.len(),
{
    if s.len() > 0 {
        let v = s[0] as u32;
        let e = vstd::utf8::encode_scalar(v);
        let rest = s.drop_first();
        let b = encode_utf8(s);
        assert(b =~= e + encode_utf8(rest));
        assert(b[0] < 128);
        assert(v <= 0x7f) by {
            if vstd::utf8::has_width_2_encoding(v) {
                assert(vstd::utf8::leading_byte_width_2(v) >= 128) by (bit_vector);
            } else if vstd::utf8::has_width_3_encoding(v) {
                assert(vstd::utf8::leading_byte_width_3(v) >= 128) by (bit_vector);
            } else if !vstd::utf8::has_width_1_encoding(v) {
                assert(vstd::utf8::leading_byte_width_4(v) >= 128) by (bit_vector);
            }
        }
        assert(vstd::utf8::leading_byte_width_1(v) as u32 == v) by (bit_vector)
            requires
                v <= 0x7f,
        ;
        assert(e.len() == 1);
        assert forall|i: int| 0 <= i < encode_utf8(rest).len() implies #[trigger] encode_utf8(rest)[i] < 128 by {
            assert(encode_utf8(rest)[i] == b[i + 1]);
        }
        lemma_ascii_encoding(rest);
        assert forall|i: int| 0 <= i < s.len() implies (#[trigger] s[i]) as u32 == encode_utf8(s)[i] as u32 by {
            if i > 0 {
                assert(s[i] == rest[i - 1]);
                assert(b[i] == encode_utf8(rest)[i - 1]);
            }
        }
    }
}

/// The last character of a well-formed branch name is an ASCII letter or
/// digit, `-` or `_`, so not whitespace.
pub proof fn lemma_branch_name_ends(name: Seq<char>)
    requires
        valid_branch_name(name),
    ensures
        name.len() > 0,
        !is_ws(name.last()),
{
    let b = encode_utf8(name);
    assert forall|i: int| 0 <= i < b.len() implies #[trigger] b[i] < 128 by {
        assert(is_branch_byte(b[i]));
    }
    lemma_ascii_encoding(name);
    assert(is_branch_byte(b[name.len() - 1]));
}
} // verus!
