//! Characters and strings: classes of characters, UTF-8 byte offsets, and building
//! strings.
use vstd::prelude::*;
use vstd::utf8::{encode_scalar, encode_utf8};

verus! {

/// The byte offset, in the UTF-8 encoding of `src`, of the character at index `i`.
pub open spec fn byte_offset(src: Seq<char>, i: int) -> int {
    encode_utf8(src.take(i)).len() as int
}

/// The number of bytes that the UTF-8 encoding of `c` takes.
pub open spec fn utf8_width(c: char) -> int {
    encode_scalar(c as u32).len() as int
}

/// Whether `c` is an ASCII decimal digit.
pub open spec fn is_digit(c: char) -> bool {
    '0' <= c <= '9'
}

/// What `char::is_alphanumeric` returns for `c`: whether `c` has the Unicode
/// Alphabetic or Numeric property.
pub uninterp spec fn is_alphanumeric(c: char) -> bool;

/// Whether `c` may stand in an identifier.
pub open spec fn is_ident_char(c: char) -> bool {
    is_alphanumeric(c) || c == '_'
}

/// Calls `char::is_alphanumeric`, which holds of the characters with the Unicode
/// Alphabetic or Numeric property. Its result is named, not restated, since those
/// properties rest on the Unicode character tables; stated besides is what they give
/// for ASCII: exactly the letters and the digits.
#[verifier::external_body]
fn char_is_alphanumeric(c: char) -> (r: bool)
    ensures
        r == is_alphanumeric(c),
        (c as u32) < 0x80 ==> (r <==> (('a' <= c && c <= 'z') || ('A' <= c && c <= 'Z') || (
        '0' <= c && c <= '9'))),
{
    c.is_alphanumeric()
}

/// Whether `c` may stand in an identifier: a letter or digit in the Unicode sense, or
/// an underscore.
pub fn is_legal_ident_char(c: char) -> (r: bool)
    ensures
        r == is_ident_char(c),
        (c as u32) < 0x80 ==> (r <==> (('a' <= c && c <= 'z') || ('A' <= c && c <= 'Z') || (
        '0' <= c && c <= '9') || c == '_')),
{
    char_is_alphanumeric(c) || c == '_'
}

/// Whether `c` is an ASCII decimal digit.
pub fn is_ascii_digit(c: char) -> (r: bool)
    ensures
        r == is_digit(c),
{
    '0' <= c && c <= '9'
}

/// The number of bytes that the UTF-8 encoding of `c` takes.
pub fn len_utf8(c: char) -> (n: usize)
    ensures
        n == utf8_width(c),
        1 <= n <= 4,
{
    proof {
        vstd::utf8::char_is_scalar(c);
    }
    let v = c as u32;
    if v <= 0x7f {
        1
    } else if v <= 0x7ff {
        2
    } else if v <= 0xffff {
        3
    } else {
        4
    }
}

/// Appends `c` to `s` by `String::push`.
#[verifier::external_body]
pub(crate) fn string_push(s: &mut String, c: char)
    ensures
        final(s)@ == old(s)@.push(c),
{
    s.push(c);
}

/// The text of `chars[from..to]` as a `String`.
pub fn string_of_chars(chars: &Vec<char>, from: usize, to: usize) -> (r: String)
    requires
        from <= to <= chars.len(),
    ensures
        r@ == chars@.subrange(from as int, to as int),
{
    let mut r = String::new();
    let mut i = from;
    while i < to
        invariant
            from <= i <= to <= chars.len(),
            r@ == chars@.subrange(from as int, i as int),
        decreases to - i,
    {
        string_push(&mut r, chars[i]);
        i = i + 1;
        assert(r@ =~= chars@.subrange(from as int, i as int));
    }
    r
}

/// The characters of `s`.
pub fn chars_of(s: &str) -> (v: Vec<char>)
    ensures
        v@ == s@,
{
    broadcast use vstd::string::group_string_axioms;

    let mut chars: Vec<char> = Vec::new();
    for c in it: s.chars()
        invariant
            chars@ == it.seq().take(it.index()),
    {
        chars.push(c);
        assert(chars@ =~= it.seq().take(it.index() + 1));
    }
    assert(chars@ =~= s@);
    chars
}

/// The decimal digit for `d`, which is below ten.
pub open spec fn digit_char(d: nat) -> char {
    if d == 0 {
        '0'
    } else if d == 1 {
        '1'
    } else if d == 2 {
        '2'
    } else if d == 3 {
        '3'
    } else if d == 4 {
        '4'
    } else if d == 5 {
        '5'
    } else if d == 6 {
        '6'
    } else if d == 7 {
        '7'
    } else if d == 8 {
        '8'
    } else {
        '9'
    }
}

/// The decimal representation of `n`, without leading zeros.
pub open spec fn decimal(n: nat) -> Seq<char>
    decreases n,
{
    if n < 10 {
        seq![digit_char(n)]
    } else {
        decimal(n / 10).push(digit_char(n % 10))
    }
}

/// The number that the decimal numeral `s` denotes: its digits `d_0 .. d_m` give
/// `d_0·10^m + … + d_m`.
pub open spec fn numeral_value(s: Seq<char>) -> int
    decreases s.len(),
{
    if s.len() == 0 {
        0
    } else {
        numeral_value(s.drop_last()) * 10 + (s.last() as int - '0' as int)
    }
}

/// The decimal representation of `n` is a numeral that reads back as `n`: one or more
/// ASCII digits, denoting `n`, with no leading zero unless it is the numeral `0`
/// alone.
pub proof fn law_decimal_reads_back(n: nat)
    ensures
        decimal(n).len() >= 1,
        forall|m: int| 0 <= m < decimal(n).len() ==> is_digit(#[trigger] decimal(n)[m]),
        numeral_value(decimal(n)) == n,
        decimal(n).len() > 1 ==> decimal(n)[0] != '0',
    decreases n,
{
    if n < 10 {
        let d = seq![digit_char(n)];
        assert(d.drop_last() =~= Seq::<char>::empty());
        assert(numeral_value(Seq::<char>::empty()) == 0);
        assert(digit_char(n) as int - '0' as int == n);
        assert(numeral_value(d) == numeral_value(d.drop_last()) * 10 + (d.last() as int - '0' as int));
    } else {
        law_decimal_reads_back(n / 10);
        let d = decimal(n / 10);
        let c = digit_char(n % 10);
        assert(decimal(n) == d.push(c));
        assert(d.push(c).drop_last() =~= d);
        assert(d.push(c).last() == c);
        assert(c as int - '0' as int == n % 10);
        assert(numeral_value(d.push(c)) == numeral_value(d) * 10 + n % 10);
        assert((n / 10) * 10 + n % 10 == n);
        assert(d.push(c)[0] == d[0]);
        assert forall|m: int| 0 <= m < d.push(c).len() implies is_digit(#[trigger] d.push(c)[m]) by {
            if m < d.len() {
                assert(d.push(c)[m] == d[m]);
            }
        }
        if d.len() == 1 && d[0] == '0' {
            assert(numeral_value(d) == numeral_value(d.drop_last()) * 10 + 0);
            assert(d.drop_last() =~= Seq::<char>::empty());
        }
    }
}

/// The decimal representation of `i`, with a minus sign when it is negative.
pub open spec fn int_text(i: int) -> Seq<char> {
    if i < 0 {
        seq!['-'] + decimal((-i) as nat)
    } else {
        decimal(i as nat)
    }
}

/// The text of an integer reads back as it: a non-negative one is the decimal numeral
/// of its value, a negative one a minus sign followed by the numeral of its magnitude.
pub proof fn law_int_text_reads_back(i: int)
    ensures
        i >= 0 ==> numeral_value(int_text(i)) == i && int_text(i)[0] != '-',
        i < 0 ==> int_text(i)[0] == '-' && numeral_value(int_text(i).skip(1)) == -i,
        forall|m: int|
            (if i < 0 {
                1int
            } else {
                0int
            }) <= m < int_text(i).len() ==> is_digit(#[trigger] int_text(i)[m]),
{
    if i < 0 {
        law_decimal_reads_back((-i) as nat);
        let d = decimal((-i) as nat);
        assert((seq!['-'] + d).skip(1) =~= d);
        assert forall|m: int| 1 <= m < (seq!['-'] + d).len() implies is_digit(
            #[trigger] (seq!['-'] + d)[m],
        ) by {
            assert((seq!['-'] + d)[m] == d[m - 1]);
        }
    } else {
        law_decimal_reads_back(i as nat);
        assert(is_digit(int_text(i)[0]));
    }
}

fn digit(d: u64) -> (c: char)
    requires
        d < 10,
    ensures
        c == digit_char(d as nat),
{
    if d == 0 {
        '0'
    } else if d == 1 {
        '1'
    } else if d == 2 {
        '2'
    } else if d == 3 {
        '3'
    } else if d == 4 {
        '4'
    } else if d == 5 {
        '5'
    } else if d == 6 {
        '6'
    } else if d == 7 {
        '7'
    } else if d == 8 {
        '8'
    } else {
        '9'
    }
}

/// Appends the decimal representation of `n` to `out`.
pub fn push_decimal(out: &mut String, n: u64)
    ensures
        final(out)@ == old(out)@ + decimal(n as nat),
    decreases n,
{
    if n >= 10 {
        push_decimal(out, n / 10);
    }
    string_push(out, digit(n % 10));
    assert(final(out)@ =~= old(out)@ + decimal(n as nat));
}

/// Appends the decimal representation of `i` to `out`.
pub fn push_int(out: &mut String, i: i32)
    ensures
        final(out)@ == old(out)@ + int_text(i as int),
{
    if i < 0 {
        string_push(out, '-');
        let m: i64 = i as i64;
        push_decimal(out, (-m) as u64);
        assert(final(out)@ =~= old(out)@ + int_text(i as int));
    } else {
        push_decimal(out, i as u64);
    }
}

/// Whether `c` has the Unicode White_Space property: the control characters from
/// tab to carriage return, the space, next line, no-break space, the Ogham space
/// mark, the spaces from en quad to hair space, the line and paragraph separators,
/// the narrow no-break space, the medium mathematical space and the ideographic
/// space.
pub open spec fn is_white_space(c: char) -> bool {
    let v = c as u32;
    ||| 0x9 <= v <= 0xd
    ||| v == 0x20
    ||| v == 0x85
    ||| v == 0xa0
    ||| v == 0x1680
    ||| 0x2000 <= v <= 0x200a
    ||| v == 0x2028
    ||| v == 0x2029
    ||| v == 0x202f
    ||| v == 0x205f
    ||| v == 0x3000
}

/// The index of the first character of `s` at or after `i` that is not white space,
/// or the length of `s` if there is none.
pub open spec fn trim_start_index(s: Seq<char>, i: int) -> int
    decreases s.len() - i,
{
    if 0 <= i < s.len() && is_white_space(s[i]) {
        trim_start_index(s, i + 1)
    } else {
        i
    }
}

/// The end of `s[lo..j]` once the white space at its end is dropped.
pub open spec fn trim_end_index(s: Seq<char>, j: int, lo: int) -> int
    decreases j - lo,
{
    if lo < j <= s.len() && is_white_space(s[j - 1]) {
        trim_end_index(s, j - 1, lo)
    } else {
        j
    }
}

/// `s` without the white space at its start and at its end.
pub open spec fn trimmed(s: Seq<char>) -> Seq<char> {
    let a = trim_start_index(s, 0);
    s.subrange(a, trim_end_index(s, s.len() as int, a))
}

/// Calls `str::trim`, which drops the characters with the Unicode White_Space
/// property from both ends of `s`.
#[verifier::external_body]
pub(crate) fn trim_str(s: &str) -> (r: &str)
    ensures
        r@ == trimmed(s@),
{
    s.trim()
}

proof fn lemma_trim_start_bounds(s: Seq<char>, i: int)
    requires
        0 <= i <= s.len(),
    ensures
        i <= trim_start_index(s, i) <= s.len(),
    decreases s.len() - i,
{
    if i < s.len() && is_white_space(s[i]) {
        lemma_trim_start_bounds(s, i + 1);
    }
}

proof fn lemma_trim_end_bounds(s: Seq<char>, j: int, lo: int)
    requires
        0 <= lo <= j <= s.len(),
    ensures
        lo <= trim_end_index(s, j, lo) <= j,
    decreases j - lo,
{
    if lo < j && is_white_space(s[j - 1]) {
        lemma_trim_end_bounds(s, j - 1, lo);
    }
}

/// The trimmed text is a stretch of the text: it takes no more bytes.
pub proof fn lemma_trimmed_bytes(s: Seq<char>)
    ensures
        encode_utf8(trimmed(s)).len() <= encode_utf8(s).len(),
{
    lemma_trim_start_bounds(s, 0);
    let a = trim_start_index(s, 0);
    lemma_trim_end_bounds(s, s.len() as int, a);
    lemma_subrange_bytes(s, a, trim_end_index(s, s.len() as int, a));
}

/// A stretch of a text takes no more bytes than the whole text.
pub proof fn lemma_subrange_bytes(src: Seq<char>, i: int, j: int)
    requires
        0 <= i <= j <= src.len(),
    ensures
        encode_utf8(src.subrange(i, j)).len() <= encode_utf8(src).len(),
{
    lemma_byte_offset_split(src, i, j);
    lemma_byte_offset_split(src, j, src.len() as int);
    lemma_byte_offset_split(src, 0, i);
    assert(src.take(src.len() as int) =~= src);
}

/// The UTF-8 encoding of a concatenation is the concatenation of the encodings.
pub proof fn lemma_encode_utf8_concat(a: Seq<char>, b: Seq<char>)
    ensures
        encode_utf8(a + b) == encode_utf8(a) + encode_utf8(b),
    decreases a.len(),
{
    if a.len() == 0 {
        assert(a + b =~= b);
        assert(encode_utf8(a) =~= Seq::<u8>::empty());
        assert(encode_utf8(a) + encode_utf8(b) =~= encode_utf8(b));
    } else {
        lemma_encode_utf8_concat(a.drop_first(), b);
        assert((a + b).drop_first() =~= a.drop_first() + b);
        assert((a + b)[0] == a[0]);
        assert(encode_utf8(a + b) =~= encode_scalar(a[0] as u32) + encode_utf8(a.drop_first() + b));
        assert(encode_utf8(a) + encode_utf8(b) =~= encode_scalar(a[0] as u32) + (encode_utf8(
            a.drop_first(),
        ) + encode_utf8(b)));
    }
}

/// The encoding of one character is its scalar's encoding.
pub proof fn lemma_encode_utf8_single(c: char)
    ensures
        encode_utf8(seq![c]) == encode_scalar(c as u32),
{
    assert(seq![c].drop_first() =~= Seq::<char>::empty());
    assert(encode_utf8(seq![c]) =~= encode_scalar(c as u32) + encode_utf8(Seq::<char>::empty()));
}

/// The encoding of `src[i..j]` sits between the byte offsets of `i` and `j`.
pub proof fn lemma_byte_offset_split(src: Seq<char>, i: int, j: int)
    requires
        0 <= i <= j <= src.len(),
    ensures
        byte_offset(src, j) == byte_offset(src, i) + encode_utf8(src.subrange(i, j)).len(),
        byte_offset(src, i) <= byte_offset(src, j),
        encode_utf8(src.take(j)) == encode_utf8(src.take(i)) + encode_utf8(src.subrange(i, j)),
{
    assert(src.take(j) =~= src.take(i) + src.subrange(i, j));
    lemma_encode_utf8_concat(src.take(i), src.subrange(i, j));
}

/// Moving past one character moves the byte offset by that character's width.
pub proof fn lemma_byte_offset_step(src: Seq<char>, i: int)
    requires
        0 <= i < src.len(),
    ensures
        byte_offset(src, i + 1) == byte_offset(src, i) + utf8_width(src[i]),
{
    lemma_byte_offset_split(src, i, i + 1);
    assert(src.subrange(i, i + 1) =~= seq![src[i]]);
    lemma_encode_utf8_single(src[i]);
}

/// Byte offsets grow with the character index.
pub proof fn lemma_byte_offset_mono(src: Seq<char>, i: int, j: int)
    requires
        0 <= i <= j <= src.len(),
    ensures
        byte_offset(src, i) <= byte_offset(src, j),
{
    lemma_byte_offset_split(src, i, j);
}

} // verus!
