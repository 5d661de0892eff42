//! Unicode character classes used by the lexers, and the UTF-8 width of a `char`.

use vstd::prelude::*;

verus! {

/// Whether `c` has the Unicode `Alphabetic` property.
pub uninterp spec fn is_alphabetic(c: char) -> bool;

/// Whether `c` has one of the Unicode general categories for numbers (`Nd`, `Nl`, `No`).
pub uninterp spec fn is_numeric(c: char) -> bool;

/// An ASCII letter, `a` to `z` or `A` to `Z`.
pub open spec fn is_ascii_letter(c: char) -> bool {
    ('a' <= c && c <= 'z') || ('A' <= c && c <= 'Z')
}

/// An ASCII digit, `0` to `9`.
pub open spec fn is_ascii_digit(c: char) -> bool {
    '0' <= c && c <= '9'
}


/// What `char::is_alphabetic` returns: on ASCII exactly the letters, elsewhere
/// the named result.
pub open spec fn char_is_alphabetic(c: char) -> bool {
    if (c as u32) < 0x80 { is_ascii_letter(c) } else { is_alphabetic(c) }
}

/// What `char::is_numeric` returns: on ASCII exactly the digits, elsewhere
/// the named result.
pub open spec fn char_is_numeric(c: char) -> bool {
    if (c as u32) < 0x80 { is_ascii_digit(c) } else { is_numeric(c) }
}

/// What `char::is_whitespace` returns: whether `c` has the Unicode
/// `White_Space` property, which these code points have: U+0009 to U+000D,
/// U+0020, U+0085, U+00A0, U+1680, U+2000 to U+200A, U+2028, U+2029, U+202F,
/// U+205F and U+3000.
pub open spec fn char_is_whitespace(c: char) -> bool {
    let v = c as u32;
    ||| 0x09 <= v <= 0x0D
    ||| v == 0x20
    ||| v == 0x85
    ||| v == 0xA0
    ||| v == 0x1680
    ||| 0x2000 <= v <= 0x200A
    ||| v == 0x2028
    ||| v == 0x2029
    ||| v == 0x202F
    ||| v == 0x205F
    ||| v == 0x3000
}

/// `char::is_alphanumeric`: std documents it as `is_alphabetic() || is_numeric()`.
pub open spec fn char_is_alphanumeric(c: char) -> bool {
    char_is_alphabetic(c) || char_is_numeric(c)
}

/// Calls `char::is_alphabetic`. The result is named; on ASCII it holds
/// exactly for the letters `a`-`z` and `A`-`Z` (the Unicode `Alphabetic`
/// property takes no other ASCII character).
#[verifier::external_body]
pub(crate) fn alphabetic(c: char) -> (r: bool)
    ensures
        r == is_alphabetic(c),
        (c as u32) < 0x80 ==> (r == is_ascii_letter(c)),
{
    c.is_alphabetic()
}

/// Calls `char::is_numeric`. The result is named; on ASCII it holds exactly
/// for the digits `0`-`9` (the only ASCII characters of the number categories).
#[verifier::external_body]
pub(crate) fn numeric(c: char) -> (r: bool)
    ensures
        r == is_numeric(c),
        (c as u32) < 0x80 ==> (r == is_ascii_digit(c)),
{
    c.is_numeric()
}

/// Whether `c` is white space, as `char::is_whitespace` decides it.
pub fn whitespace(c: char) -> (r: bool)
    ensures
        r == char_is_whitespace(c),
{
    let v: u32 = c as u32;
    (0x09 <= v && v <= 0x0D) || v == 0x20 || v == 0x85 || v == 0xA0 || v == 0x1680
        || (0x2000 <= v && v <= 0x200A) || v == 0x2028 || v == 0x2029 || v == 0x202F
        || v == 0x205F || v == 0x3000
}

/// `is_alphabetic(c) || is_numeric(c)`, as `char::is_alphanumeric` is documented.
pub(crate) fn alphanumeric(c: char) -> (r: bool)
    ensures
        r == char_is_alphanumeric(c),
{
    alphabetic(c) || numeric(c)
}

/// Number of bytes of the UTF-8 encoding of `c` (what `char::len_utf8` returns).
pub(crate) fn utf8_width(c: char) -> (n: usize)
    ensures
        n == vstd::utf8::encode_scalar(c as u32).len(),
        1 <= n <= 4,
{
    let v: u32 = c as u32;
    if v < 0x80 {
        1
    } else if v < 0x800 {
        2
    } else if v < 0x10000 {
        3
    } else {
        4
    }
}


/// UTF-8 encoding distributes over concatenation.
pub proof fn lemma_encode_concat(a: Seq<char>, b: Seq<char>)
    ensures
        vstd::utf8::encode_utf8(a + b) == vstd::utf8::encode_utf8(a) + vstd::utf8::encode_utf8(b),
    decreases a.len(),
{
    if a.len() == 0 {
        assert(a + b =~= b);
        assert(vstd::utf8::encode_utf8(a) =~= Seq::<u8>::empty());
        assert(vstd::utf8::encode_utf8(a) + vstd::utf8::encode_utf8(b) =~= vstd::utf8::encode_utf8(b));
    } else {
        assert((a + b).drop_first() =~= a.drop_first() + b);
        assert((a + b)[0] == a[0]);
        lemma_encode_concat(a.drop_first(), b);
        let e0 = vstd::utf8::encode_scalar(a[0] as u32);
        assert(vstd::utf8::encode_utf8(a + b) == e0 + vstd::utf8::encode_utf8((a + b).drop_first()));
        assert(vstd::utf8::encode_utf8(a) == e0 + vstd::utf8::encode_utf8(a.drop_first()));
        assert(e0 + (vstd::utf8::encode_utf8(a.drop_first()) + vstd::utf8::encode_utf8(b))
            =~= (e0 + vstd::utf8::encode_utf8(a.drop_first())) + vstd::utf8::encode_utf8(b));
    }
}

/// Splitting a character sequence at `i` splits its encoding at the byte
/// offset of the first `i` characters.
pub proof fn lemma_encode_split(s: Seq<char>, i: int)
    requires
        0 <= i <= s.len(),
    ensures
        vstd::utf8::encode_utf8(s) == vstd::utf8::encode_utf8(s.take(i)) + vstd::utf8::encode_utf8(s.skip(i)),
        vstd::utf8::encode_utf8(s.take(i)) == vstd::utf8::encode_utf8(s).subrange(0, vstd::utf8::encode_utf8(s.take(i)).len() as int),
        vstd::utf8::encode_utf8(s.skip(i)) == vstd::utf8::encode_utf8(s).subrange(
            vstd::utf8::encode_utf8(s.take(i)).len() as int,
            vstd::utf8::encode_utf8(s).len() as int,
        ),
{
    assert(s =~= s.take(i) + s.skip(i));
    lemma_encode_concat(s.take(i), s.skip(i));
    let a = vstd::utf8::encode_utf8(s.take(i));
    let b = vstd::utf8::encode_utf8(s.skip(i));
    assert((a + b).subrange(0, a.len() as int) =~= a);
    assert((a + b).subrange(a.len() as int, (a + b).len() as int) =~= b);
}

/// The byte offset of the first `i` characters is a character boundary.
pub proof fn lemma_encode_boundary(s: Seq<char>, i: int)
    requires
        0 <= i <= s.len(),
    ensures
        vstd::utf8::valid_utf8(vstd::utf8::encode_utf8(s)),
        vstd::utf8::is_char_boundary(
            vstd::utf8::encode_utf8(s),
            vstd::utf8::encode_utf8(s.take(i)).len() as int,
        ),
    decreases i,
{
    vstd::utf8::encode_utf8_valid_utf8(s);
    let bytes = vstd::utf8::encode_utf8(s);
    if i == 0 {
        assert(s.take(0) =~= Seq::<char>::empty());
    } else {
        vstd::utf8::encode_utf8_first_scalar(s);
        let rest = s.drop_first();
        assert(vstd::utf8::pop_first_scalar(bytes) =~= vstd::utf8::encode_utf8(rest));
        lemma_encode_boundary(rest, i - 1);
        assert(s.take(i).drop_first() =~= rest.take(i - 1));
        assert(s.take(i)[0] == s[0]);
        let e = vstd::utf8::encode_utf8(s.take(i));
        assert(e == vstd::utf8::encode_scalar(s[0] as u32) + vstd::utf8::encode_utf8(rest.take(i - 1)));
        lemma_encode_split(s, i);
        assert(e.len() <= bytes.len());
        assert(e.len() > 0);
    }
}

/// Encoding is injective: equal encodings come from equal character sequences.
pub proof fn lemma_encode_injective(a: Seq<char>, b: Seq<char>)
    requires
        vstd::utf8::encode_utf8(a) == vstd::utf8::encode_utf8(b),
    ensures
        a == b,
{
    vstd::utf8::encode_utf8_decode_utf8(a);
    vstd::utf8::encode_utf8_decode_utf8(b);
}


/// Whether `w` holds neither `:` nor `=`.
pub open spec fn delimiter_free(w: Seq<char>) -> bool {
    forall|i: int| 0 <= i < w.len() ==> (#[trigger] w[i]) as u32 != 0x3A && w[i] as u32 != 0x3D
}

/// The UTF-8 encoding of a character other than `:` and `=` holds neither of
/// their bytes: an ASCII character encodes as itself, any other only as bytes
/// from `0x80` up.
pub proof fn lemma_scalar_delimiter_free(c: char)
    requires
        c as u32 != 0x3A,
        c as u32 != 0x3D,
    ensures
        forall|k: int| 0 <= k < vstd::utf8::encode_scalar(c as u32).len() ==> {
            let b = #[trigger] vstd::utf8::encode_scalar(c as u32)[k];
            b != 0x3A && b != 0x3D
        },
{
    let v = c as u32;
    vstd::utf8::char_is_scalar(c);
    assert(v <= 0x7F ==> (v & 0x7F) as u8 != 0x3A && (v & 0x7F) as u8 != 0x3D) by (bit_vector)
        requires
            v != 0x3A,
            v != 0x3D,
    ;
    assert(0x80 <= v ==> {
        &&& 0xC0 | ((v >> 6) & 0x1F) as u8 >= 0x80
        &&& 0xE0 | ((v >> 12) & 0x0F) as u8 >= 0x80
        &&& 0xF0 | ((v >> 18) & 0x7) as u8 >= 0x80
        &&& 0x80 | (v & 0x3F) as u8 >= 0x80
        &&& 0x80 | ((v >> 6) & 0x3F) as u8 >= 0x80
        &&& 0x80 | ((v >> 12) & 0x3F) as u8 >= 0x80
    }) by (bit_vector);
}

/// The encoding of a text without `:` and `=` holds neither of their bytes.
pub proof fn lemma_encode_delimiter_free(w: Seq<char>)
    requires
        delimiter_free(w),
    ensures
        forall|k: int| 0 <= k < vstd::utf8::encode_utf8(w).len() ==> {
            let b = #[trigger] vstd::utf8::encode_utf8(w)[k];
            b != 0x3A && b != 0x3D
        },
    decreases w.len(),
{
    if w.len() > 0 {
        assert(w[0] as u32 != 0x3A && w[0] as u32 != 0x3D);
        lemma_scalar_delimiter_free(w[0]);
        let rest = w.drop_first();
        assert forall|i: int| 0 <= i < rest.len() implies (#[trigger] rest[i]) as u32 != 0x3A && rest[i] as u32 != 0x3D by {
            assert(rest[i] == w[i + 1]);
        }
        lemma_encode_delimiter_free(rest);
        let e0 = vstd::utf8::encode_scalar(w[0] as u32);
        let er = vstd::utf8::encode_utf8(rest);
        assert(vstd::utf8::encode_utf8(w) == e0 + er);
        assert forall|k: int| 0 <= k < (e0 + er).len() implies {
            let b = #[trigger] (e0 + er)[k];
            b != 0x3A && b != 0x3D
        } by {
            if k < e0.len() {
                assert((e0 + er)[k] == e0[k]);
            } else {
                assert((e0 + er)[k] == er[k - e0.len()]);
            }
        }
    }
}

} // verus!
