use vstd::prelude::*;
use vstd::utf8::*;
use vstd::string::StringSliceAdditionalSpecFns;

verus! {

/// A character with Unicode's `White_Space` property, the white space that
/// `str::trim` drops.
pub open spec fn is_white_space(c: char) -> bool {
    ||| '\u{9}' <= c <= '\u{d}'
    ||| c == ' '
    ||| c == '\u{85}'
    ||| c == '\u{a0}'
    ||| c == '\u{1680}'
    ||| '\u{2000}' <= c <= '\u{200a}'
    ||| c == '\u{2028}'
    ||| c == '\u{2029}'
    ||| c == '\u{202f}'
    ||| c == '\u{205f}'
    ||| c == '\u{3000}'
}

/// The decimal digits (Unicode general category Nd, version 16.0), which
/// `\d` matches in the regex crate's default Unicode mode.
pub open spec fn is_decimal_digit(c: char) -> bool {
    let n = c as u32;
    (0x30 <= n && n <= 0x39)
    || (0x660 <= n && n <= 0x669)
    || (0x6F0 <= n && n <= 0x6F9)
    || (0x7C0 <= n && n <= 0x7C9)
    || (0x966 <= n && n <= 0x96F)
    || (0x9E6 <= n && n <= 0x9EF)
    || (0xA66 <= n && n <= 0xA6F)
    || (0xAE6 <= n && n <= 0xAEF)
    || (0xB66 <= n && n <= 0xB6F)
    || (0xBE6 <= n && n <= 0xBEF)
    || (0xC66 <= n && n <= 0xC6F)
    || (0xCE6 <= n && n <= 0xCEF)
    || (0xD66 <= n && n <= 0xD6F)
    || (0xDE6 <= n && n <= 0xDEF)
    || (0xE50 <= n && n <= 0xE59)
    || (0xED0 <= n && n <= 0xED9)
    || (0xF20 <= n && n <= 0xF29)
    || (0x1040 <= n && n <= 0x1049)
    || (0x1090 <= n && n <= 0x1099)
    || (0x17E0 <= n && n <= 0x17E9)
    || (0x1810 <= n && n <= 0x1819)
    || (0x1946 <= n && n <= 0x194F)
    || (0x19D0 <= n && n <= 0x19D9)
    || (0x1A80 <= n && n <= 0x1A89)
    || (0x1A90 <= n && n <= 0x1A99)
    || (0x1B50 <= n && n <= 0x1B59)
    || (0x1BB0 <= n && n <= 0x1BB9)
    || (0x1C40 <= n && n <= 0x1C49)
    || (0x1C50 <= n && n <= 0x1C59)
    || (0xA620 <= n && n <= 0xA629)
    || (0xA8D0 <= n && n <= 0xA8D9)
    || (0xA900 <= n && n <= 0xA909)
    || (0xA9D0 <= n && n <= 0xA9D9)
    || (0xA9F0 <= n && n <= 0xA9F9)
    || (0xAA50 <= n && n <= 0xAA59)
    || (0xABF0 <= n && n <= 0xABF9)
    || (0xFF10 <= n && n <= 0xFF19)
    || (0x104A0 <= n && n <= 0x104A9)
    || (0x10D30 <= n && n <= 0x10D39)
    || (0x10D40 <= n && n <= 0x10D49)
    || (0x11066 <= n && n <= 0x1106F)
    || (0x110F0 <= n && n <= 0x110F9)
    || (0x11136 <= n && n <= 0x1113F)
    || (0x111D0 <= n && n <= 0x111D9)
    || (0x112F0 <= n && n <= 0x112F9)
    || (0x11450 <= n && n <= 0x11459)
    || (0x114D0 <= n && n <= 0x114D9)
    || (0x11650 <= n && n <= 0x11659)
    || (0x116C0 <= n && n <= 0x116C9)
    || (0x116D0 <= n && n <= 0x116E3)
    || (0x11730 <= n && n <= 0x11739)
    || (0x118E0 <= n && n <= 0x118E9)
    || (0x11950 <= n && n <= 0x11959)
    || (0x11BF0 <= n && n <= 0x11BF9)
    || (0x11C50 <= n && n <= 0x11C59)
    || (0x11D50 <= n && n <= 0x11D59)
    || (0x11DA0 <= n && n <= 0x11DA9)
    || (0x11F50 <= n && n <= 0x11F59)
    || (0x16130 <= n && n <= 0x16139)
    || (0x16A60 <= n && n <= 0x16A69)
    || (0x16AC0 <= n && n <= 0x16AC9)
    || (0x16B50 <= n && n <= 0x16B59)
    || (0x16D70 <= n && n <= 0x16D79)
    || (0x1CCF0 <= n && n <= 0x1CCF9)
    || (0x1D7CE <= n && n <= 0x1D7FF)
    || (0x1E140 <= n && n <= 0x1E149)
    || (0x1E2F0 <= n && n <= 0x1E2F9)
    || (0x1E4F0 <= n && n <= 0x1E4F9)
    || (0x1E5F1 <= n && n <= 0x1E5FA)
    || (0x1E950 <= n && n <= 0x1E959)
    || (0x1FBF0 <= n && n <= 0x1FBF9)
}

/// Whether `c` is a decimal digit.
pub fn decimal_digit(c: char) -> (d: bool)
    ensures
        d == is_decimal_digit(c),
{
    let n = c as u32;
    (0x30 <= n && n <= 0x39)
    || (0x660 <= n && n <= 0x669)
    || (0x6F0 <= n && n <= 0x6F9)
    || (0x7C0 <= n && n <= 0x7C9)
    || (0x966 <= n && n <= 0x96F)
    || (0x9E6 <= n && n <= 0x9EF)
    || (0xA66 <= n && n <= 0xA6F)
    || (0xAE6 <= n && n <= 0xAEF)
    || (0xB66 <= n && n <= 0xB6F)
    || (0xBE6 <= n && n <= 0xBEF)
    || (0xC66 <= n && n <= 0xC6F)
    || (0xCE6 <= n && n <= 0xCEF)
    || (0xD66 <= n && n <= 0xD6F)
    || (0xDE6 <= n && n <= 0xDEF)
    || (0xE50 <= n && n <= 0xE59)
    || (0xED0 <= n && n <= 0xED9)
    || (0xF20 <= n && n <= 0xF29)
    || (0x1040 <= n && n <= 0x1049)
    || (0x1090 <= n && n <= 0x1099)
    || (0x17E0 <= n && n <= 0x17E9)
    || (0x1810 <= n && n <= 0x1819)
    || (0x1946 <= n && n <= 0x194F)
    || (0x19D0 <= n && n <= 0x19D9)
    || (0x1A80 <= n && n <= 0x1A89)
    || (0x1A90 <= n && n <= 0x1A99)
    || (0x1B50 <= n && n <= 0x1B59)
    || (0x1BB0 <= n && n <= 0x1BB9)
    || (0x1C40 <= n && n <= 0x1C49)
    || (0x1C50 <= n && n <= 0x1C59)
    || (0xA620 <= n && n <= 0xA629)
    || (0xA8D0 <= n && n <= 0xA8D9)
    || (0xA900 <= n && n <= 0xA909)
    || (0xA9D0 <= n && n <= 0xA9D9)
    || (0xA9F0 <= n && n <= 0xA9F9)
    || (0xAA50 <= n && n <= 0xAA59)
    || (0xABF0 <= n && n <= 0xABF9)
    || (0xFF10 <= n && n <= 0xFF19)
    || (0x104A0 <= n && n <= 0x104A9)
    || (0x10D30 <= n && n <= 0x10D39)
    || (0x10D40 <= n && n <= 0x10D49)
    || (0x11066 <= n && n <= 0x1106F)
    || (0x110F0 <= n && n <= 0x110F9)
    || (0x11136 <= n && n <= 0x1113F)
    || (0x111D0 <= n && n <= 0x111D9)
    || (0x112F0 <= n && n <= 0x112F9)
    || (0x11450 <= n && n <= 0x11459)
    || (0x114D0 <= n && n <= 0x114D9)
    || (0x11650 <= n && n <= 0x11659)
    || (0x116C0 <= n && n <= 0x116C9)
    || (0x116D0 <= n && n <= 0x116E3)
    || (0x11730 <= n && n <= 0x11739)
    || (0x118E0 <= n && n <= 0x118E9)
    || (0x11950 <= n && n <= 0x11959)
    || (0x11BF0 <= n && n <= 0x11BF9)
    || (0x11C50 <= n && n <= 0x11C59)
    || (0x11D50 <= n && n <= 0x11D59)
    || (0x11DA0 <= n && n <= 0x11DA9)
    || (0x11F50 <= n && n <= 0x11F59)
    || (0x16130 <= n && n <= 0x16139)
    || (0x16A60 <= n && n <= 0x16A69)
    || (0x16AC0 <= n && n <= 0x16AC9)
    || (0x16B50 <= n && n <= 0x16B59)
    || (0x16D70 <= n && n <= 0x16D79)
    || (0x1CCF0 <= n && n <= 0x1CCF9)
    || (0x1D7CE <= n && n <= 0x1D7FF)
    || (0x1E140 <= n && n <= 0x1E149)
    || (0x1E2F0 <= n && n <= 0x1E2F9)
    || (0x1E4F0 <= n && n <= 0x1E4F9)
    || (0x1E5F1 <= n && n <= 0x1E5FA)
    || (0x1E950 <= n && n <= 0x1E959)
    || (0x1FBF0 <= n && n <= 0x1FBF9)
}

/// The text without its leading white space.
pub open spec fn trim_start_chars(s: Seq<char>) -> Seq<char>
    decreases s.len(),
{
    if s.len() > 0 && is_white_space(s[0]) {
        trim_start_chars(s.drop_first())
    } else {
        s
    }
}

/// The text without its trailing white space.
pub open spec fn trim_end_chars(s: Seq<char>) -> Seq<char>
    decreases s.len(),
{
    if s.len() > 0 && is_white_space(s.last()) {
        trim_end_chars(s.drop_last())
    } else {
        s
    }
}

/// The text without leading and trailing white space.
pub open spec fn trimmed(s: Seq<char>) -> Seq<char> {
    trim_end_chars(trim_start_chars(s))
}

/// What `str::to_lowercase` makes of a text.
pub uninterp spec fn std_to_lowercase(s: Seq<char>) -> Seq<char>;

/// The lower-case form of an ASCII letter; any other character as it is.
pub open spec fn ascii_lower(c: char) -> char {
    if 'A' <= c <= 'Z' {
        ((c as u32) + 32) as char
    } else {
        c
    }
}

/// `str::trim`: the text without leading and trailing characters that have
/// the `White_Space` property, as its documentation defines it.
#[verifier::external_body]
pub(crate) fn trim_exec(s: &str) -> (t: &str)
    ensures
        t@ == trimmed(s@),
{
    s.trim()
}

/// `str::to_lowercase`. The full Unicode mapping is left to the name; an
/// ASCII text has each capital letter replaced by its small letter and every
/// other character kept.
#[verifier::external_body]
pub(crate) fn to_lowercase_exec(s: &str) -> (t: String)
    ensures
        t@ == std_to_lowercase(s@),
        is_ascii_chars(s@) ==> t@ == s@.map_values(|c: char| ascii_lower(c)),
{
    s.to_lowercase()
}

/// A text made only of white space trims to nothing.
pub proof fn lemma_blank_trims_to_empty(s: Seq<char>)
    requires
        forall|i: int| 0 <= i < s.len() ==> is_white_space(#[trigger] s[i]),
    ensures
        trimmed(s).len() == 0,
    decreases s.len(),
{
    if s.len() > 0 {
        assert forall|i: int| 0 <= i < s.drop_first().len() implies is_white_space(#[trigger] s.drop_first()[i]) by {
            assert(s.drop_first()[i] == s[i + 1]);
        }
        lemma_blank_trims_to_empty(s.drop_first());
    } else {
        assert(trim_start_chars(s) == s);
    }
}

/// A text that neither starts nor ends with white space trims to itself.
pub proof fn lemma_trim_keeps_inner(s: Seq<char>)
    requires
        s.len() > 0,
        !is_white_space(s[0]),
        !is_white_space(s.last()),
    ensures
        trimmed(s) == s,
{
}

/// A text trims to nothing exactly when it is all white space.
pub proof fn lemma_trimmed_empty(s: Seq<char>)
    ensures
        trimmed(s).len() == 0 <==> forall|i: int| 0 <= i < s.len() ==> is_white_space(#[trigger] s[i]),
    decreases s.len(),
{
    if s.len() > 0 {
        if is_white_space(s[0]) {
            lemma_trimmed_empty(s.drop_first());
            if trimmed(s).len() == 0 {
                assert forall|i: int| 0 <= i < s.len() implies is_white_space(#[trigger] s[i]) by {
                    if i > 0 {
                        assert(s[i] == s.drop_first()[i - 1]);
                    }
                }
            } else {
                assert(trimmed(s) == trimmed(s.drop_first()));
            }
        } else {
            lemma_trim_end_nonempty(s);
        }
    }
}

proof fn lemma_trim_end_nonempty(s: Seq<char>)
    requires
        s.len() > 0,
        !is_white_space(s[0]),
    ensures
        trim_end_chars(s).len() > 0,
    decreases s.len(),
{
    if is_white_space(s.last()) {
        assert(s.len() > 1);
        assert(s.drop_last()[0] == s[0]);
        lemma_trim_end_nonempty(s.drop_last());
    }
}

/// The UTF-8 encoding of a concatenation is the concatenation of the encodings.
pub proof fn lemma_encode_concat(a: Seq<char>, b: Seq<char>)
    ensures
        encode_utf8(a + b) == encode_utf8(a) + encode_utf8(b),
    decreases a.len(),
{
    if a.len() == 0 {
        assert(a + b =~= b);
        assert(encode_utf8(a) + encode_utf8(b) =~= encode_utf8(b));
    } else {
        assert((a + b).drop_first() =~= a.drop_first() + b);
        assert((a + b)[0] == a[0]);
        lemma_encode_concat(a.drop_first(), b);
        assert(encode_utf8(a + b) =~= encode_utf8(a) + encode_utf8(b));
    }
}

/// Two texts are equal exactly when their encodings are.
pub proof fn lemma_encode_injective(a: Seq<char>, b: Seq<char>)
    ensures
        (encode_utf8(a) == encode_utf8(b)) <==> (a == b),
{
    encode_utf8_decode_utf8(a);
    encode_utf8_decode_utf8(b);
}

/// A character boundary of a text stays one in the text's tail from an
/// earlier boundary on.
pub proof fn lemma_boundary_in_tail(b: Seq<u8>, start: int, idx: int)
    requires
        valid_utf8(b),
        0 <= start <= idx <= b.len(),
        is_char_boundary(b, start),
        is_char_boundary(b, idx),
    ensures
        valid_utf8(b.subrange(start, b.len() as int)),
        is_char_boundary(b.subrange(start, b.len() as int), idx - start),
{
    let r = b.subrange(start, b.len() as int);
    valid_utf8_split(b, start);
    is_char_boundary_start_end_of_seq(r);
    if idx < b.len() {
        is_char_boundary_iff_not_is_continuation_byte(b, idx);
        assert(r[idx - start] == b[idx]);
        is_char_boundary_iff_not_is_continuation_byte(r, idx - start);
    }
}

/// The view of a string slice is the decoding of its bytes.
pub proof fn lemma_view_is_decoded(s: &str)
    ensures
        s@ == decode_utf8(s.spec_bytes()),
        valid_utf8(s.spec_bytes()),
{
    encode_utf8_decode_utf8(s@);
    encode_utf8_valid_utf8(s@);
}

/// The part of `s` between two byte offsets on character boundaries.
pub fn slice_str(s: &str, start: usize, end: usize) -> (t: &str)
    requires
        start <= end <= s.spec_bytes().len(),
        is_char_boundary(s.spec_bytes(), start as int),
        is_char_boundary(s.spec_bytes(), end as int),
    ensures
        t.spec_bytes() == s.spec_bytes().subrange(start as int, end as int),
        t@ == decode_utf8(s.spec_bytes().subrange(start as int, end as int)),
{
    let ghost b = s.spec_bytes();
    proof {
        lemma_view_is_decoded(s);
        lemma_boundary_in_tail(b, start as int, end as int);
    }
    let (_, tail) = s.split_at(start);
    proof {
        assert(tail.spec_bytes() =~= b.subrange(start as int, b.len() as int));
    }
    let (t, _) = tail.split_at(end - start);
    proof {
        assert(t.spec_bytes() =~= b.subrange(start as int, end as int));
        lemma_view_is_decoded(t);
    }
    t
}

/// The length of `s` in bytes.
pub fn byte_len(s: &str) -> (n: usize)
    ensures
        n == s.spec_bytes().len(),
{
    s.as_bytes().len()
}

/// Whether two string slices hold the same text.
pub fn str_eq(a: &str, b: &str) -> (eq: bool)
    ensures
        eq == (a@ == b@),
{
    let x = a.as_bytes();
    let y = b.as_bytes();
    proof {
        lemma_encode_injective(a@, b@);
    }
    if x.len() != y.len() {
        return false;
    }
    let mut i: usize = 0;
    while i < x.len()
        invariant
            x@ == a.spec_bytes(),
            y@ == b.spec_bytes(),
            x@.len() == y@.len(),
            i <= x@.len(),
            forall|k: int| 0 <= k < i ==> x@[k] == y@[k],
            (a.spec_bytes() == b.spec_bytes()) <==> (a@ == b@),
        decreases x@.len() - i,
    {
        if x[i] != y[i] {
            return false;
        }
        i = i + 1;
    }
    proof {
        assert(x@ =~= y@);
    }
    true
}

} // verus!
