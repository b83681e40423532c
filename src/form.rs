//! The `application/x-www-form-urlencoded` byte codec used by magnet links:
//! unreserved bytes stand for themselves, a space is `+`, any other byte is `%XX`.
use vstd::prelude::*;

verus! {

/// Bytes that encoding leaves as they are: ASCII letters, digits and `*-._`.
pub open spec fn is_unreserved(b: u8) -> bool {
    b == 42 || b == 45 || b == 46 || b == 95 || (48 <= b <= 57) || (65 <= b <= 90) || (97 <= b
        <= 122)
}

/// The upper-case hexadecimal digit of a value below 16.
pub open spec fn hex_digit(v: u8) -> u8 {
    if v < 10 {
        (48 + v) as u8
    } else {
        (55 + v) as u8
    }
}

pub open spec fn is_hex(b: u8) -> bool {
    (48 <= b <= 57) || (65 <= b <= 70) || (97 <= b <= 102)
}

pub open spec fn hex_value(b: u8) -> u8 {
    if 48 <= b <= 57 {
        (b - 48) as u8
    } else if 65 <= b <= 70 {
        (b - 55) as u8
    } else {
        (b - 87) as u8
    }
}

/// The encoding of one byte.
pub open spec fn encode_byte(b: u8) -> Seq<u8> {
    if is_unreserved(b) {
        seq![b]
    } else if b == 32 {
        seq![43u8]
    } else {
        seq![37u8, hex_digit(b / 16), hex_digit(b % 16)]
    }
}

/// The encoding of a byte string.
pub open spec fn form_encode(s: Seq<u8>) -> Seq<u8>
    decreases s.len(),
{
    if s.len() == 0 {
        seq![]
    } else {
        encode_byte(s[0]) + form_encode(s.drop_first())
    }
}

/// The decoding of a byte string: `+` is a space, `%XX` with two hex digits is
/// the byte XX, and every other byte stands for itself.
pub open spec fn form_decode(s: Seq<u8>) -> Seq<u8>
    decreases s.len(),
{
    if s.len() == 0 {
        seq![]
    } else if s[0] == 43 {
        seq![32u8] + form_decode(s.drop_first())
    } else if s[0] == 37 && s.len() >= 3 && is_hex(s[1]) && is_hex(s[2]) {
        seq![(hex_value(s[1]) * 16 + hex_value(s[2])) as u8] + form_decode(
            s.subrange(3, s.len() as int),
        )
    } else {
        seq![s[0]] + form_decode(s.drop_first())
    }
}

/// Whether every byte is an ASCII byte that separates nothing in a query:
/// no `&`, `=` or `#`, and below 128.
pub open spec fn is_query_safe(s: Seq<u8>) -> bool {
    forall|i: int| 0 <= i < s.len() ==> #[trigger] s[i] < 128 && s[i] != 38 && s[i] != 61 && s[i]
        != 35
}

proof fn lemma_encode_byte_safe(b: u8)
    ensures
        is_query_safe(encode_byte(b)),
        encode_byte(b).len() >= 1,
{
    assert(b / 16 < 16 && b % 16 < 16) by (bit_vector);
}

/// Appending a byte appends its encoding.
pub proof fn lemma_form_encode_push(s: Seq<u8>, b: u8)
    ensures
        form_encode(s.push(b)) == form_encode(s) + encode_byte(b),
    decreases s.len(),
{
    if s.len() == 0 {
        assert(s.push(b).drop_first() =~= seq![]);
        assert(form_encode(s.push(b)) =~= encode_byte(b) + form_encode(seq![]));
    } else {
        assert(s.push(b).drop_first() =~= s.drop_first().push(b));
        lemma_form_encode_push(s.drop_first(), b);
        assert(form_encode(s.push(b)) =~= encode_byte(s[0]) + form_encode(s.drop_first().push(b)));
    }
}

/// An encoding is query-safe: it never holds `&`, `=`, `#` or a non-ASCII byte.
pub proof fn lemma_form_encode_safe(s: Seq<u8>)
    ensures
        is_query_safe(form_encode(s)),
    decreases s.len(),
{
    if s.len() > 0 {
        lemma_encode_byte_safe(s[0]);
        lemma_form_encode_safe(s.drop_first());
        let a = encode_byte(s[0]);
        let b = form_encode(s.drop_first());
        assert forall|i: int| 0 <= i < (a + b).len() implies #[trigger] (a + b)[i] < 128 && (a
            + b)[i] != 38 && (a + b)[i] != 61 && (a + b)[i] != 35 by {
            if i < a.len() {
                assert((a + b)[i] == a[i]);
            } else {
                assert((a + b)[i] == b[i - a.len()]);
            }
        }
    }
}

/// Decoding undoes encoding.
pub proof fn lemma_form_round_trip(s: Seq<u8>)
    ensures
        form_decode(form_encode(s)) == s,
    decreases s.len(),
{
    if s.len() > 0 {
        let b = s[0];
        let rest = form_encode(s.drop_first());
        lemma_form_round_trip(s.drop_first());
        let e = encode_byte(b) + rest;
        if is_unreserved(b) {
            assert(e.drop_first() =~= rest);
        } else if b == 32 {
            assert(e.drop_first() =~= rest);
        } else {
            let hi = b / 16;
            let lo = b % 16;
            assert(hi < 16 && lo < 16 && hi * 16 + lo == b) by (bit_vector)
                requires
                    hi == b / 16,
                    lo == b % 16,
            ;
            assert(e[1] == hex_digit(hi));
            assert(e[2] == hex_digit(lo));
            assert(hex_value(hex_digit(hi)) == hi);
            assert(hex_value(hex_digit(lo)) == lo);
            assert(e.subrange(3, e.len() as int) =~= rest);
        }
        assert(s =~= seq![b] + s.drop_first());
    }
}

/// Lower-case ASCII letters decode to themselves.
pub proof fn lemma_form_decode_letters(s: Seq<u8>)
    requires
        forall|j: int| 0 <= j < s.len() ==> 97 <= #[trigger] s[j] <= 122,
    ensures
        form_decode(s) == s,
    decreases s.len(),
{
    if s.len() > 0 {
        lemma_form_decode_letters(s.drop_first());
        assert(s =~= seq![s[0]] + s.drop_first());
    }
}

/// Relies on `String::push`: appends one character.
#[verifier::external_body]
pub(crate) fn push_char(s: &mut String, c: char)
    ensures
        final(s)@ == old(s)@.push(c),
{
    s.push(c);
}

pub open spec fn ascii_text(s: Seq<u8>) -> Seq<char> {
    s.map_values(|b: u8| b as char)
}

fn hex_digit_exec(v: u8) -> (r: u8)
    requires
        v < 16,
    ensures
        r == hex_digit(v),
{
    if v < 10 {
        48 + v
    } else {
        55 + v
    }
}

/// Appends the encoding of `bytes` to `out`.
pub fn push_form_encoded(out: &mut String, bytes: &[u8])
    ensures
        final(out)@ == old(out)@ + ascii_text(form_encode(bytes@)),
{
    let ghost start = out@;
    let mut i: usize = 0;
    while i < bytes.len()
        invariant
            i <= bytes@.len(),
            out@ == start + ascii_text(form_encode(bytes@.subrange(0, i as int))),
        decreases bytes@.len() - i,
    {
        let b = bytes[i];
        let ghost before = out@;
        if (b == 42 || b == 45 || b == 46 || b == 95 || (48 <= b && b <= 57) || (65 <= b && b
            <= 90) || (97 <= b && b <= 122)) {
            push_char(out, b as char);
        } else if b == 32 {
            push_char(out, '+');
        } else {
            push_char(out, '%');
            push_char(out, hex_digit_exec(b / 16) as char);
            push_char(out, hex_digit_exec(b % 16) as char);
        }
        proof {
            assert(bytes@.subrange(0, i + 1) =~= bytes@.subrange(0, i as int).push(b));
            lemma_form_encode_push(bytes@.subrange(0, i as int), b);
            assert(out@ =~= before + ascii_text(encode_byte(b)));
            assert(ascii_text(form_encode(bytes@.subrange(0, i + 1))) =~= ascii_text(
                form_encode(bytes@.subrange(0, i as int)),
            ) + ascii_text(encode_byte(b)));
        }
        i = i + 1;
    }
    assert(bytes@.subrange(0, bytes@.len() as int) =~= bytes@);
}

fn is_hex_exec(b: u8) -> (r: bool)
    ensures
        r == is_hex(b),
{
    (48 <= b && b <= 57) || (65 <= b && b <= 70) || (97 <= b && b <= 102)
}

fn hex_value_exec(b: u8) -> (r: u8)
    requires
        is_hex(b),
    ensures
        r == hex_value(b),
        r < 16,
{
    if 48 <= b && b <= 57 {
        b - 48
    } else if 65 <= b && b <= 70 {
        b - 55
    } else {
        b - 87
    }
}

/// Decodes the bytes `s[start..end]`.
pub fn form_decode_range(s: &[u8], start: usize, end: usize) -> (r: Vec<u8>)
    requires
        start <= end <= s@.len(),
    ensures
        r@ == form_decode(s@.subrange(start as int, end as int)),
{
    let mut out: Vec<u8> = Vec::new();
    let mut i: usize = start;
    while i < end
        invariant
            start <= i <= end <= s@.len(),
            out@ + form_decode(s@.subrange(i as int, end as int)) == form_decode(
                s@.subrange(start as int, end as int),
            ),
        decreases end - i,
    {
        let ghost rest = s@.subrange(i as int, end as int);
        let b = s[i];
        if b == 43 {
            out.push(32);
            i = i + 1;
            assert(rest.drop_first() =~= s@.subrange(i as int, end as int));
        } else if b == 37 && end - i >= 3 && is_hex_exec(s[i + 1]) && is_hex_exec(s[i + 2]) {
            let v = hex_value_exec(s[i + 1]) * 16 + hex_value_exec(s[i + 2]);
            out.push(v);
            i = i + 3;
            assert(rest.subrange(3, rest.len() as int) =~= s@.subrange(i as int, end as int));
        } else {
            out.push(b);
            i = i + 1;
            assert(rest.drop_first() =~= s@.subrange(i as int, end as int));
        }
        assert(out@ + form_decode(s@.subrange(i as int, end as int)) =~= (out@.drop_last() + seq![
            out@.last(),
        ]) + form_decode(s@.subrange(i as int, end as int)));
    }
    assert(form_decode(s@.subrange(i as int, end as int)) =~= seq![]);
    assert(out@ + seq![] =~= out@);
    out
}

} // verus!
