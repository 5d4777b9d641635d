//! Text building: decimal numerals, character pushes and byte-range
//! slices of the input, each with its meaning as a sequence of characters.
use vstd::prelude::*;
use vstd::string::StringSliceAdditionalSpecFns;

verus! {

/// The character of the decimal digit `d` (for `d < 10`).
pub open spec fn digit_char(d: nat) -> char {
    ((48 + d) as u8) as char
}

/// The decimal numeral of `n`, most significant digit first, without
/// leading zeros ("0" for zero).
pub open spec fn decimal(n: nat) -> Seq<char>
    decreases n,
{
    if n < 10 {
        seq![digit_char(n)]
    } else {
        decimal(n / 10) + seq![digit_char(n % 10)]
    }
}

/// The value of a sequence of decimal digit characters, most significant
/// first.
pub open spec fn numeral_value(cs: Seq<char>) -> int
    decreases cs.len(),
{
    if cs.len() == 0 {
        0
    } else {
        numeral_value(cs.drop_last()) * 10 + (cs.last() as int - 48)
    }
}

/// The decimal numeral of `n` reads back as `n`: it is made of decimal
/// digits, its value is `n`, and it has no leading zero (but for `n == 0`,
/// written "0").
pub proof fn decimal_reads_back(n: nat)
    ensures
        decimal(n).len() > 0,
        forall|i: int| 0 <= i < decimal(n).len() ==> '0' <= #[trigger] decimal(n)[i] <= '9',
        numeral_value(decimal(n)) == n,
        decimal(n)[0] == '0' ==> n == 0,
        n == 0 ==> decimal(n) == seq!['0'],
    decreases n,
{
    if n < 10 {
        assert(digit_char(n) as int == 48 + n);
        assert(decimal(n).drop_last() =~= Seq::<char>::empty());
        assert(numeral_value(decimal(n)) == numeral_value(Seq::<char>::empty()) * 10 + (digit_char(n) as int - 48));
    } else {
        decimal_reads_back(n / 10);
        let d = digit_char(n % 10);
        assert(d as int == 48 + n % 10);
        let a = decimal(n / 10);
        assert(decimal(n).drop_last() =~= a);
        assert(decimal(n)[0] == a[0]);
        assert(decimal(n).last() == d);
        assert(numeral_value(decimal(n)) == numeral_value(a) * 10 + (d as int - 48));
        assert(n == (n / 10) * 10 + n % 10);
    }
}

/// `String::push`: appends one character at the end of the string.
#[verifier::external_body]
pub fn push_char(s: &mut String, c: char)
    ensures
        final(s)@ == old(s)@.push(c),
{
    s.push(c);
}

/// Appends the decimal numeral of `n` to `s`.
pub fn push_decimal(s: &mut String, n: usize)
    ensures
        final(s)@ == old(s)@ + decimal(n as nat),
        numeral_value(final(s)@.skip(old(s)@.len() as int)) == n,
    decreases n,
{
    proof {
        decimal_reads_back(n as nat);
    }
    if n >= 10 {
        push_decimal(s, n / 10);
    }
    let d: u8 = (n % 10) as u8;
    let c: char = (48u8 + d) as char;
    proof {
        assert(c == digit_char((n % 10) as nat));
    }
    push_char(s, c);
    proof {
        if n >= 10 {
            assert(old(s)@ + decimal(n as nat) =~= old(s)@ + decimal((n / 10) as nat) + seq![c]);
        } else {
            assert(old(s)@ + decimal(n as nat) =~= old(s)@.push(c));
        }
        assert(s@.skip(old(s)@.len() as int) =~= decimal(n as nat));
    }
}

/// The characters of the bytes `start..end` of `s`.
pub open spec fn str_slice(s: &str, start: int, end: int) -> Seq<char> {
    vstd::utf8::decode_utf8(s.spec_bytes().subrange(start, end))
}

/// Whether `start..end` is a range of `s` that begins and ends on a
/// character boundary, so that `s` can be sliced by it.
pub open spec fn sliceable(s: &str, start: int, end: int) -> bool {
    &&& 0 <= start <= end <= s.spec_bytes().len()
    &&& vstd::utf8::is_char_boundary(s.spec_bytes(), start)
    &&& vstd::utf8::is_char_boundary(s.spec_bytes(), end)
}

/// A character boundary of a string that lies before a second boundary
/// `end` is also one of the string cut at `end`.
proof fn lemma_boundary_in_prefix(s: &str, start: int, end: int)
    requires
        sliceable(s, start, end),
    ensures
        vstd::utf8::is_char_boundary(s.spec_bytes().subrange(0, end), start),
{
    let bytes = s.spec_bytes();
    let pre = bytes.subrange(0, end);
    vstd::utf8::encode_utf8_valid_utf8(s@);
    vstd::utf8::valid_utf8_split(bytes, end);
    if start == end {
        vstd::utf8::is_char_boundary_start_end_of_seq(pre);
    } else if start > 0 {
        vstd::utf8::is_char_boundary_iff_not_is_continuation_byte(bytes, start);
        vstd::utf8::is_char_boundary_iff_not_is_continuation_byte(pre, start);
    }
}

/// The sub-slice of the bytes `start..end` of `s` (what `&s[start..end]`
/// gives), for a range whose ends lie on character boundaries within the
/// string.
pub fn slice_str<'a>(s: &'a str, start: usize, end: usize) -> (r: &'a str)
    requires
        sliceable(s, start as int, end as int),
    ensures
        r.spec_bytes() == s.spec_bytes().subrange(start as int, end as int),
{
    let (head, _) = s.split_at(end);
    proof {
        lemma_boundary_in_prefix(s, start as int, end as int);
    }
    let (_, r) = head.split_at(start);
    proof {
        assert(r.spec_bytes() =~= s.spec_bytes().subrange(start as int, end as int));
    }
    r
}

} // verus!
