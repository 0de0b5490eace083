use vstd::prelude::*;

verus! {

/// Relies on `String::push`: appends one character.
#[verifier::external_body]
pub(crate) fn push_char(s: &mut String, c: char)
    ensures
        final(s)@ == old(s)@.push(c),
{
    s.push(c);
}

/// The characters of `s` in order.
pub(crate) fn chars_of(s: &str) -> (r: Vec<char>)
    ensures
        r@ == s@,
{
    let n = s.unicode_len();
    let mut out: Vec<char> = Vec::new();
    let mut i: usize = 0;
    while i < n
        invariant
            i <= n,
            n == s@.len(),
            out@ == s@.subrange(0, i as int),
        decreases n - i,
    {
        out.push(s.get_char(i));
        i = i + 1;
        proof {
            assert(out@ =~= s@.subrange(0, i as int));
        }
    }
    proof {
        assert(s@.subrange(0, i as int) =~= s@);
    }
    out
}

/// The decimal digits of `n`, most significant first, without leading zeros ("0" for zero).
pub open spec fn decimal(n: nat) -> Seq<char>
    decreases n,
{
    if n < 10 {
        seq![(('0' as u8) + n) as char]
    } else {
        decimal(n / 10).push((('0' as u8) + (n % 10)) as char)
    }
}

/// Appends the decimal digits of `n`.
pub fn push_decimal(s: &mut String, n: u32)
    ensures
        final(s)@ == old(s)@ + decimal(n as nat),
    decreases n,
{
    if n < 10 {
        push_char(s, (('0' as u8) + (n as u8)) as char);
        assert(s@ =~= old(s)@ + decimal(n as nat));
    } else {
        push_decimal(s, n / 10);
        push_char(s, (('0' as u8) + ((n % 10) as u8)) as char);
        assert(s@ =~= old(s)@ + decimal(n as nat));
    }
}

/// The value of a run of decimal digits.
pub open spec fn digits_value(d: Seq<char>) -> nat
    decreases d.len(),
{
    if d.len() == 0 {
        0
    } else {
        digits_value(d.drop_last()) * 10 + ((d.last() as u8) - ('0' as u8)) as nat
    }
}

pub open spec fn is_digit(c: char) -> bool {
    '0' <= c <= '9'
}

pub open spec fn all_digits(d: Seq<char>) -> bool {
    forall|i: int| 0 <= i < d.len() ==> is_digit(d[i])
}

/// Reads a run of decimal digits; `None` when it is empty, holds another character, or its value
/// exceeds `max`.
pub fn parse_decimal(d: &[char], max: u32) -> (r: Option<u32>)
    ensures
        r.is_some() <==> (d@.len() > 0 && all_digits(d@) && digits_value(d@) <= max),
        r.is_some() ==> r.unwrap() == digits_value(d@),
{
    if d.len() == 0 {
        return None;
    }
    let mut v: u64 = 0;
    let mut i: usize = 0;
    while i < d.len()
        invariant
            0 <= i <= d@.len(),
            all_digits(d@.subrange(0, i as int)),
            v == digits_value(d@.subrange(0, i as int)),
            v <= max,
        decreases d@.len() - i,
    {
        let c = d[i];
        if !('0' <= c && c <= '9') {
            proof {
                assert(!is_digit(d@[i as int]));
            }
            return None;
        }
        proof {
            assert(d@.subrange(0, i + 1).drop_last() =~= d@.subrange(0, i as int));
        }
        v = v * 10 + ((c as u8) - ('0' as u8)) as u64;
        if v > max as u64 {
            proof {
                lemma_digits_prefix_grows(d@, (i + 1) as int);
            }
            return None;
        }
        i = i + 1;
        proof {
            assert forall|k: int| 0 <= k < i implies is_digit(d@.subrange(0, i as int)[k]) by {
                if k < i - 1 {
                    assert(d@.subrange(0, i as int)[k] == d@.subrange(0, i - 1)[k]);
                }
            }
        }
    }
    proof {
        assert(d@.subrange(0, i as int) =~= d@);
    }
    Some(v as u32)
}

/// A longer run of digits never has a smaller value than its prefix.
proof fn lemma_digits_prefix_grows(d: Seq<char>, i: int)
    requires
        0 <= i <= d.len(),
        all_digits(d.subrange(0, i)),
    ensures
        all_digits(d) ==> digits_value(d.subrange(0, i)) <= digits_value(d),
    decreases d.len() - i,
{
    if i < d.len() && all_digits(d) {
        assert(all_digits(d.subrange(0, i + 1)));
        lemma_digits_prefix_grows(d, i + 1);
        assert(d.subrange(0, i + 1).drop_last() =~= d.subrange(0, i));
    } else if all_digits(d) {
        assert(d.subrange(0, i) =~= d);
    }
}

} // verus!
