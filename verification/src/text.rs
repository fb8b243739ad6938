use vstd::prelude::*;

verus! {

/// Appends one character to a string (`String::push`); the contract claims only
/// that the string's characters gain `c` at the end.
#[verifier::external_body]
pub(crate) fn push_char(s: &mut String, c: char)
    ensures
        final(s)@ == old(s)@.push(c),
{
    s.push(c);
}

/// The decimal digits of `n`, most significant first, with no leading zeros
/// ("0" for zero).
pub open spec fn decimal(n: nat) -> Seq<char>
    decreases n,
{
    if n < 10 {
        seq![digit_char(n)]
    } else {
        decimal(n / 10).push(digit_char(n % 10))
    }
}

pub open spec fn digit_char(d: nat) -> char {
    ('0' as nat + d) as char
}

/// Appends the decimal form of `n` to `s`.
pub fn push_decimal(s: &mut String, n: u32)
    ensures
        final(s)@ == old(s)@ + decimal(n as nat),
    decreases n,
{
    if n >= 10 {
        push_decimal(s, n / 10);
    }
    let d = (n % 10) as u8;
    push_char(s, (48u8 + d) as char);
    proof {
        assert(n < 10 ==> decimal(n as nat) == seq![digit_char(n as nat)]);
    }
}

/// The decimal forms of the numbers, separated by commas.
pub open spec fn joined_decimals(items: Seq<u32>) -> Seq<char>
    decreases items.len(),
{
    if items.len() == 0 {
        Seq::empty()
    } else if items.len() == 1 {
        decimal(items[0] as nat)
    } else {
        joined_decimals(items.drop_last()).push(',') + decimal(items.last() as nat)
    }
}

/// The numbers in square brackets, separated by commas, such as `[1,5,9]`.
pub open spec fn bracketed(items: Seq<u32>) -> Seq<char> {
    seq!['['] + joined_decimals(items) + seq![']']
}

/// Formats the numbers in square brackets, separated by commas.
pub fn bracketed_list(items: &Vec<u32>) -> (r: String)
    ensures
        r@ == bracketed(items@),
{
    let mut s = String::new();
    push_char(&mut s, '[');
    let mut i: usize = 0;
    while i < items.len()
        invariant
            i <= items.len(),
            s@ == seq!['['] + joined_decimals(items@.subrange(0, i as int)),
        decreases items.len() - i,
    {
        if i > 0 {
            push_char(&mut s, ',');
        }
        push_decimal(&mut s, items[i]);
        proof {
            let prefix = items@.subrange(0, i as int + 1);
            assert(prefix.drop_last() =~= items@.subrange(0, i as int));
        }
        i = i + 1;
    }
    push_char(&mut s, ']');
    proof {
        assert(items@.subrange(0, items.len() as int) =~= items@);
    }
    s
}

} // verus!
