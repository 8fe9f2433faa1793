//! Numbers written into `String`s.
use vstd::prelude::*;
use crate::fields::{
    all_digits, digits_of, fixed_text, lemma_digits_of, push_digits, push_fixed, push_short_fixed,
    short_fixed_text, short_fraction,
};

verus! {

/// ASCII bytes read as characters.
pub open spec fn text_of(b: Seq<u8>) -> Seq<char> {
    b.map_values(|c: u8| c as char)
}

pub open spec fn number_byte(b: u8) -> bool {
    (48 <= b && b <= 57) || b == 45 || b == 46
}

fn push_number_byte(s: &mut String, b: u8)
    requires
        number_byte(b),
    ensures
        final(s)@ == old(s)@.push(b as char),
{
    proof {
        reveal_strlit("0");
        reveal_strlit("1");
        reveal_strlit("2");
        reveal_strlit("3");
        reveal_strlit("4");
        reveal_strlit("5");
        reveal_strlit("6");
        reveal_strlit("7");
        reveal_strlit("8");
        reveal_strlit("9");
        reveal_strlit("-");
        reveal_strlit(".");
    }
    let piece = match b {
        48 => "0",
        49 => "1",
        50 => "2",
        51 => "3",
        52 => "4",
        53 => "5",
        54 => "6",
        55 => "7",
        56 => "8",
        57 => "9",
        45 => "-",
        _ => ".",
    };
    s.append(piece);
    assert(final(s)@ =~= old(s)@.push(b as char));
}

fn push_number_bytes(s: &mut String, b: &Vec<u8>)
    requires
        forall|i: int| 0 <= i < b@.len() ==> number_byte(#[trigger] b@[i]),
    ensures
        final(s)@ == old(s)@ + text_of(b@),
{
    let ghost start = s@;
    let mut i: usize = 0;
    while i < b.len()
        invariant
            i <= b@.len(),
            forall|k: int| 0 <= k < b@.len() ==> number_byte(#[trigger] b@[k]),
            s@ == start + text_of(b@.take(i as int)),
        decreases b@.len() - i,
    {
        push_number_byte(s, b[i]);
        assert(text_of(b@.take(i + 1)) =~= text_of(b@.take(i as int)).push(b@[i as int] as char));
        assert(s@ =~= start + text_of(b@.take(i + 1)));
        i = i + 1;
    }
    assert(b@.take(b@.len() as int) =~= b@);
}

proof fn lemma_digits_are_number_bytes(n: nat)
    ensures
        forall|i: int| 0 <= i < digits_of(n).len() ==> number_byte(#[trigger] digits_of(n)[i]),
{
    lemma_digits_of(n);
    assert(all_digits(digits_of(n)));
}

proof fn lemma_fixed_are_number_bytes(v: int)
    ensures
        forall|i: int| 0 <= i < fixed_text(v).len() ==> number_byte(#[trigger] fixed_text(v)[i]),
{
    let m = (if v < 0 {
        -v
    } else {
        v
    }) as nat;
    lemma_digits_of(m / 1000);
    let ip = digits_of(m / 1000);
    let body = ip + seq![46u8] + crate::fields::frac3(m % 1000);
    assert forall|i: int| 0 <= i < body.len() implies number_byte(#[trigger] body[i]) by {
        if i < ip.len() {
            assert(crate::fields::is_digit(ip[i]));
        }
    }
    let t = fixed_text(v);
    assert forall|i: int| 0 <= i < t.len() implies number_byte(#[trigger] t[i]) by {
        if v < 0 && i > 0 {
            assert(t[i] == body[i - 1]);
        }
    }
}

/// Appends the decimal digits of `n`.
pub fn push_uint_text(s: &mut String, n: u64)
    ensures
        final(s)@ == old(s)@ + text_of(digits_of(n as nat)),
{
    let mut b: Vec<u8> = Vec::new();
    push_digits(&mut b, n);
    assert(b@ =~= digits_of(n as nat));
    proof {
        lemma_digits_are_number_bytes(n as nat);
    }
    push_number_bytes(s, &b);
}

/// Appends `v`, in thousandths, with three fractional digits.
pub fn push_fixed_text(s: &mut String, v: i64)
    ensures
        final(s)@ == old(s)@ + text_of(fixed_text(v as int)),
{
    let mut b: Vec<u8> = Vec::new();
    push_fixed(&mut b, v);
    assert(b@ =~= fixed_text(v as int));
    proof {
        lemma_fixed_are_number_bytes(v as int);
    }
    push_number_bytes(s, &b);
}

/// `v`, in thousandths, written with three fractional digits (`-45.000`).
pub fn fixed_string(v: i64) -> (r: String)
    ensures
        r@ == text_of(fixed_text(v as int)),
{
    let mut s = String::new();
    push_fixed_text(&mut s, v);
    assert(s@ =~= text_of(fixed_text(v as int)));
    s
}


proof fn lemma_short_are_number_bytes(v: int)
    ensures
        forall|i: int|
            0 <= i < short_fixed_text(v).len() ==> number_byte(#[trigger] short_fixed_text(v)[i]),
{
    let m = (if v < 0 {
        -v
    } else {
        v
    }) as nat;
    lemma_digits_of(m / 1000);
    let ip = digits_of(m / 1000);
    let fr = short_fraction(m % 1000);
    let body = ip + fr;
    assert forall|i: int| 0 <= i < fr.len() implies number_byte(#[trigger] fr[i]) by {
        let r = m % 1000;
        if r != 0 && r % 100 != 0 && r % 10 != 0 && i > 0 {
            assert(fr[i] == crate::fields::frac3(r)[i - 1]);
        }
    }
    assert forall|i: int| 0 <= i < body.len() implies number_byte(#[trigger] body[i]) by {
        if i < ip.len() {
            assert(crate::fields::is_digit(ip[i]));
        } else {
            assert(body[i] == fr[i - ip.len()]);
        }
    }
    let t = short_fixed_text(v);
    assert forall|i: int| 0 <= i < t.len() implies number_byte(#[trigger] t[i]) by {
        if v < 0 && i > 0 {
            assert(t[i] == body[i - 1]);
        } else if v >= 0 {
            assert(t[i] == body[i]);
        }
    }
}

/// Appends `v`, in thousandths, as the shortest decimal (`-45.5`).
pub fn push_short_fixed_text(s: &mut String, v: i64)
    ensures
        final(s)@ == old(s)@ + text_of(short_fixed_text(v as int)),
{
    let mut b: Vec<u8> = Vec::new();
    push_short_fixed(&mut b, v);
    assert(b@ =~= short_fixed_text(v as int));
    proof {
        lemma_short_are_number_bytes(v as int);
    }
    push_number_bytes(s, &b);
}

/// `v`, in thousandths, written as the shortest decimal (`-45.5`, `5`).
pub fn short_fixed_string(v: i64) -> (r: String)
    ensures
        r@ == text_of(short_fixed_text(v as int)),
{
    let mut s = String::new();
    push_short_fixed_text(&mut s, v);
    assert(s@ =~= text_of(short_fixed_text(v as int)));
    s
}

} // verus!
