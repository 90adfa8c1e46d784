use vstd::prelude::*;
use vstd::string::StringExecFns;

verus! {

/// The character of decimal digit `d`.
pub open spec fn digit_char(d: int) -> char {
    if d == 0 {
        '0'
    } else if d == 1 {
        '1'
    } else if d == 2 {
        '2'
    } else if d == 3 {
        '3'
    } else if d == 4 {
        '4'
    } else if d == 5 {
        '5'
    } else if d == 6 {
        '6'
    } else if d == 7 {
        '7'
    } else if d == 8 {
        '8'
    } else {
        '9'
    }
}

/// The decimal digits of `n`, without leading zeros ("0" for zero).
pub open spec fn decimal(n: nat) -> Seq<char>
    decreases n,
{
    if n < 10 {
        seq![digit_char(n as int)]
    } else {
        decimal(n / 10).push(digit_char((n % 10) as int))
    }
}

/// `n` in decimal, left-padded with zeros to at least `width` characters.
pub open spec fn zero_padded(n: nat, width: nat) -> Seq<char> {
    let d = decimal(n);
    if d.len() < width {
        Seq::new((width - d.len()) as nat, |i: int| '0') + d
    } else {
        d
    }
}

/// `n` in decimal with a comma between each group of three digits.
pub open spec fn with_commas(n: nat) -> Seq<char>
    decreases n,
{
    if n < 1000 {
        decimal(n)
    } else {
        with_commas(n / 1000) + seq![','] + zero_padded(n % 1000, 3)
    }
}

proof fn lemma_decimal_len(n: nat)
    ensures
        n < 10 ==> decimal(n).len() == 1,
        10 <= n < 100 ==> decimal(n).len() == 2,
        100 <= n < 1000 ==> decimal(n).len() == 3,
        decimal(n).len() >= 1,
    decreases n,
{
    if n >= 10 {
        lemma_decimal_len(n / 10);
    }
}

fn digit_str(d: u64) -> (r: &'static str)
    requires
        d < 10,
    ensures
        r@ == seq![digit_char(d as int)],
{
    proof {
        reveal_strlit("0");
        reveal_strlit("1");
        reveal_strlit("2");
        reveal_strlit("3");
        reveal_strlit("4");
        reveal_strlit("5");
        reveal_strlit("6");
        reveal_strlit("7");
        reveal_strlit("8");
        reveal_strlit("9");
    }
    match d {
        0 => "0",
        1 => "1",
        2 => "2",
        3 => "3",
        4 => "4",
        5 => "5",
        6 => "6",
        7 => "7",
        8 => "8",
        _ => "9",
    }
}

/// Appends the decimal digits of `n` to `out`.
pub fn push_decimal(out: &mut String, n: u64)
    ensures
        final(out)@ == old(out)@ + decimal(n as nat),
    decreases n,
{
    if n >= 10 {
        push_decimal(out, n / 10);
    }
    out.append(digit_str(n % 10));
    proof {
        if n >= 10 {
            assert(decimal(n as nat) == decimal((n / 10) as nat).push(digit_char((n % 10) as int)));
        }
    }
    assert(final(out)@ =~= old(out)@ + decimal(n as nat));
}

/// Appends `n` in decimal, left-padded with zeros to `width` characters.
pub fn push_zero_padded(out: &mut String, n: u64, width: u64)
    requires
        width <= 8,
    ensures
        final(out)@ == old(out)@ + zero_padded(n as nat, width as nat),
{
    let mut len: u64 = 1;
    let mut rest = n;
    while rest >= 10 && len < 9
        invariant
            1 <= len <= 9,
            decimal(n as nat).len() == len - 1 + decimal(rest as nat).len(),
        decreases rest,
    {
        proof {
            lemma_decimal_len(rest as nat);
        }
        assert(decimal(rest as nat).len() == decimal((rest / 10) as nat).len() + 1);
        rest = rest / 10;
        len = len + 1;
    }
    proof {
        lemma_decimal_len(rest as nat);
    }
    let ghost start = out@;
    proof {
        reveal_strlit("0");
    }
    if len < width {
        let mut pad = len;
        while pad < width
            invariant
                len == decimal(n as nat).len(),
                len <= pad <= width,
                width <= 8,
                out@ == start + Seq::new((pad - len) as nat, |i: int| '0'),
            decreases width - pad,
        {
            proof {
                reveal_strlit("0");
            }
            out.append("0");
            pad = pad + 1;
            assert(out@ =~= start + Seq::new((pad - len) as nat, |i: int| '0'));
        }
    } else {
        assert(out@ =~= start + Seq::new(0, |i: int| '0'));
    }
    push_decimal(out, n);
    assert(out@ =~= start + zero_padded(n as nat, width as nat));
}

/// Whether two strings hold the same characters.
pub fn same_text(a: &str, b: &str) -> (r: bool)
    ensures
        r == (a@ == b@),
{
    String::from_str(a) == String::from_str(b)
}

/// Formats `input` in decimal with a comma between each group of three digits.
pub fn add_commas(input: u64) -> (r: String)
    ensures
        r@ == with_commas(input as nat),
{
    let mut out = String::new();
    push_with_commas(&mut out, input);
    assert(out@ =~= with_commas(input as nat));
    out
}

/// Appends `n` in decimal with a comma between each group of three digits.
pub fn push_with_commas(out: &mut String, n: u64)
    ensures
        final(out)@ == old(out)@ + with_commas(n as nat),
    decreases n,
{
    if n < 1000 {
        push_decimal(out, n);
    } else {
        push_with_commas(out, n / 1000);
        proof {
            reveal_strlit(",");
        }
        out.append(",");
        push_zero_padded(out, n % 1000, 3);
        assert(final(out)@ =~= old(out)@ + with_commas(n as nat));
    }
}

} // verus!
