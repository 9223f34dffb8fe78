use vstd::prelude::*;

verus! {

/// The character for the decimal digit `d`.
pub open spec fn digit_char(d: nat) -> char {
    if d == 0 {
        '0'
    } else if d == 1 {
        '1'
    } else if d == 2 {
        '2'
    } else if d == 3 {
        '3'
    } else if d == 4 {
        '4'
    } else if d == 5 {
        '5'
    } else if d == 6 {
        '6'
    } else if d == 7 {
        '7'
    } else if d == 8 {
        '8'
    } else {
        '9'
    }
}

/// The decimal text of `n`, most significant digit first, no padding.
pub open spec fn dec_text(n: nat) -> Seq<char>
    decreases n,
{
    if n < 10 {
        seq![digit_char(n)]
    } else {
        dec_text(n / 10).push(digit_char(n % 10))
    }
}

/// `k` zero characters.
pub open spec fn zeroes(k: nat) -> Seq<char>
    decreases k,
{
    if k == 0 {
        Seq::empty()
    } else {
        zeroes((k - 1) as nat).push('0')
    }
}

/// The decimal text of `n`, zero-padded on the left to at least `width`
/// characters.
pub open spec fn padded_text(n: nat, width: nat) -> Seq<char> {
    if dec_text(n).len() >= width {
        dec_text(n)
    } else {
        zeroes((width - dec_text(n).len()) as nat) + dec_text(n)
    }
}

/// The one-character string for the decimal digit `d`.
fn digit_str(d: u64) -> (r: &'static str)
    requires
        d < 10,
    ensures
        r@ == seq![digit_char(d as nat)],
{
    proof {
        reveal_strlit("0");
        reveal_strlit("1");
        reveal_strlit("2");
        reveal_strlit("3");
        reveal_strlit("4");
        reveal_strlit("5");
        reveal_strlit("6");
        reveal_strlit("7");
        reveal_strlit("8");
        reveal_strlit("9");
    }
    if d == 0 {
        "0"
    } else if d == 1 {
        "1"
    } else if d == 2 {
        "2"
    } else if d == 3 {
        "3"
    } else if d == 4 {
        "4"
    } else if d == 5 {
        "5"
    } else if d == 6 {
        "6"
    } else if d == 7 {
        "7"
    } else if d == 8 {
        "8"
    } else {
        "9"
    }
}

/// Renders `n` in decimal.
pub fn dec_string(n: u64) -> (s: String)
    ensures
        s@ == dec_text(n as nat),
    decreases n,
{
    if n < 10 {
        let s = String::from_str(digit_str(n));
        proof {
            assert(s@ =~= dec_text(n as nat));
        }
        s
    } else {
        let mut s = dec_string(n / 10);
        s.append(digit_str(n % 10));
        proof {
            assert(s@ =~= dec_text(n as nat));
        }
        s
    }
}

/// The number of digits `dec_text` renders `n` with.
pub proof fn lemma_dec_text_len(n: nat)
    ensures
        n < 10 ==> dec_text(n).len() == 1,
        10 <= n < 100 ==> dec_text(n).len() == 2,
        100 <= n < 1000 ==> dec_text(n).len() == 3,
        1000 <= n < 10000 ==> dec_text(n).len() == 4,
        10000 <= n ==> dec_text(n).len() >= 5,
    decreases n,
{
    if n >= 10 {
        lemma_dec_text_len(n / 10);
    }
}

/// Renders `n` in decimal, zero-padded on the left to at least `width`
/// characters.
pub fn padded_string(n: u64, width: usize) -> (s: String)
    ensures
        s@ == padded_text(n as nat, width as nat),
{
    proof {
        lemma_dec_text_len(n as nat);
        reveal_strlit("0");
    }
    let d = dec_string(n);
    let len = d.as_str().unicode_len();
    if len >= width {
        proof {
            assert(d@ =~= padded_text(n as nat, width as nat));
        }
        return d;
    }
    let mut s = String::new();
    let mut i: usize = 0;
    while i < width - len
        invariant
            len == dec_text(n as nat).len(),
            len < width,
            i <= width - len,
            s@ =~= zeroes(i as nat),
            "0"@ == seq!['0'],
        decreases width - len - i,
    {
        s.append("0");
        proof {
            assert(s@ =~= zeroes((i + 1) as nat));
        }
        i = i + 1;
    }
    s.append(d.as_str());
    proof {
        assert(s@ =~= padded_text(n as nat, width as nat));
    }
    s
}

} // verus!
