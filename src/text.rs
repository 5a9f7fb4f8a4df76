use vstd::prelude::*;

verus! {

/// The lower-case hexadecimal digit of `d < 16`.
pub open spec fn hex_digit(d: nat) -> char {
    if d == 0 {
        '0'
    } else if d == 1 {
        '1'
    } else if d == 2 {
        '2'
    } else if d == 3 {
        '3'
    } else if d == 4 {
        '4'
    } else if d == 5 {
        '5'
    } else if d == 6 {
        '6'
    } else if d == 7 {
        '7'
    } else if d == 8 {
        '8'
    } else if d == 9 {
        '9'
    } else if d == 10 {
        'a'
    } else if d == 11 {
        'b'
    } else if d == 12 {
        'c'
    } else if d == 13 {
        'd'
    } else if d == 14 {
        'e'
    } else {
        'f'
    }
}

/// The upper-case hexadecimal digit of `d < 16`.
pub open spec fn upper_hex_digit(d: nat) -> char {
    if d == 0 {
        '0'
    } else if d == 1 {
        '1'
    } else if d == 2 {
        '2'
    } else if d == 3 {
        '3'
    } else if d == 4 {
        '4'
    } else if d == 5 {
        '5'
    } else if d == 6 {
        '6'
    } else if d == 7 {
        '7'
    } else if d == 8 {
        '8'
    } else if d == 9 {
        '9'
    } else if d == 10 {
        'A'
    } else if d == 11 {
        'B'
    } else if d == 12 {
        'C'
    } else if d == 13 {
        'D'
    } else if d == 14 {
        'E'
    } else {
        'F'
    }
}

/// `n` in lower-case hexadecimal, without leading zeros.
pub open spec fn hex_of(n: nat) -> Seq<char>
    decreases n,
{
    if n < 16 {
        seq![hex_digit(n)]
    } else {
        hex_of(n / 16).push(hex_digit(n % 16))
    }
}

/// `n` in decimal, without leading zeros.
pub open spec fn dec_of(n: nat) -> Seq<char>
    decreases n,
{
    if n < 10 {
        seq![hex_digit(n)]
    } else {
        dec_of(n / 10).push(hex_digit(n % 10))
    }
}

fn digit(d: u64) -> (r: &'static str)
    requires
        d < 16,
    ensures
        r@ == seq![hex_digit(d as nat)],
{
    proof {
        reveal_strlit("0");
        reveal_strlit("1");
        reveal_strlit("2");
        reveal_strlit("3");
        reveal_strlit("4");
        reveal_strlit("5");
        reveal_strlit("6");
        reveal_strlit("7");
        reveal_strlit("8");
        reveal_strlit("9");
        reveal_strlit("a");
        reveal_strlit("b");
        reveal_strlit("c");
        reveal_strlit("d");
        reveal_strlit("e");
        reveal_strlit("f");
    }
    let r = match d {
        0 => "0",
        1 => "1",
        2 => "2",
        3 => "3",
        4 => "4",
        5 => "5",
        6 => "6",
        7 => "7",
        8 => "8",
        9 => "9",
        10 => "a",
        11 => "b",
        12 => "c",
        13 => "d",
        14 => "e",
        _ => "f",
    };
    assert(r@ =~= seq![hex_digit(d as nat)]);
    r
}

/// The upper-case hexadecimal digit of `d < 16`, as text.
pub fn upper_digit(d: u8) -> (r: &'static str)
    requires
        d < 16,
    ensures
        r@ == seq![upper_hex_digit(d as nat)],
{
    proof {
        reveal_strlit("0");
        reveal_strlit("1");
        reveal_strlit("2");
        reveal_strlit("3");
        reveal_strlit("4");
        reveal_strlit("5");
        reveal_strlit("6");
        reveal_strlit("7");
        reveal_strlit("8");
        reveal_strlit("9");
        reveal_strlit("A");
        reveal_strlit("B");
        reveal_strlit("C");
        reveal_strlit("D");
        reveal_strlit("E");
        reveal_strlit("F");
    }
    let r = match d {
        0 => "0",
        1 => "1",
        2 => "2",
        3 => "3",
        4 => "4",
        5 => "5",
        6 => "6",
        7 => "7",
        8 => "8",
        9 => "9",
        10 => "A",
        11 => "B",
        12 => "C",
        13 => "D",
        14 => "E",
        _ => "F",
    };
    assert(r@ =~= seq![upper_hex_digit(d as nat)]);
    r
}

/// Appends `n` in lower-case hexadecimal.
pub fn push_hex(out: &mut String, n: u64)
    ensures
        final(out)@ == old(out)@ + hex_of(n as nat),
    decreases n,
{
    if n >= 16 {
        push_hex(out, n / 16);
    }
    out.append(digit(n % 16));
    assert(old(out)@ + hex_of(n as nat) =~= if n >= 16 {
        old(out)@ + hex_of((n / 16) as nat) + seq![hex_digit((n % 16) as nat)]
    } else {
        old(out)@ + seq![hex_digit(n as nat)]
    });
}

/// Appends `n` in decimal.
pub fn push_dec(out: &mut String, n: u64)
    ensures
        final(out)@ == old(out)@ + dec_of(n as nat),
    decreases n,
{
    if n >= 10 {
        push_dec(out, n / 10);
    }
    out.append(digit(n % 10));
    assert(old(out)@ + dec_of(n as nat) =~= if n >= 10 {
        old(out)@ + dec_of((n / 10) as nat) + seq![hex_digit((n % 10) as nat)]
    } else {
        old(out)@ + seq![hex_digit(n as nat)]
    });
}


/// A character that is a digit of [`hex_of`].
pub open spec fn is_hex_digit(c: char) -> bool {
    exists|d: nat| d < 16 && c == hex_digit(d)
}

proof fn lemma_hex_digits(n: nat)
    ensures
        hex_of(n).len() >= 1,
        n >= 16 ==> hex_of(n).len() >= 2,
        forall|i: int| 0 <= i < hex_of(n).len() ==> is_hex_digit(#[trigger] hex_of(n)[i]),
    decreases n,
{
    if n < 16 {
        assert(is_hex_digit(hex_digit(n)));
    } else {
        lemma_hex_digits(n / 16);
        assert(is_hex_digit(hex_digit(n % 16)));
        let h = hex_of(n);
        assert forall|i: int| 0 <= i < h.len() implies is_hex_digit(#[trigger] h[i]) by {
            if i < h.len() - 1 {
                assert(h[i] == hex_of(n / 16)[i]);
            }
        }
    }
}

/// Distinct numbers have distinct hexadecimal texts.
pub proof fn lemma_hex_injective(n: nat, m: nat)
    requires
        hex_of(n) == hex_of(m),
    ensures
        n == m,
    decreases n,
{
    lemma_hex_digits(n);
    lemma_hex_digits(m);
    if n < 16 && m < 16 {
        assert(hex_of(n)[0] == hex_digit(n));
        assert(hex_of(m)[0] == hex_digit(m));
    } else if n >= 16 && m >= 16 {
        assert(hex_of(n).drop_last() =~= hex_of(n / 16));
        assert(hex_of(m).drop_last() =~= hex_of(m / 16));
        lemma_hex_injective(n / 16, m / 16);
        assert(hex_of(n).last() == hex_digit(n % 16));
        assert(hex_of(m).last() == hex_digit(m % 16));
        assert(n % 16 == m % 16);
        assert(n == 16 * (n / 16) + n % 16) by (nonlinear_arith);
        assert(m == 16 * (m / 16) + m % 16) by (nonlinear_arith);
    }
}

/// No hexadecimal text holds `c` when `c` is no digit.
pub proof fn lemma_hex_lacks(n: nat, c: char)
    requires
        !is_hex_digit(c),
    ensures
        forall|i: int| 0 <= i < hex_of(n).len() ==> #[trigger] hex_of(n)[i] != c,
{
    lemma_hex_digits(n);
}

/// Text before a separator that it does not hold is read back unchanged.
pub proof fn lemma_split_at(x1: Seq<char>, y1: Seq<char>, x2: Seq<char>, y2: Seq<char>, sep: char)
    requires
        x1 + seq![sep] + y1 == x2 + seq![sep] + y2,
        forall|i: int| 0 <= i < x1.len() ==> #[trigger] x1[i] != sep,
        forall|i: int| 0 <= i < x2.len() ==> #[trigger] x2[i] != sep,
    ensures
        x1 == x2,
        y1 == y2,
{
    let a = x1 + seq![sep] + y1;
    let b = x2 + seq![sep] + y2;
    if x1.len() < x2.len() {
        assert(a[x1.len() as int] == sep);
        assert(b[x1.len() as int] == x2[x1.len() as int]);
    } else if x2.len() < x1.len() {
        assert(b[x2.len() as int] == sep);
        assert(a[x2.len() as int] == x1[x2.len() as int]);
    } else {
        assert(x1 =~= a.subrange(0, x1.len() as int));
        assert(x2 =~= b.subrange(0, x2.len() as int));
        assert(y1 =~= a.subrange(x1.len() as int + 1, a.len() as int));
        assert(y2 =~= b.subrange(x2.len() as int + 1, b.len() as int));
    }
}

} // verus!
