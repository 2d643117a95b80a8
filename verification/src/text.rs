//! The pieces of text that the emitted documents and their comments are made
//! of: decimal numbers and lists of bytes.

use vstd::prelude::*;
use vstd::string::StringExecFns;

verus! {

/// The character of a decimal digit.
pub open spec fn digit(d: nat) -> char {
    if d == 0 {
        '0'
    } else if d == 1 {
        '1'
    } else if d == 2 {
        '2'
    } else if d == 3 {
        '3'
    } else if d == 4 {
        '4'
    } else if d == 5 {
        '5'
    } else if d == 6 {
        '6'
    } else if d == 7 {
        '7'
    } else if d == 8 {
        '8'
    } else {
        '9'
    }
}

/// The decimal form of `n`, without leading zeros.
pub open spec fn decimal(n: nat) -> Seq<char>
    decreases n,
{
    if n < 10 {
        seq![digit(n)]
    } else {
        decimal(n / 10).push(digit(n % 10))
    }
}

/// The first `n` bytes of `bytes`, each in decimal, separated by a comma and
/// a space.
pub open spec fn bytes_run(bytes: Seq<u8>, n: nat) -> Seq<char>
    decreases n,
{
    if n == 0 || n > bytes.len() {
        Seq::empty()
    } else if n == 1 {
        decimal(bytes[0] as nat)
    } else {
        bytes_run(bytes, (n - 1) as nat) + seq![',', ' '] + decimal(bytes[n - 1] as nat)
    }
}

/// A list of bytes as text: the bytes in decimal, separated by a comma and a
/// space, within square brackets.
pub open spec fn bytes_text(bytes: Seq<u8>) -> Seq<char> {
    seq!['['] + bytes_run(bytes, bytes.len()) + seq![']']
}

/// The text of one decimal digit.
fn digit_str(d: usize) -> (s: &'static str)
    requires
        d < 10,
    ensures
        s@ == seq![digit(d as nat)],
{
    proof {
        reveal_strlit("0");
        reveal_strlit("1");
        reveal_strlit("2");
        reveal_strlit("3");
        reveal_strlit("4");
        reveal_strlit("5");
        reveal_strlit("6");
        reveal_strlit("7");
        reveal_strlit("8");
        reveal_strlit("9");
    }
    let s = if d == 0 {
        "0"
    } else if d == 1 {
        "1"
    } else if d == 2 {
        "2"
    } else if d == 3 {
        "3"
    } else if d == 4 {
        "4"
    } else if d == 5 {
        "5"
    } else if d == 6 {
        "6"
    } else if d == 7 {
        "7"
    } else if d == 8 {
        "8"
    } else {
        "9"
    };
    assert(s@ =~= seq![digit(d as nat)]);
    s
}

/// Appends `n` in decimal to `out`.
pub fn push_decimal(out: &mut String, n: usize)
    ensures
        final(out)@ == old(out)@ + decimal(n as nat),
    decreases n,
{
    if n >= 10 {
        push_decimal(out, n / 10);
    }
    out.append(digit_str(n % 10));
    assert(out@ =~= old(out)@ + decimal(n as nat));
}

/// Appends a list of bytes as text to `out`.
pub fn push_bytes(out: &mut String, bytes: &[u8])
    ensures
        final(out)@ == old(out)@ + bytes_text(bytes@),
{
    proof {
        reveal_strlit("[");
        reveal_strlit("]");
        reveal_strlit(", ");
    }
    out.append("[");
    let mut i: usize = 0;
    while i < bytes.len()
        invariant
            i <= bytes.len(),
            out@ == old(out)@ + seq!['['] + bytes_run(bytes@, i as nat),
        decreases bytes.len() - i,
    {
        let ghost before = out@;
        if i > 0 {
            out.append(", ");
        }
        push_decimal(out, bytes[i] as usize);
        proof {
            reveal_strlit(", ");
            assert(", "@ =~= seq![',', ' ']);
            let d = decimal(bytes@[i as int] as nat);
            if i == 0 {
                assert(bytes_run(bytes@, 0) =~= Seq::<char>::empty());
                assert(bytes_run(bytes@, 1) == d);
                assert(out@ =~= before + d);
            } else {
                assert(bytes_run(bytes@, (i + 1) as nat) == bytes_run(bytes@, i as nat) + seq![
                    ',',
                    ' ',
                ] + d);
                assert(out@ =~= before + seq![',', ' '] + d);
            }
        }
        assert(out@ =~= old(out)@ + seq!['['] + bytes_run(bytes@, (i + 1) as nat));
        i += 1;
    }
    out.append("]");
    assert(out@ =~= old(out)@ + bytes_text(bytes@));
}

} // verus!
