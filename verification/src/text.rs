//! Text for reports: decimal integers and padding.
use vstd::prelude::*;
use vstd::string::{StrSliceExecFns, StringExecFns};

verus! {

/// The decimal digit of a number below ten.
pub open spec fn digit(d: nat) -> char {
    ('0' as u32 + d) as char
}

/// A natural number in decimal notation, without leading zeros.
pub open spec fn decimal(n: nat) -> Seq<char>
    decreases n,
{
    if n < 10 {
        seq![digit(n)]
    } else {
        decimal(n / 10).push(digit(n % 10))
    }
}

/// `n` spaces.
pub open spec fn spaces(n: nat) -> Seq<char> {
    Seq::new(n, |i: int| ' ')
}

/// A text aligned right in a field of the given width; a longer text is kept.
pub open spec fn right_aligned(text: Seq<char>, width: nat) -> Seq<char> {
    if text.len() < width {
        spaces((width - text.len()) as nat) + text
    } else {
        text
    }
}

fn digit_text(d: u64) -> (r: &'static str)
    requires
        d < 10,
    ensures
        r@ == seq![digit(d as nat)],
{
    proof {
        reveal_strlit("0");
        reveal_strlit("1");
        reveal_strlit("2");
        reveal_strlit("3");
        reveal_strlit("4");
        reveal_strlit("5");
        reveal_strlit("6");
        reveal_strlit("7");
        reveal_strlit("8");
        reveal_strlit("9");
    }
    let r = match d {
        0 => "0",
        1 => "1",
        2 => "2",
        3 => "3",
        4 => "4",
        5 => "5",
        6 => "6",
        7 => "7",
        8 => "8",
        _ => "9",
    };
    assert(r@ =~= seq![digit(d as nat)]);
    r
}

/// Appends a number in decimal notation.
pub fn append_decimal(out: &mut String, n: u64)
    ensures
        final(out)@ == old(out)@ + decimal(n as nat),
    decreases n,
{
    if n < 10 {
        out.append(digit_text(n));
    } else {
        append_decimal(out, n / 10);
        out.append(digit_text(n % 10));
        assert(old(out)@ + decimal((n / 10) as nat) + seq![digit((n % 10) as nat)] =~= old(out)@
            + decimal(n as nat));
    }
}

/// A number in decimal notation.
pub fn to_decimal(n: u64) -> (r: String)
    ensures
        r@ == decimal(n as nat),
{
    let mut r = String::new();
    append_decimal(&mut r, n);
    assert(Seq::<char>::empty() + decimal(n as nat) =~= decimal(n as nat));
    r
}

/// Appends a text aligned right in a field of the given width.
pub fn append_right_aligned(out: &mut String, text: &str, width: usize)
    ensures
        final(out)@ == old(out)@ + right_aligned(text@, width as nat),
{
    let len: usize = text.unicode_len();
    let mut i: usize = len;
    proof {
        reveal_strlit(" ");
        assert(out@ =~= old(out)@ + spaces(0));
    }
    while i < width
        invariant
            len == text@.len(),
            len <= i,
            len < width ==> i <= width,
            len >= width ==> i == len,
            out@ == old(out)@ + spaces((i - len) as nat),
            " "@ =~= seq![' '],
        decreases width - i,
    {
        out.append(" ");
        assert(old(out)@ + spaces((i - len) as nat) + " "@ =~= old(out)@ + spaces(
            (i + 1 - len) as nat,
        ));
        i = i + 1;
    }
    out.append(text);
    assert(out@ =~= old(out)@ + right_aligned(text@, width as nat));
}

/// How a sweep was made and how many values it had, in brackets.
pub open spec fn mode_text(exhaustive: bool, n: nat) -> Seq<char> {
    (if exhaustive {
        " [exhaustive, n="@
    } else {
        " [sampled, n="@
    }) + decimal(n) + "]"@
}

/// Appends how a sweep was made and how many values it had.
pub fn append_mode(out: &mut String, exhaustive: bool, n: u64)
    ensures
        final(out)@ == old(out)@ + mode_text(exhaustive, n as nat),
{
    if exhaustive {
        out.append(" [exhaustive, n=");
    } else {
        out.append(" [sampled, n=");
    }
    append_decimal(out, n);
    out.append("]");
    assert(out@ =~= old(out)@ + mode_text(exhaustive, n as nat));
}

} // verus!
