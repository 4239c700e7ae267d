use vstd::prelude::*;
use vstd::string::StringExecFns;

verus! {

pub const KIB: u64 = 1024;

pub const MIB: u64 = 1048576;

pub const GIB: u64 = 1073741824;

/// The character that writes the decimal digit `d`.
pub open spec fn digit_char(d: nat) -> char {
    seq!['0', '1', '2', '3', '4', '5', '6', '7', '8', '9'][d as int]
}

/// The decimal digits of `n`, most significant first, without leading zeros.
pub open spec fn decimal(n: nat) -> Seq<char>
    decreases n,
{
    if n < 10 {
        seq![digit_char(n)]
    } else {
        decimal(n / 10).push(digit_char(n % 10))
    }
}

/// `size` in the largest binary unit (GiB, MiB, KiB) that it reaches, rounded
/// down, or in bytes below one KiB.
pub open spec fn bytes_text(size: u64) -> Seq<char> {
    if size >= GIB {
        decimal((size / GIB) as nat) + seq!['G', 'i', 'B']
    } else if size >= MIB {
        decimal((size / MIB) as nat) + seq!['M', 'i', 'B']
    } else if size >= KIB {
        decimal((size / KIB) as nat) + seq!['K', 'i', 'B']
    } else {
        decimal(size as nat) + seq!['B']
    }
}

fn digit_str(d: u64) -> (r: &'static str)
    requires
        d < 10,
    ensures
        r@ == seq![digit_char(d as nat)],
{
    proof {
        reveal_strlit("0");
        reveal_strlit("1");
        reveal_strlit("2");
        reveal_strlit("3");
        reveal_strlit("4");
        reveal_strlit("5");
        reveal_strlit("6");
        reveal_strlit("7");
        reveal_strlit("8");
        reveal_strlit("9");
    }
    let r = if d == 0 {
        "0"
    } else if d == 1 {
        "1"
    } else if d == 2 {
        "2"
    } else if d == 3 {
        "3"
    } else if d == 4 {
        "4"
    } else if d == 5 {
        "5"
    } else if d == 6 {
        "6"
    } else if d == 7 {
        "7"
    } else if d == 8 {
        "8"
    } else {
        "9"
    };
    assert(r@ =~= seq![digit_char(d as nat)]);
    r
}

/// Appends the decimal digits of `n` to `s`.
fn push_decimal(s: &mut String, n: u64)
    ensures
        final(s)@ == old(s)@ + decimal(n as nat),
    decreases n,
{
    if n >= 10 {
        push_decimal(s, n / 10);
    }
    s.append(digit_str(n % 10));
    assert(s@ =~= old(s)@ + decimal(n as nat));
}

/// Writes a byte count for people to read: `3GiB`, `12MiB`, `1KiB`, `512B`.
pub fn format_bytes(size: u64) -> (r: String)
    ensures
        r@ == bytes_text(size),
{
    let mut r = String::new();
    if size >= GIB {
        push_decimal(&mut r, size / GIB);
        r.append("GiB");
    } else if size >= MIB {
        push_decimal(&mut r, size / MIB);
        r.append("MiB");
    } else if size >= KIB {
        push_decimal(&mut r, size / KIB);
        r.append("KiB");
    } else {
        push_decimal(&mut r, size);
        r.append("B");
    }
    proof {
        reveal_strlit("GiB");
        reveal_strlit("MiB");
        reveal_strlit("KiB");
        reveal_strlit("B");
    }
    assert(r@ =~= bytes_text(size));
    r
}

} // verus!
