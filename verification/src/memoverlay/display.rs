use vstd::prelude::*;
use vstd::string::StringExecFns;

use super::MemOverlay;

verus! {

/// The character of the decimal digit `d`.
pub open spec fn digit(d: nat) -> char
    recommends
        d < 10,
{
    if d == 0 {
        '0'
    } else if d == 1 {
        '1'
    } else if d == 2 {
        '2'
    } else if d == 3 {
        '3'
    } else if d == 4 {
        '4'
    } else if d == 5 {
        '5'
    } else if d == 6 {
        '6'
    } else if d == 7 {
        '7'
    } else if d == 8 {
        '8'
    } else {
        '9'
    }
}

/// The number `n` in decimal digits, without leading zeros.
pub open spec fn decimal(n: nat) -> Seq<char>
    decreases n,
{
    if n < 10 {
        seq![digit(n)]
    } else {
        decimal(n / 10).push(digit(n % 10))
    }
}

/// The summary of an overlay with `layers` layers over a base of `base_len`
/// bytes.
pub open spec fn summary(layers: nat, base_len: nat) -> Seq<char> {
    "MemOverlay with "@ + decimal(layers) + " layers and "@ + decimal(base_len)
        + " bytes of base content"@
}

/// Returns the decimal digit `d` as text.
fn digit_text(d: u64) -> (res: &'static str)
    requires
        d < 10,
    ensures
        res@ == seq![digit(d as nat)],
{
    proof {
        reveal_strlit("0");
        reveal_strlit("1");
        reveal_strlit("2");
        reveal_strlit("3");
        reveal_strlit("4");
        reveal_strlit("5");
        reveal_strlit("6");
        reveal_strlit("7");
        reveal_strlit("8");
        reveal_strlit("9");
    }
    let res = if d == 0 {
        "0"
    } else if d == 1 {
        "1"
    } else if d == 2 {
        "2"
    } else if d == 3 {
        "3"
    } else if d == 4 {
        "4"
    } else if d == 5 {
        "5"
    } else if d == 6 {
        "6"
    } else if d == 7 {
        "7"
    } else if d == 8 {
        "8"
    } else {
        "9"
    };
    assert(res@ =~= seq![digit(d as nat)]);
    res
}

/// Appends the number `n` to `text`, in decimal digits.
fn append_decimal(text: &mut String, n: u64)
    ensures
        final(text)@ == old(text)@ + decimal(n as nat),
    decreases n,
{
    if n >= 10 {
        append_decimal(text, n / 10);
    }
    text.append(digit_text(n % 10));
    assert(text@ =~= old(text)@ + decimal(n as nat));
}

impl MemOverlay {
    /// Returns a summary for people to read, which names the number of
    /// layers and the length of the base.
    pub fn to_string(&self) -> (res: String)
        ensures
            res@ == summary(self.layers().len(), self.base().len()),
    {
        let mut text = String::from_str("MemOverlay with ");
        append_decimal(&mut text, self.patch_layers.len() as u64);
        text.append(" layers and ");
        append_decimal(&mut text, self.base.len() as u64);
        text.append(" bytes of base content");
        assert(text@ =~= summary(self.layers().len(), self.base().len()));
        text
    }
}

} // verus!
