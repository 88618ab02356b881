//! Where the journal is kept.

use crate::text::{append_chars, append_str, from_chars, to_chars};
use vstd::prelude::*;

verus! {

/// The settings of the journal.
#[derive(Clone, Debug, PartialEq, Eq)]
pub struct Config {
    /// The path of the journal file.
    pub journal_path: String,
}

/// The character for a digit from 0 to 9.
pub open spec fn digit_char(d: int) -> char {
    (d + 48) as u8 as char
}

/// A number written in base ten, without leading zeros.
pub open spec fn decimal(n: nat) -> Seq<char>
    decreases n,
{
    if n < 10 {
        seq![digit_char(n as int)]
    } else {
        decimal(n / 10).push(digit_char(n as int % 10))
    }
}

/// A number written in base ten with zeros before it up to the width
/// given; a number that is wider is written as it is.
pub open spec fn zero_padded(n: nat, width: nat) -> Seq<char> {
    if decimal(n).len() < width {
        Seq::new((width - decimal(n).len()) as nat, |i: int| '0') + decimal(n)
    } else {
        decimal(n)
    }
}

/// The path of the file beside the journal that the journal is written
/// to before it is replaced: the path of the journal, a dot, the seconds
/// since the epoch at which the file is made, written with 14 digits, and
/// `.jot`.
pub open spec fn staging_path(journal_path: Seq<char>, secs: nat) -> Seq<char> {
    journal_path + seq!['.'] + zero_padded(secs, 14) + ".jot"@
}

/// Writes a number in base ten.
fn decimal_chars(n: u64) -> (r: Vec<char>)
    ensures
        r@ == decimal(n as nat),
{
    // The digits from the last to the first.
    let mut low: Vec<char> = Vec::new();
    let mut rest: u64 = n;
    assert(decimal(rest as nat) + low@.reverse() =~= decimal(n as nat));
    loop
        invariant_except_break
            decimal(n as nat) == decimal(rest as nat) + low@.reverse(),
        ensures
            decimal(n as nat) == low@.reverse(),
        decreases rest,
    {
        let d: u8 = (rest % 10) as u8;
        let ghost before = low@;
        low.push((48u8 + d) as char);
        proof {
            assert(((48u8 + d) as char) == digit_char(rest as int % 10));
            assert(low@.reverse() =~= seq![digit_char(rest as int % 10)] + before.reverse());
        }
        if rest < 10 {
            proof {
                assert(decimal(rest as nat) + before.reverse() =~= low@.reverse());
            }
            break;
        }
        proof {
            assert(decimal(rest as nat / 10).push(digit_char(rest as int % 10)) + before.reverse()
                =~= decimal(rest as nat / 10) + low@.reverse());
        }
        rest = rest / 10;
    }
    let mut r: Vec<char> = Vec::new();
    let mut k: usize = low.len();
    while k > 0
        invariant
            k <= low.len(),
            r.len() == low.len() - k,
            forall|j: int| 0 <= j < r.len() ==> r@[j] == low@[low.len() - 1 - j],
        decreases k,
    {
        k -= 1;
        r.push(low[k]);
    }
    assert(r@ =~= low@.reverse());
    r
}

/// The path of a new file beside the journal, named after the journal
/// and the time: the file that the journal is written to before it is
/// replaced.
pub fn compute_path(config: &Config, secs: u64) -> (r: String)
    ensures
        r@ == staging_path(config.journal_path@, secs as nat),
{
    let mut v = to_chars(config.journal_path.as_str());
    v.push('.');
    let digits = decimal_chars(secs);
    let ghost start = v@;
    let mut k: usize = digits.len();
    proof {
        assert(start + Seq::new(0nat, |i: int| '0') =~= start);
    }
    while k < 14
        invariant
            digits.len() <= k,
            digits.len() < 14 ==> k <= 14,
            digits.len() >= 14 ==> k == digits.len(),
            v@ == start + Seq::new((k - digits.len()) as nat, |i: int| '0'),
        decreases 14 - k,
    {
        v.push('0');
        k += 1;
        assert(v@ =~= start + Seq::new((k - digits.len()) as nat, |i: int| '0'));
    }
    let ghost padding = Seq::new((k - digits.len()) as nat, |i: int| '0');
    append_chars(&mut v, &digits);
    proof {
        if digits.len() < 14 {
            assert(k == 14);
            assert(padding + digits@ == zero_padded(secs as nat, 14));
        } else {
            assert(k == digits.len());
            assert(padding + digits@ =~= digits@);
        }
        assert(v@ =~= start + zero_padded(secs as nat, 14));
    }
    append_str(&mut v, ".jot");
    assert(v@ =~= staging_path(config.journal_path@, secs as nat));
    from_chars(&v)
}

} // verus!
