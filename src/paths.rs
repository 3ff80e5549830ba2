//! Where puzzle data lives: `data/<day>/<kind>_<task>.data`, relative to the
//! working directory.
use vstd::prelude::*;

verus! {

/// Which data file of a day: the puzzle input or a worked example.
#[derive(Clone, Copy, Debug, PartialEq, Eq)]
pub enum FileType {
    Input,
    Example,
}

/// The decimal digits of `n`.
pub open spec fn decimal(n: nat) -> Seq<char>
    decreases n,
{
    if n < 10 {
        seq![(n + '0' as nat) as char]
    } else {
        decimal(n / 10).push(((n % 10) + '0' as nat) as char)
    }
}

/// The decimal digits of `n`, with a leading zero when there is only one.
pub open spec fn two_digits_spec(n: nat) -> Seq<char> {
    if n < 10 {
        seq!['0'] + decimal(n)
    } else {
        decimal(n)
    }
}

pub open spec fn digit_char(d: nat) -> char {
    (d + '0' as nat) as char
}

/// The characters of the digits `ds`, last digit first.
pub open spec fn chars_rev(ds: Seq<u8>) -> Seq<char> {
    Seq::new(ds.len(), |i: int| digit_char(ds[ds.len() - 1 - i] as nat))
}

/// The one-character string of a decimal digit.
fn digit_str(d: u8) -> (r: &'static str)
    requires
        d < 10,
    ensures
        r@ == seq![digit_char(d as nat)],
{
    proof {
        reveal_strlit("0");
        reveal_strlit("1");
        reveal_strlit("2");
        reveal_strlit("3");
        reveal_strlit("4");
        reveal_strlit("5");
        reveal_strlit("6");
        reveal_strlit("7");
        reveal_strlit("8");
        reveal_strlit("9");
    }
    match d {
        0 => "0",
        1 => "1",
        2 => "2",
        3 => "3",
        4 => "4",
        5 => "5",
        6 => "6",
        7 => "7",
        8 => "8",
        _ => "9",
    }
}

/// The decimal digits of `n`, padded with zeros on the left to at least two.
fn two_digits(n: usize) -> (r: String)
    ensures
        r@ == two_digits_spec(n as nat),
{
    let mut m = n;
    let mut digits: Vec<u8> = Vec::new();
    while m >= 10
        invariant
            decimal(n as nat) == decimal(m as nat) + chars_rev(digits@),
            forall|i: int| 0 <= i < digits@.len() ==> #[trigger] digits@[i] < 10,
        decreases m,
    {
        let d = (m % 10) as u8;
        proof {
            assert(chars_rev(digits@.push(d)) =~= seq![digit_char(d as nat)] + chars_rev(digits@));
            assert(decimal(m as nat) == decimal((m / 10) as nat).push(digit_char(d as nat)));
            assert(decimal(m as nat) + chars_rev(digits@) =~= decimal((m / 10) as nat) + (seq![digit_char(d as nat)]
                + chars_rev(digits@)));
        }
        digits.push(d);
        m = m / 10;
    }
    proof {
        assert(chars_rev(digits@.push(m as u8)) =~= seq![digit_char(m as nat)] + chars_rev(digits@));
    }
    digits.push(m as u8);
    let ghost all = chars_rev(digits@);
    assert(decimal(n as nat) == all);
    let mut out = if n < 10 {
        proof {
            reveal_strlit("0");
        }
        String::from_str("0")
    } else {
        String::from_str("")
    };
    let ghost prefix = out@;
    proof {
        reveal_strlit("");
    }
    let mut i = digits.len();
    while i > 0
        invariant
            i <= digits@.len(),
            all == chars_rev(digits@),
            forall|j: int| 0 <= j < digits@.len() ==> #[trigger] digits@[j] < 10,
            out@ == prefix + all.subrange(0, digits@.len() - i),
        decreases i,
    {
        i -= 1;
        let piece = digit_str(digits[i]);
        out.append(piece);
        assert(out@ =~= prefix + all.subrange(0, digits@.len() - i));
    }
    assert(all.subrange(0, digits@.len() as int) =~= all);
    assert(out@ =~= two_digits_spec(n as nat));
    out
}

pub open spec fn file_type_name(t: FileType) -> Seq<char> {
    match t {
        FileType::Input => seq!['i', 'n'],
        FileType::Example => seq!['e', 'x'],
    }
}

impl FileType {
    /// The short name used in file names: `in` or `ex`.
    pub fn to_string(&self) -> (r: String)
        ensures
            r@ == file_type_name(*self),
    {
        match self {
            FileType::Input => {
                proof {
                    reveal_strlit("in");
                }
                String::from_str("in")
            },
            FileType::Example => {
                proof {
                    reveal_strlit("ex");
                }
                String::from_str("ex")
            },
        }
    }
}

pub open spec fn day_path_spec(day: nat) -> Seq<char> {
    seq!['d', 'a', 't', 'a', '/'] + two_digits_spec(day)
}

/// The directory of a day's data files.
pub fn day_path(day: usize) -> (r: String)
    ensures
        r@ == day_path_spec(day as nat),
{
    proof {
        reveal_strlit("data/");
    }
    let mut p = String::from_str("data/");
    let d = two_digits(day);
    p.append(d.as_str());
    p
}

/// The data file of a day's task.
pub fn file_path(file_type: FileType, day: usize, task: usize) -> (r: String)
    ensures
        r@ == day_path_spec(day as nat) + seq!['/'] + file_type_name(file_type) + seq!['_']
            + two_digits_spec(task as nat) + seq!['.', 'd', 'a', 't', 'a'],
{
    proof {
        reveal_strlit("/");
        reveal_strlit("_");
        reveal_strlit(".data");
    }
    let mut p = day_path(day);
    p.append("/");
    let t = file_type.to_string();
    p.append(t.as_str());
    p.append("_");
    let n = two_digits(task);
    p.append(n.as_str());
    p.append(".data");
    p
}

} // verus!
