//! Reading puzzle text: program images (comma-separated signed integers),
//! lines, and the splitting and number reading they share.
use vstd::prelude::*;
use crate::error::{AocErr, AocResult};
use crate::intcode::Data;
use crate::machine::fits;

verus! {

pub open spec fn is_space(c: char) -> bool {
    c == ' ' || c == '\n' || c == '\r' || c == '\t'
}

/// `s` without its leading whitespace.
pub open spec fn trim_start(s: Seq<char>) -> Seq<char>
    decreases s.len(),
{
    if s.len() > 0 && is_space(s[0]) {
        trim_start(s.drop_first())
    } else {
        s
    }
}

/// `s` without its trailing whitespace.
pub open spec fn trim_end(s: Seq<char>) -> Seq<char>
    decreases s.len(),
{
    if s.len() > 0 && is_space(s.last()) {
        trim_end(s.drop_last())
    } else {
        s
    }
}

pub open spec fn trim(s: Seq<char>) -> Seq<char> {
    trim_start(trim_end(s))
}

/// The fields of `s` between separators (one more than there are separators).
pub open spec fn split_on(s: Seq<char>, sep: char) -> Seq<Seq<char>>
    decreases s.len(),
{
    if s.len() == 0 {
        seq![Seq::empty()]
    } else {
        let fs = split_on(s.drop_last(), sep);
        if s.last() == sep {
            fs.push(Seq::empty())
        } else {
            fs.update(fs.len() - 1, fs.last().push(s.last()))
        }
    }
}

pub open spec fn split_commas(s: Seq<char>) -> Seq<Seq<char>> {
    split_on(s, ',')
}

/// Splitting always gives at least one field.
pub proof fn lemma_split_nonempty(s: Seq<char>, sep: char)
    ensures
        split_on(s, sep).len() >= 1,
    decreases s.len(),
{
    if s.len() > 0 {
        lemma_split_nonempty(s.drop_last(), sep);
    }
}

/// Splitting a prefix of `s` gives the same completed fields as splitting `s`.
pub proof fn lemma_split_prefix(s: Seq<char>, sep: char, i: int)
    requires
        0 <= i <= s.len(),
    ensures
        split_on(s.subrange(0, i), sep).len() <= split_on(s, sep).len(),
        forall|k: int| 0 <= k < split_on(s.subrange(0, i), sep).len() - 1
            ==> #[trigger] split_on(s.subrange(0, i), sep)[k] == split_on(s, sep)[k],
        i == s.len() ==> split_on(s.subrange(0, i), sep) == split_on(s, sep),
    decreases s.len(),
{
    if i == s.len() {
        assert(s.subrange(0, i) =~= s);
    } else {
        let init = s.drop_last();
        assert(init.subrange(0, i) =~= s.subrange(0, i));
        lemma_split_prefix(init, sep, i);
        lemma_split_nonempty(init, sep);
    }
}

pub open spec fn is_digit(c: char) -> bool {
    '0' <= c <= '9'
}

pub open spec fn all_digits(ds: Seq<char>) -> bool {
    forall|i: int| 0 <= i < ds.len() ==> is_digit(#[trigger] ds[i])
}

/// The number that a string of decimal digits writes.
pub open spec fn digits_value(ds: Seq<char>) -> int
    decreases ds.len(),
{
    if ds.len() == 0 {
        0
    } else {
        10 * digits_value(ds.drop_last()) + (ds.last() as int - '0' as int)
    }
}

/// The integer that a field writes: an optional sign, then one or more digits.
pub open spec fn int_value(f: Seq<char>) -> Option<int> {
    if f.len() > 0 && (f[0] == '-' || f[0] == '+') {
        let ds = f.drop_first();
        if ds.len() > 0 && all_digits(ds) {
            Some(if f[0] == '-' { -digits_value(ds) } else { digits_value(ds) })
        } else {
            None
        }
    } else if f.len() > 0 && all_digits(f) {
        Some(digits_value(f))
    } else {
        None
    }
}

/// The field read as a machine integer, if it writes one that fits.
pub open spec fn parse_int_spec(f: Seq<char>) -> Option<i64> {
    match int_value(f) {
        Some(v) => if fits(v) {
            Some(v as i64)
        } else {
            None
        },
        None => None,
    }
}

/// The program image that a text writes, if every field is an integer.
pub open spec fn parse_image(s: Seq<char>) -> Option<Seq<i64>> {
    let fs = split_commas(trim(s));
    if forall|k: int| 0 <= k < fs.len() ==> (#[trigger] parse_int_spec(fs[k])) is Some {
        Some(Seq::new(fs.len(), |k: int| parse_int_spec(fs[k])->Some_0))
    } else {
        None
    }
}

proof fn lemma_digits_value_prefix(ds: Seq<char>, k: int)
    requires
        all_digits(ds),
        0 <= k <= ds.len(),
    ensures
        0 <= digits_value(ds.subrange(0, k)) <= digits_value(ds),
    decreases ds.len(),
{
    if ds.len() > 0 {
        let init = ds.drop_last();
        assert(is_digit(ds[ds.len() - 1]));
        if k < ds.len() {
            assert(init.subrange(0, k) =~= ds.subrange(0, k));
            lemma_digits_value_prefix(init, k);
        } else {
            assert(ds.subrange(0, k) =~= ds);
            lemma_digits_value_prefix(init, 0);
        }
    } else {
        assert(ds.subrange(0, k) =~= ds);
    }
}

/// Reads one field as a signed integer.
#[verifier::loop_isolation(false)]
pub fn parse_int(f: &Vec<char>) -> (r: Option<i64>)
    ensures
        r == parse_int_spec(f@),
{
    let n = f.len();
    if n == 0 {
        return None;
    }
    let neg = f[0] == '-';
    let start: usize = if f[0] == '-' || f[0] == '+' {
        1
    } else {
        0
    };
    if start == n {
        return None;
    }
    let ghost ds = f@.subrange(start as int, n as int);
    assert(start == 1 ==> ds =~= f@.drop_first());
    assert(start == 0 ==> ds =~= f@);
    let mut acc: i64 = 0;
    let mut i: usize = start;
    while i < n
        invariant
            start <= i <= n,
            n == f@.len(),
            ds == f@.subrange(start as int, n as int),
            neg == (f@[0] == '-'),
            all_digits(ds.subrange(0, i - start)),
            acc == (if neg {
                -digits_value(ds.subrange(0, i - start))
            } else {
                digits_value(ds.subrange(0, i - start))
            }),
        decreases n - i,
    {
        let c = f[i];
        if !('0' <= c && c <= '9') {
            assert(!is_digit(ds[i - start]));
            return None;
        }
        let d = (c as u32 - '0' as u32) as i64;
        let ghost pre = ds.subrange(0, i - start);
        let ghost ext = ds.subrange(0, i - start + 1);
        assert(ext.drop_last() =~= pre);
        assert(ext.last() == c);
        assert(digits_value(ext) == 10 * digits_value(pre) + d);
        let step = if neg {
            match acc.checked_mul(10) {
                Some(m) => m.checked_sub(d),
                None => None,
            }
        } else {
            match acc.checked_mul(10) {
                Some(m) => m.checked_add(d),
                None => None,
            }
        };
        match step {
            Some(v) => {
                acc = v;
            },
            None => {
                proof {
                    if all_digits(ds) {
                        lemma_digits_value_prefix(ds, i - start + 1);
                        lemma_digits_value_prefix(ds, i - start);
                    }
                }
                return None;
            },
        }
        i += 1;
    }
    assert(ds.subrange(0, n - start) =~= ds);
    Some(acc)
}

/// The characters of a string.
pub fn chars_of(s: &str) -> (r: Vec<char>)
    ensures
        r@ == s@,
{
    let n = s.unicode_len();
    let mut v: Vec<char> = Vec::new();
    let mut i: usize = 0;
    while i < n
        invariant
            i <= n,
            n == s@.len(),
            v@ == s@.subrange(0, i as int),
        decreases n - i,
    {
        v.push(s.get_char(i));
        i += 1;
        assert(v@ =~= s@.subrange(0, i as int));
    }
    assert(v@ =~= s@);
    v
}

fn is_space_char(c: char) -> (r: bool)
    ensures
        r == is_space(c),
{
    c == ' ' || c == '\n' || c == '\r' || c == '\t'
}

/// The bounds of `t` without its leading and trailing whitespace.
fn trim_bounds(t: &Vec<char>) -> (r: (usize, usize))
    ensures
        r.0 <= r.1 <= t@.len(),
        t@.subrange(r.0 as int, r.1 as int) == trim(t@),
{
    let mut end = t.len();
    assert(t@.subrange(0, end as int) =~= t@);
    while end > 0 && is_space_char(t[end - 1])
        invariant
            end <= t@.len(),
            trim_end(t@.subrange(0, end as int)) == trim_end(t@),
        decreases end,
    {
        assert(t@.subrange(0, end as int).drop_last() =~= t@.subrange(0, end - 1));
        end -= 1;
    }
    let ghost te = t@.subrange(0, end as int);
    let mut start: usize = 0;
    while start < end && is_space_char(t[start])
        invariant
            start <= end <= t@.len(),
            te == t@.subrange(0, end as int),
            trim_start(t@.subrange(start as int, end as int)) == trim_start(te),
        decreases end - start,
    {
        assert(t@.subrange(start as int, end as int).drop_first() =~= t@.subrange(start + 1, end as int));
        start += 1;
    }
    assert(te == trim_end(t@));
    assert(t@.subrange(0, end as int) =~= te);
    assert(trim_start(t@.subrange(start as int, end as int)) == t@.subrange(start as int, end as int));
    (start, end)
}

/// Reads a program image: comma-separated signed integers, with the
/// surrounding whitespace of the whole text ignored.
pub fn parse_data(s: &str) -> (r: AocResult<Data>)
    ensures
        match parse_image(s@) {
            Some(image) => r matches Ok(d) && d.0@ == image,
            None => r == Err::<Data, AocErr>(AocErr::ParseIntError),
        },
{
    let t = chars_of(s);
    let (start, end) = trim_bounds(&t);
    let ghost body = t@.subrange(start as int, end as int);
    let mut out: Vec<i64> = Vec::new();
    let mut cur: Vec<char> = Vec::new();
    let mut failed = false;
    let mut i = start;
    while i < end
        invariant
            start <= i <= end <= t@.len(),
            body == t@.subrange(start as int, end as int),
            ({
                let fs = split_commas(body.subrange(0, i - start));
                &&& cur@ == fs.last()
                &&& failed <==> exists|k: int| 0 <= k < fs.len() - 1 && (#[trigger] parse_int_spec(fs[k])) is None
                &&& !failed ==> out@ == Seq::new((fs.len() - 1) as nat, |k: int| parse_int_spec(fs[k])->Some_0)
            }),
        decreases end - i,
    {
        let ghost fs = split_commas(body.subrange(0, i - start));
        let ghost pre = body.subrange(0, i - start);
        let ghost ext = body.subrange(0, i - start + 1);
        assert(ext.drop_last() =~= pre);
        proof {
            lemma_split_nonempty(pre, ',');
        }
        let c = t[i];
        if c == ',' {
            let ghost fs2 = split_commas(ext);
            assert(fs2 == fs.push(Seq::<char>::empty()));
            match parse_int(&cur) {
                Some(x) => {
                    if !failed {
                        out.push(x);
                    }
                },
                None => {
                    failed = true;
                },
            }
            cur = Vec::new();
            proof {
                if !failed {
                    assert(out@ =~= Seq::new((fs2.len() - 1) as nat, |k: int| parse_int_spec(fs2[k])->Some_0));
                }
                if failed {
                    assert(exists|k: int| 0 <= k < fs2.len() - 1 && (#[trigger] parse_int_spec(fs2[k])) is None) by {
                        if parse_int_spec(fs2[fs.len() - 1]) is None {
                        } else {
                            let k = choose|k: int| 0 <= k < fs.len() - 1 && (#[trigger] parse_int_spec(fs[k])) is None;
                            assert(fs2[k] == fs[k]);
                        }
                    }
                } else {
                    assert forall|k: int| 0 <= k < fs2.len() - 1 implies (#[trigger] parse_int_spec(fs2[k])) is Some by {
                        if k < fs.len() - 1 {
                            assert(fs2[k] == fs[k]);
                        }
                    }
                }
            }
        } else {
            cur.push(c);
            proof {
                let fs2 = split_commas(ext);
                assert(fs2 == fs.update(fs.len() - 1, fs.last().push(c)));
                assert(cur@ =~= fs2.last());
                if failed {
                    let k = choose|k: int| 0 <= k < fs.len() - 1 && (#[trigger] parse_int_spec(fs[k])) is None;
                    assert(fs2[k] == fs[k]);
                } else {
                    assert(out@ =~= Seq::new((fs2.len() - 1) as nat, |k: int| parse_int_spec(fs2[k])->Some_0));
                    assert forall|k: int| 0 <= k < fs2.len() - 1 implies (#[trigger] parse_int_spec(fs2[k])) is Some by {
                        assert(fs2[k] == fs[k]);
                    }
                }
            }
        }
        i += 1;
    }
    let ghost fs = split_commas(body.subrange(0, end - start));
    assert(body.subrange(0, end - start) =~= body);
    proof {
        lemma_split_nonempty(body, ',');
    }
    let last = parse_int(&cur);
    match last {
        Some(x) => {
            if failed {
                proof {
                    let k = choose|k: int| 0 <= k < fs.len() - 1 && (#[trigger] parse_int_spec(fs[k])) is None;
                }
                return Err(AocErr::ParseIntError);
            }
            out.push(x);
            proof {
                assert(out@ =~= Seq::new(fs.len(), |k: int| parse_int_spec(fs[k])->Some_0));
                assert forall|k: int| 0 <= k < fs.len() implies (#[trigger] parse_int_spec(fs[k])) is Some by {
                    if k == fs.len() - 1 {
                    } else {
                        assert(out@[k] == parse_int_spec(fs[k])->Some_0);
                    }
                }
            }
            Ok(Data(out))
        },
        None => Err(AocErr::ParseIntError),
    }
}

/// The lines of `s`: its fields between newlines, without a last empty one
/// (a final newline ends the last line rather than starting another) and
/// without the carriage return of a `\r\n` line ending.
pub open spec fn lines_spec(s: Seq<char>) -> Seq<Seq<char>> {
    let fs = split_on(s, '\n');
    let ls = if fs.last().len() == 0 {
        fs.drop_last()
    } else {
        fs
    };
    Seq::new(
        ls.len(),
        |k: int|
            if k < fs.len() - 1 && ls[k].len() > 0 && ls[k].last() == '\r' {
                ls[k].drop_last()
            } else {
                ls[k]
            },
    )
}

/// The non-negative number that a line writes: an optional `+`, then digits.
pub open spec fn parse_u64_spec(f: Seq<char>) -> Option<u64> {
    let ds = if f.len() > 0 && f[0] == '+' {
        f.drop_first()
    } else {
        f
    };
    if ds.len() > 0 && all_digits(ds) && digits_value(ds) <= u64::MAX {
        Some(digits_value(ds) as u64)
    } else {
        None
    }
}

/// Reads one line as an unsigned integer.
#[verifier::loop_isolation(false)]
pub fn parse_u64(f: &[char]) -> (r: Option<u64>)
    ensures
        r == parse_u64_spec(f@),
{
    let n = f.len();
    let start: usize = if n > 0 && f[0] == '+' {
        1
    } else {
        0
    };
    if start == n {
        return None;
    }
    let ghost ds = f@.subrange(start as int, n as int);
    assert(start == 1 ==> ds =~= f@.drop_first());
    assert(start == 0 ==> ds =~= f@);
    let mut acc: u64 = 0;
    let mut i: usize = start;
    while i < n
        invariant
            start <= i <= n,
            all_digits(ds.subrange(0, i - start)),
            acc == digits_value(ds.subrange(0, i - start)),
        decreases n - i,
    {
        let c = f[i];
        if !('0' <= c && c <= '9') {
            assert(!is_digit(ds[i - start]));
            return None;
        }
        let d = (c as u32 - '0' as u32) as u64;
        let ghost pre = ds.subrange(0, i - start);
        let ghost ext = ds.subrange(0, i - start + 1);
        assert(ext.drop_last() =~= pre);
        assert(ext.last() == c);
        assert(digits_value(ext) == 10 * digits_value(pre) + d);
        let step = match acc.checked_mul(10) {
            Some(m) => m.checked_add(d),
            None => None,
        };
        match step {
            Some(v) => {
                acc = v;
            },
            None => {
                proof {
                    if all_digits(ds) {
                        lemma_digits_value_prefix(ds, i - start + 1);
                    }
                }
                return None;
            },
        }
        i += 1;
    }
    assert(ds.subrange(0, n - start) =~= ds);
    Some(acc)
}

/// Values read one per line.
pub struct ParseLineVec<T>(pub Vec<T>);

/// The lines of a text, as characters.
pub fn lines_of(s: &str) -> (r: Vec<Vec<char>>)
    ensures
        r@.len() == lines_spec(s@).len(),
        forall|k: int| 0 <= k < r@.len() ==> (#[trigger] r@[k])@ == lines_spec(s@)[k],
{
    let t = chars_of(s);
    let n = t.len();
    let ghost fs = split_on(t@, '\n');
    let ghost ls = lines_spec(t@);
    assert(t@ == s@);
    proof {
        lemma_split_nonempty(t@, '\n');
    }
    let mut out: Vec<Vec<char>> = Vec::new();
    let mut cur: Vec<char> = Vec::new();
    let mut i: usize = 0;
    while i < n
        invariant
            i <= n,
            n == t@.len(),
            t@ == s@,
            fs == split_on(t@, '\n'),
            fs.len() >= 1,
            ls == lines_spec(t@),
            ({
                let gs = split_on(t@.subrange(0, i as int), '\n');
                &&& cur@ == gs.last()
                &&& out@.len() == gs.len() - 1
            }),
            forall|k: int| 0 <= k < out@.len() ==> (#[trigger] out@[k])@ == ls[k],
        decreases n - i,
    {
        let ghost pre = t@.subrange(0, i as int);
        let ghost ext = t@.subrange(0, i + 1);
        assert(ext.drop_last() =~= pre);
        proof {
            lemma_split_nonempty(pre, '\n');
            lemma_split_nonempty(ext, '\n');
            lemma_split_prefix(t@, '\n', i + 1);
        }
        let c = t[i];
        if c == '\n' {
            let ghost k = out@.len() as int;
            assert(split_on(ext, '\n')[k] == cur@);
            assert(fs[k] == cur@);
            if cur.len() > 0 && cur[cur.len() - 1] == '\r' {
                let _ = cur.pop();
            }
            assert(ls[k] == cur@);
            out.push(cur);
            cur = Vec::new();
        } else {
            cur.push(c);
        }
        i += 1;
        proof {
            let gs2 = split_on(ext, '\n');
            assert(cur@ =~= gs2.last());
        }
    }
    assert(t@.subrange(0, n as int) =~= t@);
    if cur.len() > 0 {
        let ghost k = out@.len() as int;
        assert(ls[k] == cur@);
        out.push(cur);
    }
    out
}

/// Reads one unsigned integer per line.
pub fn parse_lines_u64(s: &str) -> (r: AocResult<ParseLineVec<u64>>)
    ensures
        (forall|k: int| 0 <= k < lines_spec(s@).len() ==> (#[trigger] parse_u64_spec(lines_spec(s@)[k])) is Some)
            ==> (r matches Ok(v) && v.0@ == Seq::new(lines_spec(s@).len(), |k: int| parse_u64_spec(lines_spec(s@)[k])->Some_0)),
        !(forall|k: int| 0 <= k < lines_spec(s@).len() ==> (#[trigger] parse_u64_spec(lines_spec(s@)[k])) is Some)
            ==> r == Err::<ParseLineVec<u64>, AocErr>(AocErr::ParseIntError),
{
    let lines = lines_of(s);
    let ghost ls = lines_spec(s@);
    let mut out: Vec<u64> = Vec::new();
    let mut k: usize = 0;
    while k < lines.len()
        invariant
            k <= lines@.len(),
            lines@.len() == ls.len(),
            ls == lines_spec(s@),
            forall|j: int| 0 <= j < lines@.len() ==> (#[trigger] lines@[j])@ == ls[j],
            out@.len() == k,
            forall|j: int| 0 <= j < k ==> parse_u64_spec(#[trigger] ls[j]) == Some(out@[j]),
        decreases lines.len() - k,
    {
        assert(lines@[k as int]@ == ls[k as int]);
        match parse_u64(lines[k].as_slice()) {
            Some(v) => {
                out.push(v);
            },
            None => {
                assert(parse_u64_spec(ls[k as int]) is None);
                return Err(AocErr::ParseIntError);
            },
        }
        k += 1;
    }
    assert(out@ =~= Seq::new(ls.len(), |j: int| parse_u64_spec(ls[j])->Some_0));
    Ok(ParseLineVec(out))
}

impl std::str::FromStr for ParseLineVec<u64> {
    type Err = AocErr;

    fn from_str(s: &str) -> Result<ParseLineVec<u64>, AocErr> {
        parse_lines_u64(s)
    }
}

impl std::str::FromStr for Data {
    type Err = AocErr;

    fn from_str(s: &str) -> Result<Data, AocErr> {
        parse_data(s)
    }
}

} // verus!
