//! Renaming data files: dropping the second underscore-separated field.
use vstd::prelude::*;
use itertools::Itertools;
use crate::parse::{lemma_split_nonempty, split_on};

verus! {

/// The parts in order, with `sep` between neighbours.
pub open spec fn join_spec(parts: Seq<Seq<char>>, sep: Seq<char>) -> Seq<char>
    decreases parts.len(),
{
    if parts.len() == 0 {
        Seq::empty()
    } else if parts.len() == 1 {
        parts[0]
    } else {
        join_spec(parts.drop_last(), sep) + sep + parts.last()
    }
}

pub open spec fn views(parts: Seq<&str>) -> Seq<Seq<char>> {
    parts.map_values(|p: &str| p@)
}

proof fn lemma_views_push(ps: Seq<&str>, p: &str)
    ensures
        views(ps.push(p)) == views(ps).push(p@),
{
    assert(views(ps.push(p)) =~= views(ps).push(p@));
}

/// The fields without the second one, if there is one.
pub open spec fn without_second(fs: Seq<Seq<char>>) -> Seq<Seq<char>> {
    if fs.len() > 1 {
        fs.remove(1)
    } else {
        fs
    }
}

/// Relies on itertools' `Itertools::join`: the parts in order, with `sep`
/// between neighbours.
#[verifier::external_body]
fn join_with(parts: &Vec<&str>, sep: &str) -> (r: String)
    ensures
        r@ == join_spec(views(parts@), sep@),
{
    parts.iter().join(sep)
}

/// The fields of `s` between occurrences of `sep`.
pub fn split_str<'a>(s: &'a str, sep: char) -> (r: Vec<&'a str>)
    ensures
        views(r@) == split_on(s@, sep),
{
    let n = s.unicode_len();
    let mut out: Vec<&'a str> = Vec::new();
    let mut field_start: usize = 0;
    let mut i: usize = 0;
    while i < n
        invariant
            field_start <= i <= n,
            n == s@.len(),
            ({
                let fs = split_on(s@.subrange(0, i as int), sep);
                &&& fs.len() >= 1
                &&& views(out@) == fs.drop_last()
                &&& fs.last() == s@.subrange(field_start as int, i as int)
            }),
        decreases n - i,
    {
        let ghost pre = s@.subrange(0, i as int);
        let ghost ext = s@.subrange(0, i + 1);
        assert(ext.drop_last() =~= pre);
        proof {
            lemma_split_nonempty(pre, sep);
        }
        let c = s.get_char(i);
        if c == sep {
            let f = s.substring_char(field_start, i);
            proof {
                lemma_views_push(out@, f);
            }
            out.push(f);
            field_start = i + 1;
            proof {
                let fs2 = split_on(ext, sep);
                assert(views(out@) =~= fs2.drop_last());
                assert(fs2.last() =~= s@.subrange(field_start as int, i + 1));
            }
        } else {
            proof {
                let fs = split_on(pre, sep);
                let fs2 = split_on(ext, sep);
                assert(views(out@) =~= fs2.drop_last());
                assert(fs2.last() =~= s@.subrange(field_start as int, i + 1));
            }
        }
        i += 1;
    }
    let f = s.substring_char(field_start, n);
    proof {
        lemma_views_push(out@, f);
        lemma_split_nonempty(s@, sep);
    }
    out.push(f);
    proof {
        let fs = split_on(s@.subrange(0, n as int), sep);
        assert(s@.subrange(0, n as int) =~= s@);
        assert(views(out@) =~= fs);
    }
    out
}

/// The name with its second `_`-separated field removed
/// (`in_01_01.data` becomes `in_01.data`).
pub fn new_name(name: &str) -> (r: String)
    ensures
        r@ == join_spec(without_second(split_on(name@, '_')), seq!['_']),
{
    let fields = split_str(name, '_');
    let ghost fs = views(fields@);
    let mut kept: Vec<&str> = Vec::new();
    let mut ix: usize = 0;
    while ix < fields.len()
        invariant
            ix <= fields@.len(),
            fs == views(fields@),
            views(kept@) == (if ix <= 1 {
                fs.subrange(0, ix as int)
            } else {
                fs.subrange(0, 1) + fs.subrange(2, ix as int)
            }),
        decreases fields.len() - ix,
    {
        if ix != 1 {
            proof {
                lemma_views_push(kept@, fields@[ix as int]);
            }
            kept.push(fields[ix]);
        }
        ix += 1;
        proof {
            if ix <= 1 {
                assert(views(kept@) =~= fs.subrange(0, ix as int));
            } else {
                assert(views(kept@) =~= fs.subrange(0, 1) + fs.subrange(2, ix as int));
            }
        }
    }
    proof {
        if fs.len() > 1 {
            assert(views(kept@) =~= fs.remove(1));
        } else {
            assert(views(kept@) =~= fs);
        }
    }
    let sep = "_";
    proof {
        reveal_strlit("_");
        assert(sep@ =~= seq!['_']);
        assert(views(kept@) == without_second(split_on(name@, '_')));
    }
    join_with(&kept, sep)
}

} // verus!
