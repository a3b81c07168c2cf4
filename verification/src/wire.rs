//! The two line-splitting steps the transport adapter leans on: taking the
//! route-key part of a request line, and splitting a header line into name
//! and value.

use vstd::prelude::*;

verus! {

/// Index of the last space in `s`, or `-1` when `s` holds none.
pub open spec fn last_space(s: Seq<char>) -> int
    decreases s.len(),
{
    if s.len() == 0 {
        -1
    } else if s[s.len() - 1] == ' ' {
        s.len() - 1
    } else {
        last_space(s.drop_last())
    }
}

/// What `last_space` finds: the greatest index holding a space, if any.
pub proof fn lemma_last_space(s: Seq<char>)
    ensures
        last_space(s) >= 0 ==> {
            &&& last_space(s) < s.len()
            &&& s[last_space(s)] == ' '
            &&& forall|j: int| last_space(s) < j < s.len() ==> s[j] != ' '
        },
        last_space(s) < 0 ==> forall|j: int| 0 <= j < s.len() ==> s[j] != ' ',
    decreases s.len(),
{
    if s.len() > 0 && s[s.len() - 1] != ' ' {
        let t = s.drop_last();
        lemma_last_space(t);
        assert(forall|j: int| 0 <= j < t.len() ==> t[j] == s[j]);
    }
}

/// The route-key part of a request line: everything before the last space,
/// where the trailing token is the protocol version.  `None` when the line
/// holds no space at all.
pub fn route_key_part(line: &str) -> (r: Option<&str>)
    ensures
        match r {
            Some(t) => last_space(line@) >= 0 && t@ == line@.take(last_space(line@)),
            None => last_space(line@) < 0,
        },
{
    proof {
        lemma_last_space(line@);
    }
    let n = line.unicode_len();
    let mut i: usize = n;
    while i > 0
        invariant
            n == line@.len(),
            0 <= i <= n,
            forall|j: int| i <= j < n ==> line@[j] != ' ',
        decreases i,
    {
        i -= 1;
        if line.get_char(i) == ' ' {
            proof {
                lemma_last_space(line@);
                assert(last_space(line@) >= 0);
                assert(!(last_space(line@) < i as int));
                assert(!(last_space(line@) > i as int));
            }
            return Some(line.substring_char(0, i));
        }
    }
    None
}

/// Index of the first `": "` separator in `s`, or `-1` when none occurs.
pub open spec fn first_separator(s: Seq<char>) -> int
    decreases s.len(),
{
    if s.len() < 2 {
        -1
    } else if s[0] == ':' && s[1] == ' ' {
        0
    } else {
        let r = first_separator(s.drop_first());
        if r < 0 {
            -1
        } else {
            r + 1
        }
    }
}

/// What `first_separator` finds: the least index where `": "` starts, if
/// any.
pub proof fn lemma_first_separator(s: Seq<char>)
    ensures
        first_separator(s) >= 0 ==> {
            &&& first_separator(s) + 1 < s.len()
            &&& s[first_separator(s)] == ':'
            &&& s[first_separator(s) + 1] == ' '
            &&& forall|j: int|
                0 <= j < first_separator(s) ==> !(#[trigger] s[j] == ':' && s[j + 1] == ' ')
        },
        first_separator(s) < 0 ==> forall|j: int|
            0 <= j < s.len() - 1 ==> !(#[trigger] s[j] == ':' && s[j + 1] == ' '),
    decreases s.len(),
{
    if s.len() >= 2 && !(s[0] == ':' && s[1] == ' ') {
        let t = s.drop_first();
        lemma_first_separator(t);
        assert(forall|j: int| 0 <= j < t.len() ==> t[j] == s[j + 1]);
        if first_separator(t) >= 0 {
            let f = first_separator(s);
            assert(s[f] == t[f - 1]);
            assert(s[f + 1] == t[f]);
            assert forall|j: int| 0 <= j < f implies !(#[trigger] s[j] == ':' && s[j + 1] == ' ') by {
                if j > 0 {
                    assert(s[j] == t[j - 1]);
                    assert(s[j + 1] == t[j]);
                }
            }
        } else {
            assert forall|j: int| 0 <= j < s.len() - 1 implies !(#[trigger] s[j] == ':' && s[j + 1] == ' ')
                by {
                if j > 0 {
                    assert(s[j] == t[j - 1]);
                    assert(s[j + 1] == t[j]);
                }
            }
        }
    }
}

/// Splits a header line at the first `": "`: the name before it, the value
/// after it, verbatim.  `None` when the line holds no such separator.
pub fn split_header_line(line: &str) -> (r: Option<(String, String)>)
    ensures
        match r {
            Some(nv) => {
                &&& first_separator(line@) >= 0
                &&& nv.0@ == line@.take(first_separator(line@))
                &&& nv.1@ == line@.skip(first_separator(line@) + 2)
            },
            None => first_separator(line@) < 0,
        },
{
    proof {
        lemma_first_separator(line@);
    }
    let n = line.unicode_len();
    if n < 2 {
        return None;
    }
    let mut i: usize = 0;
    while i < n - 1
        invariant
            n == line@.len(),
            2 <= n,
            0 <= i <= n - 1,
            forall|j: int| 0 <= j < i ==> !(#[trigger] line@[j] == ':' && line@[j + 1] == ' '),
        decreases n - i,
    {
        if line.get_char(i) == ':' && line.get_char(i + 1) == ' ' {
            proof {
                lemma_first_separator(line@);
                assert(first_separator(line@) >= 0);
                assert(!(first_separator(line@) < i as int));
                assert(!(first_separator(line@) > i as int));
            }
            let name = line.substring_char(0, i);
            let value = line.substring_char(i + 2, n);
            return Some((name.to_owned(), value.to_owned()));
        }
        i += 1;
    }
    proof {
        if first_separator(line@) >= 0 {
            assert(line@[first_separator(line@)] == ':');
        }
    }
    None
}

} // verus!
