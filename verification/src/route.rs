//! Route keys: a path paired with a method, totally ordered and parsed from
//! `"<METHOD> <PATH>"` lines.

use vstd::prelude::*;

use crate::errors::RouteError;
use crate::method::HttpMethod;
use crate::method::parse_method;

verus! {

/// Identifies one endpoint: an opaque exact path together with a method.
#[derive(Debug)]
pub struct Route {
    pub path: String,
    pub method: HttpMethod,
}

/// The mathematical identity of a route: its path characters and its method.
pub type RouteKey = (Seq<char>, HttpMethod);

/// Strict lexicographic order on character sequences: the empty sequence
/// comes first, and sequences sharing a first character are ordered by
/// their tails.
pub open spec fn lex_lt(a: Seq<char>, b: Seq<char>) -> bool
    decreases a.len(),
{
    if b.len() == 0 {
        false
    } else if a.len() == 0 {
        true
    } else if a[0] != b[0] {
        (a[0] as int) < (b[0] as int)
    } else {
        lex_lt(a.drop_first(), b.drop_first())
    }
}

/// The total order on route keys: first by path, lexicographically, then by
/// the method's position in the enumeration.
pub open spec fn route_lt(a: RouteKey, b: RouteKey) -> bool {
    lex_lt(a.0, b.0) || (a.0 == b.0 && a.1.rank() < b.1.rank())
}

/// Lexicographic order is asymmetric, so in particular strict.
pub proof fn lemma_lex_lt_asym(a: Seq<char>, b: Seq<char>)
    requires
        lex_lt(a, b),
    ensures
        !lex_lt(b, a),
        a != b,
    decreases a.len(),
{
    if a.len() != 0 && b.len() != 0 && a[0] == b[0] {
        lemma_lex_lt_asym(a.drop_first(), b.drop_first());
        assert(a != b) by {
            assert(a.drop_first() != b.drop_first());
            if a == b {
                assert(a.drop_first() =~= b.drop_first());
            }
        }
    }
}

/// Lexicographic order is transitive.
pub proof fn lemma_lex_lt_trans(a: Seq<char>, b: Seq<char>, c: Seq<char>)
    requires
        lex_lt(a, b),
        lex_lt(b, c),
    ensures
        lex_lt(a, c),
    decreases a.len(),
{
    if a.len() != 0 && b.len() != 0 && c.len() != 0 {
        if a[0] == b[0] && b[0] == c[0] {
            lemma_lex_lt_trans(a.drop_first(), b.drop_first(), c.drop_first());
        }
    }
}

/// The route order is asymmetric.
pub proof fn lemma_route_lt_asym(a: RouteKey, b: RouteKey)
    requires
        route_lt(a, b),
    ensures
        !route_lt(b, a),
{
    if lex_lt(a.0, b.0) {
        lemma_lex_lt_asym(a.0, b.0);
    }
}

/// The route order is transitive.
pub proof fn lemma_route_lt_trans(a: RouteKey, b: RouteKey, c: RouteKey)
    requires
        route_lt(a, b),
        route_lt(b, c),
    ensures
        route_lt(a, c),
{
    if lex_lt(a.0, b.0) && lex_lt(b.0, c.0) {
        lemma_lex_lt_trans(a.0, b.0, c.0);
    }
}

/// A three-way comparison result.
#[derive(Clone, Copy, PartialEq, Eq, Structural, Debug)]
pub enum Cmp {
    Lt,
    Eq,
    Gt,
}

/// If `a` and `b` agree up to `i` and differ at `i`, the order of the two
/// characters at `i` decides the lexicographic order.
proof fn lemma_lex_lt_at(a: Seq<char>, b: Seq<char>, i: int)
    requires
        0 <= i < a.len(),
        i < b.len(),
        forall|j: int| 0 <= j < i ==> a[j] == b[j],
        (a[i] as int) < (b[i] as int),
    ensures
        lex_lt(a, b),
    decreases i,
{
    if i > 0 {
        lemma_lex_lt_at(a.drop_first(), b.drop_first(), i - 1);
    }
}

/// A strict prefix comes lexicographically first.
proof fn lemma_lex_lt_prefix(a: Seq<char>, b: Seq<char>)
    requires
        a.len() < b.len(),
        forall|j: int| 0 <= j < a.len() ==> a[j] == b[j],
    ensures
        lex_lt(a, b),
    decreases a.len(),
{
    if a.len() > 0 {
        lemma_lex_lt_prefix(a.drop_first(), b.drop_first());
    }
}

/// Whether two strings hold the same characters.
pub fn str_eq(a: &str, b: &str) -> (r: bool)
    ensures
        r == (a@ == b@),
{
    match str_cmp(a, b) {
        Cmp::Eq => true,
        Cmp::Lt => {
            proof {
                lemma_lex_lt_asym(a@, b@);
            }
            false
        },
        Cmp::Gt => {
            proof {
                lemma_lex_lt_asym(b@, a@);
            }
            false
        },
    }
}

/// Three-way comparison of two strings in lexicographic order.
pub fn str_cmp(a: &str, b: &str) -> (c: Cmp)
    ensures
        match c {
            Cmp::Lt => lex_lt(a@, b@),
            Cmp::Eq => a@ == b@,
            Cmp::Gt => lex_lt(b@, a@),
        },
{
    let na = a.unicode_len();
    let nb = b.unicode_len();
    let n = if na < nb {
        na
    } else {
        nb
    };
    let mut i: usize = 0;
    while i < n
        invariant
            na == a@.len(),
            nb == b@.len(),
            n == if na < nb {
                na
            } else {
                nb
            },
            0 <= i <= n,
            forall|j: int| 0 <= j < i ==> a@[j] == b@[j],
        decreases n - i,
    {
        let ca = a.get_char(i);
        let cb = b.get_char(i);
        if (ca as u32) < (cb as u32) {
            proof {
                lemma_lex_lt_at(a@, b@, i as int);
            }
            return Cmp::Lt;
        }
        if (cb as u32) < (ca as u32) {
            proof {
                lemma_lex_lt_at(b@, a@, i as int);
            }
            return Cmp::Gt;
        }
        proof {
            assert(ca == cb) by {
                assert(ca as u32 == cb as u32);
            }
        }
        i += 1;
    }
    if na < nb {
        proof {
            lemma_lex_lt_prefix(a@, b@);
        }
        Cmp::Lt
    } else if nb < na {
        proof {
            lemma_lex_lt_prefix(b@, a@);
        }
        Cmp::Gt
    } else {
        proof {
            assert(a@ =~= b@);
        }
        Cmp::Eq
    }
}

impl Route {
    /// The key this route stands for.
    pub open spec fn key(self) -> RouteKey {
        (self.path@, self.method)
    }

    /// Three-way comparison of two routes in the route order.
    pub fn cmp_route(&self, other: &Route) -> (c: Cmp)
        ensures
            match c {
                Cmp::Lt => route_lt(self.key(), other.key()),
                Cmp::Eq => self.key() == other.key(),
                Cmp::Gt => route_lt(other.key(), self.key()),
            },
    {
        match str_cmp(self.path.as_str(), other.path.as_str()) {
            Cmp::Lt => Cmp::Lt,
            Cmp::Gt => Cmp::Gt,
            Cmp::Eq => {
                let ra = self.method.rank_exec();
                let rb = other.method.rank_exec();
                if ra < rb {
                    Cmp::Lt
                } else if rb < ra {
                    Cmp::Gt
                } else {
                    proof {
                        assert(self.method == other.method);
                    }
                    Cmp::Eq
                }
            },
        }
    }
}

impl PartialEq for Route {
    /// Routes are equal when both the path characters and the method agree.
    fn eq(&self, other: &Route) -> bool {
        self.path == other.path && self.method == other.method
    }
}

impl vstd::std_specs::cmp::PartialEqSpecImpl for Route {
    open spec fn obeys_eq_spec() -> bool {
        true
    }

    open spec fn eq_spec(&self, other: &Route) -> bool {
        self.path@ == other.path@ && self.method == other.method
    }
}

/// Index of the first space in `s`, or `-1` when `s` holds none.
pub open spec fn first_space(s: Seq<char>) -> int
    decreases s.len(),
{
    if s.len() == 0 {
        -1
    } else if s[0] == ' ' {
        0
    } else {
        let r = first_space(s.drop_first());
        if r < 0 {
            -1
        } else {
            r + 1
        }
    }
}

/// What `first_space` finds: the least index holding a space, if any.
pub proof fn lemma_first_space(s: Seq<char>)
    ensures
        first_space(s) >= 0 ==> {
            &&& first_space(s) < s.len()
            &&& s[first_space(s)] == ' '
            &&& forall|j: int| 0 <= j < first_space(s) ==> s[j] != ' '
        },
        first_space(s) < 0 ==> forall|j: int| 0 <= j < s.len() ==> s[j] != ' ',
    decreases s.len(),
{
    if s.len() > 0 && s[0] != ' ' {
        let t = s.drop_first();
        lemma_first_space(t);
        assert(forall|j: int| 0 <= j < t.len() ==> t[j] == s[j + 1]);
        if first_space(t) >= 0 {
            assert(s[first_space(s)] == t[first_space(t)]);
            assert forall|j: int| 0 <= j < first_space(s) implies s[j] != ' ' by {
                if j > 0 {
                    assert(s[j] == t[j - 1]);
                }
            }
        } else {
            assert forall|j: int| 0 <= j < s.len() implies s[j] != ' ' by {
                if j > 0 {
                    assert(s[j] == t[j - 1]);
                }
            }
        }
    }
}

/// The result of parsing a `"<METHOD> <PATH>"` line: the split is at the
/// first space, the method token is read case-insensitively, and everything
/// after the first space is the path, verbatim.
pub open spec fn parse_route_line(s: Seq<char>) -> Result<RouteKey, RouteError> {
    let i = first_space(s);
    if i < 0 {
        Err(RouteError::MalformedRouteLine)
    } else {
        match parse_method(s.take(i)) {
            Some(m) => Ok((s.skip(i + 1), m)),
            None => Err(RouteError::InvalidMethod),
        }
    }
}

/// Finds the first space of `s`, scanning left to right.
fn find_space(s: &str) -> (r: Option<usize>)
    ensures
        match r {
            Some(i) => first_space(s@) == i as int,
            None => first_space(s@) < 0,
        },
{
    let n = s.unicode_len();
    let mut i: usize = 0;
    while i < n
        invariant
            n == s@.len(),
            0 <= i <= n,
            forall|j: int| 0 <= j < i ==> s@[j] != ' ',
        decreases n - i,
    {
        if s.get_char(i) == ' ' {
            proof {
                lemma_first_space(s@);
                assert(first_space(s@) >= 0);
                assert(!(first_space(s@) < i as int));
                assert(!(first_space(s@) > i as int));
            }
            return Some(i);
        }
        i += 1;
    }
    proof {
        lemma_first_space(s@);
        if first_space(s@) >= 0 {
            assert(s@[first_space(s@)] == ' ');
        }
    }
    None
}

/// Law: writing a route key as a `"<METHOD> <PATH>"` line and parsing the
/// line back reconstructs exactly the same key, for every method of the
/// enumeration and every path.
pub proof fn lemma_route_line_round_trip(m: HttpMethod, path: Seq<char>)
    ensures
        parse_route_line(m.name_spec() + seq![' '] + path) == Ok::<RouteKey, RouteError>(
            (path, m),
        ),
{
    let name = m.name_spec();
    let s = name + seq![' '] + path;
    crate::method::lemma_method_name_token(m);
    lemma_first_space(s);
    let fs = first_space(s);
    assert(s[name.len() as int] == ' ');
    assert(forall|j: int| 0 <= j < name.len() ==> s[j] == name[j]);
    assert(fs >= 0) by {
        if fs < 0 {
            assert(s[name.len() as int] != ' ');
        }
    }
    assert(fs >= name.len()) by {
        if fs < name.len() {
            assert(s[fs] == name[fs]);
            assert(name[fs] != ' ');
        }
    }
    assert(fs <= name.len()) by {
        if fs > name.len() {
            assert(s[name.len() as int] != ' ');
        }
    }
    assert(s.take(fs) =~= name);
    assert(s.skip(fs + 1) =~= path);
}

impl Route {
    /// Parses a route key from a `"<METHOD> <PATH>"` line.  Fails with
    /// `MalformedRouteLine` when no space is present, and with
    /// `InvalidMethod` when the token before the first space names no
    /// method; everything after the first space is the path, verbatim.
    pub fn from_str(s: &str) -> (r: Result<Route, RouteError>)
        ensures
            match r {
                Ok(route) => parse_route_line(s@) == Ok::<RouteKey, RouteError>(route.key()),
                Err(e) => parse_route_line(s@) == Err::<RouteKey, RouteError>(e),
            },
    {
        let n = s.unicode_len();
        let i = match find_space(s) {
            Some(i) => i,
            None => {
                return Err(RouteError::MalformedRouteLine);
            },
        };
        proof {
            lemma_first_space(s@);
        }
        let token = s.substring_char(0, i);
        let path = s.substring_char(i + 1, n);
        assert(token@ == s@.take(i as int));
        assert(path@ == s@.skip(i as int + 1));
        match HttpMethod::from_str(token) {
            Ok(m) => Ok(Route { path: path.to_owned(), method: m }),
            Err(e) => Err(e),
        }
    }
}

} // verus!
