//! The closed enumeration of HTTP methods, with case-insensitive parsing
//! and canonical upper-case names.

use vstd::prelude::*;

use crate::errors::RouteError;

verus! {

/// One of the six request methods the router understands.
#[derive(Clone, Copy, PartialEq, Eq, Structural, Debug, Hash)]
pub enum HttpMethod {
    Get,
    Post,
    Put,
    Patch,
    Delete,
    Options,
}

/// Upper-cases an ASCII letter; every other character is left alone.
pub open spec fn upper_char(c: char) -> char {
    if 97 <= c as int && c as int <= 122 {
        (((c as int) - 32) as u8) as char
    } else {
        c
    }
}

/// ASCII upper-casing of a whole character sequence.
pub open spec fn upper(s: Seq<char>) -> Seq<char> {
    s.map_values(|c: char| upper_char(c))
}

/// The method named by a token, compared case-insensitively against the
/// canonical names; `None` for any other token.
pub open spec fn parse_method(s: Seq<char>) -> Option<HttpMethod> {
    if upper(s) == "GET"@ {
        Some(HttpMethod::Get)
    } else if upper(s) == "POST"@ {
        Some(HttpMethod::Post)
    } else if upper(s) == "PUT"@ {
        Some(HttpMethod::Put)
    } else if upper(s) == "PATCH"@ {
        Some(HttpMethod::Patch)
    } else if upper(s) == "DELETE"@ {
        Some(HttpMethod::Delete)
    } else if upper(s) == "OPTIONS"@ {
        Some(HttpMethod::Options)
    } else {
        None
    }
}

/// The canonical method names are short, free of spaces, already
/// upper-case, and parse back to their own method.
pub proof fn lemma_method_name_token(m: HttpMethod)
    ensures
        1 <= m.name_spec().len() <= 7,
        forall|j: int| 0 <= j < m.name_spec().len() ==> m.name_spec()[j] != ' ',
        upper(m.name_spec()) == m.name_spec(),
        parse_method(m.name_spec()) == Some(m),
{
    reveal_strlit("GET");
    reveal_strlit("POST");
    reveal_strlit("PUT");
    reveal_strlit("PATCH");
    reveal_strlit("DELETE");
    reveal_strlit("OPTIONS");
    let name = m.name_spec();
    assert(upper(name) =~= name) by {
        assert forall|j: int| 0 <= j < name.len() implies upper_char(name[j]) == name[j] by {}
    }
    match m {
        HttpMethod::Get => {},
        HttpMethod::Post => {
            assert("POST"@ != "GET"@);
        },
        HttpMethod::Put => {
            assert("PUT"@[0] != "GET"@[0]);
            assert("PUT"@ != "GET"@);
            assert("PUT"@ != "POST"@);
        },
        HttpMethod::Patch => {
            assert("PATCH"@ != "GET"@);
            assert("PATCH"@ != "POST"@);
            assert("PATCH"@ != "PUT"@);
        },
        HttpMethod::Delete => {
            assert("DELETE"@ != "GET"@);
            assert("DELETE"@ != "POST"@);
            assert("DELETE"@ != "PUT"@);
            assert("DELETE"@ != "PATCH"@);
        },
        HttpMethod::Options => {
            assert("OPTIONS"@ != "GET"@);
            assert("OPTIONS"@ != "POST"@);
            assert("OPTIONS"@ != "PUT"@);
            assert("OPTIONS"@ != "PATCH"@);
            assert("OPTIONS"@ != "DELETE"@);
        },
    }
}

/// Upper-cases an ASCII letter; every other character is left alone.
fn upper_char_exec(c: char) -> (r: char)
    ensures
        r == upper_char(c),
{
    let u = c as u32;
    if 97 <= u && u <= 122 {
        ((u - 32) as u8) as char
    } else {
        c
    }
}

/// Whether upper-casing `s` yields exactly `t`.
fn eq_upper(s: &str, t: &str) -> (r: bool)
    ensures
        r == (upper(s@) == t@),
{
    let n = s.unicode_len();
    if n != t.unicode_len() {
        return false;
    }
    let mut i: usize = 0;
    while i < n
        invariant
            n == s@.len(),
            n == t@.len(),
            0 <= i <= n,
            forall|j: int| 0 <= j < i ==> upper_char(s@[j]) == t@[j],
        decreases n - i,
    {
        let cs = upper_char_exec(s.get_char(i));
        let ct = t.get_char(i);
        if cs != ct {
            assert(upper(s@)[i as int] != t@[i as int]);
            return false;
        }
        i += 1;
    }
    proof {
        assert(upper(s@) =~= t@);
    }
    true
}

impl HttpMethod {
    /// Position of the method in the enumeration; the tie-breaking component
    /// of the total order on routes.
    pub open spec fn rank(self) -> int {
        match self {
            HttpMethod::Get => 0,
            HttpMethod::Post => 1,
            HttpMethod::Put => 2,
            HttpMethod::Patch => 3,
            HttpMethod::Delete => 4,
            HttpMethod::Options => 5,
        }
    }

    /// The canonical upper-case name of the method.
    pub open spec fn name_spec(self) -> Seq<char> {
        match self {
            HttpMethod::Get => "GET"@,
            HttpMethod::Post => "POST"@,
            HttpMethod::Put => "PUT"@,
            HttpMethod::Patch => "PATCH"@,
            HttpMethod::Delete => "DELETE"@,
            HttpMethod::Options => "OPTIONS"@,
        }
    }

    /// The canonical upper-case name of the method.
    pub fn as_str(self) -> (r: &'static str)
        ensures
            r@ == self.name_spec(),
    {
        match self {
            HttpMethod::Get => "GET",
            HttpMethod::Post => "POST",
            HttpMethod::Put => "PUT",
            HttpMethod::Patch => "PATCH",
            HttpMethod::Delete => "DELETE",
            HttpMethod::Options => "OPTIONS",
        }
    }

    /// `rank`, computed executably.
    pub fn rank_exec(self) -> (r: u8)
        ensures
            r as int == self.rank(),
    {
        match self {
            HttpMethod::Get => 0,
            HttpMethod::Post => 1,
            HttpMethod::Put => 2,
            HttpMethod::Patch => 3,
            HttpMethod::Delete => 4,
            HttpMethod::Options => 5,
        }
    }

    /// Parses a method token case-insensitively; any token outside the
    /// enumeration is rejected with `InvalidMethod`.
    pub fn from_str(s: &str) -> (r: Result<HttpMethod, RouteError>)
        ensures
            match r {
                Ok(m) => parse_method(s@) == Some(m),
                Err(e) => parse_method(s@) is None && e == RouteError::InvalidMethod,
            },
    {
        if eq_upper(s, "GET") {
            Ok(HttpMethod::Get)
        } else if eq_upper(s, "POST") {
            Ok(HttpMethod::Post)
        } else if eq_upper(s, "PUT") {
            Ok(HttpMethod::Put)
        } else if eq_upper(s, "PATCH") {
            Ok(HttpMethod::Patch)
        } else if eq_upper(s, "DELETE") {
            Ok(HttpMethod::Delete)
        } else if eq_upper(s, "OPTIONS") {
            Ok(HttpMethod::Options)
        } else {
            Err(RouteError::InvalidMethod)
        }
    }
}

} // verus!
