//! Header names, content types, and the header mapping carried by requests
//! and responses.

use vstd::prelude::*;

verus! {

/// The header names the router itself writes.
#[derive(Clone, Copy, PartialEq, Eq, Structural, Debug)]
pub enum HttpBasicHeader {
    Server,
    ContentType,
}

impl HttpBasicHeader {
    /// The wire name of the header.
    pub open spec fn name_spec(self) -> Seq<char> {
        match self {
            HttpBasicHeader::Server => "Server"@,
            HttpBasicHeader::ContentType => "Content-Type"@,
        }
    }

    /// The wire name of the header.
    pub fn as_str(self) -> (r: &'static str)
        ensures
            r@ == self.name_spec(),
    {
        match self {
            HttpBasicHeader::Server => "Server",
            HttpBasicHeader::ContentType => "Content-Type",
        }
    }
}

/// The content types the terminal responders write.
#[derive(Clone, Copy, PartialEq, Eq, Structural, Debug)]
pub enum HttpContentType {
    Json,
    PlainText,
    Html,
    FormData,
}

impl HttpContentType {
    /// The media-type string of the content type.
    pub open spec fn name_spec(self) -> Seq<char> {
        match self {
            HttpContentType::Json => "application/json"@,
            HttpContentType::PlainText => "text/plain"@,
            HttpContentType::Html => "text/html"@,
            HttpContentType::FormData => "multipart/form-data"@,
        }
    }

    /// The media-type string of the content type.
    pub fn as_str(self) -> (r: &'static str)
        ensures
            r@ == self.name_spec(),
    {
        match self {
            HttpContentType::Json => "application/json",
            HttpContentType::PlainText => "text/plain",
            HttpContentType::Html => "text/html",
            HttpContentType::FormData => "multipart/form-data",
        }
    }
}

/// Whether no header name occurs twice.
spec fn keys_unique(entries: Seq<(String, String)>) -> bool {
    forall|i: int, j: int| 0 <= i < j < entries.len() ==> entries[i].0@ != entries[j].0@
}

/// The mapping a list of header entries stands for; a later entry for the
/// same name wins.
spec fn map_of(entries: Seq<(String, String)>) -> Map<Seq<char>, Seq<char>>
    decreases entries.len(),
{
    if entries.len() == 0 {
        Map::empty()
    } else {
        map_of(entries.drop_last()).insert(entries.last().0@, entries.last().1@)
    }
}

proof fn lemma_map_of_contains(entries: Seq<(String, String)>, k: Seq<char>)
    ensures
        map_of(entries).contains_key(k) <==> exists|i: int|
            0 <= i < entries.len() && #[trigger] entries[i].0@ == k,
    decreases entries.len(),
{
    if entries.len() > 0 {
        let e = entries.drop_last();
        lemma_map_of_contains(e, k);
        assert(forall|i: int| 0 <= i < e.len() ==> e[i] == entries[i]);
        if map_of(entries).contains_key(k) {
            if entries.last().0@ == k {
                assert(entries[entries.len() - 1].0@ == k);
            } else {
                let i = choose|i: int| 0 <= i < e.len() && #[trigger] e[i].0@ == k;
                assert(entries[i].0@ == k);
            }
        }
        if exists|i: int| 0 <= i < entries.len() && #[trigger] entries[i].0@ == k {
            let i = choose|i: int| 0 <= i < entries.len() && #[trigger] entries[i].0@ == k;
            if i < entries.len() - 1 {
                assert(e[i].0@ == k);
            }
        }
    }
}

proof fn lemma_map_of_index(entries: Seq<(String, String)>, i: int)
    requires
        keys_unique(entries),
        0 <= i < entries.len(),
    ensures
        map_of(entries).contains_key(entries[i].0@),
        map_of(entries)[entries[i].0@] == entries[i].1@,
    decreases entries.len(),
{
    let e = entries.drop_last();
    if i < entries.len() - 1 {
        assert(keys_unique(e));
        lemma_map_of_index(e, i);
        assert(e[i] == entries[i]);
        assert(entries[i].0@ != entries.last().0@);
    }
}

proof fn lemma_map_of_update(entries: Seq<(String, String)>, i: int, v: (String, String))
    requires
        keys_unique(entries),
        0 <= i < entries.len(),
        v.0@ == entries[i].0@,
    ensures
        map_of(entries.update(i, v)) == map_of(entries).insert(v.0@, v.1@),
    decreases entries.len(),
{
    let upd = entries.update(i, v);
    if i == entries.len() - 1 {
        assert(upd.drop_last() =~= entries.drop_last());
        assert(upd.last() == v);
        assert(map_of(upd) =~= map_of(entries).insert(v.0@, v.1@));
    } else {
        assert(upd.drop_last() =~= entries.drop_last().update(i, v));
        assert(upd.last() == entries.last());
        assert(keys_unique(entries.drop_last()));
        lemma_map_of_update(entries.drop_last(), i, v);
        assert(entries[i].0@ != entries.last().0@);
        assert(map_of(upd) =~= map_of(entries).insert(v.0@, v.1@));
    }
}

/// A mapping from header name to header value, in insertion order.
pub struct HeaderMap {
    entries: Vec<(String, String)>,
}

impl View for HeaderMap {
    type V = Map<Seq<char>, Seq<char>>;

    closed spec fn view(&self) -> Map<Seq<char>, Seq<char>> {
        map_of(self.entries@)
    }
}

impl HeaderMap {
    #[verifier::type_invariant]
    spec fn wf(&self) -> bool {
        keys_unique(self.entries@)
    }

    /// An empty header mapping.
    pub fn new() -> (r: HeaderMap)
        ensures
            r@ == Map::<Seq<char>, Seq<char>>::empty(),
    {
        HeaderMap { entries: Vec::new() }
    }

    /// Binds `name` to `value`, replacing any earlier binding of `name`.
    pub fn insert(&mut self, name: String, value: String)
        ensures
            final(self)@ == old(self)@.insert(name@, value@),
    {
        proof {
            use_type_invariant(&*self);
        }
        let mut entries: Vec<(String, String)> = Vec::new();
        core::mem::swap(&mut entries, &mut self.entries);
        let ghost orig = entries@;
        let n = entries.len();
        let mut i: usize = 0;
        while i < n
            invariant
                entries@ == orig,
                orig == old(self).entries@,
                n == orig.len(),
                keys_unique(orig),
                0 <= i <= n,
                forall|j: int| 0 <= j < i ==> orig[j].0@ != name@,
            decreases n - i,
        {
            if entries[i].0 == name {
                proof {
                    lemma_map_of_update(orig, i as int, (name, value));
                }
                entries[i] = (name, value);
                assert(keys_unique(entries@)) by {
                    assert(forall|j: int|
                        0 <= j < orig.len() && j != i ==> entries@[j].0@ == orig[j].0@);
                }
                self.entries = entries;
                return ;
            }
            i += 1;
        }
        proof {
            lemma_map_of_contains(orig, name@);
        }
        entries.push((name, value));
        assert(keys_unique(entries@)) by {
            assert(forall|j: int| 0 <= j < orig.len() ==> entries@[j] == orig[j]);
        }
        assert(entries@.drop_last() =~= orig);
        self.entries = entries;
    }

    /// Looks a header up by name.
    pub fn get(&self, name: &str) -> (r: Option<&String>)
        ensures
            match r {
                Some(v) => self@.contains_key(name@) && v@ == self@[name@],
                None => !self@.contains_key(name@),
            },
    {
        proof {
            use_type_invariant(&*self);
            lemma_map_of_contains(self.entries@, name@);
        }
        let n = self.entries.len();
        let mut i: usize = 0;
        while i < n
            invariant
                n == self.entries@.len(),
                keys_unique(self.entries@),
                0 <= i <= n,
                forall|j: int| 0 <= j < i ==> self.entries@[j].0@ != name@,
            decreases n - i,
        {
            if crate::route::str_eq(self.entries[i].0.as_str(), name) {
                proof {
                    lemma_map_of_index(self.entries@, i as int);
                }
                return Some(&self.entries[i].1);
            }
            i += 1;
        }
        None
    }

    /// The number of headers held.
    pub fn len(&self) -> (r: usize)
        ensures
            r == self@.dom().len(),
    {
        proof {
            use_type_invariant(&*self);
            lemma_map_of_card(self.entries@);
        }
        self.entries.len()
    }

    /// The entries in insertion order: exactly the bindings of the mapping,
    /// each name once.
    pub fn pairs(&self) -> (r: &Vec<(String, String)>)
        ensures
            forall|i: int|
                0 <= i < r@.len() ==> self@.contains_key(#[trigger] r@[i].0@) && self@[r@[i].0@]
                    == r@[i].1@,
            forall|k: Seq<char>|
                self@.contains_key(k) ==> exists|i: int|
                    0 <= i < r@.len() && #[trigger] r@[i].0@ == k,
            forall|i: int, j: int| 0 <= i < j < r@.len() ==> r@[i].0@ != r@[j].0@,
    {
        proof {
            use_type_invariant(&*self);
            assert forall|i: int| 0 <= i < self.entries@.len() implies self@.contains_key(
                #[trigger] self.entries@[i].0@,
            ) && self@[self.entries@[i].0@] == self.entries@[i].1@ by {
                lemma_map_of_index(self.entries@, i);
            }
            assert forall|k: Seq<char>| self@.contains_key(k) implies exists|i: int|
                0 <= i < self.entries@.len() && #[trigger] self.entries@[i].0@ == k by {
                lemma_map_of_contains(self.entries@, k);
            }
        }
        &self.entries
    }
}

proof fn lemma_map_of_card(entries: Seq<(String, String)>)
    requires
        keys_unique(entries),
    ensures
        map_of(entries).dom().len() == entries.len(),
        map_of(entries).dom().finite(),
    decreases entries.len(),
{
    if entries.len() > 0 {
        let e = entries.drop_last();
        assert(keys_unique(e));
        lemma_map_of_card(e);
        lemma_map_of_contains(e, entries.last().0@);
        assert(forall|i: int| 0 <= i < e.len() ==> e[i] == entries[i]);
        assert(!map_of(e).contains_key(entries.last().0@));
        assert(map_of(entries).dom() =~= map_of(e).dom().insert(entries.last().0@));
    }
}

} // verus!
