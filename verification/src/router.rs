//! The routing table and the dispatcher: registration per method, prefixed
//! sub-router composition, ordered enumeration, and short-circuiting chain
//! execution.

use vstd::prelude::*;

use crate::request::Request;
use crate::response::Response;
use crate::response::ResponseModel;
use crate::method::HttpMethod;
use crate::route::Cmp;
use crate::route::Route;
use crate::route::RouteKey;
use crate::route::lemma_route_lt_asym;
use crate::route::lemma_route_lt_trans;
use crate::route::route_lt;

verus! {

/// A behavior bound to a route: it may read the request and mutate the
/// response.  Its whole observable effect on the response is the abstract
/// function `effect`.
pub trait Handler: Sized {
    /// The response state the handler leaves, as a function of the request
    /// headers and the response state it was given.  An implementation that
    /// does not override this declares that it leaves the response
    /// unchanged.
    open spec fn effect(&self, req: Map<String, String>, res: ResponseModel) -> ResponseModel {
        res
    }

    /// Runs the handler once; the response moves to exactly the state
    /// `effect` describes.
    fn handle(&self, req: &Request, res: &mut Response)
        ensures
            final(res)@ == self.effect(req@, old(res)@);
}

/// The response state a chain leaves: handlers run in order, and before each
/// one the finished flag is consulted — once it is set, the rest of the
/// chain is skipped entirely.
pub open spec fn run_chain<H: Handler>(
    chain: Seq<H>,
    req: Map<String, String>,
    res: ResponseModel,
) -> ResponseModel
    decreases chain.len(),
{
    if chain.len() == 0 || res.finished {
        res
    } else {
        run_chain(chain.drop_first(), req, chain[0].effect(req, res))
    }
}

/// Law: when the first handler of a chain finishes the response, the chain's
/// outcome is that handler's alone — no later handler contributes anything.
pub proof fn lemma_short_circuit<H: Handler>(
    chain: Seq<H>,
    req: Map<String, String>,
    res: ResponseModel,
)
    requires
        chain.len() >= 1,
        !res.finished,
        chain[0].effect(req, res).finished,
    ensures
        run_chain(chain, req, res) == chain[0].effect(req, res),
{
    let next = chain[0].effect(req, res);
    assert(run_chain(chain, req, res) == run_chain(chain.drop_first(), req, next));
    assert(run_chain(chain.drop_first(), req, next) == next);
}

/// Law: a chain dispatched against an already-finished response, and in
/// particular an empty chain, leaves the response untouched.
pub proof fn lemma_chain_no_op<H: Handler>(
    chain: Seq<H>,
    req: Map<String, String>,
    res: ResponseModel,
)
    requires
        chain.len() == 0 || res.finished,
    ensures
        run_chain(chain, req, res) == res,
{
}

/// Law: dispatching a route key with no registered chain leaves the
/// response exactly as it was.
pub proof fn lemma_unregistered_no_op<H: Handler>(
    router: &Router<H>,
    k: RouteKey,
    req: Map<String, String>,
    res: ResponseModel,
)
    requires
        !router@.contains_key(k),
    ensures
        run_chain(router.chain_for(k), req, res) == res,
{
}

/// Law: registering a chain for a key a second time replaces the first chain
/// outright; the table holds exactly the second one.
pub proof fn lemma_replacement<H>(
    m: Map<RouteKey, Seq<H>>,
    k: RouteKey,
    first: Seq<H>,
    second: Seq<H>,
)
    ensures
        m.insert(k, first).insert(k, second) == m.insert(k, second),
{
    assert(m.insert(k, first).insert(k, second) =~= m.insert(k, second));
}

/// Whether the table's routes come in strictly ascending route order.
spec fn table_sorted<H>(t: Seq<(Route, Vec<H>)>) -> bool {
    forall|i: int, j: int| 0 <= i < j < t.len() ==> route_lt(t[i].0.key(), t[j].0.key())
}

/// The mapping a table stands for; a later entry for the same key wins.
spec fn table_map<H>(t: Seq<(Route, Vec<H>)>) -> Map<RouteKey, Seq<H>>
    decreases t.len(),
{
    if t.len() == 0 {
        Map::empty()
    } else {
        table_map(t.drop_last()).insert(t.last().0.key(), t.last().1@)
    }
}

proof fn lemma_sorted_unique<H>(t: Seq<(Route, Vec<H>)>)
    requires
        table_sorted(t),
    ensures
        forall|i: int, j: int| 0 <= i < j < t.len() ==> t[i].0.key() != t[j].0.key(),
{
    assert forall|i: int, j: int| 0 <= i < j < t.len() implies t[i].0.key() != t[j].0.key() by {
        lemma_route_lt_asym(t[i].0.key(), t[j].0.key());
    }
}

proof fn lemma_table_map_contains<H>(t: Seq<(Route, Vec<H>)>, k: RouteKey)
    ensures
        table_map(t).contains_key(k) <==> exists|i: int|
            0 <= i < t.len() && #[trigger] t[i].0.key() == k,
    decreases t.len(),
{
    if t.len() > 0 {
        let e = t.drop_last();
        lemma_table_map_contains(e, k);
        assert(forall|i: int| 0 <= i < e.len() ==> e[i] == t[i]);
        if table_map(t).contains_key(k) {
            if t.last().0.key() == k {
                assert(t[t.len() - 1].0.key() == k);
            } else {
                let i = choose|i: int| 0 <= i < e.len() && #[trigger] e[i].0.key() == k;
                assert(t[i].0.key() == k);
            }
        }
        if exists|i: int| 0 <= i < t.len() && #[trigger] t[i].0.key() == k {
            let i = choose|i: int| 0 <= i < t.len() && #[trigger] t[i].0.key() == k;
            if i < t.len() - 1 {
                assert(e[i].0.key() == k);
            }
        }
    }
}

proof fn lemma_table_map_index<H>(t: Seq<(Route, Vec<H>)>, i: int)
    requires
        forall|p: int, q: int| 0 <= p < q < t.len() ==> t[p].0.key() != t[q].0.key(),
        0 <= i < t.len(),
    ensures
        table_map(t).contains_key(t[i].0.key()),
        table_map(t)[t[i].0.key()] == t[i].1@,
    decreases t.len(),
{
    let e = t.drop_last();
    if i < t.len() - 1 {
        assert(forall|p: int| 0 <= p < e.len() ==> e[p] == t[p]);
        lemma_table_map_index(e, i);
        assert(t[i].0.key() != t.last().0.key());
    }
}

proof fn lemma_table_map_update<H>(t: Seq<(Route, Vec<H>)>, i: int, v: (Route, Vec<H>))
    requires
        forall|p: int, q: int| 0 <= p < q < t.len() ==> t[p].0.key() != t[q].0.key(),
        0 <= i < t.len(),
        v.0.key() == t[i].0.key(),
    ensures
        table_map(t.update(i, v)) == table_map(t).insert(v.0.key(), v.1@),
    decreases t.len(),
{
    let upd = t.update(i, v);
    if i == t.len() - 1 {
        assert(upd.drop_last() =~= t.drop_last());
        assert(upd.last() == v);
        assert(table_map(upd) =~= table_map(t).insert(v.0.key(), v.1@));
    } else {
        let e = t.drop_last();
        assert(forall|p: int| 0 <= p < e.len() ==> e[p] == t[p]);
        assert(upd.drop_last() =~= e.update(i, v));
        assert(upd.last() == t.last());
        lemma_table_map_update(e, i, v);
        assert(t[i].0.key() != t.last().0.key());
        assert(table_map(upd) =~= table_map(t).insert(v.0.key(), v.1@));
    }
}

proof fn lemma_table_map_insert_at<H>(t: Seq<(Route, Vec<H>)>, i: int, v: (Route, Vec<H>))
    requires
        0 <= i <= t.len(),
        forall|p: int| 0 <= p < t.len() ==> #[trigger] t[p].0.key() != v.0.key(),
    ensures
        table_map(t.insert(i, v)) == table_map(t).insert(v.0.key(), v.1@),
    decreases t.len(),
{
    let ins = t.insert(i, v);
    if i == t.len() {
        assert(ins.drop_last() =~= t);
        assert(ins.last() == v);
        assert(table_map(ins) =~= table_map(t).insert(v.0.key(), v.1@));
    } else {
        let e = t.drop_last();
        assert(forall|p: int| 0 <= p < e.len() ==> e[p] == t[p]);
        assert(ins.drop_last() =~= e.insert(i, v));
        assert(ins.last() == t.last());
        lemma_table_map_insert_at(e, i, v);
        assert(t.last().0.key() != v.0.key());
        assert(table_map(ins) =~= table_map(t).insert(v.0.key(), v.1@));
    }
}

/// A route key under a path prefix: the prefix is prepended to the path and
/// the method is kept.
pub open spec fn prefixed_key(p: Seq<char>, k: RouteKey) -> RouteKey {
    (p + k.0, k.1)
}

/// The route table `m` re-prefixed with `p`: exactly the bindings
/// `prefixed_key(p, k)` to `m[k]`.
pub open spec fn prefix_map<H>(p: Seq<char>, m: Map<RouteKey, Seq<H>>) -> Map<RouteKey, Seq<H>> {
    Map::new(
        |k: RouteKey|
            k.0.len() >= p.len() && k.0.take(p.len() as int) == p && m.dom().contains(
                (k.0.skip(p.len() as int), k.1),
            ),
        |k: RouteKey| m[(k.0.skip(p.len() as int), k.1)],
    )
}

proof fn lemma_prefixed_key_parts(p: Seq<char>, k: RouteKey)
    ensures
        prefixed_key(p, k).0.len() >= p.len(),
        prefixed_key(p, k).0.take(p.len() as int) == p,
        prefixed_key(p, k).0.skip(p.len() as int) == k.0,
        prefixed_key(p, k).1 == k.1,
{
    assert((p + k.0).take(p.len() as int) =~= p);
    assert((p + k.0).skip(p.len() as int) =~= k.0);
}

proof fn lemma_prefix_map_insert<H>(
    p: Seq<char>,
    m: Map<RouteKey, Seq<H>>,
    k: RouteKey,
    v: Seq<H>,
)
    ensures
        prefix_map(p, m.insert(k, v)) == prefix_map(p, m).insert(prefixed_key(p, k), v),
{
    let lhs = prefix_map(p, m.insert(k, v));
    let rhs = prefix_map(p, m).insert(prefixed_key(p, k), v);
    lemma_prefixed_key_parts(p, k);
    assert forall|q: RouteKey| lhs.dom().contains(q) implies rhs.dom().contains(q) by {
        if (q.0.skip(p.len() as int), q.1) == k {
            assert(q.0 =~= p + k.0);
        }
    }
    assert forall|q: RouteKey| rhs.dom().contains(q) implies lhs.dom().contains(q) by {}
    assert forall|q: RouteKey| lhs.dom().contains(q) implies lhs[q] == rhs[q] by {
        if (q.0.skip(p.len() as int), q.1) == k {
            assert(q.0 =~= p + k.0);
        }
    }
    assert(lhs =~= rhs);
}

proof fn lemma_union_insert<H>(a: Map<RouteKey, Seq<H>>, b: Map<RouteKey, Seq<H>>, k: RouteKey, v: Seq<H>)
    ensures
        a.union_prefer_right(b).insert(k, v) == a.union_prefer_right(b.insert(k, v)),
{
    assert(a.union_prefer_right(b).insert(k, v) =~= a.union_prefer_right(b.insert(k, v)));
}

/// `n` space characters.
pub open spec fn spaces(n: nat) -> Seq<char> {
    Seq::new(n, |i: int| ' ')
}

/// One line of the route listing: the method name padded to eight columns,
/// a space, the path, and a newline.
pub open spec fn format_route(k: RouteKey) -> Seq<char> {
    let name = k.1.name_spec();
    let padded = if name.len() <= 8 {
        name + spaces((8 - name.len()) as nat)
    } else {
        name
    };
    padded + seq![' '] + k.0 + seq!['\n']
}

/// The whole route listing, one line per key, in the order given.
pub open spec fn format_routes(keys: Seq<RouteKey>) -> Seq<char>
    decreases keys.len(),
{
    if keys.len() == 0 {
        Seq::empty()
    } else {
        format_routes(keys.drop_last()) + format_route(keys.last())
    }
}

/// A router: a path prefix fixed at construction, and a table mapping each
/// registered route key to its handler chain, kept in ascending route order.
pub struct Router<H> {
    prefix: String,
    table: Vec<(Route, Vec<H>)>,
}

impl<H> View for Router<H> {
    type V = Map<RouteKey, Seq<H>>;

    closed spec fn view(&self) -> Map<RouteKey, Seq<H>> {
        table_map(self.table@)
    }
}

/// Finds where `route` belongs in a sorted table: the slot index, and
/// whether that slot already holds the same key.
fn find_slot<H>(table: &Vec<(Route, Vec<H>)>, route: &Route) -> (r: (usize, bool))
    requires
        table_sorted(table@),
    ensures
        r.0 <= table@.len(),
        forall|j: int| 0 <= j < r.0 ==> route_lt(#[trigger] table@[j].0.key(), route.key()),
        r.1 ==> r.0 < table@.len() && table@[r.0 as int].0.key() == route.key(),
        !r.1 ==> forall|j: int|
            r.0 <= j < table@.len() ==> route_lt(route.key(), #[trigger] table@[j].0.key()),
{
    let n = table.len();
    let mut i: usize = 0;
    while i < n
        invariant
            table_sorted(table@),
            n == table@.len(),
            0 <= i <= n,
            forall|j: int| 0 <= j < i ==> route_lt(#[trigger] table@[j].0.key(), route.key()),
        decreases n - i,
    {
        match table[i].0.cmp_route(route) {
            Cmp::Lt => {
                i += 1;
            },
            Cmp::Eq => {
                return (i, true);
            },
            Cmp::Gt => {
                proof {
                    assert forall|j: int|
                        i <= j < table@.len() implies route_lt(
                        route.key(),
                        #[trigger] table@[j].0.key(),
                    ) by {
                        if j > i {
                            lemma_route_lt_trans(
                                route.key(),
                                table@[i as int].0.key(),
                                table@[j].0.key(),
                            );
                        }
                    }
                }
                return (i, false);
            },
        }
    }
    (n, false)
}

impl<H> Router<H> {
    #[verifier::type_invariant]
    spec fn wf(&self) -> bool {
        table_sorted(self.table@)
    }

    /// The path prefix this router prepends to everything registered on it.
    pub closed spec fn prefix_spec(&self) -> Seq<char> {
        self.prefix@
    }

    /// The registered route keys, in ascending route order.
    pub closed spec fn routes_seq(&self) -> Seq<RouteKey> {
        self.table@.map_values(|e: (Route, Vec<H>)| e.0.key())
    }

    /// An empty router with the empty prefix.
    pub fn new() -> (r: Router<H>)
        ensures
            r@ == Map::<RouteKey, Seq<H>>::empty(),
            r.prefix_spec() == Seq::<char>::empty(),
    {
        Router { prefix: String::new(), table: Vec::new() }
    }

    /// An empty router whose prefix is fixed to `prefix`: it is prepended to
    /// every path registered on this router and to every route merged into
    /// it.
    pub fn new_prefixed(prefix: &str) -> (r: Router<H>)
        ensures
            r@ == Map::<RouteKey, Seq<H>>::empty(),
            r.prefix_spec() == prefix@,
    {
        Router { prefix: prefix.to_owned(), table: Vec::new() }
    }

    /// Binds `route` (whose path already carries the prefix) to `handlers`,
    /// replacing any chain registered for the same key.
    fn insert_route(&mut self, route: Route, handlers: Vec<H>)
        ensures
            final(self)@ == old(self)@.insert(route.key(), handlers@),
            final(self).prefix_spec() == old(self).prefix_spec(),
    {
        proof {
            use_type_invariant(&*self);
            lemma_sorted_unique(self.table@);
        }
        let ghost orig = self.table@;
        let (slot, occupied) = find_slot(&self.table, &route);
        let mut table: Vec<(Route, Vec<H>)> = Vec::new();
        core::mem::swap(&mut table, &mut self.table);
        if occupied {
            proof {
                lemma_table_map_update(orig, slot as int, (route, handlers));
            }
            table[slot] = (route, handlers);
            assert(table_sorted(table@)) by {
                assert(forall|j: int|
                    0 <= j < orig.len() && j != slot ==> table@[j].0.key() == orig[j].0.key());
                assert(table@[slot as int].0.key() == orig[slot as int].0.key());
            }
            self.table = table;
        } else {
            proof {
                assert(forall|p: int| 0 <= p < orig.len() ==> #[trigger] orig[p].0.key() != route.key())
                    by {
                    assert forall|p: int|
                        0 <= p < orig.len() implies #[trigger] orig[p].0.key() != route.key() by {
                        if p < slot {
                            lemma_route_lt_asym(orig[p].0.key(), route.key());
                        } else {
                            lemma_route_lt_asym(route.key(), orig[p].0.key());
                        }
                    }
                }
                lemma_table_map_insert_at(orig, slot as int, (route, handlers));
            }
            table.insert(slot, (route, handlers));
            assert(table_sorted(table@)) by {
                assert(forall|j: int| 0 <= j < slot ==> table@[j].0.key() == orig[j].0.key());
                assert(forall|j: int|
                    slot < j < table@.len() ==> table@[j].0.key() == orig[j - 1].0.key());
                assert(table@[slot as int].0.key() == route.key());
            }
            self.table = table;
        }
    }

    /// Registers (or replaces) the chain for `prefix + path` under `method`.
    fn register(&mut self, method: HttpMethod, path: &str, handlers: Vec<H>)
        ensures
            final(self)@ == old(self)@.insert(
                (old(self).prefix_spec() + path@, method),
                handlers@,
            ),
            final(self).prefix_spec() == old(self).prefix_spec(),
    {
        let full = self.prefix.clone().concat(path);
        let route = Route { path: full, method };
        self.insert_route(route, handlers);
    }

    /// Registers (or replaces) the chain for a GET route at `prefix + path`.
    pub fn get(&mut self, path: &str, handlers: Vec<H>)
        ensures
            final(self)@ == old(self)@.insert(
                (old(self).prefix_spec() + path@, HttpMethod::Get),
                handlers@,
            ),
            final(self).prefix_spec() == old(self).prefix_spec(),
    {
        self.register(HttpMethod::Get, path, handlers);
    }

    /// Registers (or replaces) the chain for a POST route at `prefix + path`.
    pub fn post(&mut self, path: &str, handlers: Vec<H>)
        ensures
            final(self)@ == old(self)@.insert(
                (old(self).prefix_spec() + path@, HttpMethod::Post),
                handlers@,
            ),
            final(self).prefix_spec() == old(self).prefix_spec(),
    {
        self.register(HttpMethod::Post, path, handlers);
    }

    /// Registers (or replaces) the chain for a PUT route at `prefix + path`.
    pub fn put(&mut self, path: &str, handlers: Vec<H>)
        ensures
            final(self)@ == old(self)@.insert(
                (old(self).prefix_spec() + path@, HttpMethod::Put),
                handlers@,
            ),
            final(self).prefix_spec() == old(self).prefix_spec(),
    {
        self.register(HttpMethod::Put, path, handlers);
    }

    /// Registers (or replaces) the chain for a PATCH route at `prefix + path`.
    pub fn patch(&mut self, path: &str, handlers: Vec<H>)
        ensures
            final(self)@ == old(self)@.insert(
                (old(self).prefix_spec() + path@, HttpMethod::Patch),
                handlers@,
            ),
            final(self).prefix_spec() == old(self).prefix_spec(),
    {
        self.register(HttpMethod::Patch, path, handlers);
    }

    /// Registers (or replaces) the chain for a DELETE route at `prefix + path`.
    pub fn delete(&mut self, path: &str, handlers: Vec<H>)
        ensures
            final(self)@ == old(self)@.insert(
                (old(self).prefix_spec() + path@, HttpMethod::Delete),
                handlers@,
            ),
            final(self).prefix_spec() == old(self).prefix_spec(),
    {
        self.register(HttpMethod::Delete, path, handlers);
    }

    /// Merges `other`'s whole route table into this router, re-prefixing
    /// every merged route with this router's prefix (the merged router's own
    /// prefix is already baked into its stored paths).  On a collision the
    /// merged route wins.
    pub fn join_other(&mut self, other: Router<H>)
        ensures
            final(self)@ == old(self)@.union_prefer_right(
                prefix_map(old(self).prefix_spec(), other@),
            ),
            final(self).prefix_spec() == old(self).prefix_spec(),
    {
        proof {
            use_type_invariant(&other);
        }
        let Router { prefix: _, table: mut otable } = other;
        let ghost oseq = otable@;
        let ghost p = self.prefix@;
        let ghost mut done: int = 0;
        proof {
            assert(self@.union_prefer_right(prefix_map(p, table_map(oseq.take(0)))) =~= self@);
        }
        while otable.len() > 0
            invariant
                done == oseq.len() - otable@.len(),
                0 <= done <= oseq.len(),
                otable@ == oseq.skip(done),
                self.prefix@ == old(self).prefix@,
                p == old(self).prefix@,
                self@ == old(self)@.union_prefer_right(prefix_map(p, table_map(oseq.take(done as int)))),
            decreases otable@.len(),
        {
            let (route, chain) = otable.remove(0);
            proof {
                assert(route == oseq[done].0);
                assert(chain == oseq[done].1);
                assert(otable@ =~= oseq.skip(done + 1));
            }
            let ghost before = self@;
            let full = self.prefix.clone().concat(route.path.as_str());
            let prefixed = Route { path: full, method: route.method };
            proof {
                assert(prefixed.key() == prefixed_key(p, route.key()));
            }
            self.insert_route(prefixed, chain);
            proof {
                let taken = oseq.take(done);
                let taken1 = oseq.take(done + 1);
                assert(taken1.drop_last() =~= taken);
                assert(taken1.last() == oseq[done as int]);
                assert(table_map(taken1) == table_map(taken).insert(route.key(), chain@));
                lemma_prefix_map_insert(p, table_map(taken), route.key(), chain@);
                lemma_union_insert(
                    old(self)@,
                    prefix_map(p, table_map(taken)),
                    prefixed_key(p, route.key()),
                    chain@,
                );
            }
            proof {
                done = done + 1;
            }
        }
        proof {
            assert(oseq.take(done) =~= oseq);
        }
    }

    /// Every registered route key, in ascending route order: first by path,
    /// lexicographically, then by method.
    pub fn routes(&self) -> (r: Vec<&Route>)
        ensures
            r@.len() == self.routes_seq().len(),
            forall|i: int| 0 <= i < r@.len() ==> #[trigger] r@[i].key() == self.routes_seq()[i],
            forall|i: int, j: int|
                0 <= i < j < r@.len() ==> route_lt(r@[i].key(), r@[j].key()),
            forall|i: int| 0 <= i < r@.len() ==> self@.contains_key(#[trigger] r@[i].key()),
            forall|k: RouteKey|
                self@.contains_key(k) ==> exists|i: int|
                    0 <= i < r@.len() && #[trigger] r@[i].key() == k,
    {
        proof {
            use_type_invariant(&*self);
            assert forall|k: RouteKey| self@.contains_key(k) implies exists|i: int|
                0 <= i < self.table@.len() && #[trigger] self.table@[i].0.key() == k by {
                lemma_table_map_contains(self.table@, k);
            }
            assert forall|i: int|
                0 <= i < self.table@.len() implies self@.contains_key(
                #[trigger] self.table@[i].0.key(),
            ) by {
                lemma_table_map_contains(self.table@, self.table@[i].0.key());
            }
        }
        let n = self.table.len();
        let mut out: Vec<&Route> = Vec::new();
        let mut i: usize = 0;
        while i < n
            invariant
                n == self.table@.len(),
                0 <= i <= n,
                out@.len() == i,
                forall|j: int| 0 <= j < i ==> #[trigger] out@[j].key() == self.table@[j].0.key(),
            decreases n - i,
        {
            out.push(&self.table[i].0);
            i += 1;
        }
        proof {
            assert forall|k: RouteKey| self@.contains_key(k) implies exists|j: int|
                0 <= j < out@.len() && #[trigger] out@[j].key() == k by {
                let j = choose|j: int|
                    0 <= j < self.table@.len() && #[trigger] self.table@[j].0.key() == k;
                assert(out@[j].key() == k);
            }
        }
        out
    }

    /// The route listing as one human-readable string: one line per route,
    /// in the same order as `routes`.
    pub fn formatted_routes(&self) -> (r: String)
        ensures
            r@ == format_routes(self.routes_seq()),
    {
        proof {
            use_type_invariant(&*self);
            assert(self.routes_seq().take(0) =~= Seq::<RouteKey>::empty());
        }
        let n = self.table.len();
        let mut out = String::new();
        let mut i: usize = 0;
        while i < n
            invariant
                n == self.table@.len(),
                0 <= i <= n,
                out@ == format_routes(self.routes_seq().take(i as int)),
            decreases n - i,
        {
            let ghost key = self.table@[i as int].0.key();
            let ghost base = out@;
            let name = self.table[i].0.method.as_str();
            proof {
                crate::method::lemma_method_name_token(self.table@[i as int].0.method);
            }
            out.append(name);
            proof {
                assert(out@ =~= base + name@ + spaces(0));
            }
            let mut w = name.unicode_len();
            while w < 8
                invariant
                    name@.len() <= w <= 8,
                    out@ == base + name@ + spaces((w - name@.len()) as nat),
                decreases 8 - w,
            {
                out.append(" ");
                proof {
                    reveal_strlit(" ");
                    assert(spaces((w + 1 - name@.len()) as nat) =~= spaces(
                        (w - name@.len()) as nat,
                    ) + " "@);
                    assert(out@ =~= base + name@ + spaces((w + 1 - name@.len()) as nat));
                }
                w += 1;
            }
            out.append(" ");
            out.append(self.table[i].0.path.as_str());
            out.append("\n");
            proof {
                reveal_strlit(" ");
                reveal_strlit("\n");
                assert(" "@ =~= seq![' ']);
                assert("\n"@ =~= seq!['\n']);
                let keys1 = self.routes_seq().take(i as int + 1);
                assert(keys1.drop_last() =~= self.routes_seq().take(i as int));
                assert(keys1.last() == key);
                assert(out@ =~= format_routes(self.routes_seq().take(i as int)) + format_route(
                    key,
                ));
            }
            i += 1;
        }
        proof {
            assert(self.routes_seq().take(n as int) =~= self.routes_seq());
        }
        out
    }

    /// The chain registered for `k`, or the empty chain when `k` is not
    /// registered.
    pub open spec fn chain_for(&self, k: RouteKey) -> Seq<H> {
        if self@.contains_key(k) {
            self@[k]
        } else {
            Seq::empty()
        }
    }
}

impl<H: Handler> Router<H> {
    /// Dispatches: looks the route up and runs its chain in registration
    /// order, checking the finished flag before each handler and stopping at
    /// the first one found set.  A route with no registered chain leaves the
    /// response untouched.
    pub fn run_route_middleware_chain(
        &self,
        router_path: &Route,
        req: &Request,
        res: &mut Response,
    )
        ensures
            final(res)@ == run_chain(self.chain_for(router_path.key()), req@, old(res)@),
    {
        proof {
            use_type_invariant(&*self);
            lemma_sorted_unique(self.table@);
            lemma_table_map_contains(self.table@, router_path.key());
        }
        let (slot, occupied) = find_slot(&self.table, router_path);
        if !occupied {
            proof {
                assert forall|i: int|
                    0 <= i < self.table@.len() implies #[trigger] self.table@[i].0.key()
                    != router_path.key() by {
                    if i < slot {
                        lemma_route_lt_asym(self.table@[i].0.key(), router_path.key());
                    } else {
                        lemma_route_lt_asym(router_path.key(), self.table@[i].0.key());
                    }
                }
                assert(!self@.contains_key(router_path.key()));
            }
            return ;
        }
        proof {
            lemma_table_map_index(self.table@, slot as int);
        }
        let chain = &self.table[slot].1;
        let n = chain.len();
        proof {
            assert(chain@.skip(0) =~= chain@);
        }
        let mut i: usize = 0;
        while i < n
            invariant
                n == chain@.len(),
                0 <= i <= n,
                chain@ == self.chain_for(router_path.key()),
                run_chain(chain@.skip(i as int), req@, res@) == run_chain(
                    chain@,
                    req@,
                    old(res)@,
                ),
            decreases n - i,
        {
            if res.is_finished() {
                return ;
            }
            let ghost pre = res@;
            chain[i].handle(req, res);
            proof {
                assert(chain@.skip(i as int).drop_first() =~= chain@.skip(i as int + 1));
                assert(chain@.skip(i as int)[0] == chain@[i as int]);
                assert(run_chain(chain@.skip(i as int), req@, pre) == run_chain(
                    chain@.skip(i as int + 1),
                    req@,
                    chain@[i as int].effect(req@, pre),
                ));
            }
            i += 1;
        }
        proof {
            assert(chain@.skip(n as int) =~= Seq::<H>::empty());
        }
    }
}

} // verus!
