//! Routes: tables from method and path pattern to endpoint, with sub-trees
//! mounted under path prefixes.
//!
//! A route stands for one ordered table of rows. The rows of the mounted
//! sub-trees come first, sub-tree by sub-tree in the order of mounting, each
//! pattern behind its prefix; the route's own entries follow in the order
//! of registration. A request goes to the first row that matches its path
//! and its method.

use crate::endpoint::{answers, stateless, Endpoint};
use crate::path::{segments, split_path, texts};
use crate::pattern::{
    begins_with, captured, classify, is_static, lemma_prefixed_pattern, matches_path, parsed,
    rejects, statics, well_formed, Pattern, PatternError, SegmentView,
};
use crate::request::{pairs, Method, Request, RequestView};
use crate::response::{method_not_allowed, not_found, Response, ResponseView};
use vstd::prelude::*;
use vstd::string::*;

verus! {

/// One row of a route's table.
pub struct Row<E> {
    pub pattern: Seq<SegmentView>,
    pub method: Method,
    pub endpoint: E,
}

/// The row matches the path and the method.
pub open spec fn hits<E>(row: Row<E>, segs: Seq<Seq<char>>, method: Method) -> bool {
    row.method == method && matches_path(row.pattern, segs)
}

/// No row of the table matches the path and the method.
pub open spec fn no_hit<E>(t: Seq<Row<E>>, segs: Seq<Seq<char>>, method: Method) -> bool {
    forall|j: int| 0 <= j < t.len() ==> !hits(#[trigger] t[j], segs, method)
}

/// Row `i` is the first of the table that matches the path and the method.
pub open spec fn first_hit<E>(t: Seq<Row<E>>, segs: Seq<Seq<char>>, method: Method, i: int) -> bool {
    &&& 0 <= i < t.len()
    &&& hits(t[i], segs, method)
    &&& forall|j: int| 0 <= j < i ==> !hits(#[trigger] t[j], segs, method)
}

/// The methods in `acc`, followed by the methods of the rows whose pattern
/// matches the path, each method once, in the order of the rows.
pub open spec fn allowed<E>(acc: Seq<Method>, t: Seq<Row<E>>, segs: Seq<Seq<char>>) -> Seq<Method>
    decreases t.len(),
{
    if t.len() == 0 {
        acc
    } else {
        let before = allowed(acc, t.drop_last(), segs);
        let row = t.last();
        if matches_path(row.pattern, segs) && !before.contains(row.method) {
            before.push(row.method)
        } else {
            before
        }
    }
}

/// The table with every pattern behind the static segments `prefix`.
pub open spec fn behind<E>(prefix: Seq<Seq<char>>, t: Seq<Row<E>>) -> Seq<Row<E>> {
    Seq::new(t.len(), |i: int| Row { pattern: statics(prefix) + t[i].pattern, ..t[i] })
}

/// The response to a request that no row answers: not found where no
/// pattern matches the path, else a refusal that lists `methods`, the
/// methods registered for the path.
pub open spec fn refusal(methods: Seq<Method>) -> ResponseView {
    if methods.len() == 0 {
        not_found()
    } else {
        method_not_allowed(methods)
    }
}

/// `resp` is a response of the table to a request of the value `req`. The
/// first row that matches path and method answers, and is handed the
/// request with what its pattern captures added to the bag. Where no row
/// matches both, the route refuses by itself.
pub open spec fn dispatched<E: Endpoint>(t: Seq<Row<E>>, req: RequestView, resp: Response) -> bool {
    let segs = segments(req.path);
    if exists|i: int| first_hit(t, segs, req.method, i) {
        let i = choose|i: int| first_hit(t, segs, req.method, i);
        answers(t[i].endpoint, req.bind(captured(t[i].pattern, segs)), resp)
    } else {
        resp@ == refusal(allowed(Seq::empty(), t, segs))
    }
}

proof fn lemma_allowed_concat<E>(
    acc: Seq<Method>,
    a: Seq<Row<E>>,
    b: Seq<Row<E>>,
    segs: Seq<Seq<char>>,
)
    ensures
        allowed(acc, a + b, segs) == allowed(allowed(acc, a, segs), b, segs),
    decreases b.len(),
{
    if b.len() == 0 {
        assert(a + b == a);
    } else {
        lemma_allowed_concat(acc, a, b.drop_last(), segs);
        assert((a + b).drop_last() == a + b.drop_last());
        assert((a + b).last() == b.last());
    }
}

proof fn lemma_allowed_behind<E>(
    acc: Seq<Method>,
    prefix: Seq<Seq<char>>,
    t: Seq<Row<E>>,
    segs: Seq<Seq<char>>,
)
    ensures
        allowed(acc, behind(prefix, t), segs) == if begins_with(segs, prefix) {
            allowed(acc, t, segs.skip(prefix.len() as int))
        } else {
            acc
        },
    decreases t.len(),
{
    if t.len() > 0 {
        lemma_allowed_behind(acc, prefix, t.drop_last(), segs);
        assert(behind(prefix, t).drop_last() == behind(prefix, t.drop_last()));
        lemma_prefixed_pattern(prefix, t.last().pattern, segs);
    }
}

proof fn lemma_no_hit_behind<E>(
    prefix: Seq<Seq<char>>,
    t: Seq<Row<E>>,
    segs: Seq<Seq<char>>,
    method: Method,
    upto: int,
)
    requires
        0 <= upto <= t.len(),
        !begins_with(segs, prefix) || forall|j: int|
            0 <= j < upto ==> !hits(#[trigger] t[j], segs.skip(prefix.len() as int), method),
    ensures
        forall|j: int| 0 <= j < upto ==> !hits(#[trigger] behind(prefix, t)[j], segs, method),
{
    assert forall|j: int| 0 <= j < upto implies !hits(
        #[trigger] behind(prefix, t)[j],
        segs,
        method,
    ) by {
        lemma_prefixed_pattern(prefix, t[j].pattern, segs);
    }
}

/// Why a route took no entry or sub-tree.
#[derive(Clone, Copy, Debug, PartialEq, Eq, Structural)]
pub enum RouteError {
    /// The text is no pattern.
    Pattern(PatternError),
    /// A prefix holds a dynamic segment or a wildcard.
    DynamicPrefix,
}

/// One entry of a route: a method and a pattern, and the endpoint for them.
pub struct Entry<E> {
    method: Method,
    pattern: Pattern,
    endpoint: E,
}

/// A sub-tree mounted under a prefix.
pub struct Mount<E> {
    prefix: Vec<String>,
    route: Route<E>,
}

/// A table of entries and mounted sub-trees. Built before serving starts;
/// dispatch only reads it.
pub struct Route<E> {
    mounts: Vec<Mount<E>>,
    entries: Vec<Entry<E>>,
}

impl<E> Entry<E> {
    closed spec fn row(self) -> Row<E> {
        Row { pattern: self.pattern@, method: self.method, endpoint: self.endpoint }
    }
}

impl<E> Route<E> {
    spec fn rows_upto(&self, n: int) -> Seq<Row<E>>
        decreases self, n,
    {
        if n <= 0 || n > self.mounts@.len() {
            Seq::empty()
        } else {
            let mount = self.mounts@[n - 1];
            self.rows_upto(n - 1) + behind(texts(mount.prefix@), mount.route.rows())
        }
    }

    spec fn rows(&self) -> Seq<Row<E>>
        decreases self, self.mounts@.len() + 1,
    {
        self.rows_upto(self.mounts@.len() as int) + self.leaves()
    }

    /// The rows of the route's own entries, in the order of registration.
    pub closed spec fn leaves(&self) -> Seq<Row<E>> {
        Seq::new(self.entries@.len(), |i: int| self.entries@[i].row())
    }

    /// The rows of the mounted sub-trees, in the order of mounting.
    pub closed spec fn mounted(&self) -> Seq<Row<E>> {
        self.rows_upto(self.mounts@.len() as int)
    }

    proof fn lemma_mounted_grows(&self, n: int)
        requires
            0 <= n <= self.mounts@.len(),
        ensures
            self.rows_upto(n).len() <= self.mounted().len(),
            self.mounted().take(self.rows_upto(n).len() as int) == self.rows_upto(n),
            self@.take(self.rows_upto(n).len() as int) == self.rows_upto(n),
        decreases self.mounts@.len() - n,
    {
        if n < self.mounts@.len() {
            self.lemma_mounted_grows(n + 1);
            let next = self.rows_upto(n + 1);
            let now = self.rows_upto(n);
            assert(next.take(now.len() as int) == now);
            assert(self.mounted().take(next.len() as int).take(now.len() as int)
                == self.mounted().take(now.len() as int));
        } else {
            assert(self.mounted().take(self.mounted().len() as int) == self.mounted());
        }
        assert(self@.take(self.rows_upto(n).len() as int) == self.mounted().take(
            self.rows_upto(n).len() as int,
        ));
    }
}

impl<E> View for Route<E> {
    type V = Seq<Row<E>>;

    /// The route's table: mounted sub-trees first, own entries after them.
    open spec fn view(&self) -> Seq<Row<E>> {
        self.mounted() + self.leaves()
    }
}

/// Every segment of the text is static.
pub open spec fn static_text(text: Seq<char>) -> bool {
    forall|i: int| 0 <= i < segments(text).len() ==> classify(#[trigger] segments(text)[i]) is Static
}

fn has_method(seen: &Vec<Method>, method: Method) -> (b: bool)
    ensures
        b == seen@.contains(method),
{
    let mut i: usize = 0;
    while i < seen.len()
        invariant
            i <= seen.len(),
            forall|j: int| 0 <= j < i ==> seen@[j] != method,
        decreases seen.len() - i,
    {
        if seen[i] == method {
            return true;
        }
        i = i + 1;
    }
    false
}

fn begins(segs: &Vec<String>, from: usize, prefix: &Vec<String>) -> (b: bool)
    requires
        from <= segs.len(),
    ensures
        b == begins_with(texts(segs@).skip(from as int), texts(prefix@)),
{
    let ghost rest = texts(segs@).skip(from as int);
    let ghost want = texts(prefix@);
    if segs.len() - from < prefix.len() {
        return false;
    }
    let mut i: usize = 0;
    while i < prefix.len()
        invariant
            i <= prefix.len(),
            from + prefix.len() <= segs.len(),
            rest == texts(segs@).skip(from as int),
            want == texts(prefix@),
            forall|j: int| 0 <= j < i ==> rest[j] == want[j],
        decreases prefix.len() - i,
    {
        assert(rest[i as int] == segs@[from + i]@);
        assert(want[i as int] == prefix@[i as int]@);
        if segs[from + i] != prefix[i] {
            assert(rest.take(want.len() as int)[i as int] != want[i as int]);
            return false;
        }
        i = i + 1;
    }
    assert(rest.take(want.len() as int) == want);
    true
}

impl<E> Route<E> {
    /// A route with no entry and no sub-tree.
    pub fn new() -> (route: Route<E>)
        ensures
            route.mounted() == Seq::<Row<E>>::empty(),
            route.leaves() == Seq::<Row<E>>::empty(),
    {
        Route { mounts: Vec::new(), entries: Vec::new() }
    }

    /// Registers `endpoint` for `method` and the paths that `pattern`
    /// matches, behind what is registered already. A text that is no
    /// pattern is refused, and the route stays as it was.
    pub fn at(&mut self, pattern: &str, method: Method, endpoint: E) -> (result: Result<
        (),
        RouteError,
    >)
        ensures
            final(self).mounted() == old(self).mounted(),
            match result {
                Ok(_) => {
                    &&& well_formed(parsed(pattern@))
                    &&& final(self).leaves() == old(self).leaves().push(
                        Row { pattern: parsed(pattern@), method, endpoint },
                    )
                },
                Err(e) => final(self).leaves() == old(self).leaves() && match e {
                    RouteError::Pattern(fault) => rejects(parsed(pattern@), fault),
                    RouteError::DynamicPrefix => false,
                },
            },
    {
        match Pattern::parse(pattern) {
            Ok(parsed_pattern) => {
                let ghost before = self.leaves();
                let entry = Entry { method, pattern: parsed_pattern, endpoint };
                self.entries.push(entry);
                proof {
                    lemma_same_mounts(old(self), self, self.mounts@.len() as int);
                    assert(self.leaves() == before.push(entry.row()));
                }
                Ok(())
            },
            Err(fault) => Err(RouteError::Pattern(fault)),
        }
    }

    /// Mounts `route` under `prefix`, behind the sub-trees mounted already
    /// and before the route's own entries. A prefix with a dynamic segment
    /// or a wildcard is refused, and the route stays as it was.
    pub fn nest(&mut self, prefix: &str, route: Route<E>) -> (result: Result<(), RouteError>)
        ensures
            final(self).leaves() == old(self).leaves(),
            match result {
                Ok(_) => static_text(prefix@) && final(self).mounted() == old(self).mounted()
                    + behind(segments(prefix@), route@),
                Err(e) => {
                    &&& !static_text(prefix@)
                    &&& e == RouteError::DynamicPrefix
                    &&& final(self).mounted() == old(self).mounted()
                },
            },
    {
        let pieces = split_path(prefix);
        let mut i: usize = 0;
        while i < pieces.len()
            invariant
                i <= pieces.len(),
                texts(pieces@) == segments(prefix@),
                forall|j: int|
                    0 <= j < i ==> classify(#[trigger] segments(prefix@)[j]) is Static,
            decreases pieces.len() - i,
        {
            assert(texts(pieces@)[i as int] == pieces@[i as int]@);
            if !is_static(pieces[i].as_str()) {
                return Err(RouteError::DynamicPrefix);
            }
            i = i + 1;
        }
        let ghost n = self.mounts@.len() as int;
        let mount = Mount { prefix: pieces, route };
        self.mounts.push(mount);
        proof {
            lemma_same_mounts_upto(old(self), self, n);
            assert(self.mounts@[n] == mount);
            assert(self.rows_upto(n + 1) == self.rows_upto(n) + behind(
                texts(mount.prefix@),
                mount.route.rows(),
            ));
        }
        Ok(())
    }

    /// Looks for the first row of the table that matches the path from
    /// segment `from` on and the method. Where there is none, the methods
    /// of the rows that match the path are added to `seen`.
    fn lookup<'a>(
        &'a self,
        segs: &Vec<String>,
        from: usize,
        method: Method,
        seen: &mut Vec<Method>,
    ) -> (found: Option<(&'a E, Vec<(String, String)>, Ghost<int>)>)
        requires
            from <= segs.len(),
        ensures
            match found {
                Some((endpoint, bag, index)) => {
                    &&& first_hit(self@, texts(segs@).skip(from as int), method, index@)
                    &&& *endpoint == self@[index@].endpoint
                    &&& pairs(bag@) == captured(
                        self@[index@].pattern,
                        texts(segs@).skip(from as int),
                    )
                },
                None => {
                    &&& no_hit(self@, texts(segs@).skip(from as int), method)
                    &&& final(seen)@ == allowed(
                        old(seen)@,
                        self@,
                        texts(segs@).skip(from as int),
                    )
                },
            },
        decreases self,
    {
        let ghost rest = texts(segs@).skip(from as int);
        let ghost seen0 = seen@;
        let mut m: usize = 0;
        while m < self.mounts.len()
            invariant
                m <= self.mounts.len(),
                from <= segs.len(),
                rest == texts(segs@).skip(from as int),
                no_hit(self.rows_upto(m as int), rest, method),
                seen@ == allowed(seen0, self.rows_upto(m as int), rest),
            decreases self.mounts.len() - m,
        {
            let mount = &self.mounts[m];
            let ghost done = self.rows_upto(m as int);
            let ghost prefix = texts(mount.prefix@);
            let ghost sub = mount.route@;
            let ghost next = self.rows_upto(m + 1);
            let ghost inner = rest.skip(prefix.len() as int);
            proof {
                assert(mount.route.rows() == sub);
                assert(*mount == self.mounts@[m as int]);
                assert(next == done + behind(prefix, mount.route.rows()));
                lemma_allowed_concat(seen0, done, behind(prefix, sub), rest);
                lemma_allowed_behind(seen@, prefix, sub, rest);
            }
            if begins(segs, from, &mount.prefix) {
                assert(inner == texts(segs@).skip(from + mount.prefix.len()));
                match mount.route.lookup(segs, from + mount.prefix.len(), method, seen) {
                    Some((endpoint, bag, index)) => {
                        let ghost at = done.len() + index@;
                        proof {
                            lemma_no_hit_behind(prefix, sub, rest, method, index@);
                            lemma_prefixed_pattern(prefix, sub[index@].pattern, rest);
                            self.lemma_mounted_grows(m + 1);
                            assert(self@.take(next.len() as int) == next);
                            assert forall|j: int| 0 <= j < next.len() implies self@[j]
                                == next[j] by {
                                assert(self@.take(next.len() as int)[j] == self@[j]);
                            }
                            assert(next[at] == behind(prefix, sub)[index@]);
                            assert forall|j: int| 0 <= j < at implies !hits(
                                #[trigger] self@[j],
                                rest,
                                method,
                            ) by {
                                if j < done.len() {
                                    assert(next[j] == done[j]);
                                } else {
                                    assert(next[j] == behind(prefix, sub)[j - done.len()]);
                                }
                            }
                        }
                        return Some((endpoint, bag, Ghost(at)));
                    },
                    None => {
                        proof {
                            lemma_no_hit_behind(prefix, sub, rest, method, sub.len() as int);
                        }
                    },
                }
            } else {
                proof {
                    lemma_no_hit_behind(prefix, sub, rest, method, sub.len() as int);
                }
            }
            proof {
                assert forall|j: int| 0 <= j < next.len() implies !hits(
                    #[trigger] next[j],
                    rest,
                    method,
                ) by {
                    if j < done.len() {
                        assert(next[j] == done[j]);
                    } else {
                        assert(next[j] == behind(prefix, sub)[j - done.len()]);
                    }
                }
            }
            m = m + 1;
        }
        let ghost mounted = self.mounted();
        let mut k: usize = 0;
        assert(mounted + self.leaves().take(0) == mounted);
        while k < self.entries.len()
            invariant
                k <= self.entries.len(),
                from <= segs.len(),
                rest == texts(segs@).skip(from as int),
                mounted == self.mounted(),
                no_hit(mounted + self.leaves().take(k as int), rest, method),
                seen@ == allowed(seen0, mounted + self.leaves().take(k as int), rest),
            decreases self.entries.len() - k,
        {
            let entry = &self.entries[k];
            let ghost done = mounted + self.leaves().take(k as int);
            let ghost next = mounted + self.leaves().take(k + 1);
            let ghost row = self.leaves()[k as int];
            proof {
                assert(next.drop_last() == done);
                assert(next.last() == row);
                assert(row == entry.row());
            }
            match entry.pattern.captures_from(segs, from) {
                Some(bag) => {
                    if entry.method == method {
                        let ghost at = mounted.len() + k;
                        proof {
                            assert(self@[at] == row);
                            assert forall|j: int| 0 <= j < at implies !hits(
                                #[trigger] self@[j],
                                rest,
                                method,
                            ) by {
                                assert(self@[j] == done[j]);
                            }
                        }
                        return Some((&entry.endpoint, bag, Ghost(at)));
                    }
                    if !has_method(seen, entry.method) {
                        seen.push(entry.method);
                    }
                },
                None => {},
            }
            proof {
                assert forall|j: int| 0 <= j < next.len() implies !hits(
                    #[trigger] next[j],
                    rest,
                    method,
                ) by {
                    if j < done.len() {
                        assert(next[j] == done[j]);
                    }
                }
            }
            k = k + 1;
        }
        assert(self.leaves().take(self.entries.len() as int) == self.leaves());
        None
    }
}

proof fn lemma_same_mounts_upto<E>(a: &Route<E>, b: &Route<E>, n: int)
    requires
        0 <= n <= a.mounts@.len(),
        n <= b.mounts@.len(),
        forall|i: int| 0 <= i < n ==> a.mounts@[i] == b.mounts@[i],
    ensures
        a.rows_upto(n) == b.rows_upto(n),
    decreases n,
{
    if n > 0 {
        lemma_same_mounts_upto(a, b, n - 1);
    }
}

proof fn lemma_same_mounts<E>(a: &Route<E>, b: &Route<E>, n: int)
    requires
        a.mounts@ == b.mounts@,
        n == a.mounts@.len(),
    ensures
        a.mounted() == b.mounted(),
{
    lemma_same_mounts_upto(a, b, n);
}

impl<E: Endpoint> Endpoint for Route<E> {
    /// Dispatches the request by its path and method.
    fn call(&self, req: Request) -> (resp: Response)
        ensures
            dispatched(self@, req@, resp),
    {
        let segs = split_path(req.path());
        let mut seen: Vec<Method> = Vec::new();
        let ghost rest = texts(segs@);
        assert(rest.skip(0) == rest);
        match self.lookup(&segs, 0, req.method(), &mut seen) {
            Some((endpoint, bag, index)) => {
                let bound = req.bind(bag);
                let resp = endpoint.call(bound);
                proof {
                    let chosen = choose|i: int| first_hit(self@, rest, req@.method, i);
                    assert(first_hit(self@, rest, req@.method, index@));
                    assert(chosen == index@);
                    assert(call_ensures(E::call, (&self@[chosen].endpoint, bound), resp));
                }
                resp
            },
            None => {
                if seen.len() == 0 {
                    Response::not_found()
                } else {
                    Response::method_not_allowed(&seen)
                }
            },
        }
    }
}

/// Some row of the table has the method and a pattern that matches the
/// path: the method is registered for the path.
pub open spec fn registered<E>(t: Seq<Row<E>>, segs: Seq<Seq<char>>, method: Method) -> bool {
    exists|i: int| 0 <= i < t.len() && hits(#[trigger] t[i], segs, method)
}

/// The methods listed for a path are the methods registered for it, each
/// once.
pub proof fn lemma_allowed_lists_registered<E>(t: Seq<Row<E>>, segs: Seq<Seq<char>>)
    ensures
        allowed(Seq::empty(), t, segs).no_duplicates(),
        forall|m: Method|
            #![trigger registered(t, segs, m)]
            #![trigger allowed(Seq::empty(), t, segs).contains(m)]
            allowed(Seq::empty(), t, segs).contains(m) <==> registered(t, segs, m),
    decreases t.len(),
{
    let list = allowed(Seq::<Method>::empty(), t, segs);
    if t.len() > 0 {
        let init = t.drop_last();
        let before = allowed(Seq::<Method>::empty(), init, segs);
        let row = t.last();
        let added = matches_path(row.pattern, segs) && !before.contains(row.method);
        lemma_allowed_lists_registered(init, segs);
        assert forall|m: Method| list.contains(m) <==> registered(t, segs, m) by {
            assert(before.contains(m) <==> registered(init, segs, m));
            if registered(init, segs, m) {
                let i = choose|i: int| 0 <= i < init.len() && hits(#[trigger] init[i], segs, m);
                assert(t[i] == init[i]);
            }
            if hits(row, segs, m) {
                assert(t[t.len() - 1] == row);
            }
            if registered(t, segs, m) {
                let i = choose|i: int| 0 <= i < t.len() && hits(#[trigger] t[i], segs, m);
                if i < init.len() {
                    assert(init[i] == t[i]);
                }
            }
            assert(registered(t, segs, m) <==> registered(init, segs, m) || hits(row, segs, m));
            if before.contains(m) {
                let k = choose|k: int| 0 <= k < before.len() && before[k] == m;
                assert(list[k] == m);
            }
            if added && m == row.method {
                assert(list[before.len() as int] == m);
            }
            if list.contains(m) {
                let k = choose|k: int| 0 <= k < list.len() && list[k] == m;
                if k < before.len() {
                    assert(before[k] == m);
                }
            }
            assert(list.contains(m) <==> before.contains(m) || (added && m == row.method));
        }
        assert forall|i: int, j: int| 0 <= i < list.len() && 0 <= j < list.len() && i != j implies list[i]
            != list[j] by {
            if i < before.len() && j < before.len() {
                assert(before[i] != before[j]);
            } else if i < before.len() {
                assert(before.contains(before[i]));
            } else if j < before.len() {
                assert(before.contains(before[j]));
            }
        }
    } else {
        assert forall|m: Method| list.contains(m) <==> registered(t, segs, m) by {
        }
    }
}

/// Dispatch by path and method. For every response `resp` of a table to a
/// request: where row `i` is the first to match path and method, `resp`
/// is an answer of that row's endpoint to the request with what the row's
/// pattern captures; where no pattern matches the path, `resp` is not
/// found; where the path is matched, but never together with the method,
/// `resp` is the refusal that lists the methods registered for the path,
/// each once, the request's own not among them.
pub proof fn lemma_dispatch<E: Endpoint>(t: Seq<Row<E>>, req: RequestView, resp: Response)
    requires
        dispatched(t, req, resp),
    ensures
        forall|i: int| #[trigger]
            first_hit(t, segments(req.path), req.method, i) ==> answers(
                t[i].endpoint,
                req.bind(captured(t[i].pattern, segments(req.path))),
                resp,
            ),
        (forall|i: int|
            0 <= i < t.len() ==> !matches_path((#[trigger] t[i]).pattern, segments(req.path)))
            ==> resp@ == not_found(),
        no_hit(t, segments(req.path), req.method) && (exists|i: int|
            0 <= i < t.len() && matches_path((#[trigger] t[i]).pattern, segments(req.path)))
            ==> {
            let listed = allowed(Seq::empty(), t, segments(req.path));
            &&& resp@ == method_not_allowed(listed)
            &&& listed.no_duplicates()
            &&& !listed.contains(req.method)
            &&& forall|m: Method| #[trigger]
                listed.contains(m) <==> registered(t, segments(req.path), m)
        },
{
    let segs = segments(req.path);
    let listed = allowed(Seq::<Method>::empty(), t, segs);
    lemma_allowed_lists_registered(t, segs);
    assert forall|i: int| #[trigger] first_hit(t, segs, req.method, i) implies answers(
        t[i].endpoint,
        req.bind(captured(t[i].pattern, segs)),
        resp,
    ) by {
        let chosen = choose|j: int| first_hit(t, segs, req.method, j);
        assert(chosen == i);
    }
    if forall|i: int| 0 <= i < t.len() ==> !matches_path((#[trigger] t[i]).pattern, segs) {
        if listed.len() > 0 {
            assert(listed.contains(listed[0]));
        }
    }
    if no_hit(t, segs, req.method) && exists|i: int|
        0 <= i < t.len() && matches_path((#[trigger] t[i]).pattern, segs) {
        let i = choose|i: int| 0 <= i < t.len() && matches_path((#[trigger] t[i]).pattern, segs);
        assert(hits(t[i], segs, t[i].method));
        assert(listed.contains(t[i].method));
    }
}

/// Mounting is registering behind the prefix. A row of a sub-tree mounted
/// under `prefix` is the first to match a path and a method exactly when
/// the path begins with the prefix and the row is the first of the
/// sub-tree to match the rest of the path and the method; and the methods
/// that the mounted sub-tree lists for a path are those that the sub-tree
/// lists for the rest of it, and none where the path does not begin with
/// the prefix.
pub proof fn lemma_mounted<E>(
    prefix: Seq<Seq<char>>,
    sub: Seq<Row<E>>,
    segs: Seq<Seq<char>>,
    method: Method,
)
    ensures
        forall|i: int| #[trigger]
            first_hit(behind(prefix, sub), segs, method, i) <==> begins_with(segs, prefix)
                && first_hit(sub, segs.skip(prefix.len() as int), method, i),
        forall|i: int|
            0 <= i < sub.len() && matches_path(
                (#[trigger] behind(prefix, sub)[i]).pattern,
                segs,
            ) ==> captured(behind(prefix, sub)[i].pattern, segs) == captured(
                sub[i].pattern,
                segs.skip(prefix.len() as int),
            ),
        allowed(Seq::empty(), behind(prefix, sub), segs) == if begins_with(segs, prefix) {
            allowed(Seq::empty(), sub, segs.skip(prefix.len() as int))
        } else {
            Seq::empty()
        },
{
    let rest = segs.skip(prefix.len() as int);
    let t = behind(prefix, sub);
    lemma_allowed_behind(Seq::empty(), prefix, sub, segs);
    assert forall|i: int| 0 <= i < sub.len() implies (hits(#[trigger] t[i], segs, method)
        <==> begins_with(segs, prefix) && hits(sub[i], rest, method)) && (matches_path(
        t[i].pattern,
        segs,
    ) ==> captured(t[i].pattern, segs) == captured(sub[i].pattern, rest)) by {
        lemma_prefixed_pattern(prefix, sub[i].pattern, segs);
    }
    assert forall|i: int| #[trigger]
        first_hit(t, segs, method, i) <==> begins_with(segs, prefix) && first_hit(
            sub,
            rest,
            method,
            i,
        ) by {
        if first_hit(t, segs, method, i) {
            assert forall|j: int| 0 <= j < i implies !hits(#[trigger] sub[j], rest, method) by {
                assert(!hits(t[j], segs, method));
            }
        }
        if begins_with(segs, prefix) && first_hit(sub, rest, method, i) {
            assert forall|j: int| 0 <= j < i implies !hits(#[trigger] t[j], segs, method) by {
                assert(!hits(sub[j], rest, method));
            }
        }
    }
}

/// A route of stateless endpoints is stateless: whatever two calls on
/// the same route and on requests of the same value return has the same
/// value.
pub proof fn lemma_route_stateless<E: Endpoint>(route: Route<E>)
    requires
        forall|i: int| 0 <= i < route@.len() ==> stateless((#[trigger] route@[i]).endpoint),
    ensures
        stateless(route),
{
    assert forall|req: RequestView, first: Response, second: Response|
        #![trigger answers(route, req, first), answers(route, req, second)]
        answers(route, req, first) && answers(route, req, second) implies first@ == second@ by {
        assert(dispatched(route@, req, first));
        assert(dispatched(route@, req, second));
        let segs = segments(req.path);
        if exists|i: int| first_hit(route@, segs, req.method, i) {
            let i = choose|i: int| first_hit(route@, segs, req.method, i);
            let bound = req.bind(captured(route@[i].pattern, segs));
            assert(stateless(route@[i].endpoint));
            assert(answers(route@[i].endpoint, bound, first));
            assert(answers(route@[i].endpoint, bound, second));
        }
    }
}

} // verus!
