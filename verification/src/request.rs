//! The request context handed down a chain of endpoints.

use vstd::prelude::*;
use vstd::string::*;

verus! {

/// An HTTP request method.
#[derive(Clone, Copy, Debug, PartialEq, Eq, Structural)]
pub enum Method {
    Get,
    Post,
    Put,
    Delete,
    Head,
    Options,
    Connect,
    Patch,
    Trace,
}

impl Method {
    /// The method's token as it stands on the request line.
    pub open spec fn name_spec(self) -> Seq<char> {
        match self {
            Method::Get => "GET"@,
            Method::Post => "POST"@,
            Method::Put => "PUT"@,
            Method::Delete => "DELETE"@,
            Method::Head => "HEAD"@,
            Method::Options => "OPTIONS"@,
            Method::Connect => "CONNECT"@,
            Method::Patch => "PATCH"@,
            Method::Trace => "TRACE"@,
        }
    }

    /// The method's token as it stands on the request line.
    pub fn name(&self) -> (token: &'static str)
        ensures
            token@ == self.name_spec(),
    {
        match self {
            Method::Get => "GET",
            Method::Post => "POST",
            Method::Put => "PUT",
            Method::Delete => "DELETE",
            Method::Head => "HEAD",
            Method::Options => "OPTIONS",
            Method::Connect => "CONNECT",
            Method::Patch => "PATCH",
            Method::Trace => "TRACE",
        }
    }
}

/// The texts of a list of name and value pairs.
pub open spec fn pairs(v: Seq<(String, String)>) -> Seq<(Seq<char>, Seq<char>)> {
    Seq::new(v.len(), |i: int| (v[i].0@, v[i].1@))
}

/// The value of the first pair of `bag` that is named `name`.
pub open spec fn lookup(bag: Seq<(Seq<char>, Seq<char>)>, name: Seq<char>) -> Option<Seq<char>>
    decreases bag.len(),
{
    if bag.len() == 0 {
        None
    } else if bag[0].0 == name {
        Some(bag[0].1)
    } else {
        lookup(bag.skip(1), name)
    }
}

/// Finds the value of the first pair of `bag` that is named `name`.
pub fn find<'a>(bag: &'a Vec<(String, String)>, name: &str) -> (value: Option<&'a String>)
    ensures
        match value {
            Some(v) => lookup(pairs(bag@), name@) == Some(v@),
            None => lookup(pairs(bag@), name@) is None,
        },
{
    let wanted = name.to_owned();
    let mut i: usize = 0;
    assert(pairs(bag@).skip(0) == pairs(bag@));
    while i < bag.len()
        invariant
            i <= bag.len(),
            wanted@ == name@,
            lookup(pairs(bag@), name@) == lookup(pairs(bag@).skip(i as int), name@),
        decreases bag.len() - i,
    {
        let ghost rest = pairs(bag@).skip(i as int);
        assert(rest[0] == pairs(bag@)[i as int]);
        assert(rest.skip(1) == pairs(bag@).skip(i + 1));
        if bag[i].0 == wanted {
            return Some(&bag[i].1);
        }
        i = i + 1;
    }
    None
}

/// A request: what the peer asked for, and what the chain has attached on
/// the way down.
#[derive(Debug)]
pub struct Request {
    method: Method,
    path: String,
    headers: Vec<(String, String)>,
    body: Vec<u8>,
    remote_addr: String,
    params: Vec<(String, String)>,
}

/// The mathematical value of a [`Request`].
pub struct RequestView {
    pub method: Method,
    pub path: Seq<char>,
    pub headers: Seq<(Seq<char>, Seq<char>)>,
    pub body: Seq<u8>,
    pub remote_addr: Seq<char>,
    /// The bag of named values attached on the way down, oldest first.
    pub params: Seq<(Seq<char>, Seq<char>)>,
}

impl RequestView {
    /// The request with `found` added to the end of its bag.
    pub open spec fn bind(self, found: Seq<(Seq<char>, Seq<char>)>) -> RequestView {
        RequestView { params: self.params + found, ..self }
    }
}

impl View for Request {
    type V = RequestView;

    closed spec fn view(&self) -> RequestView {
        RequestView {
            method: self.method,
            path: self.path@,
            headers: pairs(self.headers@),
            body: self.body@,
            remote_addr: self.remote_addr@,
            params: pairs(self.params@),
        }
    }
}

impl Request {
    /// A request for `path` with no headers, an empty body, no peer address
    /// and an empty bag.
    pub fn new(method: Method, path: &str) -> (req: Request)
        ensures
            req@ == (RequestView {
                method,
                path: path@,
                headers: Seq::empty(),
                body: Seq::empty(),
                remote_addr: Seq::empty(),
                params: Seq::empty(),
            }),
    {
        let req = Request {
            method,
            path: path.to_owned(),
            headers: Vec::new(),
            body: Vec::new(),
            remote_addr: String::new(),
            params: Vec::new(),
        };
        assert(pairs(req.headers@) == Seq::<(Seq<char>, Seq<char>)>::empty());
        assert(pairs(req.params@) == Seq::<(Seq<char>, Seq<char>)>::empty());
        req
    }

    /// The request with one more header at the end.
    pub fn with_header(self, name: &str, value: &str) -> (req: Request)
        ensures
            req@ == (RequestView { headers: self@.headers.push((name@, value@)), ..self@ }),
    {
        let mut req = self;
        let ghost before = pairs(req.headers@);
        req.headers.push((name.to_owned(), value.to_owned()));
        assert(pairs(req.headers@) == before.push((name@, value@)));
        req
    }

    /// The request with `body` in place of its body.
    pub fn with_body(self, body: Vec<u8>) -> (req: Request)
        ensures
            req@ == (RequestView { body: body@, ..self@ }),
    {
        let mut req = self;
        req.body = body;
        req
    }

    /// The request with `addr` as the peer's address.
    pub fn with_remote_addr(self, addr: &str) -> (req: Request)
        ensures
            req@ == (RequestView { remote_addr: addr@, ..self@ }),
    {
        let mut req = self;
        req.remote_addr = addr.to_owned();
        req
    }

    /// The request with `found` added to the end of its bag.
    pub fn bind(self, found: Vec<(String, String)>) -> (req: Request)
        ensures
            req@ == self@.bind(pairs(found@)),
    {
        let mut req = self;
        let mut found = found;
        let ghost before = pairs(req.params@);
        let ghost added = pairs(found@);
        req.params.append(&mut found);
        assert(pairs(req.params@) == before + added);
        req
    }

    /// The request's method.
    pub fn method(&self) -> (m: Method)
        ensures
            m == self@.method,
    {
        self.method
    }

    /// The request's path, as the peer sent it.
    pub fn path(&self) -> (p: &str)
        ensures
            p@ == self@.path,
    {
        self.path.as_str()
    }

    /// The request's body.
    pub fn body(&self) -> (b: &Vec<u8>)
        ensures
            b@ == self@.body,
    {
        &self.body
    }

    /// The address of the peer.
    pub fn remote_addr(&self) -> (a: &str)
        ensures
            a@ == self@.remote_addr,
    {
        self.remote_addr.as_str()
    }

    /// The value of the first header named `name`.
    pub fn header(&self, name: &str) -> (value: Option<&String>)
        ensures
            match value {
                Some(v) => lookup(self@.headers, name@) == Some(v@),
                None => lookup(self@.headers, name@) is None,
            },
    {
        find(&self.headers, name)
    }

    /// The value of the first entry of the bag named `name`.
    pub fn param(&self, name: &str) -> (value: Option<&String>)
        ensures
            match value {
                Some(v) => lookup(self@.params, name@) == Some(v@),
                None => lookup(self@.params, name@) is None,
            },
    {
        find(&self.params, name)
    }

    /// The bag, oldest entry first.
    pub fn params(&self) -> (bag: &Vec<(String, String)>)
        ensures
            pairs(bag@) == self@.params,
    {
        &self.params
    }
}

} // verus!
