//! Payloads: typed bodies of requests and responses.

use crate::request::{Request, RequestView};
use crate::response::{Error, ErrorView, BAD_REQUEST};
use std::string::FromUtf8Error;
use vstd::prelude::*;
use vstd::string::*;
use vstd::utf8::{decode_utf8, encode_utf8, encode_utf8_decode_utf8, encode_utf8_valid_utf8, valid_utf8};

verus! {

/// How a payload's schema is given: written out in place, or by the name
/// under which a registry holds it.
#[derive(Clone, Copy, Debug, PartialEq, Eq)]
pub enum MetaSchemaRef {
    /// A schema of the type `ty`, in the format `format` if there is one.
    Inline { ty: &'static str, format: Option<&'static str> },
    /// The schema that is registered under this name.
    Reference(&'static str),
}

/// The mathematical value of a [`MetaSchemaRef`].
pub enum SchemaView {
    Inline { ty: Seq<char>, format: Option<Seq<char>> },
    Reference(Seq<char>),
}

impl View for MetaSchemaRef {
    type V = SchemaView;

    open spec fn view(&self) -> SchemaView {
        match self {
            MetaSchemaRef::Inline { ty, format } => SchemaView::Inline {
                ty: ty@,
                format: match format {
                    Some(f) => Some(f@),
                    None => None,
                },
            },
            MetaSchemaRef::Reference(name) => SchemaView::Reference(name@),
        }
    }
}

/// The schemas that payloads have registered, by name, each name once.
#[derive(Debug)]
pub struct Registry {
    schemas: Vec<String>,
}

impl View for Registry {
    type V = Seq<Seq<char>>;

    closed spec fn view(&self) -> Seq<Seq<char>> {
        Seq::new(self.schemas@.len(), |i: int| self.schemas@[i]@)
    }
}

impl Registry {
    #[verifier::type_invariant]
    spec fn sound(self) -> bool {
        self@.no_duplicates()
    }

    /// A registry that holds no schema.
    pub fn new() -> (registry: Registry)
        ensures
            registry@ == Seq::<Seq<char>>::empty(),
    {
        Registry { schemas: Vec::new() }
    }

    /// Tells whether a schema is registered under `name`.
    pub fn contains(&self, name: &str) -> (b: bool)
        ensures
            b == self@.contains(name@),
    {
        let wanted = name.to_owned();
        let mut i: usize = 0;
        while i < self.schemas.len()
            invariant
                i <= self.schemas.len(),
                wanted@ == name@,
                forall|j: int| 0 <= j < i ==> self@[j] != name@,
            decreases self.schemas.len() - i,
        {
            assert(self@[i as int] == self.schemas@[i as int]@);
            if self.schemas[i] == wanted {
                return true;
            }
            i = i + 1;
        }
        false
    }

    /// Registers a schema under `name`, unless one is registered under it
    /// already.
    pub fn create_schema(&mut self, name: &str)
        ensures
            final(self)@ == if old(self)@.contains(name@) {
                old(self)@
            } else {
                old(self)@.push(name@)
            },
            final(self)@.no_duplicates(),
    {
        proof {
            use_type_invariant(&*self);
        }
        if !self.contains(name) {
            let ghost before = self@;
            let mut schemas: Vec<String> = Vec::new();
            core::mem::swap(&mut schemas, &mut self.schemas);
            schemas.push(name.to_owned());
            let ghost now = Seq::new(schemas@.len(), |i: int| schemas@[i]@);
            proof {
                assert(now == before.push(name@));
                assert forall|i: int, j: int| 0 <= i < now.len() && 0 <= j < now.len() && i != j implies now[i]
                    != now[j] by {
                    if i < before.len() && j < before.len() {
                        assert(before[i] != before[j]);
                    } else if i < before.len() {
                        assert(before.contains(before[i]));
                    } else {
                        assert(before.contains(before[j]));
                    }
                }
            }
            *self = Registry { schemas };
        }
    }

    /// The number of schemas that are registered.
    pub fn len(&self) -> (n: usize)
        ensures
            n == self@.len(),
    {
        self.schemas.len()
    }
}

/// A type that stands for the body of a request or of a response.
pub trait Payload {
    /// The content type under which the payload travels.
    const CONTENT_TYPE: &'static str;

    /// The payload's schema.
    spec fn schema() -> SchemaView;


    /// Says how the payload's schema is given.
    fn schema_ref() -> (schema: MetaSchemaRef)
        ensures
            schema@ == Self::schema(),
    ;

    /// Enters the schemas that the payload holds into `registry`. A
    /// payload that does not say otherwise enters none.
    fn register(registry: &mut Registry)
        default_ensures
            final(registry)@ == old(registry)@,
    {
    }
}

/// The body of a request, which can be taken once.
#[derive(Debug)]
pub struct RequestBody {
    bytes: Option<Vec<u8>>,
}

impl View for RequestBody {
    type V = Option<Seq<u8>>;

    closed spec fn view(&self) -> Option<Seq<u8>> {
        match self.bytes {
            Some(bytes) => Some(bytes@),
            None => None,
        }
    }
}

impl RequestBody {
    /// A body that holds `bytes` and has not been taken.
    pub fn new(bytes: Vec<u8>) -> (body: RequestBody)
        ensures
            body@ == Some(bytes@),
    {
        RequestBody { bytes: Some(bytes) }
    }

    /// Takes the bytes out. A body that was taken before gives none.
    pub fn take(&mut self) -> (bytes: Option<Vec<u8>>)
        ensures
            final(self)@ is None,
            match bytes {
                Some(b) => old(self)@ == Some(b@),
                None => old(self)@ is None,
            },
    {
        let mut bytes: Option<Vec<u8>> = None;
        core::mem::swap(&mut bytes, &mut self.bytes);
        bytes
    }

    /// Tells whether the body has been taken.
    pub fn is_taken(&self) -> (b: bool)
        ensures
            b == (self@ is None),
    {
        self.bytes.is_none()
    }
}

/// Why a request could not be parsed to a payload.
#[derive(Clone, Copy, Debug, PartialEq, Eq, Structural)]
pub enum ParseRequestError {
    /// The body was taken before.
    BodyTaken,
    /// The body is not of the payload's form.
    ParseRequestBody,
}

impl ParseRequestError {
    /// What the error says.
    pub open spec fn message_spec(self) -> Seq<char> {
        match self {
            ParseRequestError::BodyTaken => "the request body has been taken"@,
            ParseRequestError::ParseRequestBody => "failed to parse the request body"@,
        }
    }

    /// What the error says.
    pub fn message(&self) -> (text: &'static str)
        ensures
            text@ == self.message_spec(),
    {
        match self {
            ParseRequestError::BodyTaken => "the request body has been taken",
            ParseRequestError::ParseRequestBody => "failed to parse the request body",
        }
    }

    /// The failure that the error is towards a handler: a bad request, with
    /// what the error says as its reason.
    pub open spec fn failure(self) -> ErrorView {
        ErrorView { status: BAD_REQUEST, reason: self.message_spec() }
    }

    /// Makes the error a failure towards a handler.
    pub fn into_error(self) -> (failure: Error)
        ensures
            failure@ == self.failure(),
    {
        Error::bad_request(self.message())
    }
}

/// A payload that can be parsed from a request.
pub trait ParsePayload: Sized {
    /// The mathematical value of a payload.
    type Value;

    /// The mathematical value of this payload.
    spec fn value(&self) -> Self::Value;

    /// What a request and its body stand for: a payload, or the reason
    /// why they stand for none.
    spec fn parse(request: RequestView, body: Option<Seq<u8>>) -> Result<
        Self::Value,
        ParseRequestError,
    >;

    /// What parsing leaves of the body.
    spec fn leaves(request: RequestView, body: Option<Seq<u8>>) -> Option<Seq<u8>>;

    /// Reads the payload out of a request and its body.
    fn from_request(request: &Request, body: &mut RequestBody) -> (result: Result<
        Self,
        ParseRequestError,
    >)
        ensures
            final(body)@ == Self::leaves(request@, old(body)@),
            match result {
                Ok(payload) => Self::parse(request@, old(body)@) == Ok::<
                    Self::Value,
                    ParseRequestError,
                >(payload.value()),
                Err(e) => Self::parse(request@, old(body)@) == Err::<Self::Value, ParseRequestError>(
                    e,
                ),
            },
    ;
}

/// The mathematical value of a payload that may be a failure.
pub open spec fn checked<V>(parsed: Result<V, ParseRequestError>) -> Result<V, ErrorView> {
    match parsed {
        Ok(value) => Ok(value),
        Err(e) => Err(e.failure()),
    }
}

/// A payload that may have failed to parse has the content type and the
/// schema of the payload itself. It registers nothing, whatever the payload
/// itself registers.
impl<T: Payload> Payload for Result<T, Error> {
    const CONTENT_TYPE: &'static str = T::CONTENT_TYPE;

    open spec fn schema() -> SchemaView {
        T::schema()
    }

    fn schema_ref() -> (schema: MetaSchemaRef) {
        T::schema_ref()
    }
}

/// Parsing a payload that may have failed never fails: where the payload
/// itself cannot be parsed, the result holds the failure in place of the
/// payload, for the handler to look at.
impl<T: ParsePayload> ParsePayload for Result<T, Error> {
    type Value = Result<T::Value, ErrorView>;

    open spec fn value(&self) -> Result<T::Value, ErrorView> {
        match self {
            Ok(payload) => Ok(payload.value()),
            Err(e) => Err(e@),
        }
    }

    open spec fn parse(request: RequestView, body: Option<Seq<u8>>) -> Result<
        Result<T::Value, ErrorView>,
        ParseRequestError,
    > {
        Ok(checked(T::parse(request, body)))
    }

    open spec fn leaves(request: RequestView, body: Option<Seq<u8>>) -> Option<Seq<u8>> {
        T::leaves(request, body)
    }

    fn from_request(request: &Request, body: &mut RequestBody) -> (result: Result<
        Self,
        ParseRequestError,
    >) {
        match T::from_request(request, body) {
            Ok(payload) => Ok(Ok(payload)),
            Err(err) => Ok(Err(err.into_error())),
        }
    }
}

/// A binary payload: the bytes of the body as they are.
#[derive(Debug, PartialEq, Eq)]
pub struct Binary(pub Vec<u8>);

impl Payload for Binary {
    const CONTENT_TYPE: &'static str = "application/octet-stream";

    open spec fn schema() -> SchemaView {
        SchemaView::Inline { ty: "string"@, format: Some("binary"@) }
    }

    fn schema_ref() -> (schema: MetaSchemaRef) {
        MetaSchemaRef::Inline { ty: "string", format: Some("binary") }
    }
}

/// A binary payload is parsed from any body that has not been taken, and
/// takes it.
impl ParsePayload for Binary {
    type Value = Seq<u8>;

    open spec fn value(&self) -> Seq<u8> {
        self.0@
    }

    open spec fn parse(request: RequestView, body: Option<Seq<u8>>) -> Result<
        Seq<u8>,
        ParseRequestError,
    > {
        match body {
            Some(bytes) => Ok(bytes),
            None => Err(ParseRequestError::BodyTaken),
        }
    }

    open spec fn leaves(request: RequestView, body: Option<Seq<u8>>) -> Option<Seq<u8>> {
        None
    }

    fn from_request(request: &Request, body: &mut RequestBody) -> (result: Result<
        Self,
        ParseRequestError,
    >) {
        match body.take() {
            Some(bytes) => Ok(Binary(bytes)),
            None => Err(ParseRequestError::BodyTaken),
        }
    }
}

/// `std::string::FromUtf8Error`, the error of `String::from_utf8`; never
/// looked into.
#[verifier::external_type_specification]
#[verifier::external_body]
pub struct ExFromUtf8Error(FromUtf8Error);

/// `String::from_utf8` of std. What is claimed of it: it succeeds exactly
/// on bytes that are valid UTF-8, and the string it gives then is the text
/// that has these bytes as its encoding.
pub assume_specification[ String::from_utf8 ](vec: Vec<u8>) -> (text: Result<String, FromUtf8Error>)
    ensures
        match text {
            Ok(s) => encode_utf8(s@) == vec@,
            Err(_) => !valid_utf8(vec@),
        },
;

/// A payload of text: the body read as UTF-8.
#[derive(Debug, PartialEq, Eq)]
pub struct PlainText(pub String);

impl Payload for PlainText {
    const CONTENT_TYPE: &'static str = "text/plain";

    open spec fn schema() -> SchemaView {
        SchemaView::Inline { ty: "string"@, format: None }
    }

    fn schema_ref() -> (schema: MetaSchemaRef) {
        MetaSchemaRef::Inline { ty: "string", format: None }
    }
}

/// A payload of text is parsed from a body that has not been taken and is
/// valid UTF-8, and takes the body in any case.
impl ParsePayload for PlainText {
    type Value = Seq<char>;

    open spec fn value(&self) -> Seq<char> {
        self.0@
    }

    open spec fn parse(request: RequestView, body: Option<Seq<u8>>) -> Result<
        Seq<char>,
        ParseRequestError,
    > {
        match body {
            Some(bytes) => if valid_utf8(bytes) {
                Ok(decode_utf8(bytes))
            } else {
                Err(ParseRequestError::ParseRequestBody)
            },
            None => Err(ParseRequestError::BodyTaken),
        }
    }

    open spec fn leaves(request: RequestView, body: Option<Seq<u8>>) -> Option<Seq<u8>> {
        None
    }

    fn from_request(request: &Request, body: &mut RequestBody) -> (result: Result<
        Self,
        ParseRequestError,
    >) {
        match body.take() {
            Some(bytes) => match String::from_utf8(bytes) {
                Ok(text) => {
                    proof {
                        encode_utf8_valid_utf8(text@);
                        encode_utf8_decode_utf8(text@);
                    }
                    Ok(PlainText(text))
                },
                Err(_) => Err(ParseRequestError::ParseRequestBody),
            },
            None => Err(ParseRequestError::BodyTaken),
        }
    }
}

/// A payload that may have failed to parse has the content type and the
/// schema of the payload itself.
pub proof fn lemma_result_payload<T: Payload>()
    ensures
        <Result<T, Error> as Payload>::CONTENT_TYPE@ == T::CONTENT_TYPE@,
        <Result<T, Error> as Payload>::schema() == T::schema(),
{
}

} // verus!
