//! Reading an HTTP request head: the request line, then header lines up
//! to an empty line.
use vstd::prelude::*;
use vstd::utf8::{decode_utf8, valid_utf8};

use crate::headers::{
    field_ok, headers_add, normalize_field, normalize_value, HeaderEntries, Headers,
};
use crate::uri::lemma_split_once_join;
use crate::text::{
    chars_eq, chars_of, find, push_str, split_on, split_once, string_of, sub_chars, words,
    words_of,
};

verus! {

broadcast use crate::text::lemma_char_vec_deep_view;

// ---------------------------------------------------------------------
// Methods, requests, responses
// ---------------------------------------------------------------------

/// A request method.
#[derive(Debug)]
pub enum Method {
    Options,
    Get,
    Head,
    Post,
    Put,
    Delete,
    Trace,
    Connect,
    Extension(String),
}

/// The standard method that a token names, if any.
pub open spec fn standard_method(s: Seq<char>) -> Option<Method> {
    if s == "OPTIONS"@ {
        Some(Method::Options)
    } else if s == "GET"@ {
        Some(Method::Get)
    } else if s == "HEAD"@ {
        Some(Method::Head)
    } else if s == "POST"@ {
        Some(Method::Post)
    } else if s == "PUT"@ {
        Some(Method::Put)
    } else if s == "DELETE"@ {
        Some(Method::Delete)
    } else if s == "TRACE"@ {
        Some(Method::Trace)
    } else if s == "CONNECT"@ {
        Some(Method::Connect)
    } else {
        None
    }
}

/// The method a token denotes: a standard one, or an extension holding the token.
pub open spec fn is_method_of(m: Method, s: Seq<char>) -> bool {
    match standard_method(s) {
        Some(std_m) => m == std_m,
        None => m matches Method::Extension(x) && x@ == s,
    }
}

fn method_from_chars(v: &Vec<char>, s: String) -> (r: Method)
    requires
        v@ == s@,
    ensures
        is_method_of(r, v@),
{
    if chars_eq(v, &chars_of("OPTIONS")) {
        Method::Options
    } else if chars_eq(v, &chars_of("GET")) {
        Method::Get
    } else if chars_eq(v, &chars_of("HEAD")) {
        Method::Head
    } else if chars_eq(v, &chars_of("POST")) {
        Method::Post
    } else if chars_eq(v, &chars_of("PUT")) {
        Method::Put
    } else if chars_eq(v, &chars_of("DELETE")) {
        Method::Delete
    } else if chars_eq(v, &chars_of("TRACE")) {
        Method::Trace
    } else if chars_eq(v, &chars_of("CONNECT")) {
        Method::Connect
    } else {
        Method::Extension(s)
    }
}

impl<'a> std::convert::From<&'a str> for Method {
    /// The method that a request-line token names.
    fn from(s: &'a str) -> (r: Method)
        ensures
            is_method_of(r, s@),
    {
        let v = chars_of(s);
        method_from_chars(&v, s.to_owned())
    }
}

impl<'a> vstd::std_specs::convert::FromSpecImpl<&'a str> for Method {
    open spec fn obeys_from_spec() -> bool {
        false
    }

    open spec fn from_spec(s: &'a str) -> Method {
        match standard_method(s@) {
            Some(m) => m,
            None => Method::Extension(choose|x: String| x@ == s@),
        }
    }
}

/// A request as handlers see it.
pub struct Request {
    pub headers: Headers,
}

/// A response.
#[derive(Debug)]
pub struct Response {}

// ---------------------------------------------------------------------
// Errors
// ---------------------------------------------------------------------

/// Why a request line is refused.
#[derive(Debug, Clone, Copy, PartialEq, Eq, Structural)]
pub enum RequestLineError {
    /// "no method"
    NoMethod,
    /// "no uri"
    NoUri,
    /// "no version"
    NoVersion,
    /// "too many parts"
    TooManyParts,
}

/// Why a request head is refused.
#[derive(Debug)]
pub enum RequestError {
    /// A line is not valid UTF-8 (what `read_line` reports as invalid data).
    InvalidUtf8,
    /// The request line is malformed.
    RequestLine(RequestLineError),
    /// "malformed header: " followed by the line: a header line without `:`.
    MalformedHeader(String),
}

/// A request error as plain values.
pub enum RequestErrorModel {
    InvalidUtf8,
    RequestLine(RequestLineError),
    MalformedHeader(Seq<char>),
}

impl View for RequestError {
    type V = RequestErrorModel;

    open spec fn view(&self) -> RequestErrorModel {
        match self {
            RequestError::InvalidUtf8 => RequestErrorModel::InvalidUtf8,
            RequestError::RequestLine(e) => RequestErrorModel::RequestLine(*e),
            RequestError::MalformedHeader(s) => RequestErrorModel::MalformedHeader(s@),
        }
    }
}

/// The message of a request-line error.
pub open spec fn line_error_message(e: RequestLineError) -> Seq<char> {
    match e {
        RequestLineError::NoMethod => "no method"@,
        RequestLineError::NoUri => "no uri"@,
        RequestLineError::NoVersion => "no version"@,
        RequestLineError::TooManyParts => "too many parts"@,
    }
}

/// The message of a request error.
pub open spec fn error_message(e: RequestErrorModel) -> Seq<char> {
    match e {
        RequestErrorModel::InvalidUtf8 => "stream did not contain valid UTF-8"@,
        RequestErrorModel::RequestLine(l) => line_error_message(l),
        RequestErrorModel::MalformedHeader(line) => "malformed header: "@ + line,
    }
}

impl RequestError {
    /// The message that reports the error.
    pub fn message(&self) -> (r: String)
        ensures
            r@ == error_message(self@),
    {
        let mut r = String::new();
        match self {
            RequestError::InvalidUtf8 => push_str(&mut r, "stream did not contain valid UTF-8"),
            RequestError::RequestLine(l) => match l {
                RequestLineError::NoMethod => push_str(&mut r, "no method"),
                RequestLineError::NoUri => push_str(&mut r, "no uri"),
                RequestLineError::NoVersion => push_str(&mut r, "no version"),
                RequestLineError::TooManyParts => push_str(&mut r, "too many parts"),
            },
            RequestError::MalformedHeader(line) => {
                push_str(&mut r, "malformed header: ");
                push_str(&mut r, line.as_str());
            },
        }
        proof {
            assert(Seq::<char>::empty() + error_message(self@) =~= error_message(self@));
        }
        r
    }
}

// ---------------------------------------------------------------------
// Lines
// ---------------------------------------------------------------------

/// `s` with every `\r\n` removed (`String::remove_matches("\r\n")`).
pub open spec fn remove_crlf(s: Seq<char>) -> Seq<char>
    decreases s.len(),
{
    if s.len() == 0 {
        s
    } else if s.len() >= 2 && s[0] == '\r' && s[1] == '\n' {
        remove_crlf(s.skip(2))
    } else {
        seq![s[0]] + remove_crlf(s.drop_first())
    }
}

/// Removes every `\r\n` from a line.
pub fn strip_crlf(s: &str) -> (r: String)
    ensures
        r@ == remove_crlf(s@),
{
    let v = chars_of(s);
    let n = v.len();
    let mut out: Vec<char> = Vec::new();
    let mut i: usize = 0;
    proof {
        assert(v@.skip(0) =~= v@);
    }
    while i < n
        invariant
            i <= n == v@.len(),
            out@ + remove_crlf(v@.skip(i as int)) == remove_crlf(v@),
        decreases n - i,
    {
        let ghost t = v@.skip(i as int);
        if v[i] == '\r' && i + 1 < n && v[i + 1] == '\n' {
            proof {
                assert(t.skip(2) =~= v@.skip(i + 2));
            }
            i += 2;
        } else {
            let ghost before = out@;
            out.push(v[i]);
            proof {
                assert(t.drop_first() =~= v@.skip(i + 1));
                assert(remove_crlf(t) == seq![t[0]] + remove_crlf(t.drop_first()));
                assert(out@ + remove_crlf(v@.skip(i + 1)) =~= before + remove_crlf(t));
            }
            i += 1;
        }
    }
    proof {
        assert(v@.skip(n as int) =~= Seq::<char>::empty());
        assert(out@ + Seq::<char>::empty() =~= out@);
    }
    string_of(&out)
}

/// The error a request line gives, if any: it must have exactly three
/// whitespace-separated parts.
pub open spec fn request_line_error(rl: Seq<char>) -> Option<RequestLineError> {
    let parts = words(rl, true);
    if parts.len() == 0 {
        Some(RequestLineError::NoMethod)
    } else if parts.len() == 1 {
        Some(RequestLineError::NoUri)
    } else if parts.len() == 2 {
        Some(RequestLineError::NoVersion)
    } else if parts.len() > 3 {
        Some(RequestLineError::TooManyParts)
    } else {
        None
    }
}

/// Splits a request line into method, URI and version.
pub fn parse_request_line(rl: &str) -> (r: Result<(Method, String, String), RequestLineError>)
    ensures
        match r {
            Ok((m, u, v)) => request_line_error(rl@) is None && is_method_of(m, words(rl@, true)[0])
                && u@ == words(rl@, true)[1] && v@ == words(rl@, true)[2],
            Err(e) => request_line_error(rl@) == Some(e),
        },
{
    let v = chars_of(rl);
    let parts = words_of(&v, true);
    let n = parts.len();
    if n == 0 {
        return Err(RequestLineError::NoMethod);
    }
    if n == 1 {
        return Err(RequestLineError::NoUri);
    }
    if n == 2 {
        return Err(RequestLineError::NoVersion);
    }
    if n > 3 {
        return Err(RequestLineError::TooManyParts);
    }
    proof {
        assert(parts.deep_view()[0] == parts@[0]@);
        assert(parts.deep_view()[1] == parts@[1]@);
        assert(parts.deep_view()[2] == parts@[2]@);
    }
    let m = method_from_chars(&parts[0], string_of(&parts[0]));
    Ok((m, string_of(&parts[1]), string_of(&parts[2])))
}

/// A header line whose field name, if it has one, the normalizer accepts.
pub open spec fn header_line_ok(line: Seq<char>) -> bool {
    match split_once(remove_crlf(line), ':') {
        Some((k, _)) => field_ok(k),
        None => true,
    }
}

/// Whether a field name is one the normalizer accepts.
pub fn field_name_ok(k: &Vec<char>) -> (r: bool)
    ensures
        r == field_ok(k@),
{
    let parts = crate::text::split_chars(k, '-');
    let mut i: usize = 0;
    while i < parts.len()
        invariant
            i <= parts@.len(),
            parts.deep_view() == split_on(k@, '-'),
            forall|j: int|
                0 <= j < i ==> {
                    let p = #[trigger] split_on(k@, '-')[j];
                    p.len() > 0 && crate::text::is_ascii_char(p[0])
                },
        decreases parts.len() - i,
    {
        let p = &parts[i];
        proof {
            assert(parts.deep_view()[i as int] == p@);
        }
        if p.len() == 0 || !((p[0] as u32) < 128) {
            return false;
        }
        i += 1;
    }
    true
}

/// Whether a header line is one `HeadParser::feed` accepts after the request line.
pub fn header_line_acceptable(line: &str) -> (r: bool)
    ensures
        r == header_line_ok(line@),
{
    let t = strip_crlf(line);
    let v = chars_of(t.as_str());
    match find(&v, ':') {
        Some(i) => {
            let k = sub_chars(&v, 0, i);
            field_name_ok(&k)
        },
        None => true,
    }
}

// ---------------------------------------------------------------------
// The request head, line by line
// ---------------------------------------------------------------------

/// What a line after the request line does to the head read so far.
pub enum FieldStep {
    /// The empty line: the head is complete.
    End,
    /// A field, added under its normalized name.
    Field(Seq<char>, Seq<char>),
    /// A line without `:`.
    Malformed(Seq<char>),
}

/// The meaning of a header line.
pub open spec fn field_step(line: Seq<char>) -> FieldStep {
    let t = remove_crlf(line);
    if t.len() == 0 {
        FieldStep::End
    } else {
        match split_once(t, ':') {
            Some((k, v)) => FieldStep::Field(k, v),
            None => FieldStep::Malformed(t),
        }
    }
}

/// The head of a request read line by line: first the request line, then
/// header lines until an empty one.
pub struct HeadParser {
    headers: Headers,
    started: bool,
    finished: bool,
}

impl HeadParser {
    /// Whether the request line has been read.
    pub closed spec fn started(&self) -> bool {
        self.started
    }

    /// Whether the empty line ending the head has been read.
    pub closed spec fn finished(&self) -> bool {
        self.finished
    }

    /// The header fields read so far.
    pub closed spec fn fields(&self) -> HeaderEntries {
        self.headers.entries()
    }

    /// A parser waiting for the request line.
    pub fn new() -> (r: HeadParser)
        ensures
            !r.started(),
            !r.finished(),
            r.fields() == Seq::<(Seq<char>, Seq<Seq<char>>)>::empty(),
    {
        HeadParser { headers: Headers::new(), started: false, finished: false }
    }

    /// Takes the next line of the head (with or without its line end).
    /// `Ok(true)` when the head is complete, `Ok(false)` when more lines are needed.
    pub fn feed(&mut self, line: &str) -> (r: Result<bool, RequestError>)
        requires
            !old(self).finished(),
            old(self).started() ==> header_line_ok(line@),
        ensures
            !old(self).started() ==> match request_line_error(remove_crlf(line@)) {
                Some(e) => r matches Err(x) && x@ == RequestErrorModel::RequestLine(e),
                None => r == Ok::<bool, RequestError>(false) && final(self).started()
                    && !final(self).finished() && final(self).fields() == old(self).fields(),
            },
            old(self).started() ==> match field_step(line@) {
                FieldStep::End => r == Ok::<bool, RequestError>(true) && final(self).finished()
                    && final(self).started() && final(self).fields() == old(self).fields(),
                FieldStep::Field(k, v) => r == Ok::<bool, RequestError>(false)
                    && final(self).started() && !final(self).finished() && final(self).fields()
                    == headers_add(old(self).fields(), normalize_field(k), normalize_value(v)),
                FieldStep::Malformed(t) => r matches Err(x) && x@
                    == RequestErrorModel::MalformedHeader(t),
            },
    {
        let t = strip_crlf(line);
        if !self.started {
            match parse_request_line(t.as_str()) {
                Ok(_) => {
                    self.started = true;
                    Ok(false)
                },
                Err(e) => Err(RequestError::RequestLine(e)),
            }
        } else {
            let v = chars_of(t.as_str());
            if v.len() == 0 {
                self.finished = true;
                return Ok(true);
            }
            match find(&v, ':') {
                Some(i) => {
                    let k = string_of(&sub_chars(&v, 0, i));
                    let val = string_of(&sub_chars(&v, i + 1, v.len()));
                    self.headers.insert(k.as_str(), val.as_str());
                    Ok(false)
                },
                None => Err(RequestError::MalformedHeader(t)),
            }
        }
    }

    /// The request whose head was read.
    pub fn into_request(self) -> (r: Request)
        ensures
            r.headers.entries() == self.fields(),
    {
        Request { headers: self.headers }
    }
}

// ---------------------------------------------------------------------
// Reading from an in-memory buffer
// ---------------------------------------------------------------------

/// The index of the first `\n` byte.
pub open spec fn find_newline(s: Seq<u8>) -> Option<int>
    decreases s.len(),
{
    if s.len() == 0 {
        None
    } else if s[0] == 10u8 {
        Some(0)
    } else {
        match find_newline(s.drop_first()) {
            Some(i) => Some(i + 1),
            None => None,
        }
    }
}

proof fn lemma_find_newline_at(s: Seq<u8>, i: int)
    requires
        0 <= i <= s.len(),
        forall|j: int| 0 <= j < i ==> s[j] != 10u8,
        i < s.len() ==> s[i] == 10u8,
    ensures
        find_newline(s) == (if i < s.len() {
            Some(i)
        } else {
            None::<int>
        }),
    decreases i,
{
    if i > 0 {
        let t = s.drop_first();
        assert forall|j: int| 0 <= j < i - 1 implies t[j] != 10u8 by {
            assert(t[j] == s[j + 1]);
        }
        if i - 1 < t.len() {
            assert(t[i - 1] == s[i]);
        }
        lemma_find_newline_at(t, i - 1);
    }
}

/// The smallest of three numbers.
pub open spec fn min3(a: int, b: int, c: int) -> int {
    if a <= b && a <= c {
        a
    } else if b <= c {
        b
    } else {
        c
    }
}

/// Reading the rest of a line of a buffered reader over `data`: the bytes
/// from `pos` to `fetched` are in the buffer, which holds at most `cap`
/// bytes, and `budget` more bytes may be fetched for this line. The buffer
/// is used up first, up to and including a `\n`; when it is empty, the next
/// bytes of the data are fetched into it, as many as the capacity, the
/// budget and the data allow. The line ends after a `\n`, or where nothing
/// more can be fetched. Gives the position after the line and how far the
/// data has then been fetched.
pub open spec fn line_from(data: Seq<u8>, pos: int, fetched: int, cap: nat, budget: nat) -> (
    int,
    int,
)
    decreases data.len() - fetched, fetched - pos,
{
    if pos < fetched {
        match find_newline(data.subrange(pos, fetched)) {
            Some(i) => (pos + i + 1, fetched),
            None => line_from(data, fetched, fetched, cap, budget),
        }
    } else {
        let n = min3(cap as int, budget as int, data.len() - fetched);
        if n <= 0 {
            (pos, fetched)
        } else {
            line_from(data, pos, fetched + n, cap, (budget - n) as nat)
        }
    }
}

/// The capacity of a reader's buffer when none is given: 8 KiB, what
/// `std::io::BufReader::new` currently documents.
pub const DEFAULT_CAPACITY: usize = 8192;

/// Where the line from `pos` ends and how far the data is fetched then, for a
/// buffer of capacity `cap` holding the bytes from `pos` to `fetched`, with
/// `limit` bytes that may be fetched for the line.
fn line_bounds(data: &Vec<u8>, pos: usize, fetched: usize, cap: usize, limit: usize) -> (r: (
    usize,
    usize,
))
    requires
        pos <= fetched <= data@.len(),
    ensures
        (r.0 as int, r.1 as int) == line_from(data@, pos as int, fetched as int, cap as nat, limit as nat),
        pos <= r.0 <= r.1 <= data@.len(),
{
    let n = data.len();
    let mut p = pos;
    let mut f = fetched;
    let mut budget = limit;
    loop
        invariant
            pos <= p <= f <= n == data@.len(),
            line_from(data@, p as int, f as int, cap as nat, budget as nat) == line_from(
                data@,
                pos as int,
                fetched as int,
                cap as nat,
                limit as nat,
            ),
        decreases n - f, f - p,
    {
        if p < f {
            let mut j = p;
            while j < f && data[j] != 10u8
                invariant
                    p <= j <= f <= n == data@.len(),
                    forall|k: int| p <= k < j ==> data@[k] != 10u8,
                decreases f - j,
            {
                j += 1;
            }
            proof {
                let s = data@.subrange(p as int, f as int);
                assert forall|k: int| 0 <= k < j - p implies s[k] != 10u8 by {
                    assert(s[k] == data@[p + k]);
                }
                lemma_find_newline_at(s, j - p);
            }
            if j < f {
                return (j + 1, f);
            }
            p = f;
        } else {
            let mut k = cap;
            if budget < k {
                k = budget;
            }
            if n - f < k {
                k = n - f;
            }
            assert(k as int == min3(cap as int, budget as int, n - f));
            if k == 0 {
                return (p, f);
            }
            f = f + k;
            budget = budget - k;
        }
    }
}

/// The text of the bytes from `start` to `end`, if they are valid UTF-8.
fn line_string(data: &Vec<u8>, start: usize, end: usize) -> (r: Result<String, RequestError>)
    requires
        start <= end <= data@.len(),
    ensures
        match r {
            Ok(s) => valid_utf8(data@.subrange(start as int, end as int)) && s@ == decode_utf8(
                data@.subrange(start as int, end as int),
            ),
            Err(e) => !valid_utf8(data@.subrange(start as int, end as int)) && e@
                == RequestErrorModel::InvalidUtf8,
        },
{
    let mut bytes: Vec<u8> = Vec::new();
    let mut k = start;
    while k < end
        invariant
            start <= k <= end <= data@.len(),
            bytes@ == data@.subrange(start as int, k as int),
        decreases end - k,
    {
        bytes.push(data[k]);
        k += 1;
        assert(bytes@ =~= data@.subrange(start as int, k as int));
    }
    match utf8_str(bytes.as_slice()) {
        Some(s) => Ok(s.to_owned()),
        None => Err(RequestError::InvalidUtf8),
    }
}

/// An in-memory byte source read line by line the way a buffered reader
/// over a read budget reads it: a line is taken from the buffer first, and
/// when the buffer runs dry the next bytes are fetched into it, at most the
/// buffer's capacity at a time and at most the line's budget in all. Bytes
/// fetched ahead stay in the buffer for the next line.
pub struct ByteReader {
    data: Vec<u8>,
    pos: usize,
    fetched: usize,
    cap: usize,
}

impl ByteReader {
    #[verifier::type_invariant]
    spec fn inv(self) -> bool {
        self.pos <= self.fetched <= self.data@.len()
    }

    /// All the bytes of the source.
    pub closed spec fn data(&self) -> Seq<u8> {
        self.data@
    }

    /// How many bytes have been read.
    pub closed spec fn pos(&self) -> int {
        self.pos as int
    }

    /// How many bytes have been fetched into the buffer; those from `pos()`
    /// on are still in it.
    pub closed spec fn fetched(&self) -> int {
        self.fetched as int
    }

    /// The capacity of the buffer.
    pub closed spec fn capacity(&self) -> nat {
        self.cap as nat
    }

    /// A reader at the start of a copy of `data`, with a buffer of `DEFAULT_CAPACITY` bytes.
    pub fn new(data: &[u8]) -> (r: ByteReader)
        ensures
            r.data() == data@,
            r.pos() == 0,
            r.fetched() == 0,
            r.capacity() == DEFAULT_CAPACITY,
    {
        ByteReader::with_capacity(data, DEFAULT_CAPACITY)
    }

    /// A reader at the start of a copy of `data`, with a buffer of `cap` bytes.
    pub fn with_capacity(data: &[u8], cap: usize) -> (r: ByteReader)
        ensures
            r.data() == data@,
            r.pos() == 0,
            r.fetched() == 0,
            r.capacity() == cap,
    {
        let mut v: Vec<u8> = Vec::new();
        let mut i: usize = 0;
        while i < data.len()
            invariant
                i <= data@.len(),
                v@ == data@.take(i as int),
            decreases data.len() - i,
        {
            v.push(data[i]);
            i += 1;
            assert(v@ =~= data@.take(i as int));
        }
        assert(v@ =~= data@);
        ByteReader { data: v, pos: 0, fetched: 0, cap }
    }

    /// How many bytes have been read.
    pub fn position(&self) -> (r: usize)
        ensures
            r == self.pos(),
    {
        self.pos
    }

    /// Reads the next line, line end included, fetching at most `limit`
    /// bytes into the buffer for it. At the end of the data it reads an
    /// empty line. The bytes are consumed whether or not they are valid UTF-8.
    pub fn read_line(&mut self, limit: usize) -> (r: Result<String, RequestError>)
        ensures
            final(self).data() == old(self).data(),
            final(self).capacity() == old(self).capacity(),
            (final(self).pos(), final(self).fetched()) == line_from(
                old(self).data(),
                old(self).pos(),
                old(self).fetched(),
                old(self).capacity(),
                limit as nat,
            ),
            old(self).pos() <= final(self).pos() <= final(self).fetched() <= old(self).data().len(),
            match r {
                Ok(s) => valid_utf8(old(self).data().subrange(old(self).pos(), final(self).pos()))
                    && s@ == decode_utf8(
                    old(self).data().subrange(old(self).pos(), final(self).pos()),
                ),
                Err(e) => !valid_utf8(old(self).data().subrange(old(self).pos(), final(self).pos()))
                    && e@ == RequestErrorModel::InvalidUtf8,
            },
    {
        proof {
            use_type_invariant(&*self);
        }
        let start = self.pos;
        let (end, f) = line_bounds(&self.data, self.pos, self.fetched, self.cap, limit);
        let line = line_string(&self.data, start, end);
        self.fetched = f;
        self.pos = end;
        line
    }
}

/// Decodes UTF-8 bytes (`std::str::from_utf8`): `Some` exactly when the
/// bytes are valid UTF-8, with the characters they encode.
#[verifier::external_body]
fn utf8_str(b: &[u8]) -> (r: Option<&str>)
    ensures
        match r {
            Some(s) => valid_utf8(b@) && s@ == decode_utf8(b@),
            None => !valid_utf8(b@),
        },
{
    match std::str::from_utf8(b) {
        Ok(s) => Some(s),
        Err(_) => None,
    }
}

/// The outcome of reading a request head from a buffered reader.
pub enum HeadOutcome {
    /// The head is complete: the fields read, then how far the data has been
    /// read and how far it has been fetched.
    Complete(HeaderEntries, int, int),
    /// The head is refused, with how far the data has been read and fetched.
    Failed(RequestErrorModel, int, int),
    /// A field name that cannot be normalized.
    Unsupported,
}

/// The line read from a reader's state, as characters if it is valid UTF-8.
pub open spec fn line_text(data: Seq<u8>, pos: int, fetched: int, cap: nat, limit: nat) -> Option<
    Seq<char>,
> {
    let bytes = data.subrange(pos, line_from(data, pos, fetched, cap, limit).0);
    if valid_utf8(bytes) {
        Some(decode_utf8(bytes))
    } else {
        None
    }
}

/// Reading the header lines from a reader's state, with the fields read so far.
pub open spec fn read_fields(
    data: Seq<u8>,
    pos: int,
    fetched: int,
    cap: nat,
    limit: nat,
    es: HeaderEntries,
) -> HeadOutcome
    decreases data.len() - pos,
{
    let (next, f) = line_from(data, pos, fetched, cap, limit);
    match line_text(data, pos, fetched, cap, limit) {
        None => HeadOutcome::Failed(RequestErrorModel::InvalidUtf8, next, f),
        Some(line) => match field_step(line) {
            FieldStep::End => HeadOutcome::Complete(es, next, f),
            FieldStep::Malformed(t) => HeadOutcome::Failed(
                RequestErrorModel::MalformedHeader(t),
                next,
                f,
            ),
            FieldStep::Field(k, v) => if !field_ok(k) {
                HeadOutcome::Unsupported
            } else if pos < next <= data.len() {
                read_fields(
                    data,
                    next,
                    f,
                    cap,
                    limit,
                    headers_add(es, normalize_field(k), normalize_value(v)),
                )
            } else {
                HeadOutcome::Unsupported
            },
        },
    }
}

/// Reading a request head from a reader's state: the request line, then the
/// header lines, each line fetching at most `limit` bytes.
pub open spec fn read_head(data: Seq<u8>, pos: int, fetched: int, cap: nat, limit: nat) -> HeadOutcome {
    let (next, f) = line_from(data, pos, fetched, cap, limit);
    match line_text(data, pos, fetched, cap, limit) {
        None => HeadOutcome::Failed(RequestErrorModel::InvalidUtf8, next, f),
        Some(line) => match request_line_error(remove_crlf(line)) {
            Some(e) => HeadOutcome::Failed(RequestErrorModel::RequestLine(e), next, f),
            None => read_fields(data, next, f, cap, limit, seq![]),
        },
    }
}

/// The head that `read_request` would read from `r`.
pub open spec fn head_of(r: &ByteReader, limit: usize) -> HeadOutcome {
    read_head(r.data(), r.pos(), r.fetched(), r.capacity(), limit as nat)
}

/// A non-empty line that ends a field moves the reader on.
proof fn lemma_field_line_advances(line: Seq<char>, data: Seq<u8>, pos: int, next: int)
    requires
        0 <= pos <= next <= data.len(),
        valid_utf8(data.subrange(pos, next)),
        line == decode_utf8(data.subrange(pos, next)),
        remove_crlf(line).len() > 0,
    ensures
        pos < next,
{
    if pos == next {
        assert(data.subrange(pos, next) =~= Seq::<u8>::empty());
        assert(decode_utf8(Seq::<u8>::empty()) =~= Seq::<char>::empty());
        assert(remove_crlf(line) == line);
    }
}

/// Whether every header line of the head that `read_request` would read has
/// a field name that can be normalized.
pub fn head_supported(r: &ByteReader, limit: usize) -> (b: bool)
    ensures
        b == !(head_of(r, limit) is Unsupported),
{
    proof {
        use_type_invariant(r);
    }
    let ghost target = head_of(r, limit);
    let (next, f) = line_bounds(&r.data, r.pos, r.fetched, r.cap, limit);
    let first = match line_string(&r.data, r.pos, next) {
        Ok(s) => s,
        Err(_) => return true,
    };
    let t = strip_crlf(first.as_str());
    if parse_request_line(t.as_str()).is_err() {
        return true;
    }
    let mut p = next;
    let mut q = f;
    let ghost mut es: HeaderEntries = seq![];
    loop
        invariant
            p <= q <= r.data@.len(),
            read_fields(r.data(), p as int, q as int, r.capacity(), limit as nat, es) == target,
            target == head_of(r, limit),
        decreases r.data@.len() - p,
    {
        let (next, f) = line_bounds(&r.data, p, q, r.cap, limit);
        let line = match line_string(&r.data, p, next) {
            Ok(s) => s,
            Err(_) => return true,
        };
        let t = strip_crlf(line.as_str());
        let v = chars_of(t.as_str());
        if v.len() == 0 {
            return true;
        }
        match find(&v, ':') {
            None => return true,
            Some(i) => {
                let k = sub_chars(&v, 0, i);
                if !field_name_ok(&k) {
                    return false;
                }
                proof {
                    lemma_field_line_advances(line@, r.data(), p as int, next as int);
                    let val = v@.subrange(i + 1, v@.len() as int);
                    assert(split_once(t@, ':') == Some((k@, val)));
                    es = headers_add(es, normalize_field(k@), normalize_value(val));
                }
                p = next;
                q = f;
            },
        }
    }
}

/// Reads a request head from `r`: the request line, then header lines up to
/// an empty line (or the end of the data). Each line may fetch at most
/// `limit` bytes into the buffer.
pub fn read_request(r: &mut ByteReader, limit: usize) -> (res: Result<Response, RequestError>)
    requires
        !(head_of(old(r), limit) is Unsupported),
    ensures
        final(r).data() == old(r).data(),
        final(r).capacity() == old(r).capacity(),
        match head_of(old(r), limit) {
            HeadOutcome::Complete(_, p, f) => res is Ok && final(r).pos() == p && final(r).fetched()
                == f,
            HeadOutcome::Failed(e, p, f) => res matches Err(x) && x@ == e && final(r).pos() == p
                && final(r).fetched() == f,
            HeadOutcome::Unsupported => false,
        },
{
    let mut parser = HeadParser::new();
    let ghost data = r.data();
    let ghost cap = r.capacity();
    let ghost target = head_of(r, limit);
    proof {
        use_type_invariant(&*r);
    }
    let first = match r.read_line(limit) {
        Ok(s) => s,
        Err(e) => return Err(e),
    };
    match parser.feed(first.as_str()) {
        Ok(_) => {},
        Err(e) => return Err(e),
    }
    loop
        invariant
            r.data() == data,
            r.capacity() == cap,
            data == old(r).data(),
            cap == old(r).capacity(),
            target == head_of(old(r), limit),
            parser.started(),
            !parser.finished(),
            0 <= r.pos() <= r.fetched() <= data.len(),
            !(target is Unsupported),
            read_fields(data, r.pos(), r.fetched(), cap, limit as nat, parser.fields()) == target,
        decreases data.len() - r.pos(),
    {
        let ghost before = r.pos();
        let line = match r.read_line(limit) {
            Ok(s) => s,
            Err(e) => return Err(e),
        };
        proof {
            let t = remove_crlf(line@);
            if t.len() == 0 {
                crate::text::lemma_find_char(t, ':');
            }
            assert(header_line_ok(line@));
        }
        match parser.feed(line.as_str()) {
            Ok(true) => return Ok(Response {}),
            Ok(false) => {
                proof {
                    lemma_field_line_advances(line@, data, before, r.pos());
                }
            },
            Err(e) => return Err(e),
        }
    }
}

/// Reads a request head from `r` when every field name in it can be
/// normalized; otherwise reads nothing and gives `None`.
pub fn try_read_request(r: &mut ByteReader, limit: usize) -> (res: Option<
    Result<Response, RequestError>,
>)
    ensures
        final(r).data() == old(r).data(),
        final(r).capacity() == old(r).capacity(),
        match head_of(old(r), limit) {
            HeadOutcome::Complete(_, p, f) => res matches Some(x) && x is Ok && final(r).pos() == p
                && final(r).fetched() == f,
            HeadOutcome::Failed(e, p, f) => res matches Some(x) && x matches Err(y) && y@ == e
                && final(r).pos() == p && final(r).fetched() == f,
            HeadOutcome::Unsupported => res is None && final(r).pos() == old(r).pos()
                && final(r).fetched() == old(r).fetched(),
        },
{
    if head_supported(r, limit) {
        Some(read_request(r, limit))
    } else {
        None
    }
}

// ---------------------------------------------------------------------
// Laws
// ---------------------------------------------------------------------

/// The name of a method as a request line writes it.
pub open spec fn method_name(m: Method) -> Seq<char> {
    match m {
        Method::Options => "OPTIONS"@,
        Method::Get => "GET"@,
        Method::Head => "HEAD"@,
        Method::Post => "POST"@,
        Method::Put => "PUT"@,
        Method::Delete => "DELETE"@,
        Method::Trace => "TRACE"@,
        Method::Connect => "CONNECT"@,
        Method::Extension(x) => x@,
    }
}

/// The method a token gives is named by that very token: a standard token
/// gives its own method, and any other token an extension that holds it.
pub proof fn law_method_named_by_token(m: Method, s: Seq<char>)
    requires
        is_method_of(m, s),
    ensures
        method_name(m) == s,
{
}

/// A header line is split at its first `:` and nothing is lost: the field
/// name holds no `:`, and the name, a `:` and the value put back together
/// give the line (without its line ends). A non-empty line without `:` is
/// refused as it is.
pub proof fn law_field_line_split(line: Seq<char>)
    ensures
        match field_step(line) {
            FieldStep::Field(k, v) => crate::text::find_char(k, ':') is None && k + seq![':'] + v
                == remove_crlf(line),
            FieldStep::Malformed(t) => t == remove_crlf(line) && t.len() > 0
                && crate::text::find_char(t, ':') is None,
            FieldStep::End => remove_crlf(line).len() == 0,
        },
{
    lemma_split_once_join(remove_crlf(line), ':');
}

} // verus!
