//! Authentication of a client, over HTTP/3.

use vstd::prelude::*;

use crate::error::Error;
use crate::random;
use crate::text;

verus! {

/// Seconds within which a client has to authenticate.
pub const AUTH_TIMEOUT_SECS: u64 = 3;

/// HTTP/3 error code for normal closure.
pub const CLOSE_ERR_CODE_OK: u32 = 0x100;

/// What the server reads of a request: its URI and method as text, and its header fields in
/// order, the names in lower case.
pub struct AuthRequest {
    pub uri: String,
    pub method: String,
    pub headers: Vec<(String, Vec<u8>)>,
}

/// What the server answers.
pub struct AuthResponse {
    pub status: u16,
    pub headers: Vec<(String, String)>,
}

/// Whether `http` reads a text as a URI that it holds equal to another text.
pub uninterp spec fn http_uri_eq(uri: Seq<char>, expected: Seq<char>) -> bool;

/// Compares a URI with a text.
///
/// Calls `http::Uri`'s `FromStr` and `PartialEq<str>`: the scheme and the authority count
/// without their case, a URI may leave out an empty path, and what is no URI equals nothing.
/// The contract names the result and says no more of it.
#[verifier::external_body]
fn uri_eq(uri: &str, expected: &str) -> (r: bool)
    ensures
        r == http_uri_eq(uri@, expected@),
{
    match uri.parse::<http::Uri>() {
        Ok(parsed) => parsed == *expected,
        Err(_) => false,
    }
}

/// The bytes that a header value may hold to be read as text: visible ASCII characters,
/// spaces and tabs.
pub open spec fn is_header_text(value: Seq<u8>) -> bool {
    forall|i: int| 0 <= i < value.len() ==> (32 <= #[trigger] value[i] < 127 || value[i] == 9)
}

/// The first header field with a name.
pub open spec fn header_of(headers: Seq<(String, Vec<u8>)>, name: Seq<char>) -> Option<Seq<u8>>
    decreases headers.len(),
{
    if headers.len() == 0 {
        None
    } else if headers[0].0@ == name {
        Some(headers[0].1@)
    } else {
        header_of(headers.skip(1), name)
    }
}

/// How a request is judged: whether it goes to the right place, by the right method, and
/// carries the password.
pub open spec fn auth_verdict(uri_matches: bool, request: AuthRequest, password: Seq<char>) -> Result<
    (),
    Error,
> {
    if !uri_matches {
        Err(Error::UnexpectedUri)
    } else if request.method@ != "POST"@ {
        Err(Error::UnexpectedMethod)
    } else {
        match header_of(request.headers@, "hysteria-auth"@) {
            None => Err(Error::MissingAuthHeader),
            Some(value) => if !is_header_text(value) {
                Err(Error::InvalidAuthHeader)
            } else if value != vstd::utf8::encode_utf8(password) {
                Err(Error::IncorrectPassword)
            } else {
                Ok(())
            },
        }
    }
}

fn find_header<'a>(headers: &'a Vec<(String, Vec<u8>)>, name: &str) -> (r: Option<&'a Vec<u8>>)
    ensures
        match r {
            Some(value) => header_of(headers@, name@) == Some(value@),
            None => header_of(headers@, name@) is None,
        },
{
    let n: usize = headers.len();
    let mut i: usize = 0;
    proof {
        assert(headers@.skip(0) =~= headers@);
    }
    while i < n
        invariant
            i <= n,
            n == headers@.len(),
            header_of(headers@, name@) == header_of(headers@.skip(i as int), name@),
        decreases n - i,
    {
        if text::same_text(headers[i].0.as_str(), name) {
            assert(headers@.skip(i as int)[0].0@ == name@);
            return Some(&headers[i].1);
        }
        proof {
            assert(headers@.skip(i as int).skip(1) =~= headers@.skip(i + 1));
        }
        i = i + 1;
    }
    None
}

fn all_header_text(value: &[u8]) -> (r: bool)
    ensures
        r == is_header_text(value@),
{
    let n: usize = value.len();
    let mut i: usize = 0;
    while i < n
        invariant
            i <= n,
            n == value@.len(),
            forall|j: int| 0 <= j < i ==> (32 <= #[trigger] value@[j] < 127 || value@[j] == 9),
        decreases n - i,
    {
        let b: u8 = value[i];
        if !((b >= 32 && b < 127) || b == 9) {
            assert(!(32 <= value@[i as int] < 127 || value@[i as int] == 9));
            return false;
        }
        i = i + 1;
    }
    true
}

/// Judges a request whose URI was compared already.
pub fn validate_auth_parts(uri_matches: bool, request: &AuthRequest, password: &str) -> (r: Result<
    (),
    Error,
>)
    ensures
        r == auth_verdict(uri_matches, *request, password@),
{
    if !uri_matches {
        return Err(Error::UnexpectedUri);
    }
    if !text::same_text(request.method.as_str(), "POST") {
        return Err(Error::UnexpectedMethod);
    }
    let auth_value = match find_header(&request.headers, "hysteria-auth") {
        Some(value) => value,
        None => {
            return Err(Error::MissingAuthHeader);
        },
    };
    if !all_header_text(auth_value.as_slice()) {
        return Err(Error::InvalidAuthHeader);
    }
    if !text::same_bytes(auth_value.as_slice(), password.as_bytes()) {
        return Err(Error::IncorrectPassword);
    }
    Ok(())
}

/// Judges a request.
pub fn validate_auth_request(request: &AuthRequest, password: &str) -> (r: Result<(), Error>)
    ensures
        r == auth_verdict(
            http_uri_eq(request.uri@, "https://hysteria/auth"@),
            *request,
            password@,
        ),
{
    let uri_matches: bool = uri_eq(request.uri.as_str(), "https://hysteria/auth");
    validate_auth_parts(uri_matches, request, password)
}

/// A header field is found exactly where some field has the name, be it the first of all.
pub proof fn headers_are_found(headers: Seq<(String, Vec<u8>)>, name: Seq<char>)
    ensures
        header_of(headers, name) is Some <==> exists|i: int|
            0 <= i < headers.len() && (#[trigger] headers[i]).0@ == name,
    decreases headers.len(),
{
    if headers.len() > 0 {
        let rest = headers.skip(1);
        headers_are_found(rest, name);
        if headers[0].0@ != name {
            assert forall|i: int| 0 <= i < rest.len() implies #[trigger] rest[i] == headers[i
                + 1] by {}
            assert forall|i: int| 1 <= i < headers.len() implies #[trigger] headers[i] == rest[i
                - 1] by {}
        }
    }
}

/// The header field that is found is the first of all that have the name.
pub proof fn first_header_is_found(headers: Seq<(String, Vec<u8>)>, name: Seq<char>, i: int)
    requires
        0 <= i <= headers.len(),
        forall|j: int| 0 <= j < i ==> (#[trigger] headers[j]).0@ != name,
        i < headers.len() ==> headers[i].0@ == name,
    ensures
        header_of(headers, name) == (if i < headers.len() {
            Some(headers[i].1@)
        } else {
            None
        }),
    decreases headers.len(),
{
    if headers.len() > 0 && i > 0 {
        let rest = headers.skip(1);
        assert(headers[0].0@ != name);
        assert forall|j: int| 0 <= j < i - 1 implies (#[trigger] rest[j]).0@ != name by {
            assert(rest[j] == headers[j + 1]);
        }
        first_header_is_found(rest, name, i - 1);
    }
}

/// What a request is told, in the order of what is looked at: a wrong place, a wrong method, no
/// password, a password that is no header text, and a wrong password. A password that stands
/// behind another field of its name does not count.
pub proof fn requests_are_refused_in_order(request: AuthRequest, password: Seq<char>, first: int)
    requires
        0 <= first <= request.headers@.len(),
        forall|j: int| 0 <= j < first ==> (#[trigger] request.headers@[j]).0@ != "hysteria-auth"@,
        first < request.headers@.len() ==> request.headers@[first].0@ == "hysteria-auth"@,
    ensures
        auth_verdict(false, request, password) == Err::<(), Error>(Error::UnexpectedUri),
        request.method@ != "POST"@ ==> auth_verdict(true, request, password) == Err::<(), Error>(
            Error::UnexpectedMethod,
        ),
        request.method@ == "POST"@ && first == request.headers@.len() ==> auth_verdict(
            true,
            request,
            password,
        ) == Err::<(), Error>(Error::MissingAuthHeader),
        request.method@ == "POST"@ && first < request.headers@.len() ==> {
            let value = request.headers@[first].1@;
            let readable = forall|i: int|
                0 <= i < value.len() ==> 32 <= #[trigger] value[i] <= 126 || value[i] == 9;
            &&& !readable ==> auth_verdict(true, request, password) == Err::<(), Error>(
                Error::InvalidAuthHeader,
            )
            &&& readable && value != vstd::utf8::encode_utf8(password) ==> auth_verdict(
                true,
                request,
                password,
            ) == Err::<(), Error>(Error::IncorrectPassword)
            &&& readable && value == vstd::utf8::encode_utf8(password) ==> auth_verdict(
                true,
                request,
                password,
            ) == Ok::<(), Error>(())
        },
{
    first_header_is_found(request.headers@, "hysteria-auth"@, first);
}

/// A request that is accepted carries the password.
pub proof fn accepted_has_password(uri_matches: bool, request: AuthRequest, password: Seq<char>)
    requires
        auth_verdict(uri_matches, request, password) is Ok,
    ensures
        uri_matches,
        request.method@ == "POST"@,
        header_of(request.headers@, "hysteria-auth"@) == Some(vstd::utf8::encode_utf8(password)),
{
}

/// A request to the right place that carries the password is accepted, where a header field can
/// carry the password at all.
pub proof fn password_is_accepted(request: AuthRequest, password: Seq<char>)
    requires
        request.method@ == "POST"@,
        header_of(request.headers@, "hysteria-auth"@) == Some(vstd::utf8::encode_utf8(password)),
        is_header_text(vstd::utf8::encode_utf8(password)),
    ensures
        auth_verdict(true, request, password) is Ok,
{
}

/// A text of 1 to 79 letters and digits.
pub open spec fn is_padding(padding: Seq<char>) -> bool {
    let bytes = vstd::utf8::encode_utf8(padding);
    &&& 1 <= bytes.len() < 80
    &&& forall|i: int| 0 <= i < bytes.len() ==> random::is_alphanumeric(#[trigger] bytes[i])
}

/// A text of 1 to 79 random letters and digits.
pub fn generate_ascii_string() -> (r: String)
    ensures
        is_padding(r@),
{
    let length: i64 = random::random_range(1, 79);
    let mut bytes: Vec<u8> = Vec::new();
    let mut i: i64 = 0;
    while i < length
        invariant
            0 <= i <= length <= 79,
            bytes@.len() == i,
            forall|j: int| 0 <= j < i ==> random::is_alphanumeric(#[trigger] bytes@[j]),
        decreases length - i,
    {
        let b: u8 = random::random_alphanumeric();
        bytes.push(b);
        i = i + 1;
    }
    assert forall|j: int| 0 <= j < bytes@.len() implies #[trigger] bytes@[j] < 128 by {
        assert(random::is_alphanumeric(bytes@[j]));
    }
    text::ascii_string(bytes.as_slice())
}

/// Whether a response has a status and exactly some header fields.
pub open spec fn response_is(
    r: AuthResponse,
    status: u16,
    headers: Seq<(Seq<char>, Seq<char>)>,
) -> bool {
    &&& r.status == status
    &&& r.headers@.len() == headers.len()
    &&& forall|i: int|
        0 <= i < headers.len() ==> (#[trigger] r.headers@[i]).0@ == headers[i].0
            && r.headers@[i].1@ == headers[i].1
}

/// The answer to a request: an accepted client learns whether it may send UDP, a refused one
/// learns nothing.
pub fn auth_response(accepted: bool, udp_enabled: bool, padding: String) -> (r: AuthResponse)
    ensures
        accepted ==> response_is(r, 233, accepting_headers(udp_enabled, padding@)),
        !accepted ==> response_is(r, 404, Seq::empty()),
{
    let mut headers: Vec<(String, String)> = Vec::new();
    if !accepted {
        return AuthResponse { status: 404, headers };
    }
    let udp: &str = if udp_enabled {
        "true"
    } else {
        "false"
    };
    headers.push(("Hysteria-UDP".to_owned(), udp.to_owned()));
    headers.push(("Hysteria-CC-RX".to_owned(), "0".to_owned()));
    headers.push(("Hysteria-Padding".to_owned(), padding));
    AuthResponse { status: 233, headers }
}

/// The header fields of an accepting answer.
pub open spec fn accepting_headers(udp_enabled: bool, padding: Seq<char>) -> Seq<
    (Seq<char>, Seq<char>),
> {
    seq![
        (
            "Hysteria-UDP"@,
            if udp_enabled {
                "true"@
            } else {
                "false"@
            },
        ),
        ("Hysteria-CC-RX"@, "0"@),
        ("Hysteria-Padding"@, padding),
    ]
}

/// A response is known by its status and all of its header fields: none is left out, and none
/// added.
pub proof fn responses_are_exact(
    r: AuthResponse,
    status: u16,
    headers: Seq<(Seq<char>, Seq<char>)>,
    i: int,
)
    requires
        response_is(r, status, headers),
    ensures
        r.status == status,
        r.headers@.len() == headers.len(),
        0 <= i < headers.len() ==> r.headers@[i].0@ == headers[i].0 && r.headers@[i].1@
            == headers[i].1,
{
}

/// What an accepted client reads: whether it may send UDP, that the server asks for no rate, and
/// padding of 1 to 79 letters and digits, in these three fields and no other.
pub proof fn accepted_clients_are_told(r: AuthResponse, udp_enabled: bool)
    requires
        accepts(r, udp_enabled),
    ensures
        r.status == 233,
        r.headers@.len() == 3,
        r.headers@[0].0@ == "Hysteria-UDP"@,
        udp_enabled ==> r.headers@[0].1@ == "true"@,
        !udp_enabled ==> r.headers@[0].1@ == "false"@,
        r.headers@[1].0@ == "Hysteria-CC-RX"@,
        r.headers@[1].1@ == "0"@,
        r.headers@[2].0@ == "Hysteria-Padding"@,
        ({
            let bytes = vstd::utf8::encode_utf8(r.headers@[2].1@);
            &&& 1 <= bytes.len() <= 79
            &&& forall|i: int|
                0 <= i < bytes.len() ==> 48 <= #[trigger] bytes[i] <= 57 || 65 <= bytes[i] <= 90
                    || 97 <= bytes[i] <= 122
        }),
{
    let padding = choose|padding: Seq<char>|
        is_padding(padding) && response_is(
            r,
            233,
            #[trigger] accepting_headers(udp_enabled, padding),
        );
    let headers = accepting_headers(udp_enabled, padding);
    assert(r.headers@[0].0@ == headers[0].0 && r.headers@[0].1@ == headers[0].1);
    assert(r.headers@[1].0@ == headers[1].0 && r.headers@[1].1@ == headers[1].1);
    assert(r.headers@[2].0@ == headers[2].0 && r.headers@[2].1@ == headers[2].1);
    let bytes = vstd::utf8::encode_utf8(r.headers@[2].1@);
    assert forall|i: int| 0 <= i < bytes.len() implies 48 <= #[trigger] bytes[i] <= 57 || 65
        <= bytes[i] <= 90 || 97 <= bytes[i] <= 122 by {
        assert(random::is_alphanumeric(bytes[i]));
    }
}

/// Whether a response accepts a client, with some padding.
pub open spec fn accepts(r: AuthResponse, udp_enabled: bool) -> bool {
    exists|padding: Seq<char>|
        is_padding(padding) && response_is(
            r,
            233,
            #[trigger] accepting_headers(udp_enabled, padding),
        )
}

/// What came of a request, and what it is answered.
pub struct AuthStep {
    pub verdict: Result<(), Error>,
    pub response: AuthResponse,
}

/// Judges a request and answers it. A request that is refused is answered like one for
/// something that does not exist, and the client may try again. Without a request the client
/// is gone.
pub fn auth_connection(request: Option<&AuthRequest>, password: &str, udp_enabled: bool) -> (r: Result<
    AuthStep,
    Error,
>)
    ensures
        match (request, r) {
            (Some(request), Ok(step)) => {
                &&& step.verdict == auth_verdict(
                    http_uri_eq(request.uri@, "https://hysteria/auth"@),
                    *request,
                    password@,
                )
                &&& step.verdict is Err ==> response_is(step.response, 404, Seq::empty())
                &&& step.verdict is Ok ==> accepts(step.response, udp_enabled)
            },
            (None, Err(e)) => e == Error::NoStreams,
            _ => false,
        },
{
    let request = match request {
        Some(request) => request,
        None => {
            return Err(Error::NoStreams);
        },
    };
    let verdict = validate_auth_request(request, password);
    let accepted: bool = match verdict {
        Ok(_) => true,
        Err(_) => false,
    };
    let padding = generate_ascii_string();
    let ghost headers = accepting_headers(udp_enabled, padding@);
    let response = auth_response(accepted, udp_enabled, padding);
    assert(accepted ==> response_is(response, 233, headers));
    Ok(AuthStep { verdict, response })
}

/// What becomes of a connection once its authentication is over.
#[derive(Debug, Clone, Copy, PartialEq, Eq, Structural)]
pub enum AuthOutcome {
    /// The client is let in.
    Serve,
    /// The connection is closed with "auth failed", and the error handed on.
    CloseFailed,
    /// The connection is closed with "auth timeout", and its task ends with a timeout.
    CloseTimeout,
}

/// Decides on a connection: `None` stands for a client that did not authenticate in time.
pub fn auth_outcome(authenticated: Option<bool>) -> (r: AuthOutcome)
    ensures
        r == (match authenticated {
            Some(true) => AuthOutcome::Serve,
            Some(false) => AuthOutcome::CloseFailed,
            None => AuthOutcome::CloseTimeout,
        }),
{
    match authenticated {
        Some(true) => AuthOutcome::Serve,
        Some(false) => AuthOutcome::CloseFailed,
        None => AuthOutcome::CloseTimeout,
    }
}

} // verus!
