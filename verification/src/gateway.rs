use vstd::prelude::*;

use crate::ip;
use vstd::string::StringExecFns;

verus! {

/// The closed set of failure codes the gateway can record.
#[derive(Clone, Copy, Debug, PartialEq, Eq, Structural)]
pub enum ErrorCode {
    InvalidAddress,
    InvalidPort,
    NotInitialized,
    ConnectFailed,
    RemoteClosed,
    ParseFailed,
    Other,
}

/// The two-character code plus CRLF that the error query reports for
/// each recorded code.
pub open spec fn error_code_string(e: ErrorCode) -> Seq<char> {
    match e {
        ErrorCode::InvalidAddress => "E1\r\n"@,
        ErrorCode::InvalidPort => "E2\r\n"@,
        ErrorCode::NotInitialized => "E3\r\n"@,
        ErrorCode::ConnectFailed => "E4\r\n"@,
        ErrorCode::RemoteClosed => "E5\r\n"@,
        ErrorCode::ParseFailed => "E0\r\n"@,
        ErrorCode::Other => "E0\r\n"@,
    }
}

/// A validated target endpoint: four IPv4 octets and a port.
#[derive(Clone, Copy, Debug, PartialEq, Eq, Structural)]
pub struct Endpoint {
    pub o0: u8,
    pub o1: u8,
    pub o2: u8,
    pub o3: u8,
    pub port: u16,
}

pub uninterp spec fn json_nonempty_object(s: Seq<char>) -> bool;

pub uninterp spec fn json_string_field(s: Seq<char>, key: Seq<char>) -> Seq<char>;

/// Relies on serde_json::from_str::<Value>, Value::as_object,
/// Map::is_empty, Value::get and Value::as_str: whether a text parses as
/// a JSON object with at least one member, and the string under a given
/// key of it (empty when the key is missing or its value is not a
/// string), depend on the text alone.
#[verifier::external_body]
fn parse_string_field(message: &str, key: &str) -> (r: Option<String>)
    ensures
        r is Some <==> json_nonempty_object(message@),
        r matches Some(m) ==> m@ == json_string_field(message@, key@),
{
    let value: serde_json::Value = serde_json::from_str(message).unwrap_or_default();
    let nonempty = match value.as_object() {
        Some(map) => !map.is_empty(),
        None => false,
    };
    if !nonempty {
        return None;
    }
    match value.get(key).and_then(serde_json::Value::as_str) {
        Some(m) => Some(m.to_string()),
        None => Some(String::new()),
    }
}

pub uninterp spec fn utf8_lossy(bytes: Seq<u8>) -> Seq<char>;

/// Relies on String::from_utf8_lossy: the decoded text, with invalid
/// sequences replaced, depends on the bytes alone.
#[verifier::external_body]
fn decode_utf8_lossy(bytes: &Vec<u8>) -> (r: String)
    ensures
        r@ == utf8_lossy(bytes@),
{
    String::from_utf8_lossy(bytes.as_slice()).into_owned()
}

/// The fixed local reply to the "sibling" method; the result field is
/// "OK" in Cyrillic capitals.
pub open spec fn sibling_reply() -> Seq<char> {
    "{\"method\":\"sibling\", \"result\": \"\u{41e}\u{41a}\"}"@
}

/// The fixed substitute payload a lenient call returns on an internal
/// failure; its method field reads "sibling" whatever was asked.
pub open spec fn lenient_error_reply() -> Seq<char> {
    "{\"method\":\"sibling\", \"result\":\"ERROR\"}"@
}

/// The plain diagnostic a lenient call returns when the message is not a
/// non-empty JSON object; unlike the other replies it carries no CRLF.
pub open spec fn parse_error_reply() -> Seq<char> {
    "Json parse error"@
}

pub open spec fn crlf() -> Seq<char> {
    "\r\n"@
}

/// What goes over the wire: the caller's message, with a single NUL
/// byte appended when the method is "PingDevice".
pub open spec fn request_payload(msg: Seq<char>) -> Seq<char> {
    if json_string_field(msg, "method"@) == "PingDevice"@ {
        msg + "\0"@
    } else {
        msg
    }
}

/// What a network round trip reported back to the gateway.
pub enum NetEvent {
    /// The connection attempt timed out or was refused.
    ConnectFailed,
    /// The payload could not be written.
    WriteFailed,
    /// One chunk was read; empty means the peer closed without replying.
    Received(Vec<u8>),
    /// The read itself failed.
    ReadFailed,
}

/// What a strict send needs next: either it is done, or the caller must
/// perform one round trip to the endpoint with the payload and hand the
/// outcome to `send_strict_finish`.
pub enum StrictStep {
    Done(Result<String, ()>),
    Dial(Endpoint, String),
}

/// The lenient counterpart of `StrictStep`.
pub enum LenientStep {
    Done(String),
    Dial(Endpoint, String),
}

/// The gateway: a configured endpoint, if any, and the last failure.
pub struct SocketGateway {
    endpoint: Option<Endpoint>,
    last_error: ErrorCode,
}

impl SocketGateway {
    pub closed spec fn spec_endpoint(self) -> Option<Endpoint> {
        self.endpoint
    }

    pub closed spec fn spec_last_error(self) -> ErrorCode {
        self.last_error
    }

    /// A fresh gateway: unconfigured, with the no-failure-yet sentinel.
    pub fn new() -> (r: SocketGateway)
        ensures
            r.spec_endpoint() is None,
            r.spec_last_error() == ErrorCode::Other,
    {
        SocketGateway { endpoint: None, last_error: ErrorCode::Other }
    }

    /// Whether an endpoint has been configured. Pure.
    pub fn is_configured(&self) -> (r: bool)
        ensures
            r == (self.spec_endpoint() is Some),
    {
        match self.endpoint {
            Some(_) => true,
            None => false,
        }
    }

    /// The code of the last failure, as a two-character code plus CRLF.
    /// Pure: reading does not clear the error.
    pub fn last_error(&self) -> (r: String)
        ensures
            r@ == error_code_string(self.spec_last_error()),
    {
        match self.last_error {
            ErrorCode::InvalidAddress => String::from_str("E1\r\n"),
            ErrorCode::InvalidPort => String::from_str("E2\r\n"),
            ErrorCode::NotInitialized => String::from_str("E3\r\n"),
            ErrorCode::ConnectFailed => String::from_str("E4\r\n"),
            ErrorCode::RemoteClosed => String::from_str("E5\r\n"),
            ErrorCode::ParseFailed => String::from_str("E0\r\n"),
            ErrorCode::Other => String::from_str("E0\r\n"),
        }
    }

    /// Validates and stores the target endpoint. The address must be an
    /// IP literal and the port within 0..=65535; an IPv6 literal then
    /// still fails the defensive endpoint re-check, since an
    /// `address:port` endpoint literal needs brackets around an IPv6
    /// address.
    pub fn configure(&mut self, address: &str, port: i32) -> (r: Result<String, ()>)
        ensures
            r is Ok <==> (ip::is_ipv4_literal(address@) && 0 <= port <= 65535),
            r matches Ok(s) ==> ({
                &&& s@ == "Ok\r\n"@
                &&& final(self).spec_last_error() == old(self).spec_last_error()
                &&& final(self).spec_endpoint() matches Some(ep)
                &&& ep.o0 as int == ip::ipv4_octet(address@, 0)
                &&& ep.o1 as int == ip::ipv4_octet(address@, 1)
                &&& ep.o2 as int == ip::ipv4_octet(address@, 2)
                &&& ep.o3 as int == ip::ipv4_octet(address@, 3)
                &&& ep.port as int == port as int
            }),
            r is Err ==> final(self).spec_endpoint() == old(self).spec_endpoint(),
            !ip::is_ip_literal(address@) ==> final(self).spec_last_error()
                == ErrorCode::InvalidAddress,
            ip::is_ip_literal(address@) && !(0 <= port <= 65535) ==> final(self).spec_last_error()
                == ErrorCode::InvalidPort,
            ip::is_ip_literal(address@) && !ip::is_ipv4_literal(address@) && 0 <= port <= 65535
                ==> final(self).spec_last_error() == ErrorCode::InvalidAddress,
    {
        let cs = ip::chars_of(address);
        let n = cs.len();
        proof {
            assert(cs@.subrange(0, n as int) =~= cs@);
        }
        let v4 = ip::parse_ipv4(&cs, 0, n);
        let is_ip = v4.is_some() || ip::parse_ipv6(&cs, 0, n);
        if !is_ip {
            self.last_error = ErrorCode::InvalidAddress;
            return Err(());
        }
        if port < 0 || port > 65535 {
            self.last_error = ErrorCode::InvalidPort;
            return Err(());
        }
        match v4 {
            Some((a, b, c, d)) => {
                self.endpoint = Some(Endpoint { o0: a, o1: b, o2: c, o3: d, port: port as u16 });
                Ok(String::from_str("Ok\r\n"))
            },
            None => {
                self.last_error = ErrorCode::InvalidAddress;
                Err(())
            },
        }
    }

    /// First half of the liveness probe: hands out the endpoint to dial,
    /// or fails at once when none is configured.
    pub fn test_connection_begin(&mut self) -> (r: Result<Endpoint, ()>)
        ensures
            old(self).spec_endpoint() is None ==> (r is Err && final(self).spec_last_error()
                == ErrorCode::NotInitialized && final(self).spec_endpoint() is None),
            old(self).spec_endpoint() matches Some(ep) ==> (r matches Ok(e) && e == ep && *final(self) == *old(self)),
    {
        match self.endpoint {
            None => {
                self.last_error = ErrorCode::NotInitialized;
                Err(())
            },
            Some(ep) => Ok(ep),
        }
    }

    /// Second half of the liveness probe: records whether the dial
    /// succeeded.
    pub fn test_connection_finish(&mut self, connected: bool) -> (r: Result<String, ()>)
        ensures
            final(self).spec_endpoint() == old(self).spec_endpoint(),
            connected ==> (r matches Ok(s) && s@ == "Ok"@ && *final(self) == *old(self)),
            !connected ==> (r is Err && final(self).spec_last_error() == ErrorCode::ConnectFailed),
    {
        if connected {
            Ok(String::from_str("Ok"))
        } else {
            self.last_error = ErrorCode::ConnectFailed;
            Err(())
        }
    }

    /// Routes a strict send: answers locally, fails, or asks the caller
    /// to perform one round trip.
    pub fn send_strict_begin(&mut self, message: &str) -> (r: StrictStep)
        ensures
            final(self).spec_endpoint() == old(self).spec_endpoint(),
            !json_nonempty_object(message@) ==> (r matches StrictStep::Done(d) && d is Err
                && final(self).spec_last_error() == ErrorCode::ParseFailed),
            (json_nonempty_object(message@) && json_string_field(message@, "method"@)
                == "sibling"@) ==> (r matches StrictStep::Done(d) && d matches Ok(s) && s@
                == sibling_reply() + crlf() && *final(self) == *old(self)),
            (json_nonempty_object(message@) && json_string_field(message@, "method"@)
                != "sibling"@ && old(self).spec_endpoint() is None) ==> (r
                matches StrictStep::Done(d) && d is Err && final(self).spec_last_error()
                == ErrorCode::NotInitialized),
            (json_nonempty_object(message@) && json_string_field(message@, "method"@)
                != "sibling"@) ==> (old(self).spec_endpoint() matches Some(ep) ==> (r
                matches StrictStep::Dial(e, payload) && e == ep && payload@ == request_payload(
                message@,
            ) && *final(self) == *old(self))),
    {
        match parse_string_field(message, "method") {
            None => {
                self.last_error = ErrorCode::ParseFailed;
                StrictStep::Done(Err(()))
            },
            Some(method) => {
                if method == String::from_str("sibling") {
                    let mut reply = String::from_str(
                        "{\"method\":\"sibling\", \"result\": \"\u{41e}\u{41a}\"}",
                    );
                    reply.append("\r\n");
                    StrictStep::Done(Ok(reply))
                } else {
                    match self.endpoint {
                        None => {
                            self.last_error = ErrorCode::NotInitialized;
                            StrictStep::Done(Err(()))
                        },
                        Some(ep) => {
                            let mut payload = String::from_str(message);
                            if method == String::from_str("PingDevice") {
                                payload.append("\0");
                            }
                            StrictStep::Dial(ep, payload)
                        },
                    }
                }
            },
        }
    }

    /// Folds the round-trip outcome into the strict send's result: an
    /// empty read means the peer closed, a nonempty one is decoded
    /// leniently and suffixed with CRLF.
    pub fn send_strict_finish(&mut self, event: NetEvent) -> (r: Result<String, ()>)
        ensures
            final(self).spec_endpoint() == old(self).spec_endpoint(),
            (match event {
                NetEvent::ConnectFailed => r is Err && final(self).spec_last_error()
                    == ErrorCode::ConnectFailed,
                NetEvent::WriteFailed => r is Err && final(self).spec_last_error()
                    == ErrorCode::Other,
                NetEvent::ReadFailed => r is Err && final(self).spec_last_error()
                    == ErrorCode::Other,
                NetEvent::Received(bytes) => if bytes@.len() == 0 {
                    r is Err && final(self).spec_last_error() == ErrorCode::RemoteClosed
                } else {
                    r matches Ok(s) && s@ == utf8_lossy(bytes@) + crlf() && *final(self) == *old(self)
                },
            }),
    {
        match event {
            NetEvent::ConnectFailed => {
                self.last_error = ErrorCode::ConnectFailed;
                Err(())
            },
            NetEvent::WriteFailed => {
                self.last_error = ErrorCode::Other;
                Err(())
            },
            NetEvent::ReadFailed => {
                self.last_error = ErrorCode::Other;
                Err(())
            },
            NetEvent::Received(bytes) => {
                if bytes.len() == 0 {
                    self.last_error = ErrorCode::RemoteClosed;
                    Err(())
                } else {
                    let mut s = decode_utf8_lossy(&bytes);
                    s.append("\r\n");
                    Ok(s)
                }
            },
        }
    }

    /// Routes a lenient send. A message that is not a non-empty JSON
    /// object gets the plain diagnostic and, unlike the strict variant,
    /// leaves the recorded error untouched.
    pub fn send_lenient_begin(&mut self, message: &str) -> (r: LenientStep)
        ensures
            final(self).spec_endpoint() == old(self).spec_endpoint(),
            !json_nonempty_object(message@) ==> (r matches LenientStep::Done(s) && s@
                == parse_error_reply() && *final(self) == *old(self)),
            (json_nonempty_object(message@) && json_string_field(message@, "method"@)
                == "sibling"@) ==> (r matches LenientStep::Done(s) && s@ == sibling_reply()
                + crlf() && *final(self) == *old(self)),
            (json_nonempty_object(message@) && json_string_field(message@, "method"@)
                != "sibling"@ && old(self).spec_endpoint() is None) ==> (r
                matches LenientStep::Done(s) && s@ == lenient_error_reply() + crlf() && final(self).spec_last_error() == ErrorCode::NotInitialized),
            (json_nonempty_object(message@) && json_string_field(message@, "method"@)
                != "sibling"@) ==> (old(self).spec_endpoint() matches Some(ep) ==> (r
                matches LenientStep::Dial(e, payload) && e == ep && payload@ == request_payload(
                message@,
            ) && *final(self) == *old(self))),
    {
        match parse_string_field(message, "method") {
            None => LenientStep::Done(String::from_str("Json parse error")),
            Some(method) => {
                if method == String::from_str("sibling") {
                    let mut reply = String::from_str(
                        "{\"method\":\"sibling\", \"result\": \"\u{41e}\u{41a}\"}",
                    );
                    reply.append("\r\n");
                    LenientStep::Done(reply)
                } else {
                    match self.endpoint {
                        None => {
                            self.last_error = ErrorCode::NotInitialized;
                            let mut reply = String::from_str(
                                "{\"method\":\"sibling\", \"result\":\"ERROR\"}",
                            );
                            reply.append("\r\n");
                            LenientStep::Done(reply)
                        },
                        Some(ep) => {
                            let mut payload = String::from_str(message);
                            if method == String::from_str("PingDevice") {
                                payload.append("\0");
                            }
                            LenientStep::Dial(ep, payload)
                        },
                    }
                }
            },
        }
    }

    /// Folds the round-trip outcome into the lenient send's result: any
    /// failure still records its code, but the caller gets the fixed
    /// substitute payload instead of an error.
    pub fn send_lenient_finish(&mut self, event: NetEvent) -> (r: String)
        ensures
            final(self).spec_endpoint() == old(self).spec_endpoint(),
            (match event {
                NetEvent::ConnectFailed => r@ == lenient_error_reply() + crlf() && final(self).spec_last_error() == ErrorCode::ConnectFailed,
                NetEvent::WriteFailed => r@ == lenient_error_reply() + crlf() && final(self).spec_last_error() == ErrorCode::Other,
                NetEvent::ReadFailed => r@ == lenient_error_reply() + crlf() && final(self).spec_last_error() == ErrorCode::Other,
                NetEvent::Received(bytes) => if bytes@.len() == 0 {
                    r@ == lenient_error_reply() + crlf() && final(self).spec_last_error()
                        == ErrorCode::RemoteClosed
                } else {
                    r@ == utf8_lossy(bytes@) + crlf() && *final(self) == *old(self)
                },
            }),
    {
        let got: Option<Vec<u8>> = match event {
            NetEvent::ConnectFailed => {
                self.last_error = ErrorCode::ConnectFailed;
                None
            },
            NetEvent::WriteFailed => {
                self.last_error = ErrorCode::Other;
                None
            },
            NetEvent::ReadFailed => {
                self.last_error = ErrorCode::Other;
                None
            },
            NetEvent::Received(bytes) => {
                if bytes.len() == 0 {
                    self.last_error = ErrorCode::RemoteClosed;
                    None
                } else {
                    Some(bytes)
                }
            },
        };
        match got {
            Some(bytes) => {
                let mut s = decode_utf8_lossy(&bytes);
                s.append("\r\n");
                s
            },
            None => {
                let mut reply = String::from_str("{\"method\":\"sibling\", \"result\":\"ERROR\"}");
                reply.append("\r\n");
                reply
            },
        }
    }
}

/// The full mapping of the error query: each recorded code reports its
/// fixed two-character code plus CRLF; ParseFailed and Other, which
/// includes the never-failed initial state, share the catch-all code.
pub proof fn lemma_error_code_mapping()
    ensures
        error_code_string(ErrorCode::InvalidAddress) == "E1\r\n"@,
        error_code_string(ErrorCode::InvalidPort) == "E2\r\n"@,
        error_code_string(ErrorCode::NotInitialized) == "E3\r\n"@,
        error_code_string(ErrorCode::ConnectFailed) == "E4\r\n"@,
        error_code_string(ErrorCode::RemoteClosed) == "E5\r\n"@,
        error_code_string(ErrorCode::ParseFailed) == "E0\r\n"@,
        error_code_string(ErrorCode::Other) == "E0\r\n"@,
{
}

/// Reading the error code never changes it: the query is a function of
/// the recorded code alone, so two reads in a row report the same text.
pub proof fn lemma_last_error_stable(g1: SocketGateway, g2: SocketGateway)
    requires
        g1.spec_last_error() == g2.spec_last_error(),
    ensures
        error_code_string(g1.spec_last_error()) == error_code_string(g2.spec_last_error()),
{
}

} // verus!
