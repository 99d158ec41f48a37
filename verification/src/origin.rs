//! The origin client without its sockets: which address to dial next and
//! when to give up, what to send, and how the response that came back is
//! normalized before it goes to the client or into the cache.

use crate::message::{HttpError, HttpErrorView, Request, Response, ResponseView};
use crate::number::{decimal, to_decimal};
use crate::reader::{error_of, failure_of, read_response};
use crate::text::{contains, lines_view, starts_with};
use crate::wire::{failure, is_framing_header, response_of};
use crate::writer::{request, request_bytes};
use vstd::prelude::*;
use vstd::string::*;

verus! {

/// The headers that do not frame the body, in their order.
pub open spec fn kept_headers(headers: Seq<Seq<char>>) -> Seq<Seq<char>>
    decreases headers.len(),
{
    if headers.len() == 0 {
        Seq::empty()
    } else if is_framing_header(headers.last()) {
        kept_headers(headers.drop_last())
    } else {
        kept_headers(headers.drop_last()).push(headers.last())
    }
}

/// The header that gives a body of `n` bytes.
pub open spec fn length_header(n: nat) -> Seq<char> {
    "Content-Length: "@ + decimal(n)
}

/// The response with its framing normalized: every header that gives a length
/// or asks for chunks is gone, and one header that gives the length of the
/// payload stands last. Nothing else changes.
pub open spec fn normalized(r: ResponseView) -> ResponseView {
    ResponseView {
        version: r.version,
        status: r.status,
        reason: r.reason,
        headers: kept_headers(r.headers).push(length_header(r.content.len())),
        content: r.content,
    }
}

/// Tells whether `header` frames the body.
pub fn frames_body(header: &str) -> (b: bool)
    ensures
        b == is_framing_header(header@),
{
    starts_with(header, "Content-Length:") || (starts_with(header, "Transfer-Encoding:")
        && contains(header, "chunked"))
}

/// Normalizes the framing of `resp`.
pub fn normalize(resp: Response) -> (r: Response)
    ensures
        r@ == normalized(resp@),
{
    let ghost hs = lines_view(resp.headers@);
    let mut headers: Vec<String> = Vec::new();
    let mut i: usize = 0;
    assert(hs.take(0) =~= Seq::<Seq<char>>::empty());
    assert(lines_view(headers@) =~= Seq::<Seq<char>>::empty());
    while i < resp.headers.len()
        invariant
            i <= resp.headers@.len(),
            hs == lines_view(resp.headers@),
            lines_view(headers@) == kept_headers(hs.take(i as int)),
        decreases resp.headers@.len() - i,
    {
        let ghost next = hs.take(i + 1);
        let ghost before = lines_view(headers@);
        proof {
            assert(next.drop_last() =~= hs.take(i as int));
            assert(next.last() == resp.headers@[i as int]@);
        }
        if !frames_body(resp.headers[i].as_str()) {
            headers.push(resp.headers[i].clone());
            assert(lines_view(headers@) =~= before.push(next.last()));
        }
        i += 1;
    }
    assert(hs.take(resp.headers@.len() as int) =~= hs);
    let ghost kept = lines_view(headers@);
    let size = to_decimal(resp.content.len() as u64);
    let mut length = "Content-Length: ".to_owned();
    length.append(size.as_str());
    headers.push(length);
    assert(lines_view(headers@) =~= kept.push(length_header(resp.content@.len())));
    Response {
        version: resp.version,
        status: resp.status,
        reason: resp.reason,
        headers,
        content: resp.content,
    }
}

/// The error for a host that does not resolve.
pub fn resolve_error(cause: &str) -> (e: HttpError)
    ensures
        e@ == failure("parsing socket addr failed"@, cause@),
{
    failure_of("parsing socket addr failed", cause)
}

/// The error for a request that could not be sent.
pub fn send_error(cause: &str) -> (e: HttpError)
    ensures
        e@ == failure("sending failed"@, cause@),
{
    failure_of("sending failed", cause)
}

/// The view of how an attempt to connect ended: `None` for a connection, else
/// the cause of the failure.
pub open spec fn attempts_view(attempts: Seq<Option<String>>) -> Seq<Option<Seq<char>>> {
    Seq::new(
        attempts.len(),
        |i: int|
            match attempts[i] {
                Some(c) => Some(c@),
                None => None,
            },
    )
}

/// Index of the first attempt that connected, or the number of attempts.
pub open spec fn first_connected(attempts: Seq<Option<Seq<char>>>) -> nat
    decreases attempts.len(),
{
    if attempts.len() == 0 || attempts[0] is None {
        0
    } else {
        1 + first_connected(attempts.drop_first())
    }
}

/// What dialing the addresses of a host in order comes to: the index of the
/// first that connects, or the error once all have failed.
pub open spec fn dialed(attempts: Seq<Option<Seq<char>>>) -> Result<nat, HttpErrorView> {
    let i = first_connected(attempts);
    if i < attempts.len() {
        Ok(i)
    } else if attempts.len() == 0 {
        Err(HttpErrorView::Error("empty socket addrs"@))
    } else {
        Err(failure("connecting failed"@, attempts.last()->Some_0))
    }
}

/// What to do next about a connection.
pub enum DialStep {
    /// Dial the address with this index.
    Try(usize),
    /// No address is left.
    GiveUp(HttpError),
}

/// Dials the addresses of a host in order, until one connects.
#[derive(Debug)]
pub struct Dialer {
    /// The number of addresses.
    pub count: usize,
    /// The index of the address to dial next.
    pub next: usize,
    /// Why the last attempt failed.
    pub cause: Option<String>,
}

impl Dialer {
    /// The cause of the last failure, if there was one.
    pub open spec fn cause_view(&self) -> Option<Seq<char>> {
        match self.cause {
            Some(c) => Some(c@),
            None => None,
        }
    }

    /// The error once no address is left: it names the cause of the last
    /// failure, or says that there was no address at all.
    pub open spec fn given_up(&self) -> HttpErrorView {
        match self.cause_view() {
            Some(c) => failure("connecting failed"@, c),
            None => HttpErrorView::Error("empty socket addrs"@),
        }
    }

    /// A dialer for a host with `count` addresses.
    pub fn new(count: usize) -> (d: Dialer)
        ensures
            d.count == count,
            d.next == 0,
            d.cause is None,
    {
        Dialer { count, next: 0, cause: None }
    }

    /// The address to dial next, or the error where none is left: each
    /// address is dialed once, in order.
    pub fn step(&self) -> (s: DialStep)
        ensures
            match s {
                DialStep::Try(i) => self.next < self.count && i == self.next,
                DialStep::GiveUp(e) => self.next >= self.count && e@ == self.given_up(),
            },
    {
        if self.next < self.count {
            DialStep::Try(self.next)
        } else {
            match &self.cause {
                Some(c) => DialStep::GiveUp(failure_of("connecting failed", c.as_str())),
                None => DialStep::GiveUp(error_of("empty socket addrs")),
            }
        }
    }

    /// Takes note that the address at hand did not connect.
    pub fn failed(self, cause: String) -> (d: Dialer)
        requires
            self.next < self.count,
        ensures
            d.count == self.count,
            d.next == self.next + 1,
            d.cause_view() == Some(cause@),
    {
        Dialer { count: self.count, next: self.next + 1, cause: Some(cause) }
    }
}

/// The view of an address index that may have failed.
pub open spec fn dial_result_view(r: Result<usize, HttpError>) -> Result<nat, HttpErrorView> {
    match r {
        Ok(i) => Ok(i as nat),
        Err(e) => Err(e@),
    }
}

proof fn lemma_first_connected(attempts: Seq<Option<Seq<char>>>, k: int)
    requires
        0 <= k <= attempts.len(),
        forall|j: int| 0 <= j < k ==> (#[trigger] attempts[j]) is Some,
        k < attempts.len() ==> attempts[k] is None,
    ensures
        first_connected(attempts) == k,
    decreases k,
{
    if k > 0 {
        let r = attempts.drop_first();
        assert forall|j: int| 0 <= j < k - 1 implies (#[trigger] r[j]) is Some by {
            assert(r[j] == attempts[j + 1]);
        }
        if k - 1 < r.len() {
            assert(r[k - 1] == attempts[k]);
        }
        assert(attempts[0] is Some);
        lemma_first_connected(r, k - 1);
    }
}

/// Dials over the outcomes of the attempts: gives the index of the first
/// address that connects.
pub fn dial(attempts: &Vec<Option<String>>) -> (r: Result<usize, HttpError>)
    ensures
        dial_result_view(r) == dialed(attempts_view(attempts@)),
{
    let ghost view = attempts_view(attempts@);
    let mut dialer = Dialer::new(attempts.len());
    loop
        invariant
            dialer.count == attempts@.len(),
            dialer.next <= dialer.count,
            view == attempts_view(attempts@),
            forall|j: int| 0 <= j < dialer.next ==> (#[trigger] view[j]) is Some,
            dialer.next == 0 ==> dialer.cause is None,
            dialer.next > 0 ==> dialer.cause_view() == view[dialer.next - 1],
        decreases dialer.count - dialer.next,
    {
        match dialer.step() {
            DialStep::GiveUp(e) => {
                proof {
                    lemma_first_connected(view, view.len() as int);
                }
                return Err(e);
            },
            DialStep::Try(i) => {
                match &attempts[i] {
                    None => {
                        proof {
                            assert(view[i as int] is None);
                            lemma_first_connected(view, i as int);
                        }
                        return Ok(i);
                    },
                    Some(cause) => {
                        assert(view[i as int] == Some(cause@));
                        dialer = dialer.failed(cause.clone());
                    },
                }
            },
        }
    }
}

/// What came of asking the origin.
#[derive(Debug)]
pub struct Exchange {
    /// The index of the address that connected.
    pub address: usize,
    /// The bytes that were sent.
    pub sent: Vec<u8>,
    /// The response, normalized.
    pub response: Response,
}

/// An [`Exchange`] over sequences.
pub struct ExchangeView {
    pub address: nat,
    pub sent: Seq<u8>,
    pub response: ResponseView,
}

impl View for Exchange {
    type V = ExchangeView;

    open spec fn view(&self) -> ExchangeView {
        ExchangeView { address: self.address as nat, sent: self.sent@, response: self.response@ }
    }
}

/// What asking the origin comes to, given how the attempts to connect end and
/// what the origin sends back.
pub open spec fn exchanged(
    req: crate::message::RequestView,
    attempts: Seq<Option<Seq<char>>>,
    reply: Seq<u8>,
) -> Result<ExchangeView, HttpErrorView> {
    match dialed(attempts) {
        Err(e) => Err(e),
        Ok(i) => match response_of(reply) {
            Err(e) => Err(e),
            Ok(r) => Ok(
                ExchangeView { address: i, sent: request_bytes(req), response: normalized(r) },
            ),
        },
    }
}

/// The view of an exchange that may have failed.
pub open spec fn exchange_result_view(r: Result<Exchange, HttpError>) -> Result<
    ExchangeView,
    HttpErrorView,
> {
    match r {
        Ok(x) => Ok(x@),
        Err(e) => Err(e@),
    }
}

/// Asks the origin for `req`, over plain values: `attempts` tells how dialing
/// each address of the host ends, `reply` holds what the origin sends back.
/// The request goes to the first address that connects, with its target in
/// absolute form; the response comes back normalized.
pub fn request_server(req: &Request, attempts: &Vec<Option<String>>, reply: &[u8]) -> (r: Result<
    Exchange,
    HttpError,
>)
    ensures
        exchange_result_view(r) == exchanged(req@, attempts_view(attempts@), reply@),
{
    let address = match dial(attempts) {
        Ok(i) => i,
        Err(e) => {
            return Err(e);
        },
    };
    let sent = request(req);
    match read_response(reply) {
        Err(e) => Err(e),
        Ok(resp) => Ok(Exchange { address, sent, response: normalize(resp) }),
    }
}

} // verus!
