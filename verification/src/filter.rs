//! The decision on a request, from its source address and port.

use crate::config::{DecisionTable, FilterConfig, FilterConfigImpl};
use vstd::prelude::*;
use vstd::slice::slice_subrange;

verus! {

/// The status of the response that refuses a request.
pub const FORBIDDEN_STATUS: u32 = 403;

/// Why a request is refused.
#[derive(Debug, Clone, Copy, PartialEq, Eq, Structural)]
pub enum RejectReason {
    /// The host knows no source address for the request.
    NoRemoteAddress,
    /// The source address may not pass.
    Forbidden,
}

/// What becomes of a request.
#[derive(Debug, Clone, Copy, PartialEq, Eq, Structural)]
pub enum Decision {
    /// The request goes on to the next filter, untouched.
    Continue,
    /// The request is answered at once and goes no further.
    Reject(RejectReason),
}

/// How many digits write `n` in decimal.
pub open spec fn decimal_digits(n: nat) -> nat
    decreases n,
{
    if n < 10 {
        1
    } else {
        1 + decimal_digits(n / 10)
    }
}

/// How many characters write `port` in decimal, a minus sign counted.
pub open spec fn decimal_len(port: int) -> nat {
    if port < 0 {
        1 + decimal_digits((-port) as nat)
    } else {
        decimal_digits(port as nat)
    }
}

/// How many bytes the port takes at the end of a source address: a colon and
/// the port in decimal, or nothing where no port is known.
pub open spec fn suffix_len(port: Option<i64>) -> nat {
    match port {
        Some(port) => 1 + decimal_len(port as int),
        None => 0,
    }
}

/// The source address without the bytes that the port takes at its end,
/// whatever they hold; `None` where the address has fewer bytes than that.
pub open spec fn normalized_address(address: Seq<u8>, port: Option<i64>) -> Option<Seq<u8>> {
    if suffix_len(port) <= address.len() {
        Some(address.take(address.len() - suffix_len(port)))
    } else {
        None
    }
}

/// Ten to the power `exponent`.
pub open spec fn power_of_ten(exponent: nat) -> nat
    decreases exponent,
{
    if exponent == 0 {
        1
    } else {
        10 * power_of_ten((exponent - 1) as nat)
    }
}

/// A number below the `k`-th power of ten has at most `k` digits.
pub proof fn lemma_digits_bound(n: nat, k: nat)
    requires
        k >= 1,
        n < power_of_ten(k),
    ensures
        decimal_digits(n) <= k,
    decreases k,
{
    if n >= 10 {
        assert(k >= 2) by {
            reveal_with_fuel(power_of_ten, 2);
        }
        lemma_digits_bound(n / 10, (k - 1) as nat);
    }
}

/// How many characters write `port` in decimal, a minus sign counted.
pub fn decimal_length(port: i64) -> (length: usize)
    ensures
        length == decimal_len(port as int),
        1 <= length <= 20,
{
    let magnitude: u64 = if port < 0 {
        (-(port + 1)) as u64 + 1
    } else {
        port as u64
    };
    proof {
        reveal_with_fuel(power_of_ten, 21);
        assert(power_of_ten(19) == 10000000000000000000nat);
        lemma_digits_bound(magnitude as nat, 20);
        if port < 0 {
            assert(magnitude <= 9223372036854775808);
            lemma_digits_bound(magnitude as nat, 19);
        }
    }
    let mut length: usize = if port < 0 {
        2
    } else {
        1
    };
    let mut rest: u64 = magnitude;
    while rest >= 10
        invariant
            length + decimal_digits(rest as nat) == 1 + decimal_len(port as int),
            decimal_len(port as int) <= 20,
        decreases rest,
    {
        rest = rest / 10;
        length += 1;
    }
    length
}

/// The digits that write `n` in decimal, the most significant first.
pub open spec fn decimal_text(n: nat) -> Seq<u8>
    decreases n,
{
    if n < 10 {
        seq![(0x30 + n) as u8]
    } else {
        decimal_text(n / 10).push((0x30 + n % 10) as u8)
    }
}

/// The characters that write `port` in decimal, with a minus sign in front of
/// a negative one.
pub open spec fn port_text(port: int) -> Seq<u8> {
    if port < 0 {
        seq![0x2du8] + decimal_text((-port) as nat)
    } else {
        decimal_text(port as nat)
    }
}

/// A number is written with as many digits as `decimal_digits` counts.
pub proof fn lemma_decimal_text_len(n: nat)
    ensures
        decimal_text(n).len() == decimal_digits(n),
    decreases n,
{
    if n >= 10 {
        lemma_decimal_text_len(n / 10);
    }
}

/// Where the host writes the source address as the address, a colon and the
/// port in decimal, taking the port off gives the address back, whatever
/// bytes the address holds.
pub proof fn lemma_normalization_takes_the_port_off(address: Seq<u8>, port: i64)
    ensures
        normalized_address(address + seq![0x3au8] + port_text(port as int), Some(port)) == Some(
            address,
        ),
{
    let written = address + seq![0x3au8] + port_text(port as int);
    if port < 0 {
        lemma_decimal_text_len((-port) as nat);
    } else {
        lemma_decimal_text_len(port as nat);
    }
    assert(written.take(written.len() - suffix_len(Some(port))) =~= address);
}

/// What an optional byte string holds.
pub open spec fn bytes_of(bytes: Option<&[u8]>) -> Option<Seq<u8>> {
    match bytes {
        Some(bytes) => Some(bytes@),
        None => None,
    }
}

/// The address that a request is judged by: its source address without the
/// port at its end. `None` where the host knows no source address, or where
/// the address is shorter than the port at its end would be.
pub open spec fn request_address(source_address: Option<Seq<u8>>, source_port: Option<i64>) -> Option<
    Seq<u8>,
> {
    match source_address {
        Some(address) => normalized_address(address, source_port),
        None => None,
    }
}

/// The decision on a request. Without a source address the request is
/// refused for that, whatever the port and the table. An address too short
/// to end in the port is refused. Where the table names addresses to let
/// pass, any other address is refused; where it names addresses to refuse,
/// those are refused. Every other request goes on.
pub open spec fn decision(
    table: DecisionTable,
    source_address: Option<Seq<u8>>,
    source_port: Option<i64>,
) -> Decision {
    match source_address {
        None => Decision::Reject(RejectReason::NoRemoteAddress),
        Some(address) => match normalized_address(address, source_port) {
            None => Decision::Reject(RejectReason::Forbidden),
            Some(bare) => if table.is_allow_list() && !table.allow_exact.contains(bare) {
                Decision::Reject(RejectReason::Forbidden)
            } else if table.is_deny_list() && table.deny_exact.contains(bare) {
                Decision::Reject(RejectReason::Forbidden)
            } else {
                Decision::Continue
            },
        },
    }
}

/// Takes the port off the end of a source address: a colon and the port in
/// decimal are counted, and as many bytes are dropped.
pub fn normalize_address<'a>(address: &'a [u8], port: Option<i64>) -> (bare: Option<&'a [u8]>)
    ensures
        bytes_of(bare) == normalized_address(address@, port),
{
    let suffix: usize = match port {
        Some(port) => 1 + decimal_length(port),
        None => 0,
    };
    let length: usize = address.len();
    if length < suffix {
        None
    } else {
        Some(slice_subrange(address, 0, length - suffix))
    }
}

impl FilterConfigImpl {
    /// Decides on a request from its source address and port.
    pub fn decide(&self, source_address: Option<&[u8]>, source_port: Option<i64>) -> (outcome:
        Decision)
        ensures
            outcome == decision(self@, bytes_of(source_address), source_port),
            source_address is None ==> outcome == Decision::Reject(RejectReason::NoRemoteAddress),
            self@.wf() && self@.is_allow_list() ==> (outcome == Decision::Continue <==> (
                request_address(bytes_of(source_address), source_port) matches Some(bare)
                    && self@.allow_exact.contains(bare))),
            self@.wf() && self@.is_deny_list() ==> (outcome == Decision::Continue <==> (
                request_address(bytes_of(source_address), source_port) matches Some(bare)
                    && !self@.deny_exact.contains(bare))),
    {
        let address = match source_address {
            Some(address) => address,
            None => {
                return Decision::Reject(RejectReason::NoRemoteAddress);
            },
        };
        let bare = match normalize_address(address, source_port) {
            Some(bare) => bare,
            None => {
                return Decision::Reject(RejectReason::Forbidden);
            },
        };
        if self.has_allow_list() && !self.allows(bare) {
            return Decision::Reject(RejectReason::Forbidden);
        }
        if self.has_deny_list() && self.denies(bare) {
            return Decision::Reject(RejectReason::Forbidden);
        }
        Decision::Continue
    }
}

impl RejectReason {
    /// The body of the response that refuses a request for this reason.
    pub open spec fn body_text(self) -> Seq<char> {
        match self {
            RejectReason::NoRemoteAddress => "No remote address and request is forbidden."@,
            RejectReason::Forbidden => "Request is forbidden."@,
        }
    }

    /// The body of the response that refuses a request for this reason.
    pub fn body(self) -> (text: &'static str)
        ensures
            text@ == self.body_text(),
    {
        match self {
            RejectReason::NoRemoteAddress => "No remote address and request is forbidden.",
            RejectReason::Forbidden => "Request is forbidden.",
        }
    }
}

impl Decision {
    /// Whether the host stops the filter chain for the request.
    pub fn stops_iteration(self) -> (stops: bool)
        ensures
            stops == (self is Reject),
    {
        match self {
            Decision::Continue => false,
            Decision::Reject(_) => true,
        }
    }

    /// The status and the body of the response that the host sends, if it
    /// sends one. The response has no headers of its own.
    pub fn response(self) -> (response: Option<(u32, &'static str)>)
        ensures
            match self {
                Decision::Continue => response is None,
                Decision::Reject(reason) => response matches Some((status, body)) && status
                    == FORBIDDEN_STATUS && body@ == reason.body_text(),
            },
    {
        match self {
            Decision::Continue => None,
            Decision::Reject(reason) => Some((FORBIDDEN_STATUS, reason.body())),
        }
    }
}

/// The filter of one request. It reads the table of the configuration that
/// made it and changes nothing.
#[derive(Debug)]
pub struct Filter {
    filter_config: FilterConfig,
}

impl View for Filter {
    type V = DecisionTable;

    closed spec fn view(&self) -> DecisionTable {
        self.filter_config@
    }
}

impl FilterConfig {
    /// Makes the filter of a new request. It shares the table.
    pub fn new_http_filter(&mut self) -> (filter: Filter)
        ensures
            *final(self) == *old(self),
            filter@ == old(self)@,
    {
        Filter { filter_config: self.share() }
    }
}

impl Filter {
    /// Decides on a request when its headers have come, from the source
    /// address and the source port that the host gives for it.
    pub fn on_request_headers(
        &mut self,
        source_address: Option<&[u8]>,
        source_port: Option<i64>,
        _end_stream: bool,
    ) -> (outcome: Decision)
        ensures
            *final(self) == *old(self),
            outcome == decision(old(self)@, bytes_of(source_address), source_port),
    {
        self.filter_config.config().decide(source_address, source_port)
    }
}

/// Without a source address a request is refused for that, whatever the
/// port and the table.
pub proof fn lemma_missing_address_is_refused(table: DecisionTable, source_port: Option<i64>)
    ensures
        decision(table, None, source_port) == Decision::Reject(RejectReason::NoRemoteAddress),
{
}

/// Under a table that names the addresses to let pass, a request goes on just
/// when its address is one of them; every other request is refused.
pub proof fn lemma_allow_list_decides(
    table: DecisionTable,
    source_address: Option<Seq<u8>>,
    source_port: Option<i64>,
)
    requires
        table.wf(),
        table.is_allow_list(),
    ensures
        decision(table, source_address, source_port) == Decision::Continue <==> (request_address(
            source_address,
            source_port,
        ) matches Some(bare) && table.allow_exact.contains(bare)),
        decision(table, source_address, source_port) != Decision::Continue ==> decision(
            table,
            source_address,
            source_port,
        ) is Reject,
{
}

/// Under a table that names the addresses to refuse, a request whose source
/// address ends in its port is refused just when its address is one of them,
/// and goes on otherwise.
pub proof fn lemma_deny_list_decides(
    table: DecisionTable,
    source_address: Option<Seq<u8>>,
    source_port: Option<i64>,
)
    requires
        table.wf(),
        table.is_deny_list(),
        request_address(source_address, source_port) is Some,
    ensures
        decision(table, source_address, source_port) is Reject <==> table.deny_exact.contains(
            request_address(source_address, source_port)->0,
        ),
        !(decision(table, source_address, source_port) is Reject) ==> decision(
            table,
            source_address,
            source_port,
        ) == Decision::Continue,
{
}

} // verus!
