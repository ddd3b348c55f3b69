//! Who may use the gateway.
//!
//! A request carries its credential in the `Authorization` header, as the
//! word `Bearer`, a blank and a token. The token is either checked here,
//! against the claims that were read from it, or handed to a broker that
//! answers for it. Whatever is wrong with a credential, the request is
//! denied; it is never a fault.

use vstd::prelude::*;
use vstd::string::*;
use crate::fault::Fault;
use crate::scan::{find_char, first_index, lemma_first_index_bounds, same_text};

verus! {

/// What stands before the first blank of a header; all of it where it holds
/// none.
pub open spec fn scheme_of(header: Seq<char>) -> Seq<char> {
    header.take(first_index(header, ' '))
}

/// What follows the first blank of a header.
pub open spec fn after_scheme(header: Seq<char>) -> Seq<char> {
    header.skip(first_index(header, ' ') + 1)
}

/// The word that follows the scheme, up to the next blank.
pub open spec fn token_of(header: Seq<char>) -> Seq<char> {
    after_scheme(header).take(first_index(after_scheme(header), ' '))
}

/// The word `Bearer`.
pub open spec fn bearer() -> Seq<char> {
    seq!['B', 'e', 'a', 'r', 'e', 'r']
}

/// The token of a header that names the scheme `Bearer` and, after one
/// blank, a token that is not empty. Any other header carries none.
pub open spec fn bearer_token_of(header: Seq<char>) -> Option<Seq<char>> {
    if first_index(header, ' ') < header.len() && scheme_of(header) == bearer() && token_of(
        header,
    ).len() > 0 {
        Some(token_of(header))
    } else {
        None
    }
}

/// The token that a header carries.
pub fn bearer_token(header: &str) -> (token: Option<String>)
    ensures
        token.deep_view() == bearer_token_of(header@),
{
    let blank = find_char(header, ' ');
    let total = header.unicode_len();
    proof {
        lemma_first_index_bounds(header@, ' ');
        reveal_strlit("Bearer");
        assert("Bearer"@ =~= bearer());
    }
    if blank >= total {
        return None;
    }
    let scheme = header.substring_char(0, blank);
    if !same_text(scheme, "Bearer") {
        return None;
    }
    let rest = header.substring_char(blank + 1, total);
    assert(rest@ =~= after_scheme(header@));
    let end = find_char(rest, ' ');
    proof {
        lemma_first_index_bounds(rest@, ' ');
    }
    if end == 0 {
        return None;
    }
    let word = rest.substring_char(0, end);
    Some(String::from_str(word))
}

/// The token of a request whose header may be missing.
pub fn credential(header: Option<&str>) -> (token: Option<String>)
    ensures
        token.deep_view() == match header {
            Some(text) => bearer_token_of(text@),
            None => None,
        },
{
    match header {
        Some(text) => bearer_token(text),
        None => None,
    }
}

/// What a broker is asked: where, and with which `Authorization` header.
#[derive(Debug, Clone, PartialEq, Eq)]
pub struct BrokerRequest {
    pub url: String,
    pub authorization: String,
}

/// The address at which the broker at `broker` checks credentials.
pub open spec fn verify_address(broker: Seq<char>) -> Seq<char> {
    broker + seq!['/', 'v', 'e', 'r', 'i', 'f', 'y']
}

/// The header under which a token is handed on.
pub open spec fn bearer_header(token: Seq<char>) -> Seq<char> {
    bearer() + seq![' '] + token
}

/// What the broker at `broker` is asked about a request with the header
/// `header`. Nothing, where the header carries no token: such a request is
/// denied without asking.
pub fn broker_request(broker: &str, header: &str) -> (request: Option<BrokerRequest>)
    ensures
        match request {
            Some(asked) => bearer_token_of(header@) is Some && asked.url@ == verify_address(
                broker@,
            ) && asked.authorization@ == bearer_header(bearer_token_of(header@).unwrap()),
            None => bearer_token_of(header@) is None,
        },
{
    match bearer_token(header) {
        Some(token) => {
            proof {
                reveal_strlit("/verify");
                reveal_strlit("Bearer ");
            }
            let mut url = String::from_str(broker);
            url.append("/verify");
            let mut authorization = String::from_str("Bearer ");
            authorization.append(token.as_str());
            assert(url@ =~= verify_address(broker@));
            assert(authorization@ =~= bearer_header(token@));
            Some(BrokerRequest { url, authorization })
        },
        None => None,
    }
}

/// How a broker answered.
#[derive(Clone, Copy, Debug, PartialEq, Eq, Structural)]
pub enum BrokerReply {
    /// It answered, with this status.
    Status(u16),
    /// It could not be reached, or the exchange broke down.
    Unreachable,
}

impl BrokerReply {
    /// A broker admits a credential by a status of the 200 class.
    pub open spec fn admitted(self) -> bool {
        match self {
            BrokerReply::Status(code) => 200 <= code <= 299,
            BrokerReply::Unreachable => false,
        }
    }

    /// Whether the broker admitted the credential.
    pub fn admits(&self) -> (r: bool)
        ensures
            r == self.admitted(),
    {
        match self {
            BrokerReply::Status(code) => 200 <= *code && *code <= 299,
            BrokerReply::Unreachable => false,
        }
    }
}

/// What a signed token claims: until when it holds, since when, who issued
/// it and for whom. Times are seconds since the epoch.
#[derive(Debug, Clone, PartialEq, Eq)]
pub struct Claims {
    pub exp: i64,
    pub iat: i64,
    pub iss: String,
    pub sub: String,
}

impl Claims {
    /// The claims hold at `now`: the token was issued by then and has not
    /// run out, and it names its issuer and its subject.
    pub open spec fn in_force(&self, now: i64) -> bool {
        self.iat <= now && now < self.exp && self.iss@.len() > 0 && self.sub@.len() > 0
    }

    /// Whether the claims hold at `now`.
    pub fn holds_at(&self, now: i64) -> (r: bool)
        ensures
            r == self.in_force(now),
    {
        self.iat <= now && now < self.exp && !self.iss.as_str().is_empty()
            && !self.sub.as_str().is_empty()
    }
}

/// What came of reading a signed token.
#[derive(Debug, Clone, PartialEq, Eq)]
pub enum TokenReading {
    /// It is no token.
    Malformed,
    /// Its signature is not the one of the configured secret.
    MisSigned,
    /// It is well signed, and claims this.
    Signed(Claims),
}

impl TokenReading {
    /// A token is admitted where it is well signed and its claims hold.
    pub open spec fn admitted(&self, now: i64) -> bool {
        match self {
            TokenReading::Signed(claims) => claims.in_force(now),
            _ => false,
        }
    }

    /// Whether the token is admitted at `now`.
    pub fn admits(&self, now: i64) -> (r: bool)
        ensures
            r == self.admitted(now),
    {
        match self {
            TokenReading::Signed(claims) => claims.holds_at(now),
            _ => false,
        }
    }
}

/// What has been learned about a credential, in one of the two ways in
/// which credentials are checked: here, or through a broker.
#[derive(Debug, Clone, PartialEq, Eq)]
pub enum Evidence {
    /// The token was read here, at the time `now`.
    Local { reading: TokenReading, now: i64 },
    /// A broker was asked.
    Delegated(BrokerReply),
}

impl Evidence {
    /// Whether the evidence speaks for the credential.
    pub open spec fn admitted(&self) -> bool {
        match self {
            Evidence::Local { reading, now } => reading.admitted(*now),
            Evidence::Delegated(reply) => reply.admitted(),
        }
    }

    /// Whether the evidence speaks for the credential.
    pub fn admits(&self) -> (r: bool)
        ensures
            r == self.admitted(),
    {
        match self {
            Evidence::Local { reading, now } => reading.admits(*now),
            Evidence::Delegated(reply) => reply.admits(),
        }
    }
}

/// A request goes on only with evidence that speaks for its credential. A
/// request without a credential has none.
pub fn authorize(evidence: Option<&Evidence>) -> (r: Result<(), Fault>)
    ensures
        r is Ok <==> (evidence matches Some(found) && found.admitted()),
        r matches Err(fault) ==> fault == Fault::AuthDenied,
{
    match evidence {
        Some(found) => {
            if found.admits() {
                Ok(())
            } else {
                Err(Fault::AuthDenied)
            }
        },
        None => Err(Fault::AuthDenied),
    }
}

} // verus!
