//! The responses of the service, ready to be sent.

use vstd::prelude::*;
use vstd::string::StringSliceAdditionalSpecFns;

verus! {

pub const RESPONSE_READY: &'static str = "HTTP/1.1 200 OK\r\nContent-Length: 2\r\n\r\nok";

pub const RESPONSE_NOT_READY: &'static str =
    "HTTP/1.1 503 Service Unavailable\r\nContent-Length: 0\r\n\r\n";

pub const RESPONSE_FRAUD_0: &'static str =
    "HTTP/1.1 200 OK\r\nContent-Length: 35\r\n\r\n{\"approved\":true,\"fraud_score\":0.0}";

pub const RESPONSE_FRAUD_1: &'static str =
    "HTTP/1.1 200 OK\r\nContent-Length: 35\r\n\r\n{\"approved\":true,\"fraud_score\":0.2}";

pub const RESPONSE_FRAUD_2: &'static str =
    "HTTP/1.1 200 OK\r\nContent-Length: 35\r\n\r\n{\"approved\":true,\"fraud_score\":0.4}";

pub const RESPONSE_FRAUD_3: &'static str =
    "HTTP/1.1 200 OK\r\nContent-Length: 36\r\n\r\n{\"approved\":false,\"fraud_score\":0.6}";

pub const RESPONSE_FRAUD_4: &'static str =
    "HTTP/1.1 200 OK\r\nContent-Length: 36\r\n\r\n{\"approved\":false,\"fraud_score\":0.8}";

pub const RESPONSE_FRAUD_5: &'static str =
    "HTTP/1.1 200 OK\r\nContent-Length: 36\r\n\r\n{\"approved\":false,\"fraud_score\":1.0}";

pub const RESPONSE_BAD_REQUEST: &'static str =
    "HTTP/1.1 400 Bad Request\r\nContent-Length: 0\r\nConnection: close\r\n\r\n";

pub const RESPONSE_NOT_FOUND: &'static str =
    "HTTP/1.1 404 Not Found\r\nContent-Length: 0\r\nConnection: close\r\n\r\n";

/// The response for each number of fraudulent neighbours.
pub const FRAUD_RESPONSES: [&'static str; 6] = [
    RESPONSE_FRAUD_0,
    RESPONSE_FRAUD_1,
    RESPONSE_FRAUD_2,
    RESPONSE_FRAUD_3,
    RESPONSE_FRAUD_4,
    RESPONSE_FRAUD_5,
];

/// The bytes of the response for `count` fraudulent neighbours; beyond the last one, the last one.
pub open spec fn fraud_response_bytes(count: int) -> Seq<u8> {
    if count <= 0 {
        RESPONSE_FRAUD_0.spec_bytes()
    } else if count == 1 {
        RESPONSE_FRAUD_1.spec_bytes()
    } else if count == 2 {
        RESPONSE_FRAUD_2.spec_bytes()
    } else if count == 3 {
        RESPONSE_FRAUD_3.spec_bytes()
    } else if count == 4 {
        RESPONSE_FRAUD_4.spec_bytes()
    } else {
        RESPONSE_FRAUD_5.spec_bytes()
    }
}

/// The response for `count` fraudulent neighbours.
pub fn fraud_response(count: usize) -> (r: &'static [u8])
    ensures
        r@ == fraud_response_bytes(count as int),
{
    if count < 6 {
        FRAUD_RESPONSES[count].as_bytes()
    } else {
        FRAUD_RESPONSES[5].as_bytes()
    }
}

} // verus!
