//! Requests out of a byte buffer, and the fixed responses to them.

pub mod laws;
pub mod parser;
pub mod responses;

pub use parser::parse_request;
pub use parser::process_one_request;
pub use parser::BufferStep;
pub use parser::Method;
pub use parser::Request;
pub use responses::FRAUD_RESPONSES;
pub use responses::RESPONSE_BAD_REQUEST;
pub use responses::RESPONSE_FRAUD_0;
pub use responses::RESPONSE_FRAUD_1;
pub use responses::RESPONSE_FRAUD_2;
pub use responses::RESPONSE_FRAUD_3;
pub use responses::RESPONSE_FRAUD_4;
pub use responses::RESPONSE_FRAUD_5;
pub use responses::RESPONSE_NOT_FOUND;
pub use responses::RESPONSE_NOT_READY;
pub use responses::RESPONSE_READY;
