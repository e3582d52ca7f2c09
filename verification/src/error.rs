//! The error taxonomy of one invocation.
//!
//! Every error is terminal for the run: no stage retries, and the caller only
//! presents the message.

use vstd::prelude::*;

verus! {

use vstd::string::StringExecFns;

/// Everything that can end a run early, from validation up to response
/// normalization.
#[derive(Debug)]
pub enum ExecutorError {
    /// The named API is not configured.
    APINotFound(String),
    /// The selected API has no endpoint of the given name.
    EndpointNotFound(String),
    /// The transport failed to send the request; carries its diagnostic.
    HTTPRequestError(String),
    /// A response header value was not valid text; carries the header name
    /// and the decode diagnostic.
    FailedToParseHeader(String, String),
    /// The response body could not be read; carries the diagnostic.
    FailedToReadBody(String),
    /// The response body could not be written out; carries the diagnostic.
    FailedToPrintBody(String),
    /// A template referenced a key absent from the environment, or was
    /// malformed; carries the template.
    TemplateError(String),
    /// A FILE-typed body named a path that could not be read; carries the
    /// path and the diagnostic.
    FileBodyError(String, String),
}

impl ExecutorError {
    /// The message a caller prints for this error.
    pub fn message(&self) -> (r: String)
        ensures
            match self {
                ExecutorError::APINotFound(s) => r@ == "API not found: "@ + s@,
                ExecutorError::EndpointNotFound(s) => r@ == "Endpoint not found: "@ + s@,
                ExecutorError::HTTPRequestError(s) => r@ == "HTTP Request error: "@ + s@,
                ExecutorError::FailedToParseHeader(name, diag) => r@ == "Failed to parse header: "@
                    + name@ + ". Err: "@ + diag@,
                ExecutorError::FailedToReadBody(s) => r@ == "Failed to read body: "@ + s@,
                ExecutorError::FailedToPrintBody(s) => r@ == "Failed to write body into stdout: "@
                    + s@,
                ExecutorError::TemplateError(s) => r@ == "Failed to resolve template: "@ + s@,
                ExecutorError::FileBodyError(path, diag) => r@ == "Failed to read body file: "@
                    + path@ + ". Err: "@ + diag@,
            },
    {
        match self {
            ExecutorError::APINotFound(s) => String::from_str("API not found: ").concat(
                s.as_str(),
            ),
            ExecutorError::EndpointNotFound(s) => String::from_str("Endpoint not found: ").concat(
                s.as_str(),
            ),
            ExecutorError::HTTPRequestError(s) => String::from_str("HTTP Request error: ").concat(
                s.as_str(),
            ),
            ExecutorError::FailedToParseHeader(name, diag) => String::from_str(
                "Failed to parse header: ",
            ).concat(name.as_str()).concat(". Err: ").concat(diag.as_str()),
            ExecutorError::FailedToReadBody(s) => String::from_str("Failed to read body: ").concat(
                s.as_str(),
            ),
            ExecutorError::FailedToPrintBody(s) => String::from_str(
                "Failed to write body into stdout: ",
            ).concat(s.as_str()),
            ExecutorError::TemplateError(s) => String::from_str(
                "Failed to resolve template: ",
            ).concat(s.as_str()),
            ExecutorError::FileBodyError(path, diag) => String::from_str(
                "Failed to read body file: ",
            ).concat(path.as_str()).concat(". Err: ").concat(diag.as_str()),
        }
    }
}

} // verus!
