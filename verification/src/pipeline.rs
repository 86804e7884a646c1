//! The rules of the request pipeline: how a record becomes a request, how
//! many requests may be in flight, and what is written for each response.
//!
//! The pipeline itself waits on channels and on the network; here stand the
//! decisions it takes between two waits, as functions from a state and an
//! event to the next state.

use crate::context::{FieldValues, MergeError, OutputTemplate, SPACE_BYTE};
use crate::fields::separator_offsets;
use crate::render::rendered;
use crate::grammar::{request_fragments, tail_from, well_formed, FragmentSpec};
use crate::parser::TemplateError;
use crate::records::Record;
use vstd::prelude::*;
use vstd::string::{StringExecFns, StringSliceAdditionalSpecFns};
use vstd::utf8::{decode_utf8, valid_utf8};

verus! {

/// The capacity of each queue between two stages of the pipeline.
pub const CHANNEL_CAPACITY: usize = 256;

/// One request to make: where to, how, and for which record.
#[derive(Clone, Debug)]
pub struct RequestContext {
    pub url: String,
    pub method: String,
    /// The rank of the record in the input, counted from 1.
    pub id: u64,
}

impl PartialEq for RequestContext {
    /// Two requests are equal when their URLs, their methods and their
    /// numbers are equal.
    fn eq(&self, other: &Self) -> (r: bool) {
        self.url == other.url && self.method == other.method && self.id == other.id
    }
}

impl vstd::std_specs::cmp::PartialEqSpecImpl for RequestContext {
    open spec fn obeys_eq_spec() -> bool {
        true
    }

    open spec fn eq_spec(&self, other: &Self) -> bool {
        self.url@ == other.url@ && self.method@ == other.method@ && self.id == other.id
    }
}

/// One response, as it came back for a request.
#[derive(Debug)]
pub struct ResponseContext {
    pub request_context: RequestContext,
    /// The HTTP status code.
    pub status: u16,
    /// The body of the response, decoded.
    pub text: String,
    /// The time from sending the request to reading the whole body, in
    /// milliseconds.
    pub elapsed_millis: u128,
}

/// What the HTTP client is built with.
#[derive(Clone, Copy, Debug, PartialEq, Eq, Structural)]
pub struct ClientSettings {
    /// The time allowed for one request, in seconds.
    pub timeout_seconds: u64,
    /// Whether compressed responses are decoded.
    pub gzip: bool,
    pub accept_invalid_certs: bool,
    pub accept_invalid_hostnames: bool,
}

/// The settings of the client for a run: responses are always decoded, and
/// certificates and host names are checked unless `insecure` is set.
pub fn request_client(timeout_seconds: u64, insecure: bool) -> (settings: ClientSettings)
    ensures
        settings == (ClientSettings {
            timeout_seconds,
            gzip: true,
            accept_invalid_certs: insecure,
            accept_invalid_hostnames: insecure,
        }),
{
    ClientSettings {
        timeout_seconds,
        gzip: true,
        accept_invalid_certs: insecure,
        accept_invalid_hostnames: insecure,
    }
}

/// Turns records into requests: renders the URL template with the fields
/// of each record, which spaces part.
pub struct RequestFactory {
    url_template: OutputTemplate,
    method: String,
}

impl RequestFactory {
    /// The fragments of the URL template.
    pub closed spec fn fragments(&self) -> Seq<FragmentSpec> {
        self.url_template.fragments()
    }

    /// The method of every request.
    pub closed spec fn method(&self) -> Seq<char> {
        self.method@
    }

    /// The URL for a record: the template rendered with the fields that
    /// spaces part.
    pub open spec fn url_bytes(&self, line: Seq<u8>) -> Seq<u8> {
        rendered(self.fragments(), line, separator_offsets(line, SPACE_BYTE))
    }

    /// A factory for a URL template and a method. The template is refused
    /// when it cannot be read.
    pub fn new<'a>(url: &'a str, method: &str) -> (r: Result<RequestFactory, TemplateError<'a>>)
        ensures
            match r {
                Ok(factory) => {
                    &&& well_formed(url.spec_bytes())
                    &&& factory.fragments() == request_fragments(url.spec_bytes())
                    &&& factory.method() == method@
                },
                Err(e) => {
                    &&& !well_formed(url.spec_bytes())
                    &&& e.remaining.spec_bytes() == tail_from(url.spec_bytes())
                },
            },
    {
        match OutputTemplate::parse(url) {
            Ok(url_template) => Ok(
                RequestFactory { url_template, method: String::from_str(method) },
            ),
            Err(e) => Err(e),
        }
    }

    /// The request for a record, which keeps the number of the record. The
    /// URL must come out as valid UTF-8. The record must be short enough for
    /// the offsets of its delimiters to fit in one allocation.
    pub fn request_for(&self, record: &Record) -> (r: Result<RequestContext, MergeError>)
        requires
            record.bytes@.len() * 16 <= isize::MAX,
        ensures
            match r {
                Ok(request) => {
                    &&& valid_utf8(self.url_bytes(record.bytes@))
                    &&& request.url@ == decode_utf8(self.url_bytes(record.bytes@))
                    &&& request.method@ == self.method()
                    &&& request.id == record.id
                },
                Err(_) => !valid_utf8(self.url_bytes(record.bytes@)),
            },
    {
        let values = FieldValues::parse(record.bytes.as_slice(), SPACE_BYTE, 1);
        match self.url_template.merge(values) {
            Ok(url) => Ok(RequestContext { url, method: self.method.clone(), id: record.id }),
            Err(e) => Err(e),
        }
    }
}

/// The line written to standard output for a response: its body and a line
/// feed.
pub fn output_line(response: &ResponseContext) -> (line: String)
    ensures
        line@ == response.text@ + "\n"@,
{
    response.text.clone().concat("\n")
}

/// The line written to standard error for a request that failed, without
/// its line feed.
pub fn error_line(detail: &str) -> (line: String)
    ensures
        line@ == "error! "@ + detail@,
{
    String::from_str("error! ").concat(detail)
}

} // verus!
