//! Wrapping a code body into a runnable program, and decoding what the
//! interpreter process produced.
//!
//! The wrapped program binds the serialized parameters to the reserved
//! variable `$params`, runs the code body as a function, and prints the
//! serialization of whatever the body returned (or `null` if it returned
//! nothing) as the only output. Running the program is I/O and stays with
//! the caller, who hands the captured exit flag and byte streams back as an
//! [`ExecutionOutcome`] for [`decode`].

use vstd::prelude::*;
use vstd::utf8::{decode_utf8, encode_utf8, valid_utf8};

use crate::error::Error;
use crate::json::{json_bytes, to_bytes, Json, JsonV};
use crate::parse::{parse_bytes, sp_doc};

verus! {

/// Holds an apple flavoured JavaScript code body; immutable, reusable
/// across any number of executions.
pub struct JavaScript {
    code: String,
}

impl View for JavaScript {
    type V = Seq<char>;

    /// The model of a script is its code body text.
    closed spec fn view(&self) -> Seq<char> {
        self.code@
    }
}

/// The bytes that precede the serialized parameters: they open the binding
/// of the reserved `$params` variable.
pub open spec fn preamble() -> Seq<u8> {
    encode_utf8("var $params = "@)
}

/// The bytes between the serialized parameters and the code body: they
/// close the binding and open the function wrapper that captures the body's
/// return value.
pub open spec fn midamble() -> Seq<u8> {
    encode_utf8(";JSON.stringify((function() {"@)
}

/// The bytes after the code body: a body without an explicit `return`
/// falls through to `return null`, so the program always prints exactly one
/// serialized value when it succeeds.
pub open spec fn postamble() -> Seq<u8> {
    encode_utf8(";return null;})());"@)
}

/// The exact program text handed to the interpreter for a code body and
/// already-serialized parameters.
pub open spec fn wrapped_program(code: Seq<char>, params_json: Seq<u8>) -> Seq<u8> {
    preamble() + params_json + midamble() + encode_utf8(code) + postamble()
}

/// The raw result of running the interpreter once: whether it exited
/// successfully, and what it wrote to its two output streams.
#[derive(Debug, PartialEq)]
pub struct ExecutionOutcome {
    /// True exactly when the process exited with status zero.
    pub success: bool,
    /// Everything the process wrote to standard output.
    pub stdout: Vec<u8>,
    /// Everything the process wrote to standard error.
    pub stderr: Vec<u8>,
}

impl JavaScript {
    /// Creates a new script from the given code.
    pub fn new(code: &str) -> (r: JavaScript)
        ensures
            r@ == code@,
    {
        JavaScript { code: code.to_owned() }
    }

    /// The code body this script was created from.
    pub fn code(&self) -> (r: &str)
        ensures
            r@ == self@,
    {
        self.code.as_str()
    }

    /// The program text that runs this script with the given parameters:
    /// exactly [`wrapped_program`] of the code body and the parameters'
    /// wire encoding. Pure text construction; nothing is executed.
    pub fn wrap_with_params(&self, params: &Json) -> (r: Vec<u8>)
        ensures
            r@ == wrapped_program(self@, json_bytes(params@)),
    {
        let mut out: Vec<u8> = vstd::slice::slice_to_vec("var $params = ".as_bytes());
        let mut pj = to_bytes(params);
        out.append(&mut pj);
        let mut mid = vstd::slice::slice_to_vec(";JSON.stringify((function() {".as_bytes());
        out.append(&mut mid);
        let mut body = vstd::slice::slice_to_vec(self.code.as_str().as_bytes());
        out.append(&mut body);
        let mut post = vstd::slice::slice_to_vec(";return null;})());".as_bytes());
        out.append(&mut post);
        assert(out@ =~= wrapped_program(self@, json_bytes(params@)));
        out
    }

    /// The program text that runs this script with no parameters: `$params`
    /// is bound to an empty object.
    pub fn wrap(&self) -> (r: Vec<u8>)
        ensures
            r@ == wrapped_program(self@, seq![123u8, 125u8]),
    {
        let empty: Vec<(Vec<u8>, Json)> = Vec::new();
        let params = Json::Obj(empty);
        proof {
            assert(crate::json::view_members(params->Obj_0@) =~= Seq::<(Seq<u8>, JsonV)>::empty());
        }
        self.wrap_with_params(&params)
    }
}

/// Relies on `str::from_utf8` (with `str::to_string` converting the
/// borrowed result): returns the decoded text exactly when the bytes are
/// valid UTF-8, and `None` otherwise.
#[verifier::external_body]
fn utf8_to_string(bytes: &[u8]) -> (r: Option<String>)
    ensures
        r is Some <==> valid_utf8(bytes@),
        r matches Some(s) ==> s@ == decode_utf8(bytes@),
{
    match std::str::from_utf8(bytes) {
        Ok(s) => Some(s.to_string()),
        Err(_) => None,
    }
}

/// Decode the raw outcome of one interpreter run.
///
/// Exactly one of a value and a failure comes back:
/// - success flag set: standard output must be one wire-format value
///   (surrounding whitespace allowed), decoded into its model; anything
///   else is a [`Error::Deserialize`] failure naming the parse problem;
/// - success flag clear: a [`Error::Script`] failure whose message is the
///   UTF-8 decoding of standard error, byte for byte; standard error that
///   is not valid UTF-8 is an [`Error::Io`] failure whose message states
///   the encoding problem.
pub fn decode(outcome: &ExecutionOutcome) -> (r: Result<Json, Error>)
    ensures
        outcome.success ==> match sp_doc(outcome.stdout@) {
            Some(v) => r matches Ok(j) && j@ == v,
            None => (r matches Err(e) && (e matches Error::Deserialize(m) && m@
                == "standard output was not a single value of the wire format"@)),
        },
        !outcome.success ==> r is Err,
        !outcome.success && valid_utf8(outcome.stderr@) ==> (r matches Err(e) && (e matches
            Error::Script(m) && m@ == decode_utf8(outcome.stderr@))),
        !outcome.success && !valid_utf8(outcome.stderr@) ==> (r matches Err(e) && (e matches
            Error::Io(m) && m@ == "standard error was not valid UTF-8"@)),
{
    if outcome.success {
        match parse_bytes(outcome.stdout.as_slice()) {
            Some(j) => Ok(j),
            None => Err(
                Error::Deserialize(
                    "standard output was not a single value of the wire format".to_owned(),
                ),
            ),
        }
    } else {
        match utf8_to_string(outcome.stderr.as_slice()) {
            Some(msg) => Err(Error::Script(msg)),
            None => Err(Error::Io("standard error was not valid UTF-8".to_owned())),
        }
    }
}

} // verus!
