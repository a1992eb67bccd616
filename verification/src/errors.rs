//! The library's error type.
use vstd::prelude::*;
use vstd::string::StringExecFns;

verus! {

/// What went wrong.
#[derive(Debug, Clone, Copy, PartialEq, Eq, Structural)]
pub enum ErrorKind {
    /// An input failed validation.
    ValidationError,
}

/// An error with its kind and a human-readable message.
#[derive(Debug)]
pub struct TorchError {
    pub kind: ErrorKind,
    pub message: String,
}

impl TorchError {
    /// A validation error carrying `message`.
    pub fn validation(message: String) -> (r: Self)
        ensures
            r.kind == ErrorKind::ValidationError,
            r.message@ == message@,
    {
        TorchError { kind: ErrorKind::ValidationError, message }
    }

    /// The error's display text, its debug rendering:
    /// `TorchError { kind: ValidationError, message: "..." }`.
    pub fn to_string(&self) -> (r: String)
        ensures
            r@ == "TorchError { kind: "@ + kind_name(self.kind) + ", message: "@ + debug_quoted(self.message@)
                + " }"@,
    {
        proof {
            reveal_strlit("TorchError { kind: ");
            reveal_strlit("ValidationError");
            reveal_strlit(", message: ");
            reveal_strlit(" }");
        }
        let mut out = String::from_str("TorchError { kind: ");
        match self.kind {
            ErrorKind::ValidationError => out.append("ValidationError"),
        }
        out.append(", message: ");
        let quoted = quote_debug(self.message.as_str());
        out.append(quoted.as_str());
        out.append(" }");
        out
    }
}

/// The name of an error kind, as its debug rendering shows it.
pub open spec fn kind_name(kind: ErrorKind) -> Seq<char> {
    match kind {
        ErrorKind::ValidationError => "ValidationError"@,
    }
}

/// What std's `Debug` gives for a string: the characters in double quotes,
/// each passed through `char::escape_debug`.
pub uninterp spec fn debug_quoted(s: Seq<char>) -> Seq<char>;

/// Every character is printable ASCII other than a quote or a backslash, so
/// that `char::escape_debug` leaves it as it is.
pub open spec fn plain_text(s: Seq<char>) -> bool {
    forall|i: int|
        0 <= i < s.len() ==> 0x20 <= (#[trigger] s[i]) as int <= 0x7e && s[i] != '"' && s[i] != '\\' && s[i]
            != '\''
}

/// `format!("{:?}", s)` for a string slice: std's `Debug` for `str`, which
/// writes the string in double quotes with every character escaped by
/// `char::escape_debug`. Printable ASCII characters other than quotes and the
/// backslash are written unchanged; the escapes of other characters are not
/// stated.
#[verifier::external_body]
fn quote_debug(s: &str) -> (r: String)
    ensures
        r@ == debug_quoted(s@),
        plain_text(s@) ==> r@ == seq!['"'] + s@ + seq!['"'],
{
    format!("{:?}", s)
}

} // verus!
