//! Error taxonomy with a severity classification.

use crate::text::{chars_of, decimal, push_decimal, push_str, string_of};
use vstd::prelude::*;

verus! {

#[verifier::external_type_specification]
#[verifier::external_body]
pub struct ExIoError(std::io::Error);

#[verifier::external_type_specification]
#[verifier::external_body]
pub struct ExJsonError(serde_json::Error);

/// How severe an error is, which decides how the caller recovers.
#[derive(Debug, Clone, Copy, PartialEq, Eq, Structural)]
pub enum ErrorSeverity {
    /// Startup must be abandoned.
    Fatal,
    /// The current monitor session has ended.
    Critical,
    /// The operation may be retried; prior state is kept.
    Recoverable,
    /// Cosmetic; the operation is skipped.
    Minor,
}

/// Everything that can go wrong in the widget core.
#[derive(Debug)]
#[allow(inconsistent_fields)]
pub enum VirtualDesktopError {
    /// The instance identifier does not match the allow-list.
    InvalidInstanceId { signature: String, reason: String },
    /// A socket path derived from the environment does not exist.
    EndpointNotFound { path: String },
    /// A socket could not be opened, written or read.
    IpcConnection { source: std::io::Error },
    /// A configuration value is out of bounds.
    Configuration { field: String, value: String, reason: String },
    /// A state payload could not be understood.
    StateParsing { context: String },
    /// A widget could not be created or changed.
    WidgetOperation { operation: String, details: String },
    /// The retry policy gave up.
    RetryExhausted { attempts: u32, last_error: String },
    /// A JSON document could not be read or written.
    JsonError { operation: String, source: serde_json::Error },
    /// A broken internal assumption.
    Internal { message: String },
}

/// Trusted: `ToString::to_string` of `std::io::Error`. Nothing is claimed of
/// the text.
#[verifier::external_body]
fn io_error_text(source: &std::io::Error) -> (text: String) {
    source.to_string()
}

/// Trusted: `ToString::to_string` of `serde_json::Error`. Nothing is claimed
/// of the text.
#[verifier::external_body]
fn json_error_text(source: &serde_json::Error) -> (text: String) {
    source.to_string()
}

impl VirtualDesktopError {
    /// The severity of each kind of error.
    pub open spec fn severity_of(&self) -> ErrorSeverity {
        match self {
            Self::InvalidInstanceId { .. } => ErrorSeverity::Fatal,
            Self::EndpointNotFound { .. } => ErrorSeverity::Fatal,
            Self::IpcConnection { .. } => ErrorSeverity::Recoverable,
            Self::Configuration { .. } => ErrorSeverity::Fatal,
            Self::StateParsing { .. } => ErrorSeverity::Recoverable,
            Self::WidgetOperation { .. } => ErrorSeverity::Minor,
            Self::RetryExhausted { .. } => ErrorSeverity::Critical,
            Self::JsonError { .. } => ErrorSeverity::Recoverable,
            Self::Internal { .. } => ErrorSeverity::Critical,
        }
    }

    /// The message of an error. `detail` stands for the text of the
    /// underlying I/O or JSON error, where the error wraps one.
    pub open spec fn message(&self, detail: Seq<char>) -> Seq<char> {
        match self {
            Self::InvalidInstanceId { signature, reason } => "Invalid instance identifier: '"@
                + signature@ + "' - "@ + reason@,
            Self::EndpointNotFound { path } => "Hyprland socket not found: "@ + path@,
            Self::IpcConnection { .. } => "Hyprland IPC connection failed: "@ + detail,
            Self::Configuration { field, value, reason } => "Configuration validation failed: "@
                + field@ + " = '"@ + value@ + "' - "@ + reason@,
            Self::StateParsing { context } => "Virtual desktop state parsing failed: "@ + context@,
            Self::WidgetOperation { operation, details } => "Widget operation failed: "@
                + operation@ + " - "@ + details@,
            Self::RetryExhausted { attempts, last_error } => "Retry limit exceeded: "@ + decimal(
                *attempts as nat,
            ) + " attempts failed - "@ + last_error@,
            Self::JsonError { operation, .. } => "JSON processing failed: "@ + operation@ + " - "@
                + detail,
            Self::Internal { message } => "Internal error: "@ + message@,
        }
    }

    /// Whether the message of this error includes the text of an underlying
    /// I/O or JSON error.
    pub open spec fn wraps_outside_error(&self) -> bool {
        self is IpcConnection || self is JsonError
    }

    /// The severity that selects the recovery strategy.
    pub fn severity(&self) -> (r: ErrorSeverity)
        ensures
            r == self.severity_of(),
    {
        match self {
            Self::InvalidInstanceId { .. } => ErrorSeverity::Fatal,
            Self::EndpointNotFound { .. } => ErrorSeverity::Fatal,
            Self::IpcConnection { .. } => ErrorSeverity::Recoverable,
            Self::Configuration { .. } => ErrorSeverity::Fatal,
            Self::StateParsing { .. } => ErrorSeverity::Recoverable,
            Self::WidgetOperation { .. } => ErrorSeverity::Minor,
            Self::RetryExhausted { .. } => ErrorSeverity::Critical,
            Self::JsonError { .. } => ErrorSeverity::Recoverable,
            Self::Internal { .. } => ErrorSeverity::Critical,
        }
    }

    /// An error for a rejected instance identifier.
    pub fn invalid_instance_id(signature: &str, reason: &str) -> (e: Self)
        ensures
            e matches Self::InvalidInstanceId { signature: s, reason: r } && s@ == signature@ && r@
                == reason@,
    {
        Self::InvalidInstanceId {
            signature: string_of(&chars_of(signature)),
            reason: string_of(&chars_of(reason)),
        }
    }

    /// An error for a socket path that does not exist.
    pub fn endpoint_not_found(path: &str) -> (e: Self)
        ensures
            e matches Self::EndpointNotFound { path: p } && p@ == path@,
    {
        Self::EndpointNotFound { path: string_of(&chars_of(path)) }
    }

    /// An error for a configuration value that failed validation.
    pub fn invalid_config(field: &str, value: &str, reason: &str) -> (e: Self)
        ensures
            e matches Self::Configuration { field: f, value: v, reason: r } && f@ == field@ && v@
                == value@ && r@ == reason@,
    {
        Self::Configuration {
            field: string_of(&chars_of(field)),
            value: string_of(&chars_of(value)),
            reason: string_of(&chars_of(reason)),
        }
    }

    /// An error for a state payload that could not be parsed.
    pub fn parsing_failed(context: &str) -> (e: Self)
        ensures
            e matches Self::StateParsing { context: c } && c@ == context@,
    {
        Self::StateParsing { context: string_of(&chars_of(context)) }
    }

    /// An error for a failed widget operation.
    pub fn widget_failed(operation: &str, details: &str) -> (e: Self)
        ensures
            e matches Self::WidgetOperation { operation: o, details: d } && o@ == operation@ && d@
                == details@,
    {
        Self::WidgetOperation {
            operation: string_of(&chars_of(operation)),
            details: string_of(&chars_of(details)),
        }
    }

    /// Wraps a JSON error together with the operation that met it.
    pub fn from_json_error(operation: &str, source: serde_json::Error) -> (e: Self)
        ensures
            e matches Self::JsonError { operation: o, source: s } && o@ == operation@ && s
                == source,
    {
        Self::JsonError { operation: string_of(&chars_of(operation)), source }
    }

    /// The message of the error, as shown in logs.
    pub fn to_string(&self) -> (text: String)
        ensures
            exists|detail: Seq<char>| text@ == #[trigger] self.message(detail),
            !self.wraps_outside_error() ==> text@ == self.message(Seq::empty()),
    {
        let mut out: Vec<char> = Vec::new();
        let ghost mut detail: Seq<char> = Seq::empty();
        match self {
            Self::InvalidInstanceId { signature, reason } => {
                push_str(&mut out, "Invalid instance identifier: '");
                push_str(&mut out, signature.as_str());
                push_str(&mut out, "' - ");
                push_str(&mut out, reason.as_str());
            },
            Self::EndpointNotFound { path } => {
                push_str(&mut out, "Hyprland socket not found: ");
                push_str(&mut out, path.as_str());
            },
            Self::IpcConnection { source } => {
                let inner = io_error_text(source);
                proof {
                    detail = inner@;
                }
                push_str(&mut out, "Hyprland IPC connection failed: ");
                push_str(&mut out, inner.as_str());
            },
            Self::Configuration { field, value, reason } => {
                push_str(&mut out, "Configuration validation failed: ");
                push_str(&mut out, field.as_str());
                push_str(&mut out, " = '");
                push_str(&mut out, value.as_str());
                push_str(&mut out, "' - ");
                push_str(&mut out, reason.as_str());
            },
            Self::StateParsing { context } => {
                push_str(&mut out, "Virtual desktop state parsing failed: ");
                push_str(&mut out, context.as_str());
            },
            Self::WidgetOperation { operation, details } => {
                push_str(&mut out, "Widget operation failed: ");
                push_str(&mut out, operation.as_str());
                push_str(&mut out, " - ");
                push_str(&mut out, details.as_str());
            },
            Self::RetryExhausted { attempts, last_error } => {
                push_str(&mut out, "Retry limit exceeded: ");
                push_decimal(&mut out, *attempts as u64);
                push_str(&mut out, " attempts failed - ");
                push_str(&mut out, last_error.as_str());
            },
            Self::JsonError { operation, source } => {
                let inner = json_error_text(source);
                proof {
                    detail = inner@;
                }
                push_str(&mut out, "JSON processing failed: ");
                push_str(&mut out, operation.as_str());
                push_str(&mut out, " - ");
                push_str(&mut out, inner.as_str());
            },
            Self::Internal { message } => {
                push_str(&mut out, "Internal error: ");
                push_str(&mut out, message.as_str());
            },
        }
        proof {
            assert(out@ =~= self.message(detail));
        }
        string_of(&out)
    }
}

/// The result type of the widget core.
pub type Result<T> = std::result::Result<T, VirtualDesktopError>;

} // verus!
