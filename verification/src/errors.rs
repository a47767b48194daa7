use vstd::prelude::*;

verus! {

/// The error kinds the library reports.
///
/// Every variant carries a human-readable message naming the identifier or
/// input that caused the failure.
#[derive(Debug)]
pub enum ForgeError {
    /// A server, profile, template or backup referred to by name is absent.
    NotFound(String),
    /// A supplied value breaks a stated rule (bad profile name, missing
    /// required template variable, malformed duration, bad server shape).
    Validation(String),
    /// A persisted document is not well-formed.
    Parse(String),
    /// A filesystem operation failed; the caller supplies the message.
    Io(String),
    /// A template placeholder could not be resolved, or the template body
    /// itself is invalid.
    Render(String),
}

impl ForgeError {
    /// The message carried by the error.
    pub fn message(&self) -> (r: &String)
        ensures
            r@ == self.message_spec(),
    {
        match self {
            ForgeError::NotFound(m) => m,
            ForgeError::Validation(m) => m,
            ForgeError::Parse(m) => m,
            ForgeError::Io(m) => m,
            ForgeError::Render(m) => m,
        }
    }

    pub open spec fn message_spec(&self) -> Seq<char> {
        match self {
            ForgeError::NotFound(m) => m@,
            ForgeError::Validation(m) => m@,
            ForgeError::Parse(m) => m@,
            ForgeError::Io(m) => m@,
            ForgeError::Render(m) => m@,
        }
    }

    pub open spec fn is_not_found(&self) -> bool {
        self is NotFound
    }

    pub open spec fn is_validation(&self) -> bool {
        self is Validation
    }

    pub open spec fn is_parse(&self) -> bool {
        self is Parse
    }

    pub open spec fn is_render(&self) -> bool {
        self is Render
    }
}

} // verus!
