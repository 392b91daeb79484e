use vstd::prelude::*;

verus! {

/// Stable code identifying why an IFCCAD value cannot be canonicalized.
#[derive(Debug, Clone, Copy, PartialEq, Eq, Structural)]
pub enum CanonicalizationErrorCode {
    IntegerInvalid,
    FloatInvalid,
}

/// The stable text of each code.
pub open spec fn code_text(code: CanonicalizationErrorCode) -> Seq<char> {
    match code {
        CanonicalizationErrorCode::IntegerInvalid => "VECTOR_INTEGER_INVALID"@,
        CanonicalizationErrorCode::FloatInvalid => "VECTOR_FLOAT_INVALID"@,
    }
}

impl CanonicalizationErrorCode {
    pub fn as_str(self) -> (s: &'static str)
        ensures
            s@ == code_text(self),
    {
        match self {
            Self::IntegerInvalid => "VECTOR_INTEGER_INVALID",
            Self::FloatInvalid => "VECTOR_FLOAT_INVALID",
        }
    }
}

/// Failure to convert an IFCCAD value to its canonical representation.
#[derive(Debug, Clone, PartialEq, Eq)]
pub struct CanonicalizationError {
    code: CanonicalizationErrorCode,
    message: &'static str,
}

impl CanonicalizationError {
    pub closed spec fn spec_code(&self) -> CanonicalizationErrorCode {
        self.code
    }

    pub closed spec fn spec_message(&self) -> Seq<char> {
        self.message@
    }

    pub fn new(code: CanonicalizationErrorCode, message: &'static str) -> (e: Self)
        ensures
            e.spec_code() == code,
            e.spec_message() == message@,
    {
        Self { code, message }
    }

    pub fn code(&self) -> (c: CanonicalizationErrorCode)
        ensures
            c == self.spec_code(),
    {
        self.code
    }

    /// The error as displayed: its code's text, a colon and a space, then the
    /// message.
    pub fn to_string(&self) -> (s: String)
        ensures
            s@ == code_text(self.spec_code()) + ": "@ + self.spec_message(),
    {
        let mut s = String::from_str(self.code.as_str());
        s.append(": ");
        s.append(self.message);
        s
    }
}

} // verus!
