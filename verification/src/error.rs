use vstd::prelude::*;
use vstd::string::StringExecFns;

verus! {

/// Mathematical model of a parse failure.
pub ghost enum ErrorModel {
    /// Character data arrived with no open element.
    TextOutsideElement,
    /// A closing tag did not match the innermost open element.
    MismatchedTag { expected: Seq<char>, found: Seq<char> },
    /// A closing tag arrived with no open element at all.
    UnmatchedEndTag { found: Seq<char> },
    /// The token stream ended while elements were still open.
    UnclosedElement,
    /// The token source itself could not read the input.
    InvalidSyntax { message: Seq<char> },
}

/// The closed set of ways a parse can fail.
#[derive(Debug, Clone, PartialEq)]
pub enum ErrorKind {
    /// Character data arrived with no open element.
    TextOutsideElement,
    /// A closing tag did not match the innermost open element; carries
    /// the qualified name that was open and the qualified name found.
    MismatchedTag { expected: String, found: String },
    /// A closing tag arrived with no open element at all; carries its
    /// qualified name.
    UnmatchedEndTag { found: String },
    /// The token stream ended while elements were still open.
    UnclosedElement,
    /// The token source itself could not read the input; carries its
    /// description of the fault.
    InvalidSyntax { message: String },
}

impl View for ErrorKind {
    type V = ErrorModel;

    open spec fn view(&self) -> ErrorModel {
        match self {
            ErrorKind::TextOutsideElement => ErrorModel::TextOutsideElement,
            ErrorKind::MismatchedTag { expected, found } => ErrorModel::MismatchedTag {
                expected: expected@,
                found: found@,
            },
            ErrorKind::UnmatchedEndTag { found } => ErrorModel::UnmatchedEndTag { found: found@ },
            ErrorKind::UnclosedElement => ErrorModel::UnclosedElement,
            ErrorKind::InvalidSyntax { message } => ErrorModel::InvalidSyntax { message: message@ },
        }
    }
}

/// Error when parsing XML: structural violations are fatal and stop the
/// parse immediately.
#[derive(Debug, Clone, PartialEq)]
pub struct ParseXmlError {
    /// Which violation was found, with the offending tag names where
    /// they are derivable.
    pub kind: ErrorKind,
}

impl View for ParseXmlError {
    type V = ErrorModel;

    open spec fn view(&self) -> ErrorModel {
        self.kind@
    }
}

/// The human-readable description of each failure.
pub open spec fn kind_message_spec(e: ErrorModel) -> Seq<char> {
    match e {
        ErrorModel::TextOutsideElement => "Invalid form of XML doc"@,
        ErrorModel::MismatchedTag { expected, found } => "Invalid end tag: expected "@ + expected
            + ", got "@ + found,
        ErrorModel::UnmatchedEndTag { found } => "Invalid end tag: "@ + found,
        ErrorModel::UnclosedElement => "Invalid end tag"@,
        ErrorModel::InvalidSyntax { message } => message,
    }
}

impl ErrorKind {
    /// Describes the failure, naming the offending tags where they are
    /// derivable.
    pub fn message(&self) -> (r: String)
        ensures
            r@ == kind_message_spec(self@),
    {
        match self {
            ErrorKind::TextOutsideElement => "Invalid form of XML doc".to_owned(),
            ErrorKind::MismatchedTag { expected, found } => {
                let mut s = "Invalid end tag: expected ".to_owned();
                s.append(expected.as_str());
                s.append(", got ");
                s.append(found.as_str());
                s
            },
            ErrorKind::UnmatchedEndTag { found } => {
                let mut s = "Invalid end tag: ".to_owned();
                s.append(found.as_str());
                s
            },
            ErrorKind::UnclosedElement => "Invalid end tag".to_owned(),
            ErrorKind::InvalidSyntax { message } => message.clone(),
        }
    }
}

impl ParseXmlError {
    /// Describes the failed parse in one line.
    pub fn message(&self) -> (r: String)
        ensures
            r@ == "Could not parse string to XML: "@ + kind_message_spec(self@),
    {
        let mut s = "Could not parse string to XML: ".to_owned();
        let rest = self.kind.message();
        s.append(rest.as_str());
        s
    }
}

} // verus!
