use vstd::prelude::*;

use xml::reader::XmlEvent;

use crate::builder::build_spec;
use crate::error::ErrorKind;
use crate::error::ErrorModel;
use crate::error::ParseXmlError;
use crate::token::Token;
use crate::token::TokenAttribute;
use crate::token::TokenModel;
use crate::token::tokens_view;
use crate::tree::ElemModel;
use crate::tree::XmlDocument;

verus! {

/// Relies on `xml::reader::EventReader`: drains the reader's event
/// stream, keeping the structural events (start tag, character data,
/// end tag) and marking every other kind as `Token::Other`, or reports
/// the tokenizer's own description of a malformed input. What comes
/// back depends on what the reader yields.
#[verifier::external_body]
fn read_tokens<R: std::io::Read>(source: R) -> (r: Result<Vec<Token>, String>) {
    let mut out: Vec<Token> = Vec::new();
    for ev in xml::reader::EventReader::new(source) {
        out.push(match ev {
            Err(e) => return Err(e.to_string()),
            Ok(XmlEvent::StartElement { name, attributes, .. }) => Token::StartElement { prefix: name.prefix, local: name.local_name, attributes: attributes.into_iter().map(|a| TokenAttribute { prefix: a.name.prefix, local: a.name.local_name, value: a.value }).collect() },
            Ok(XmlEvent::Characters(text)) => Token::Characters { text },
            Ok(XmlEvent::EndElement { name }) => Token::EndElement { prefix: name.prefix, local: name.local_name },
            Ok(_) => Token::Other,
        });
    }
    Ok(out)
}

impl XmlDocument {
    /// Reads raw XML from `source`, tokenizes it, and builds the
    /// document; `trim` strips leading and trailing whitespace from
    /// text content. Any outcome other than a tokenizer fault is the
    /// tree builder's verdict on some token sequence.
    pub fn from_reader<R: std::io::Read>(source: R, trim: bool) -> (r: Result<
        XmlDocument,
        ParseXmlError,
    >)
        ensures
            match r {
                Ok(doc) => exists|ts: Seq<TokenModel>|
                    build_spec(ts, trim) == Ok::<Seq<ElemModel>, ErrorModel>(doc@),
                Err(e) => (e@ is InvalidSyntax) || exists|ts: Seq<TokenModel>|
                    build_spec(ts, trim) == Err::<Seq<ElemModel>, ErrorModel>(e@),
            },
    {
        match read_tokens(source) {
            Err(message) => Err(ParseXmlError { kind: ErrorKind::InvalidSyntax { message } }),
            Ok(tokens) => {
                let ghost ts = tokens_view(tokens@);
                let r = XmlDocument::parse(tokens, trim);
                proof {
                    if r is Ok {
                        assert(build_spec(ts, trim) == Ok::<Seq<ElemModel>, ErrorModel>(
                            r->Ok_0@,
                        ));
                    }
                }
                r
            },
        }
    }
}

impl core::str::FromStr for XmlDocument {
    type Err = ParseXmlError;

    /// Parses a document straight from a string, trimming text content.
    fn from_str(s: &str) -> Result<XmlDocument, ParseXmlError> {
        XmlDocument::from_reader(s.as_bytes(), true)
    }
}

} // verus!
