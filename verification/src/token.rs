use vstd::prelude::*;
use vstd::string::StringExecFns;

use crate::tree::opt_str_view;

verus! {

/// An attribute as reported by the token source: optional namespace
/// prefix, local name, and value.
#[derive(Debug)]
pub struct TokenAttribute {
    pub prefix: Option<String>,
    pub local: String,
    pub value: String,
}

/// One structural event from the token source. Element and attribute
/// names arrive split into an optional prefix and a local part; the
/// tree builder joins them into one qualified name.
#[derive(Debug)]
pub enum Token {
    /// An opening tag with its attributes.
    StartElement { prefix: Option<String>, local: String, attributes: Vec<TokenAttribute> },
    /// Character data inside the currently open element.
    Characters { text: String },
    /// A closing tag.
    EndElement { prefix: Option<String>, local: String },
    /// Any other event kind (comments, processing instructions, ...);
    /// the tree builder skips these.
    Other,
}

/// Mathematical model of a token; names are already qualified.
pub ghost enum TokenModel {
    StartElement { name: Seq<char>, attributes: Seq<(Seq<char>, Seq<char>)> },
    Characters { text: Seq<char> },
    EndElement { name: Seq<char> },
    Other,
}

/// The qualification rule for names: `prefix:local` when a prefix is
/// present, the local name alone otherwise.
pub open spec fn qualified_name(prefix: Option<Seq<char>>, local: Seq<char>) -> Seq<char> {
    match prefix {
        Some(p) => p + seq![':'] + local,
        None => local,
    }
}

impl View for TokenAttribute {
    type V = (Seq<char>, Seq<char>);

    open spec fn view(&self) -> (Seq<char>, Seq<char>) {
        (qualified_name(opt_str_view(self.prefix), self.local@), self.value@)
    }
}

/// View of a sequence of token attributes as qualified `(name, value)` pairs.
pub open spec fn token_attrs_view(attrs: Seq<TokenAttribute>) -> Seq<(Seq<char>, Seq<char>)> {
    Seq::new(attrs.len(), |i: int| attrs[i]@)
}

impl View for Token {
    type V = TokenModel;

    open spec fn view(&self) -> TokenModel {
        match self {
            Token::StartElement { prefix, local, attributes } => TokenModel::StartElement {
                name: qualified_name(opt_str_view(*prefix), local@),
                attributes: token_attrs_view(attributes@),
            },
            Token::Characters { text } => TokenModel::Characters { text: text@ },
            Token::EndElement { prefix, local } => TokenModel::EndElement {
                name: qualified_name(opt_str_view(*prefix), local@),
            },
            Token::Other => TokenModel::Other,
        }
    }
}

/// View of a sequence of tokens as a sequence of token models.
pub open spec fn tokens_view(s: Seq<Token>) -> Seq<TokenModel> {
    Seq::new(s.len(), |i: int| s[i]@)
}

/// Joins a prefix and a local name into the qualified name.
pub fn qualify(prefix: Option<String>, local: String) -> (r: String)
    ensures
        r@ == qualified_name(opt_str_view(prefix), local@),
{
    match prefix {
        Some(p) => {
            proof {
                reveal_strlit(":");
                assert(":"@ =~= seq![':']);
            }
            let mut s = p;
            s.append(":");
            s.append(local.as_str());
            s
        },
        None => local,
    }
}

/// Turns token attributes into qualified `(name, value)` pairs, in order.
pub fn qualify_attributes(attrs: Vec<TokenAttribute>) -> (r: Vec<(String, String)>)
    ensures
        crate::tree::attr_pairs_view(r@) =~= token_attrs_view(attrs@),
{
    let mut out: Vec<(String, String)> = Vec::new();
    let n = attrs.len();
    for a in it: attrs.into_iter()
        invariant
            it.seq().len() == n,
            out.len() == it.index(),
            forall|j: int|
                0 <= j < out.len() ==> (out[j].0@, out[j].1@) == #[trigger] it.seq()[j]@,
    {
        let TokenAttribute { prefix, local, value } = a;
        let name = qualify(prefix, local);
        out.push((name, value));
    }
    out
}

} // verus!
