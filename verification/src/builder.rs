use vstd::prelude::*;

use crate::error::ErrorModel;
use crate::error::ErrorKind;
use crate::error::ParseXmlError;
use crate::token::Token;
use crate::token::TokenModel;
use crate::token::tokens_view;
use crate::token::qualify;
use crate::token::qualify_attributes;
use crate::tree::ElemModel;
use crate::tree::XmlData;
use crate::tree::XmlDocument;
use crate::tree::elems_view;
use crate::tree::lemma_elems_view;

verus! {

/// What `str::trim` returns: the argument with leading and trailing
/// whitespace removed.
pub uninterp spec fn trim_of(s: Seq<char>) -> Seq<char>;

/// Relies on `str::trim`: removes leading and trailing whitespace; the
/// result depends on the characters alone.
#[verifier::external_body]
fn trim_string(s: &String) -> (r: String)
    ensures
        r@ == trim_of(s@),
{
    s.trim().to_owned()
}

/// The text stored for a `Characters` token: trimmed when the `trim`
/// option is set, unchanged otherwise.
pub open spec fn stored_text(text: Seq<char>, trim: bool) -> Seq<char> {
    if trim {
        trim_of(text)
    } else {
        text
    }
}

/// A freshly opened element: named, with its attributes, no text and no
/// children yet.
pub open spec fn open_elem(name: Seq<char>, attributes: Seq<(Seq<char>, Seq<char>)>) -> ElemModel {
    ElemModel { name, attributes, text: None, children: Seq::empty() }
}

/// `e` with its text content set to `t` (replacing any previous text).
pub open spec fn elem_with_text(e: ElemModel, t: Seq<char>) -> ElemModel {
    ElemModel { text: Some(t), ..e }
}

/// `e` with `c` appended as its last child.
pub open spec fn elem_with_child(e: ElemModel, c: ElemModel) -> ElemModel {
    ElemModel { children: e.children.push(c), ..e }
}

/// The tree builder as a state machine: consumes `tokens` front to back
/// with a stack of open elements (innermost last) and an accumulator of
/// completed roots, and yields the finished roots or the first fatal
/// error.
pub open spec fn build_from(
    tokens: Seq<TokenModel>,
    stack: Seq<ElemModel>,
    roots: Seq<ElemModel>,
    trim: bool,
) -> Result<Seq<ElemModel>, ErrorModel>
    decreases tokens.len(),
{
    if tokens.len() == 0 {
        if stack.len() == 0 {
            Ok(roots)
        } else {
            Err(ErrorModel::UnclosedElement)
        }
    } else {
        let rest = tokens.drop_first();
        match tokens[0] {
            TokenModel::StartElement { name, attributes } => build_from(
                rest,
                stack.push(open_elem(name, attributes)),
                roots,
                trim,
            ),
            TokenModel::Characters { text } => {
                if stack.len() == 0 {
                    Err(ErrorModel::TextOutsideElement)
                } else {
                    build_from(
                        rest,
                        stack.update(
                            stack.len() - 1,
                            elem_with_text(stack.last(), stored_text(text, trim)),
                        ),
                        roots,
                        trim,
                    )
                }
            },
            TokenModel::EndElement { name } => {
                if stack.len() == 0 {
                    Err(ErrorModel::UnmatchedEndTag { found: name })
                } else if stack.last().name != name {
                    Err(ErrorModel::MismatchedTag { expected: stack.last().name, found: name })
                } else if stack.len() == 1 {
                    build_from(rest, stack.drop_last(), roots.push(stack.last()), trim)
                } else {
                    build_from(
                        rest,
                        stack.drop_last().update(
                            stack.len() - 2,
                            elem_with_child(stack[stack.len() - 2], stack.last()),
                        ),
                        roots,
                        trim,
                    )
                }
            },
            TokenModel::Other => build_from(rest, stack, roots, trim),
        }
    }
}

/// The tree builder's contract: what building a document from a token
/// sequence yields, starting with no open elements and no roots.
pub open spec fn build_spec(tokens: Seq<TokenModel>, trim: bool) -> Result<
    Seq<ElemModel>,
    ErrorModel,
> {
    build_from(tokens, Seq::empty(), Seq::empty(), trim)
}

impl XmlDocument {
    /// Builds a document from a token sequence, validating tag nesting;
    /// `trim` strips leading and trailing whitespace from text content.
    pub fn parse(tokens: Vec<Token>, trim: bool) -> (r: Result<XmlDocument, ParseXmlError>)
        ensures
            match r {
                Ok(doc) => build_spec(tokens_view(tokens@), trim) == Ok::<
                    Seq<ElemModel>,
                    ErrorModel,
                >(doc@),
                Err(e) => build_spec(tokens_view(tokens@), trim) == Err::<
                    Seq<ElemModel>,
                    ErrorModel,
                >(e@),
            },
    {
        let mut stack: Vec<XmlData> = Vec::new();
        let mut roots: Vec<XmlData> = Vec::new();
        let n = tokens.len();
        proof {
            assert(tokens_view(tokens@).skip(0) =~= tokens_view(tokens@));
        }
        for t in it: tokens.into_iter()
            invariant
                it.seq().len() == n,
                build_from(
                    tokens_view(it.seq()).skip(it.index() as int),
                    elems_view(stack@),
                    elems_view(roots@),
                    trim,
                ) == build_spec(tokens_view(it.seq()), trim),
        {
            proof {
                lemma_step_front(tokens_view(it.seq()), it.index() as int);
            }
            match t {
                Token::StartElement { prefix, local, attributes } => {
                    let name = qualify(prefix, local);
                    let attrs = qualify_attributes(attributes);
                    let elem = XmlData {
                        name,
                        attributes: attrs,
                        data: None,
                        sub_elements: Vec::new(),
                    };
                    proof {
                        lemma_elems_view_push(stack@, elem);
                        assert(elem@ =~~= open_elem(elem@.name, elem@.attributes));
                    }
                    stack.push(elem);
                },
                Token::Characters { text } => {
                    let stored = if trim {
                        trim_string(&text)
                    } else {
                        text
                    };
                    if stack.len() == 0 {
                        return Err(ParseXmlError { kind: ErrorKind::TextOutsideElement });
                    }
                    let ghost old_stack = stack@;
                    let mut top = stack.pop().unwrap();
                    top.data = Some(stored);
                    let ghost new_top = top;
                    stack.push(top);
                    proof {
                        lemma_elems_view(old_stack);
                        assert(elems_view(old_stack).last() == old_stack[old_stack.len() - 1]@);
                        assert(new_top@ =~~= elem_with_text(elems_view(old_stack).last(), new_top.data->Some_0@));
                        assert(stack@ =~= old_stack.drop_last().push(new_top));
                        lemma_view_update_last(old_stack, new_top);
                    }
                },
                Token::EndElement { prefix, local } => {
                    let name = qualify(prefix, local);
                    if stack.len() == 0 {
                        return Err(ParseXmlError {
                            kind: ErrorKind::UnmatchedEndTag { found: name },
                        });
                    }
                    let ghost old_stack = stack@;
                    proof {
                        lemma_elems_view(old_stack);
                        assert(elems_view(old_stack).last() == old_stack[old_stack.len() - 1]@);
                    }
                    let top = stack.pop().unwrap();
                    if !top.name.eq(&name) {
                        return Err(ParseXmlError {
                            kind: ErrorKind::MismatchedTag { expected: top.name, found: name },
                        });
                    }
                    proof {
                        assert(elems_view(old_stack).last() == old_stack[old_stack.len() - 1]@);
                        lemma_view_drop_last(old_stack);
                        assert(stack@ =~= old_stack.drop_last());
                    }
                    if stack.len() == 0 {
                        proof {
                            lemma_elems_view_push(roots@, top);
                            assert(elems_view(stack@) =~= elems_view(old_stack).drop_last());
                        }
                        roots.push(top);
                    } else {
                        let ghost mid_stack = stack@;
                        proof {
                            lemma_elems_view(mid_stack);
                            assert(elems_view(old_stack)[old_stack.len() - 2]
                                == old_stack[old_stack.len() - 2]@);
                            assert(mid_stack[mid_stack.len() - 1] == old_stack[old_stack.len() - 2]);
                        }
                        let ghost gtop = top;
                        let mut parent = stack.pop().unwrap();
                        parent.sub_elements.push(top);
                        let ghost new_parent = parent;
                        stack.push(parent);
                        proof {
                            lemma_elems_view_push(old_stack[old_stack.len() - 2 as int].sub_elements@, gtop);
                            assert(new_parent@ =~~= elem_with_child(
                                elems_view(old_stack)[old_stack.len() - 2],
                                elems_view(old_stack).last(),
                            ));
                            assert(stack@ =~= mid_stack.drop_last().push(new_parent));
                            lemma_view_update_last(mid_stack, new_parent);
                            assert(elems_view(stack@) =~= elems_view(old_stack).drop_last().update(
                                old_stack.len() - 2,
                                new_parent@,
                            ));
                        }
                    }
                },
                Token::Other => {},
            }
        }
        proof {
            lemma_elems_view(stack@);
            assert(tokens_view(tokens@).skip(tokens@.len() as int) =~= Seq::<TokenModel>::empty());
        }
        if stack.len() > 0 {
            return Err(ParseXmlError { kind: ErrorKind::UnclosedElement });
        }
        Ok(XmlDocument { data: roots })
    }
}

/// One step of the builder: processing the front token first and the
/// rest afterwards.
proof fn lemma_step_front(tokens: Seq<TokenModel>, i: int)
    requires
        0 <= i < tokens.len(),
    ensures
        tokens.skip(i).len() == tokens.len() - i,
        tokens.skip(i)[0] == tokens[i],
        tokens.skip(i).drop_first() =~= tokens.skip(i + 1),
{
}

/// Appending an element appends its model to the view.
proof fn lemma_elems_view_push(s: Seq<XmlData>, x: XmlData)
    ensures
        elems_view(s.push(x)) == elems_view(s).push(x@),
{
    assert(s.push(x).drop_last() =~= s);
    assert(s.push(x).last() == x);
    assert(elems_view(s.push(x)) == elems_view(s.push(x).drop_last()).push(s.push(x).last()@));
}

/// Dropping the last element drops the last model from the view.
proof fn lemma_view_drop_last(s: Seq<XmlData>)
    requires
        s.len() > 0,
    ensures
        elems_view(s.drop_last()) =~= elems_view(s).drop_last(),
        elems_view(s).last() == s.last()@,
{
    lemma_elems_view(s);
    lemma_elems_view(s.drop_last());
    assert(elems_view(s).last() == s[s.len() - 1]@);
    assert forall|i: int| 0 <= i < s.len() - 1 implies elems_view(s.drop_last())[i] == elems_view(
        s,
    ).drop_last()[i] by {
        assert(elems_view(s.drop_last())[i] == s.drop_last()[i]@);
        assert(s.drop_last()[i] == s[i]);
        assert(elems_view(s)[i] == s[i]@);
    }
}

/// Replacing the last element replaces the last model in the view.
proof fn lemma_view_update_last(s: Seq<XmlData>, x: XmlData)
    requires
        s.len() > 0,
    ensures
        elems_view(s.drop_last().push(x)) =~= elems_view(s).update(s.len() - 1, x@),
{
    lemma_elems_view(s);
    lemma_elems_view(s.drop_last());
    lemma_elems_view_push(s.drop_last(), x);
    assert forall|i: int| 0 <= i < s.len() - 1 implies elems_view(s.drop_last()).push(x@)[i]
        == elems_view(s).update(s.len() - 1, x@)[i] by {
        assert(elems_view(s.drop_last()).push(x@)[i] == elems_view(s.drop_last())[i]);
        assert(elems_view(s.drop_last())[i] == s.drop_last()[i]@);
        assert(s.drop_last()[i] == s[i]);
        assert(elems_view(s)[i] == s[i]@);
    }
}

} // verus!

