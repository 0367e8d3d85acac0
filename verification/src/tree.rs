use vstd::prelude::*;

verus! {

/// Mathematical model of one XML element: qualified name, attribute
/// pairs in source order, optional text content, and children in
/// source order.
#[verifier::ext_equal]
pub ghost struct ElemModel {
    pub name: Seq<char>,
    pub attributes: Seq<(Seq<char>, Seq<char>)>,
    pub text: Option<Seq<char>>,
    pub children: Seq<ElemModel>,
}

/// One XML element tree node: a tag name, its attributes in source order,
/// optional text content, and child elements in source order.
#[derive(Debug)]
pub struct XmlData {
    /// Qualified tag name (`prefix:local` when a prefix is present).
    pub name: String,
    /// Attribute `(name, value)` pairs, in source order; names need not be unique.
    pub attributes: Vec<(String, String)>,
    /// Text content attached directly inside this element, if any.
    pub data: Option<String>,
    /// Child elements, in source order.
    pub sub_elements: Vec<XmlData>,
}

/// A parsed XML document: the ordered sequence of root elements.
#[derive(Debug)]
pub struct XmlDocument {
    /// Root elements of the document, in source order.
    pub data: Vec<XmlData>,
}

/// View of an optional owned string as an optional character sequence.
pub open spec fn opt_str_view(o: Option<String>) -> Option<Seq<char>> {
    match o {
        Some(s) => Some(s@),
        None => None,
    }
}

/// View of attribute pairs as pairs of character sequences.
pub open spec fn attr_pairs_view(attrs: Seq<(String, String)>) -> Seq<(Seq<char>, Seq<char>)> {
    Seq::new(attrs.len(), |i: int| (attrs[i].0@, attrs[i].1@))
}

impl View for XmlData {
    type V = ElemModel;

    open spec fn view(&self) -> ElemModel
        decreases self,
    {
        ElemModel {
            name: self.name@,
            attributes: attr_pairs_view(self.attributes@),
            text: opt_str_view(self.data),
            children: elems_view(self.sub_elements@),
        }
    }
}

/// View of a sequence of element nodes as a sequence of element models.
pub open spec fn elems_view(s: Seq<XmlData>) -> Seq<ElemModel>
    decreases s,
{
    if s.len() == 0 {
        Seq::empty()
    } else {
        elems_view(s.drop_last()).push(s.last()@)
    }
}

impl View for XmlDocument {
    type V = Seq<ElemModel>;

    open spec fn view(&self) -> Seq<ElemModel> {
        elems_view(self.data@)
    }
}

/// `elems_view` maps the sequence elementwise.
pub proof fn lemma_elems_view(s: Seq<XmlData>)
    ensures
        elems_view(s).len() == s.len(),
        forall|i: int| 0 <= i < s.len() ==> elems_view(s)[i] == #[trigger] s[i]@,
    decreases s,
{
    if s.len() > 0 {
        lemma_elems_view(s.drop_last());
        let prev = elems_view(s.drop_last());
        assert(elems_view(s) == prev.push(s.last()@));
        assert(elems_view(s).len() == prev.len() + 1);
        assert forall|i: int| 0 <= i < s.len() implies elems_view(s)[i] == #[trigger] s[i]@ by {
            if i < s.len() - 1 {
                assert(s.drop_last()[i] == s[i]);
                assert(prev.push(s.last()@)[i] == prev[i]);
            } else {
                assert(s[i] == s.last());
            }
        }
    }
}

} // verus!
