use vstd::prelude::*;
use vstd::string::StringExecFns;

use crate::tree::ElemModel;
use crate::tree::XmlData;
use crate::tree::XmlDocument;
use crate::tree::attr_pairs_view;
use crate::tree::elems_view;
use crate::tree::lemma_elems_view;

verus! {

/// The indentation for one nesting level: four spaces per level.
pub open spec fn indent_spec(n: nat) -> Seq<char>
    decreases n,
{
    if n == 0 {
        Seq::empty()
    } else {
        indent_spec((n - 1) as nat) + seq![' ', ' ', ' ', ' ']
    }
}

/// The rendering of attributes after a tag name: one leading space,
/// then `name="value"`, for each pair in order.
pub open spec fn attrs_string_spec(attrs: Seq<(Seq<char>, Seq<char>)>) -> Seq<char>
    decreases attrs,
{
    if attrs.len() == 0 {
        Seq::empty()
    } else {
        attrs_string_spec(attrs.drop_last()) + seq![' '] + attrs.last().0 + seq!['=', '"']
            + attrs.last().1 + seq!['"']
    }
}

/// How deep an element's subtree nests.
pub open spec fn elem_height(e: ElemModel) -> nat
    decreases e, 1int,
{
    1 + children_height(e.children)
}

/// How deep the deepest of the elements nests.
pub open spec fn children_height(cs: Seq<ElemModel>) -> nat
    decreases cs, 0int,
{
    if cs.len() == 0 {
        0
    } else if elem_height(cs.last()) >= children_height(cs.drop_last()) {
        elem_height(cs.last())
    } else {
        children_height(cs.drop_last())
    }
}

/// No element nests deeper than their common bound.
proof fn lemma_children_height(cs: Seq<ElemModel>)
    ensures
        forall|i: int| 0 <= i < cs.len() ==> elem_height(#[trigger] cs[i]) <= children_height(cs),
    decreases cs,
{
    if cs.len() > 0 {
        lemma_children_height(cs.drop_last());
        assert forall|i: int| 0 <= i < cs.len() implies elem_height(#[trigger] cs[i])
            <= children_height(cs) by {
            if i < cs.len() - 1 {
                assert(cs.drop_last()[i] == cs[i]);
            } else {
                assert(cs[i] == cs.last());
            }
        }
    }
}

/// The rendering of one element at a nesting depth: the indented
/// opening tag with its attributes, the text on its own deeper line
/// when present, the children one level deeper, and the indented
/// closing tag.
pub open spec fn format_spec(e: ElemModel, depth: nat) -> Seq<char>
    decreases e, 1int,
{
    let sub = if e.children.len() == 0 {
        Seq::<char>::empty()
    } else {
        seq!['\n'] + format_children_spec(e.children, depth + 1)
    };
    let fmt_data = match e.text {
        Some(d) => seq!['\n'] + indent_spec(depth + 1) + d,
        None => Seq::<char>::empty(),
    };
    indent_spec(depth) + seq!['<'] + e.name + attrs_string_spec(e.attributes) + seq!['>'] + fmt_data
        + sub + seq!['\n'] + indent_spec(depth) + seq!['<', '/'] + e.name + seq!['>', '\n']
}

/// The renderings of the elements at one depth, concatenated in order.
pub open spec fn format_children_spec(cs: Seq<ElemModel>, depth: nat) -> Seq<char>
    decreases cs, 0int,
{
    if cs.len() == 0 {
        Seq::empty()
    } else {
        format_children_spec(cs.drop_last(), depth) + format_spec(cs.last(), depth)
    }
}

/// The rendering of a whole document: its root elements at depth zero,
/// concatenated in order.
pub open spec fn doc_string_spec(roots: Seq<ElemModel>) -> Seq<char>
    decreases roots,
{
    if roots.len() == 0 {
        Seq::empty()
    } else {
        doc_string_spec(roots.drop_last()) + format_spec(roots.last(), 0)
    }
}

/// Four spaces of indentation per nesting level.
pub fn indent(size: usize) -> (r: String)
    ensures
        r@ == indent_spec(size as nat),
{
    proof {
        reveal_strlit("    ");
        assert("    "@ =~= seq![' ', ' ', ' ', ' ']);
    }
    let mut s = String::new();
    let mut i: usize = 0;
    while i < size
        invariant
            0 <= i <= size,
            s@ == indent_spec(i as nat),
            "    "@ == seq![' ', ' ', ' ', ' '],
        decreases size - i,
    {
        s.append("    ");
        i = i + 1;
    }
    s
}

/// Renders attribute pairs as ` name="value"`, space-separated, in order.
pub fn attributes_to_string(attributes: &[(String, String)]) -> (r: String)
    ensures
        r@ == attrs_string_spec(attr_pairs_view(attributes@)),
{
    proof {
        reveal_strlit(" ");
        reveal_strlit("=\"");
        reveal_strlit("\"");
        assert(" "@ =~= seq![' ']);
        assert("=\""@ =~= seq!['=', '"']);
        assert("\""@ =~= seq!['"']);
    }
    let ghost ga = attr_pairs_view(attributes@);
    let mut s = String::new();
    let n = attributes.len();
    let mut i: usize = 0;
    while i < n
        invariant
            0 <= i <= n,
            n == attributes@.len(),
            ga == attr_pairs_view(attributes@),
            ga.len() == n,
            s@ == attrs_string_spec(ga.take(i as int)),
            " "@ == seq![' '],
            "=\""@ == seq!['=', '"'],
            "\""@ == seq!['"'],
        decreases n - i,
    {
        let pair = &attributes[i];
        s.append(" ");
        s.append(pair.0.as_str());
        s.append("=\"");
        s.append(pair.1.as_str());
        s.append("\"");
        proof {
            assert(ga.take(i + 1).drop_last() =~= ga.take(i as int));
            assert(ga.take(i + 1).last() == ga[i as int]);
            assert(ga[i as int] == (attributes@[i as int].0@, attributes@[i as int].1@));
        }
        i = i + 1;
    }
    proof {
        assert(ga.take(n as int) =~= ga);
    }
    s
}

/// Renders one element subtree at the given nesting depth.
pub fn format(data: &XmlData, depth: usize) -> (r: String)
    requires
        depth + elem_height(data@) <= usize::MAX,
    ensures
        r@ == format_spec(data@, depth as nat),
    decreases *data,
{
    proof {
        reveal_strlit("\n");
        reveal_strlit("<");
        reveal_strlit(">");
        reveal_strlit("</");
        reveal_strlit(">\n");
        assert("\n"@ =~= seq!['\n']);
        assert("<"@ =~= seq!['<']);
        assert(">"@ =~= seq!['>']);
        assert("</"@ =~= seq!['<', '/']);
        assert(">\n"@ =~= seq!['>', '\n']);
        lemma_elems_view(data.sub_elements@);
        lemma_children_height(data@.children);
    }
    let ghost cs = data@.children;
    let mut sub = String::new();
    if !data.sub_elements.is_empty() {
        sub.append("\n");
        let n = data.sub_elements.len();
        let mut i: usize = 0;
        while i < n
            invariant
                0 <= i <= n,
                n == data.sub_elements.len(),
                cs == elems_view(data.sub_elements@),
                cs == data@.children,
                cs.len() == n,
                n > 0,
                forall|j: int| 0 <= j < n ==> cs[j] == #[trigger] data.sub_elements@[j]@,
                forall|j: int| 0 <= j < n ==> elem_height(#[trigger] cs[j]) <= children_height(cs),
                depth + 1 + children_height(cs) <= usize::MAX,
                sub@ == seq!['\n'] + format_children_spec(cs.take(i as int), (depth + 1) as nat),
            decreases n - i,
        {
            let part = format(&data.sub_elements[i], depth + 1);
            sub.append(part.as_str());
            proof {
                assert(cs.take(i + 1).drop_last() =~= cs.take(i as int));
                assert(cs.take(i + 1).last() == cs[i as int]);
                assert(sub@ =~= seq!['\n'] + format_children_spec(
                    cs.take(i + 1),
                    (depth + 1) as nat,
                ));
            }
            i = i + 1;
        }
        proof {
            assert(cs.take(n as int) =~= cs);
        }
    }
    let indt = indent(depth);
    let mut s = String::new();
    s.append(indt.as_str());
    s.append("<");
    s.append(data.name.as_str());
    let attrs = attributes_to_string(data.attributes.as_slice());
    s.append(attrs.as_str());
    s.append(">");
    if let Some(d) = &data.data {
        s.append("\n");
        let indt2 = indent(depth + 1);
        s.append(indt2.as_str());
        s.append(d.as_str());
    }
    s.append(sub.as_str());
    s.append("\n");
    s.append(indt.as_str());
    s.append("</");
    s.append(data.name.as_str());
    s.append(">\n");
    proof {
        assert(s@ =~= format_spec(data@, depth as nat));
    }
    s
}

impl XmlDocument {
    /// Renders the document as indented XML-like text, each root
    /// element in order.
    pub fn to_xml_string(&self) -> (r: String)
        requires
            forall|i: int|
                0 <= i < self@.len() ==> elem_height(#[trigger] self@[i]) <= usize::MAX,
        ensures
            r@ == doc_string_spec(self@),
    {
        proof {
            lemma_elems_view(self.data@);
        }
        let ghost cs = self@;
        let mut s = String::new();
        let n = self.data.len();
        let mut i: usize = 0;
        while i < n
            invariant
                0 <= i <= n,
                n == self.data.len(),
                cs == elems_view(self.data@),
                cs.len() == n,
                forall|j: int| 0 <= j < n ==> cs[j] == #[trigger] self.data@[j]@,
                forall|j: int| 0 <= j < n ==> elem_height(#[trigger] cs[j]) <= usize::MAX,
                s@ == doc_string_spec(cs.take(i as int)),
            decreases n - i,
        {
            let part = format(&self.data[i], 0);
            s.append(part.as_str());
            proof {
                assert(cs.take(i + 1).drop_last() =~= cs.take(i as int));
                assert(cs.take(i + 1).last() == cs[i as int]);
            }
            i = i + 1;
        }
        proof {
            assert(cs.take(n as int) =~= cs);
        }
        s
    }
}

} // verus!
