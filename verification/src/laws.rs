use vstd::prelude::*;

use crate::json::JsonModel;
use crate::json::MergedModel;
use crate::json::attr_object;
use crate::json::attrs_key;
use crate::json::child_pairs;
use crate::json::elem_entries;
use crate::json::flatten_entries;
use crate::json::flatten_one;
use crate::json::has_key;
use crate::json::insert_entry;
use crate::json::key_index;
use crate::json::lemma_key_index;
use crate::json::lemma_key_index_absent;
use crate::json::lemma_key_index_first;
use crate::json::lemma_key_index_same_keys;
use crate::json::lemma_merge_all_snoc;
use crate::json::lookup;
use crate::json::merge_all;
use crate::json::merge_entry;
use crate::json::merge_step;
use crate::json::project_doc;
use crate::json::project_elem;
use crate::json::text_entries;
use crate::json::text_key;
use crate::tree::ElemModel;

verus! {

/// The projections of the children named `key`, in document order.
pub open spec fn child_occurrences(cs: Seq<ElemModel>, key: Seq<char>) -> Seq<JsonModel>
    decreases cs,
{
    if cs.len() == 0 {
        Seq::empty()
    } else if cs.last().name == key {
        child_occurrences(cs.drop_last(), key).push(project_elem(cs.last()))
    } else {
        child_occurrences(cs.drop_last(), key)
    }
}

/// A key's accumulation after the values in `occ` have merged into it,
/// in order.
pub open spec fn merged_after(m: Option<MergedModel>, occ: Seq<JsonModel>) -> Option<MergedModel>
    decreases occ.len(),
{
    if occ.len() == 0 {
        m
    } else {
        let m2 = match m {
            None => MergedModel::Single(occ[0]),
            Some(x) => merge_step(x, occ[0]),
        };
        merged_after(Some(m2), occ.drop_first())
    }
}

/// Values merging into an accumulated array keep appending in order.
proof fn lemma_merged_after_multiple(xs: Seq<JsonModel>, occ: Seq<JsonModel>)
    ensures
        merged_after(Some(MergedModel::Multiple(xs)), occ) == Some(
            MergedModel::Multiple(xs + occ),
        ),
    decreases occ.len(),
{
    if occ.len() == 0 {
        assert(xs + occ =~= xs);
    } else {
        lemma_merged_after_multiple(xs.push(occ[0]), occ.drop_first());
        assert(xs.push(occ[0]) + occ.drop_first() =~= xs + occ);
    }
}

/// What a key's accumulation ends as: absent without occurrences, the
/// single value after one, the array of all values in order after more.
proof fn lemma_merged_after_none(occ: Seq<JsonModel>)
    ensures
        occ.len() == 0 ==> merged_after(None, occ) == None::<MergedModel>,
        occ.len() == 1 ==> merged_after(None, occ) == Some(MergedModel::Single(occ[0])),
        occ.len() >= 2 ==> merged_after(None, occ) == Some(MergedModel::Multiple(occ)),
{
    if occ.len() == 1 {
        assert(occ.drop_first().len() == 0);
    } else if occ.len() >= 2 {
        assert(merged_after(None, occ) == merged_after(
            Some(MergedModel::Single(occ[0])),
            occ.drop_first(),
        ));
        let rest = occ.drop_first();
        assert(merged_after(Some(MergedModel::Single(occ[0])), rest) == merged_after(
            Some(merge_step(MergedModel::Single(occ[0]), rest[0])),
            rest.drop_first(),
        ));
        lemma_merged_after_multiple(seq![occ[0], rest[0]], rest.drop_first());
        assert(seq![occ[0], rest[0]] + rest.drop_first() =~= occ);
    }
}

/// One more value merges onto the end of an accumulation.
proof fn lemma_merged_after_snoc(m: Option<MergedModel>, occ: Seq<JsonModel>, v: JsonModel)
    ensures
        merged_after(m, occ.push(v)) == Some(
            match merged_after(m, occ) {
                None => MergedModel::Single(v),
                Some(x) => merge_step(x, v),
            },
        ),
    decreases occ.len(),
{
    reveal_with_fuel(merged_after, 3);
    if occ.len() == 0 {
        assert(occ.push(v)[0] == v);
        assert(occ.push(v).drop_first() =~= Seq::<JsonModel>::empty());
    } else {
        assert(occ.push(v)[0] == occ[0]);
        assert(occ.push(v).drop_first() =~= occ.drop_first().push(v));
        let m2 = match m {
            None => MergedModel::Single(occ[0]),
            Some(x) => merge_step(x, occ[0]),
        };
        lemma_merged_after_snoc(Some(m2), occ.drop_first(), v);
    }
}

/// How one merged pair changes what each key looks up to: the merged
/// key accumulates the value, every other key is untouched.
proof fn lemma_merge_entry_lookup(
    entries: Seq<(Seq<char>, MergedModel)>,
    k0: Seq<char>,
    v: JsonModel,
    key: Seq<char>,
)
    ensures
        key == k0 ==> lookup(merge_entry(entries, k0, v), key) == Some(
            match lookup(entries, k0) {
                None => MergedModel::Single(v),
                Some(x) => merge_step(x, v),
            },
        ),
        key != k0 ==> lookup(merge_entry(entries, k0, v), key) == lookup(entries, key),
{
    lemma_key_index(entries, k0);
    lemma_key_index(entries, key);
    let after = merge_entry(entries, k0, v);
    if has_key(entries, k0) {
        let i = key_index(entries, k0);
        assert forall|j: int| 0 <= j < entries.len() implies entries[j].0 == #[trigger] after[j].0 by {
            if j != i {
                assert(after[j] == entries[j]);
            }
        }
        lemma_key_index_same_keys(entries, after, key);
    } else {
        lemma_key_index(after, key);
        if key == k0 {
            assert(after[entries.len() as int].0 == k0);
            assert forall|j: int| 0 <= j < entries.len() implies after[j].0 != k0 by {
                assert(after[j] == entries[j]);
            }
            lemma_key_index_first(after, k0, entries.len() as int);
        } else {
            if has_key(entries, key) {
                let i = key_index(entries, key);
                assert(after[i].0 == key);
                assert forall|j: int| 0 <= j < i implies after[j].0 != key by {
                    assert(after[j] == entries[j]);
                }
                lemma_key_index_first(after, key, i);
                assert(after[i] == entries[i]);
            } else {
                assert forall|j: int| 0 <= j < after.len() implies after[j].0 != key by {
                    if j < entries.len() {
                        assert(after[j] == entries[j]);
                    }
                }
                lemma_key_index_absent(after, key);
            }
        }
    }
}

/// What each key looks up to after all children merge in: its prior
/// accumulation extended by the projections of the children that carry
/// it, in document order.
proof fn lemma_merge_children_lookup(
    entries: Seq<(Seq<char>, MergedModel)>,
    cs: Seq<ElemModel>,
    key: Seq<char>,
)
    ensures
        lookup(merge_all(entries, child_pairs(cs)), key) == merged_after(
            lookup(entries, key),
            child_occurrences(cs, key),
        ),
    decreases cs,
{
    if cs.len() > 0 {
        lemma_merge_children_lookup(entries, cs.drop_last(), key);
        lemma_merge_all_snoc(
            entries,
            child_pairs(cs.drop_last()),
            (cs.last().name, project_elem(cs.last())),
        );
        lemma_merge_entry_lookup(
            merge_all(entries, child_pairs(cs.drop_last())),
            cs.last().name,
            project_elem(cs.last()),
            key,
        );
        if cs.last().name == key {
            lemma_merged_after_snoc(
                lookup(entries, key),
                child_occurrences(cs.drop_last(), key),
                project_elem(cs.last()),
            );
        }
    }
}

/// Flattening changes each key's value by `flatten_one` and nothing else.
proof fn lemma_flatten_lookup(entries: Seq<(Seq<char>, MergedModel)>, key: Seq<char>)
    ensures
        lookup(flatten_entries(entries), key) == match lookup(entries, key) {
            None => None::<JsonModel>,
            Some(m) => Some(flatten_one(m)),
        },
{
    lemma_key_index(entries, key);
    assert forall|j: int| 0 <= j < entries.len() implies entries[j].0 == #[trigger] flatten_entries(
        entries,
    )[j].0 by {}
    lemma_key_index_same_keys(entries, flatten_entries(entries), key);
}

/// How a plain insertion changes what each key looks up to: the
/// inserted key holds exactly the new value, every other key is
/// untouched.
proof fn lemma_insert_entry_lookup(
    entries: Seq<(Seq<char>, JsonModel)>,
    k0: Seq<char>,
    v: JsonModel,
    key: Seq<char>,
)
    ensures
        key == k0 ==> lookup(insert_entry(entries, k0, v), key) == Some(v),
        key != k0 ==> lookup(insert_entry(entries, k0, v), key) == lookup(entries, key),
{
    lemma_key_index(entries, k0);
    lemma_key_index(entries, key);
    let after = insert_entry(entries, k0, v);
    if has_key(entries, k0) {
        let i = key_index(entries, k0);
        assert forall|j: int| 0 <= j < entries.len() implies entries[j].0 == #[trigger] after[j].0 by {
            if j != i {
                assert(after[j] == entries[j]);
            }
        }
        lemma_key_index_same_keys(entries, after, key);
    } else {
        lemma_key_index(after, key);
        if key == k0 {
            assert(after[entries.len() as int].0 == k0);
            assert forall|j: int| 0 <= j < entries.len() implies after[j].0 != k0 by {
                assert(after[j] == entries[j]);
            }
            lemma_key_index_first(after, k0, entries.len() as int);
        } else {
            if has_key(entries, key) {
                let i = key_index(entries, key);
                assert(after[i].0 == key);
                assert forall|j: int| 0 <= j < i implies after[j].0 != key by {
                    assert(after[j] == entries[j]);
                }
                lemma_key_index_first(after, key, i);
                assert(after[i] == entries[i]);
            } else {
                assert forall|j: int| 0 <= j < after.len() implies after[j].0 != key by {
                    if j < entries.len() {
                        assert(after[j] == entries[j]);
                    }
                }
                lemma_key_index_absent(after, key);
            }
        }
    }
}

/// What the text entries look up to: the text as a string under `"_"`
/// when present, nothing otherwise.
proof fn lemma_text_lookup(text: Option<Seq<char>>, key: Seq<char>)
    ensures
        lookup(text_entries(text), key) == match text {
            Some(t) => if key == text_key() {
                Some(MergedModel::Single(JsonModel::Str(t)))
            } else {
                None::<MergedModel>
            },
            None => None::<MergedModel>,
        },
{
    reveal_with_fuel(key_index, 3);
}

/// What each key of an element's object looks up to, for every key but
/// the attribute key: the text entry and the matching children, merged
/// in order and flattened.
proof fn lemma_elem_lookup(e: ElemModel, key: Seq<char>)
    requires
        e.attributes.len() > 0 ==> key != attrs_key(),
    ensures
        lookup(elem_entries(e), key) == match merged_after(
            lookup(text_entries(e.text), key),
            child_occurrences(e.children, key),
        ) {
            None => None::<JsonModel>,
            Some(m) => Some(flatten_one(m)),
        },
{
    let merged = merge_all(text_entries(e.text), child_pairs(e.children));
    lemma_merge_children_lookup(text_entries(e.text), e.children, key);
    lemma_flatten_lookup(merged, key);
    if e.attributes.len() > 0 {
        lemma_insert_entry_lookup(
            flatten_entries(merged),
            attrs_key(),
            attr_object(e.attributes),
            key,
        );
    }
}

/// Children none of which carry the key contribute no occurrence.
proof fn lemma_child_occurrences_none(cs: Seq<ElemModel>, key: Seq<char>)
    requires
        forall|j: int| 0 <= j < cs.len() ==> (#[trigger] cs[j].name) != key,
    ensures
        child_occurrences(cs, key) == Seq::<JsonModel>::empty(),
    decreases cs,
{
    if cs.len() > 0 {
        assert forall|j: int| 0 <= j < cs.drop_last().len() implies (#[trigger] cs.drop_last()[j].name)
            != key by {
            assert(cs.drop_last()[j] == cs[j]);
        }
        lemma_child_occurrences_none(cs.drop_last(), key);
    }
}

/// A key carried by exactly one child occurs exactly once: as that
/// child's projection.
proof fn lemma_child_occurrences_single(cs: Seq<ElemModel>, key: Seq<char>, i: int)
    requires
        0 <= i < cs.len(),
        cs[i].name == key,
        forall|j: int| 0 <= j < cs.len() && j != i ==> (#[trigger] cs[j].name) != key,
    ensures
        child_occurrences(cs, key) == seq![project_elem(cs[i])],
    decreases cs,
{
    if i == cs.len() - 1 {
        assert forall|j: int| 0 <= j < cs.drop_last().len() implies (#[trigger] cs.drop_last()[j].name)
            != key by {
            assert(cs.drop_last()[j] == cs[j]);
        }
        lemma_child_occurrences_none(cs.drop_last(), key);
        assert(child_occurrences(cs, key) =~= seq![project_elem(cs[i])]);
    } else {
        assert forall|j: int|
            0 <= j < cs.drop_last().len() && j != i implies (#[trigger] cs.drop_last()[j].name)
            != key by {
            assert(cs.drop_last()[j] == cs[j]);
        }
        assert(cs.drop_last()[i] == cs[i]);
        lemma_child_occurrences_single(cs.drop_last(), key, i);
        assert(cs.last().name != key);
    }
}

/// An element with exactly one child named `x` projects `x` to that
/// child's own projection directly, never wrapped in a one-element
/// array. (When the element has text, `x` must not be the text key,
/// and when it has attributes, not the attribute key: those keys are
/// taken.)
pub proof fn lemma_project_single_occurrence(e: ElemModel, x: Seq<char>, i: int)
    requires
        0 <= i < e.children.len(),
        e.children[i].name == x,
        forall|j: int| 0 <= j < e.children.len() && j != i ==> (#[trigger] e.children[j].name) != x,
        e.text is Some ==> x != text_key(),
        e.attributes.len() > 0 ==> x != attrs_key(),
    ensures
        lookup(elem_entries(e), x) == Some(project_elem(e.children[i])),
{
    lemma_elem_lookup(e, x);
    lemma_text_lookup(e.text, x);
    lemma_child_occurrences_single(e.children, x, i);
    lemma_merged_after_none(seq![project_elem(e.children[i])]);
}

/// A name carried by two or more children projects to the array of
/// exactly those children's projections, in document order. (When the
/// element has text, `x` must not be the text key, and when it has
/// attributes, not the attribute key: those keys are taken.)
pub proof fn lemma_project_repeated_occurrences(e: ElemModel, x: Seq<char>)
    requires
        child_occurrences(e.children, x).len() >= 2,
        e.text is Some ==> x != text_key(),
        e.attributes.len() > 0 ==> x != attrs_key(),
    ensures
        lookup(elem_entries(e), x) == Some(JsonModel::Array(child_occurrences(e.children, x))),
{
    lemma_elem_lookup(e, x);
    lemma_text_lookup(e.text, x);
    lemma_merged_after_none(child_occurrences(e.children, x));
}

/// A key carried by exactly two children occurs exactly twice: as
/// their projections, in document order.
proof fn lemma_child_occurrences_pair(cs: Seq<ElemModel>, key: Seq<char>, i1: int, i2: int)
    requires
        0 <= i1 < i2 < cs.len(),
        cs[i1].name == key,
        cs[i2].name == key,
        forall|j: int|
            0 <= j < cs.len() && j != i1 && j != i2 ==> (#[trigger] cs[j].name) != key,
    ensures
        child_occurrences(cs, key) == seq![project_elem(cs[i1]), project_elem(cs[i2])],
    decreases cs,
{
    if i2 == cs.len() - 1 {
        assert forall|j: int|
            0 <= j < cs.drop_last().len() && j != i1 implies (#[trigger] cs.drop_last()[j].name)
            != key by {
            assert(cs.drop_last()[j] == cs[j]);
        }
        assert(cs.drop_last()[i1] == cs[i1]);
        lemma_child_occurrences_single(cs.drop_last(), key, i1);
        assert(child_occurrences(cs, key) =~= seq![project_elem(cs[i1]), project_elem(cs[i2])]);
    } else {
        assert forall|j: int|
            0 <= j < cs.drop_last().len() && j != i1 && j != i2 implies (
        #[trigger] cs.drop_last()[j].name) != key by {
            assert(cs.drop_last()[j] == cs[j]);
        }
        assert(cs.drop_last()[i1] == cs[i1]);
        assert(cs.drop_last()[i2] == cs[i2]);
        lemma_child_occurrences_pair(cs.drop_last(), key, i1, i2);
        assert(cs.last().name != key);
    }
}

/// A key carried by exactly three children occurs exactly three
/// times: as their projections, in document order.
proof fn lemma_child_occurrences_triple(
    cs: Seq<ElemModel>,
    key: Seq<char>,
    i1: int,
    i2: int,
    i3: int,
)
    requires
        0 <= i1 < i2 < i3 < cs.len(),
        cs[i1].name == key,
        cs[i2].name == key,
        cs[i3].name == key,
        forall|j: int|
            0 <= j < cs.len() && j != i1 && j != i2 && j != i3 ==> (#[trigger] cs[j].name) != key,
    ensures
        child_occurrences(cs, key) == seq![
            project_elem(cs[i1]),
            project_elem(cs[i2]),
            project_elem(cs[i3]),
        ],
    decreases cs,
{
    if i3 == cs.len() - 1 {
        assert forall|j: int|
            0 <= j < cs.drop_last().len() && j != i1 && j != i2 implies (
        #[trigger] cs.drop_last()[j].name) != key by {
            assert(cs.drop_last()[j] == cs[j]);
        }
        assert(cs.drop_last()[i1] == cs[i1]);
        assert(cs.drop_last()[i2] == cs[i2]);
        lemma_child_occurrences_pair(cs.drop_last(), key, i1, i2);
        assert(child_occurrences(cs, key) =~= seq![
            project_elem(cs[i1]),
            project_elem(cs[i2]),
            project_elem(cs[i3]),
        ]);
    } else {
        assert forall|j: int|
            0 <= j < cs.drop_last().len() && j != i1 && j != i2 && j != i3 implies (
        #[trigger] cs.drop_last()[j].name) != key by {
            assert(cs.drop_last()[j] == cs[j]);
        }
        assert(cs.drop_last()[i1] == cs[i1]);
        assert(cs.drop_last()[i2] == cs[i2]);
        assert(cs.drop_last()[i3] == cs[i3]);
        lemma_child_occurrences_triple(cs.drop_last(), key, i1, i2, i3);
        assert(cs.last().name != key);
    }
}

/// Exactly three children named `x`, in document order, project `x`
/// to the array of exactly their three projections, in that order.
/// (When the element has text, `x` must not be the text key, and when
/// it has attributes, not the attribute key: those keys are taken.)
pub proof fn lemma_project_three_repeats(e: ElemModel, x: Seq<char>, i1: int, i2: int, i3: int)
    requires
        0 <= i1 < i2 < i3 < e.children.len(),
        e.children[i1].name == x,
        e.children[i2].name == x,
        e.children[i3].name == x,
        forall|j: int|
            0 <= j < e.children.len() && j != i1 && j != i2 && j != i3 ==> (
            #[trigger] e.children[j].name) != x,
        e.text is Some ==> x != text_key(),
        e.attributes.len() > 0 ==> x != attrs_key(),
    ensures
        lookup(elem_entries(e), x) == Some(
            JsonModel::Array(
                seq![
                    project_elem(e.children[i1]),
                    project_elem(e.children[i2]),
                    project_elem(e.children[i3]),
                ],
            ),
        ),
{
    lemma_child_occurrences_triple(e.children, x, i1, i2, i3);
    lemma_project_repeated_occurrences(e, x);
}

/// An attribute and a child of the same name never merge with each
/// other. Every key but the attribute key looks up the same value as
/// if the element had no attributes at all, and the attributes appear
/// only inside the attribute object under the attribute key.
pub proof fn lemma_attributes_stay_separate(e: ElemModel, x: Seq<char>)
    requires
        x != attrs_key(),
    ensures
        lookup(elem_entries(e), x) == lookup(
            elem_entries(ElemModel { attributes: Seq::empty(), ..e }),
            x,
        ),
        e.attributes.len() > 0 ==> lookup(elem_entries(e), attrs_key()) == Some(
            attr_object(e.attributes),
        ),
{
    let e0 = ElemModel { attributes: Seq::empty(), ..e };
    lemma_elem_lookup(e, x);
    lemma_elem_lookup(e0, x);
    if e.attributes.len() > 0 {
        lemma_insert_entry_lookup(
            flatten_entries(merge_all(text_entries(e.text), child_pairs(e.children))),
            attrs_key(),
            attr_object(e.attributes),
            attrs_key(),
        );
    }
}

/// Each child's accumulated entry when no names repeat: the child's
/// projection, alone.
pub open spec fn single_child_entries(cs: Seq<ElemModel>) -> Seq<(Seq<char>, MergedModel)> {
    Seq::new(cs.len(), |i: int| (cs[i].name, MergedModel::Single(project_elem(cs[i]))))
}

/// Merging children with pairwise distinct names, none already
/// present, appends one entry per child, in order.
proof fn lemma_merge_all_distinct(entries: Seq<(Seq<char>, MergedModel)>, cs: Seq<ElemModel>)
    requires
        forall|i: int, j: int|
            0 <= i < j < cs.len() ==> (#[trigger] cs[i].name) != (#[trigger] cs[j].name),
        forall|i: int| 0 <= i < cs.len() ==> !has_key(entries, #[trigger] cs[i].name),
    ensures
        merge_all(entries, child_pairs(cs)) == entries + single_child_entries(cs),
    decreases cs,
{
    if cs.len() == 0 {
        assert(entries + single_child_entries(cs) =~= entries);
    } else {
        assert forall|i: int, j: int|
            0 <= i < j < cs.drop_last().len() implies (#[trigger] cs.drop_last()[i].name) != (
        #[trigger] cs.drop_last()[j].name) by {
            assert(cs.drop_last()[i] == cs[i]);
            assert(cs.drop_last()[j] == cs[j]);
        }
        assert forall|i: int| 0 <= i < cs.drop_last().len() implies !has_key(
            entries,
            #[trigger] cs.drop_last()[i].name,
        ) by {
            assert(cs.drop_last()[i] == cs[i]);
        }
        lemma_merge_all_distinct(entries, cs.drop_last());
        lemma_merge_all_snoc(
            entries,
            child_pairs(cs.drop_last()),
            (cs.last().name, project_elem(cs.last())),
        );
        let acc = entries + single_child_entries(cs.drop_last());
        let last_name = cs.last().name;
        lemma_key_index(entries, last_name);
        assert forall|j: int| 0 <= j < acc.len() implies acc[j].0 != last_name by {
            if j < entries.len() {
                assert(acc[j] == entries[j]);
                assert(!has_key(entries, cs[cs.len() - 1].name));
            } else {
                assert(acc[j] == single_child_entries(cs.drop_last())[j - entries.len()]);
                assert(cs.drop_last()[j - entries.len()] == cs[j - entries.len()]);
                assert(cs[j - entries.len()].name != cs[cs.len() - 1].name);
            }
        }
        lemma_key_index_absent(acc, last_name);
        assert(merge_entry(acc, last_name, project_elem(cs.last())) == acc.push(
            (last_name, MergedModel::Single(project_elem(cs.last()))),
        ));
        assert(entries + single_child_entries(cs) =~= acc.push(
            (last_name, MergedModel::Single(project_elem(cs.last()))),
        ));
    }
}

/// When no two children share a name (and no child usurps the text or
/// attribute key), the element's object reads straight back: the text
/// under the text key first, then one entry per child — its name and
/// its own projection, in document order — and last, when attributes
/// are present, the attribute object under the attribute key.
pub proof fn lemma_project_distinct_names(e: ElemModel)
    requires
        forall|i: int, j: int|
            0 <= i < j < e.children.len() ==> (#[trigger] e.children[i].name) != (
            #[trigger] e.children[j].name),
        e.text is Some ==> forall|i: int|
            0 <= i < e.children.len() ==> (#[trigger] e.children[i].name) != text_key(),
        e.attributes.len() > 0 ==> forall|i: int|
            0 <= i < e.children.len() ==> (#[trigger] e.children[i].name) != attrs_key(),
    ensures
        ({
            let entries = elem_entries(e);
            let off: int = if e.text is Some {
                1int
            } else {
                0int
            };
            let extra: int = if e.attributes.len() > 0 {
                1int
            } else {
                0int
            };
            &&& entries.len() == off + e.children.len() + extra
            &&& (e.text matches Some(t) ==> entries[0] == (text_key(), JsonModel::Str(t)))
            &&& forall|i: int|
                0 <= i < e.children.len() ==> entries[off + i] == (
                    #[trigger] e.children[i].name,
                    project_elem(e.children[i]),
                )
            &&& e.attributes.len() > 0 ==> entries[entries.len() - 1] == (
                attrs_key(),
                attr_object(e.attributes),
            )
        }),
{
    let text = text_entries(e.text);
    assert forall|i: int| 0 <= i < e.children.len() implies !has_key(
        text,
        #[trigger] e.children[i].name,
    ) by {
        assert forall|j: int| 0 <= j < text.len() implies text[j].0 != e.children[i].name by {}
        lemma_key_index_absent(text, e.children[i].name);
    }
    lemma_merge_all_distinct(text, e.children);
    let merged = text + single_child_entries(e.children);
    let base = flatten_entries(merged);
    assert(text_key()[0] == '_') by {}
    assert(attrs_key()[0] == '$') by {}
    assert(text_key() != attrs_key());
    if e.attributes.len() > 0 {
        assert forall|j: int| 0 <= j < base.len() implies base[j].0 != attrs_key() by {
            assert(base[j].0 == merged[j].0);
            if j < text.len() {
            } else {
                assert(merged[j] == single_child_entries(e.children)[j - text.len()]);
            }
        }
        lemma_key_index_absent(base, attrs_key());
        assert(elem_entries(e) == base.push((attrs_key(), attr_object(e.attributes))));
    }
}

/// The same reading at the document level: when no two roots share a
/// name, the document's object is exactly one entry per root — its
/// name and its projection, in document order.
pub proof fn lemma_project_distinct_roots(roots: Seq<ElemModel>)
    requires
        forall|i: int, j: int|
            0 <= i < j < roots.len() ==> (#[trigger] roots[i].name) != (#[trigger] roots[j].name),
    ensures
        project_doc(roots) == JsonModel::Object(
            Seq::new(roots.len(), |i: int| (roots[i].name, project_elem(roots[i]))),
        ),
{
    assert forall|i: int| 0 <= i < roots.len() implies !has_key(
        Seq::<(Seq<char>, MergedModel)>::empty(),
        #[trigger] roots[i].name,
    ) by {}
    lemma_merge_all_distinct(Seq::empty(), roots);
    let merged = Seq::<(Seq<char>, MergedModel)>::empty() + single_child_entries(roots);
    assert(merged =~= single_child_entries(roots));
    assert(flatten_entries(single_child_entries(roots)) =~= Seq::new(
        roots.len(),
        |i: int| (roots[i].name, project_elem(roots[i])),
    ));
}

} // verus!
