use vstd::prelude::*;

use crate::tree::ElemModel;
use crate::tree::XmlData;
use crate::tree::XmlDocument;
use crate::tree::elems_view;

verus! {

/// Mathematical model of a JSON-like value: a string, an array, or an
/// object held as its entries in insertion order.
#[verifier::ext_equal]
pub ghost enum JsonModel {
    Str(Seq<char>),
    Array(Seq<JsonModel>),
    Object(Seq<(Seq<char>, JsonModel)>),
}

/// A JSON-like value as the projector produces it: only strings,
/// arrays and objects occur (never numbers, booleans or null). An
/// object keeps its entries in insertion order; keys stay unique.
#[derive(Debug)]
pub enum JsonValue {
    /// A string scalar.
    Str(String),
    /// An ordered array of values.
    Array(Vec<JsonValue>),
    /// An object: ordered `(key, value)` entries with pairwise distinct keys.
    Object(Vec<(String, JsonValue)>),
}

impl View for JsonValue {
    type V = JsonModel;

    open spec fn view(&self) -> JsonModel
        decreases self,
    {
        match self {
            JsonValue::Str(s) => JsonModel::Str(s@),
            JsonValue::Array(items) => JsonModel::Array(json_seq_view(items@)),
            JsonValue::Object(entries) => JsonModel::Object(json_entries_view(entries@)),
        }
    }
}

/// View of a sequence of JSON values as a sequence of their models.
pub open spec fn json_seq_view(s: Seq<JsonValue>) -> Seq<JsonModel>
    decreases s,
{
    if s.len() == 0 {
        Seq::empty()
    } else {
        json_seq_view(s.drop_last()).push(s.last()@)
    }
}

/// View of object entries as pairs of key sequence and value model.
pub open spec fn json_entries_view(s: Seq<(String, JsonValue)>) -> Seq<(Seq<char>, JsonModel)>
    decreases s,
{
    if s.len() == 0 {
        Seq::empty()
    } else {
        json_entries_view(s.drop_last()).push((s.last().0@, s.last().1@))
    }
}

/// `json_seq_view` maps the sequence elementwise.
pub proof fn lemma_json_seq_view(s: Seq<JsonValue>)
    ensures
        json_seq_view(s).len() == s.len(),
        forall|i: int| 0 <= i < s.len() ==> json_seq_view(s)[i] == #[trigger] s[i]@,
    decreases s,
{
    if s.len() > 0 {
        lemma_json_seq_view(s.drop_last());
        let prev = json_seq_view(s.drop_last());
        assert(json_seq_view(s) == prev.push(s.last()@));
        assert forall|i: int| 0 <= i < s.len() implies json_seq_view(s)[i] == #[trigger] s[i]@ by {
            if i < s.len() - 1 {
                assert(s.drop_last()[i] == s[i]);
                assert(prev.push(s.last()@)[i] == prev[i]);
            } else {
                assert(s[i] == s.last());
            }
        }
    }
}

/// `json_entries_view` maps the entries elementwise.
pub proof fn lemma_json_entries_view(s: Seq<(String, JsonValue)>)
    ensures
        json_entries_view(s).len() == s.len(),
        forall|i: int|
            0 <= i < s.len() ==> json_entries_view(s)[i] == (#[trigger] s[i].0@, s[i].1@),
    decreases s,
{
    if s.len() > 0 {
        lemma_json_entries_view(s.drop_last());
        let prev = json_entries_view(s.drop_last());
        assert(json_entries_view(s) == prev.push((s.last().0@, s.last().1@)));
        assert forall|i: int| 0 <= i < s.len() implies json_entries_view(s)[i] == (
            #[trigger] s[i].0@,
            s[i].1@,
        ) by {
            if i < s.len() - 1 {
                assert(s.drop_last()[i] == s[i]);
                assert(prev.push((s.last().0@, s.last().1@))[i] == prev[i]);
            } else {
                assert(s[i] == s.last());
            }
        }
    }
}

/// Per-key accumulation while an object is being assembled: a key seen
/// once holds its value directly; a repeated key holds every value, in
/// document order.
pub ghost enum MergedModel {
    Single(JsonModel),
    Multiple(Seq<JsonModel>),
}

/// Executable per-key accumulation, flattened only at emission time.
#[derive(Debug)]
pub enum MergedValue {
    /// The key occurred once.
    Single(JsonValue),
    /// The key occurred at least twice; all its values in order.
    Multiple(Vec<JsonValue>),
}

impl View for MergedValue {
    type V = MergedModel;

    open spec fn view(&self) -> MergedModel {
        match self {
            MergedValue::Single(v) => MergedModel::Single(v@),
            MergedValue::Multiple(items) => MergedModel::Multiple(json_seq_view(items@)),
        }
    }
}

/// View of accumulation entries as pairs of key sequence and model.
pub open spec fn merged_entries_view(s: Seq<(String, MergedValue)>) -> Seq<
    (Seq<char>, MergedModel),
>
    decreases s,
{
    if s.len() == 0 {
        Seq::empty()
    } else {
        merged_entries_view(s.drop_last()).push((s.last().0@, s.last().1@))
    }
}

/// `merged_entries_view` maps the entries elementwise.
pub proof fn lemma_merged_entries_view(s: Seq<(String, MergedValue)>)
    ensures
        merged_entries_view(s).len() == s.len(),
        forall|i: int|
            0 <= i < s.len() ==> merged_entries_view(s)[i] == (#[trigger] s[i].0@, s[i].1@),
    decreases s,
{
    if s.len() > 0 {
        lemma_merged_entries_view(s.drop_last());
        let prev = merged_entries_view(s.drop_last());
        assert(merged_entries_view(s) == prev.push((s.last().0@, s.last().1@)));
        assert forall|i: int| 0 <= i < s.len() implies merged_entries_view(s)[i] == (
            #[trigger] s[i].0@,
            s[i].1@,
        ) by {
            if i < s.len() - 1 {
                assert(s.drop_last()[i] == s[i]);
                assert(prev.push((s.last().0@, s.last().1@))[i] == prev[i]);
            } else {
                assert(s[i] == s.last());
            }
        }
    }
}

/// Index of the first entry with key `key`; the length of `entries`
/// when no entry has it.
pub open spec fn key_index<V>(entries: Seq<(Seq<char>, V)>, key: Seq<char>) -> int
    decreases entries.len(),
{
    if entries.len() == 0 {
        0
    } else if entries[0].0 == key {
        0
    } else {
        1 + key_index(entries.drop_first(), key)
    }
}

/// Whether some entry has key `key`.
pub open spec fn has_key<V>(entries: Seq<(Seq<char>, V)>, key: Seq<char>) -> bool {
    key_index(entries, key) < entries.len()
}

/// The value at the first entry with key `key`, if any.
pub open spec fn lookup<V>(entries: Seq<(Seq<char>, V)>, key: Seq<char>) -> Option<V> {
    if has_key(entries, key) {
        Some(entries[key_index(entries, key)].1)
    } else {
        None
    }
}

/// `key_index` points at the first occurrence of the key.
pub proof fn lemma_key_index<V>(entries: Seq<(Seq<char>, V)>, key: Seq<char>)
    ensures
        0 <= key_index(entries, key) <= entries.len(),
        has_key(entries, key) ==> entries[key_index(entries, key)].0 == key,
        forall|j: int| 0 <= j < key_index(entries, key) ==> entries[j].0 != key,
        !has_key(entries, key) ==> key_index(entries, key) == entries.len(),
    decreases entries.len(),
{
    if entries.len() > 0 && entries[0].0 != key {
        lemma_key_index(entries.drop_first(), key);
        assert forall|j: int| 0 <= j < key_index(entries, key) implies entries[j].0 != key by {
            if j > 0 {
                assert(entries.drop_first()[j - 1] == entries[j]);
            }
        }
        if has_key(entries, key) {
            assert(entries.drop_first()[key_index(entries, key) - 1]
                == entries[key_index(entries, key)]);
        }
    }
}

/// A matching entry preceded by no match is the one `key_index` finds.
pub proof fn lemma_key_index_first<V>(entries: Seq<(Seq<char>, V)>, key: Seq<char>, i: int)
    requires
        0 <= i < entries.len(),
        entries[i].0 == key,
        forall|j: int| 0 <= j < i ==> entries[j].0 != key,
    ensures
        key_index(entries, key) == i,
    decreases entries.len(),
{
    if entries[0].0 != key {
        assert forall|j: int| 0 <= j < i - 1 implies entries.drop_first()[j].0 != key by {
            assert(entries.drop_first()[j] == entries[j + 1]);
        }
        assert(entries.drop_first()[i - 1] == entries[i]);
        lemma_key_index_first(entries.drop_first(), key, i - 1);
    }
}

/// When no entry matches, `key_index` is the number of entries.
pub proof fn lemma_key_index_absent<V>(entries: Seq<(Seq<char>, V)>, key: Seq<char>)
    requires
        forall|j: int| 0 <= j < entries.len() ==> entries[j].0 != key,
    ensures
        key_index(entries, key) == entries.len(),
    decreases entries.len(),
{
    if entries.len() > 0 {
        assert forall|j: int| 0 <= j < entries.drop_first().len() implies entries.drop_first()[j].0
            != key by {
            assert(entries.drop_first()[j] == entries[j + 1]);
        }
        lemma_key_index_absent(entries.drop_first(), key);
    }
}

/// Two entry sequences with the same keys in the same places have the
/// same `key_index` for every key.
pub proof fn lemma_key_index_same_keys<U, V>(
    a: Seq<(Seq<char>, U)>,
    b: Seq<(Seq<char>, V)>,
    key: Seq<char>,
)
    requires
        a.len() == b.len(),
        forall|j: int| 0 <= j < a.len() ==> a[j].0 == #[trigger] b[j].0,
    ensures
        key_index(a, key) == key_index(b, key),
    decreases a.len(),
{
    if a.len() > 0 && a[0].0 != key {
        assert forall|j: int| 0 <= j < a.drop_first().len() implies a.drop_first()[j].0
            == #[trigger] b.drop_first()[j].0 by {
            assert(a.drop_first()[j] == a[j + 1]);
            assert(b.drop_first()[j] == b[j + 1]);
        }
        lemma_key_index_same_keys(a.drop_first(), b.drop_first(), key);
    }
}

/// How one more value joins a key's accumulation: a second occurrence
/// makes a pair, later occurrences append.
pub open spec fn merge_step(m: MergedModel, v: JsonModel) -> MergedModel {
    match m {
        MergedModel::Single(x) => MergedModel::Multiple(seq![x, v]),
        MergedModel::Multiple(xs) => MergedModel::Multiple(xs.push(v)),
    }
}

/// The merge rule for one `(key, value)` pair: an absent key is
/// appended; a present key accumulates the new value.
pub open spec fn merge_entry(
    entries: Seq<(Seq<char>, MergedModel)>,
    key: Seq<char>,
    v: JsonModel,
) -> Seq<(Seq<char>, MergedModel)> {
    if has_key(entries, key) {
        let i = key_index(entries, key);
        entries.update(i, (key, merge_step(entries[i].1, v)))
    } else {
        entries.push((key, MergedModel::Single(v)))
    }
}

/// Merges the pairs into the accumulated entries, front to back.
pub open spec fn merge_all(
    entries: Seq<(Seq<char>, MergedModel)>,
    pairs: Seq<(Seq<char>, JsonModel)>,
) -> Seq<(Seq<char>, MergedModel)>
    decreases pairs.len(),
{
    if pairs.len() == 0 {
        entries
    } else {
        merge_all(merge_entry(entries, pairs[0].0, pairs[0].1), pairs.drop_first())
    }
}

/// A key's accumulation flattened to the emitted value: one occurrence
/// stays a scalar or object; repetitions become an array.
pub open spec fn flatten_one(m: MergedModel) -> JsonModel {
    match m {
        MergedModel::Single(v) => v,
        MergedModel::Multiple(xs) => JsonModel::Array(xs),
    }
}

/// All accumulated entries flattened to object entries, in order.
pub open spec fn flatten_entries(entries: Seq<(Seq<char>, MergedModel)>) -> Seq<
    (Seq<char>, JsonModel),
> {
    Seq::new(entries.len(), |i: int| (entries[i].0, flatten_one(entries[i].1)))
}

/// Plain map insertion into object entries: replaces the value of an
/// existing key, else appends.
pub open spec fn insert_entry(
    entries: Seq<(Seq<char>, JsonModel)>,
    key: Seq<char>,
    v: JsonModel,
) -> Seq<(Seq<char>, JsonModel)> {
    if has_key(entries, key) {
        entries.update(key_index(entries, key), (key, v))
    } else {
        entries.push((key, v))
    }
}

/// Merging pairs one at a time, the last pair merges last.
pub proof fn lemma_merge_all_snoc(
    entries: Seq<(Seq<char>, MergedModel)>,
    pairs: Seq<(Seq<char>, JsonModel)>,
    p: (Seq<char>, JsonModel),
)
    ensures
        merge_all(entries, pairs.push(p)) == merge_entry(merge_all(entries, pairs), p.0, p.1),
    decreases pairs.len(),
{
    reveal_with_fuel(merge_all, 3);
    if pairs.len() == 0 {
        assert(pairs.push(p)[0] == p);
        assert(pairs.push(p).drop_first() =~= Seq::<(Seq<char>, JsonModel)>::empty());
    } else {
        assert(pairs.push(p)[0] == pairs[0]);
        assert(pairs.push(p).drop_first() =~= pairs.drop_first().push(p));
        lemma_merge_all_snoc(merge_entry(entries, pairs[0].0, pairs[0].1), pairs.drop_first(), p);
    }
}

/// Finds the first entry whose key is `key`, or the number of entries
/// when no entry has it.
fn position_of_key(entries: &Vec<(String, MergedValue)>, key: &String) -> (i: usize)
    ensures
        i as int == key_index(merged_entries_view(entries@), key@),
{
    proof {
        lemma_merged_entries_view(entries@);
    }
    let ghost m = merged_entries_view(entries@);
    let n = entries.len();
    let mut i: usize = 0;
    while i < n
        invariant
            0 <= i <= n,
            n == entries.len(),
            m == merged_entries_view(entries@),
            m.len() == n,
            forall|j: int| 0 <= j < i ==> m[j].0 != key@,
            forall|j: int| 0 <= j < m.len() ==> m[j].0 == #[trigger] entries@[j].0@,
        decreases n - i,
    {
        if entries[i].0.eq(key) {
            proof {
                assert(m[i as int].0 == key@);
                lemma_key_index_first(m, key@, i as int);
            }
            return i;
        }
        i = i + 1;
    }
    proof {
        lemma_key_index_absent(m, key@);
    }
    n
}

/// Merges one `(key, value)` pair into the accumulated entries under
/// the merge rule: a fresh key is appended holding the value alone; a
/// present key's second value makes a pair, and later values append.
fn merge_into(entries: &mut Vec<(String, MergedValue)>, key: String, v: JsonValue)
    ensures
        merged_entries_view(final(entries)@) == merge_entry(
            merged_entries_view(old(entries)@),
            key@,
            v@,
        ),
{
    let ghost m = merged_entries_view(old(entries)@);
    let i = position_of_key(entries, &key);
    proof {
        lemma_merged_entries_view(entries@);
        lemma_key_index(m, key@);
    }
    if i < entries.len() {
        let ghost old_entries = entries@;
        let (k0, m0) = entries.remove(i);
        let ghost gm0 = m0;
        let merged = match m0 {
            MergedValue::Single(x) => {
                let mut xs: Vec<JsonValue> = Vec::new();
                xs.push(x);
                xs.push(v);
                proof {
                    lemma_json_seq_view(xs@);
                    assert(json_seq_view(xs@) =~= seq![xs@[0]@, xs@[1]@]);
                }
                MergedValue::Multiple(xs)
            },
            MergedValue::Multiple(mut xs) => {
                let ghost old_xs = xs@;
                xs.push(v);
                proof {
                    assert(xs@.drop_last() =~= old_xs);
                    assert(json_seq_view(xs@) == json_seq_view(old_xs).push(v@));
                }
                MergedValue::Multiple(xs)
            },
        };
        let ghost gmerged = merged;
        entries.insert(i, (k0, merged));
        proof {
            assert(entries@ =~= old_entries.update(i as int, (old_entries[i as int].0, gmerged)));
            lemma_view_update(old_entries, i as int, (old_entries[i as int].0, gmerged));
            assert(merged_entries_view(old_entries)[i as int] == (
                old_entries[i as int].0@,
                old_entries[i as int].1@,
            ));
            assert(m[i as int].0 == key@);
            assert(m[i as int].1 == gm0@);
            assert(gmerged@ == merge_step(m[i as int].1, v@));
            assert(merged_entries_view(entries@) =~= merge_entry(m, key@, v@));
        }
    } else {
        let ghost old_entries = entries@;
        entries.push((key, MergedValue::Single(v)));
        proof {
            assert(entries@.drop_last() =~= old_entries);
            assert(merged_entries_view(entries@) == merged_entries_view(old_entries).push(
                (key@, MergedValue::Single(v)@),
            ));
            assert(merged_entries_view(entries@) =~= merge_entry(m, key@, v@));
        }
    }
}

/// Replacing one entry replaces its pair in the view.
proof fn lemma_view_update(s: Seq<(String, MergedValue)>, i: int, x: (String, MergedValue))
    requires
        0 <= i < s.len(),
    ensures
        merged_entries_view(s.update(i, x)) =~= merged_entries_view(s).update(i, (x.0@, x.1@)),
{
    lemma_merged_entries_view(s);
    lemma_merged_entries_view(s.update(i, x));
    assert forall|j: int| 0 <= j < s.len() implies merged_entries_view(s.update(i, x))[j]
        == merged_entries_view(s).update(i, (x.0@, x.1@))[j] by {
        assert(merged_entries_view(s.update(i, x))[j] == (s.update(i, x)[j].0@, s.update(
            i,
            x,
        )[j].1@));
        assert(merged_entries_view(s)[j] == (s[j].0@, s[j].1@));
        if j != i {
            assert(s.update(i, x)[j] == s[j]);
        } else {
            assert(s.update(i, x)[j] == x);
        }
    }
}

/// Flattens the accumulated entries into the final object entries:
/// single occurrences stand as they are, repetitions become arrays.
fn flatten_merged(entries: Vec<(String, MergedValue)>) -> (r: Vec<(String, JsonValue)>)
    ensures
        json_entries_view(r@) == flatten_entries(merged_entries_view(entries@)),
{
    proof {
        lemma_merged_entries_view(entries@);
    }
    let mut out: Vec<(String, JsonValue)> = Vec::new();
    let n = entries.len();
    for e in it: entries.into_iter()
        invariant
            it.seq().len() == n,
            out.len() == it.index(),
            forall|j: int|
                0 <= j < out.len() ==> (#[trigger] out@[j].0@, out@[j].1@) == (
                    it.seq()[j].0@,
                    flatten_one(it.seq()[j].1@),
                ),
    {
        let (k, m) = e;
        match m {
            MergedValue::Single(v) => out.push((k, v)),
            MergedValue::Multiple(xs) => out.push((k, JsonValue::Array(xs))),
        }
    }
    proof {
        lemma_json_entries_view(out@);
        lemma_merged_entries_view(entries@);
        let mv = merged_entries_view(entries@);
        assert forall|j: int| 0 <= j < out@.len() implies json_entries_view(out@)[j]
            == flatten_entries(mv)[j] by {
            assert(json_entries_view(out@)[j] == (out@[j].0@, out@[j].1@));
            assert(mv[j] == (entries@[j].0@, entries@[j].1@));
        }
        assert(json_entries_view(out@) =~= flatten_entries(mv));
    }
    out
}

/// The object key under which an element's text content is stored.
pub open spec fn text_key() -> Seq<char> {
    seq!['_']
}

/// The object key under which an element's attribute object is stored.
pub open spec fn attrs_key() -> Seq<char> {
    seq!['$']
}

/// Attribute pairs as JSON pairs: every attribute value is a string.
pub open spec fn attr_json_pairs(attrs: Seq<(Seq<char>, Seq<char>)>) -> Seq<
    (Seq<char>, JsonModel),
> {
    Seq::new(attrs.len(), |i: int| (attrs[i].0, JsonModel::Str(attrs[i].1)))
}

/// The entries an object assembly starts from: the text content under
/// `"_"`, when present. Children whose name is `"_"` merge with it.
pub open spec fn text_entries(text: Option<Seq<char>>) -> Seq<(Seq<char>, MergedModel)> {
    match text {
        Some(t) => seq![(text_key(), MergedModel::Single(JsonModel::Str(t)))],
        None => Seq::empty(),
    }
}

/// The attribute object: attribute pairs merged under the same rule as
/// children, kept apart from the child entries.
pub open spec fn attr_object(attrs: Seq<(Seq<char>, Seq<char>)>) -> JsonModel {
    JsonModel::Object(flatten_entries(merge_all(Seq::empty(), attr_json_pairs(attrs))))
}

/// Each child element as the `(name, projection)` pair it contributes,
/// in document order.
pub open spec fn child_pairs(cs: Seq<ElemModel>) -> Seq<(Seq<char>, JsonModel)>
    decreases cs, 0int,
{
    if cs.len() == 0 {
        Seq::empty()
    } else {
        child_pairs(cs.drop_last()).push((cs.last().name, project_elem(cs.last())))
    }
}

/// The entries of an element's JSON object: text under `"_"`, children
/// merged in document order, and — when any attribute is present — the
/// attribute object inserted under `"$"`.
pub open spec fn elem_entries(e: ElemModel) -> Seq<(Seq<char>, JsonModel)>
    decreases e, 0int,
{
    let base = flatten_entries(merge_all(text_entries(e.text), child_pairs(e.children)));
    if e.attributes.len() == 0 {
        base
    } else {
        insert_entry(base, attrs_key(), attr_object(e.attributes))
    }
}

/// The JSON projection of one element: always an object, empty when
/// the element has no text, no children and no attributes.
pub open spec fn project_elem(e: ElemModel) -> JsonModel
    decreases e, 1int,
{
    JsonModel::Object(elem_entries(e))
}

/// The JSON projection of a whole document: the root elements'
/// `(name, projection)` pairs merged into one object.
pub open spec fn project_doc(roots: Seq<ElemModel>) -> JsonModel {
    JsonModel::Object(flatten_entries(merge_all(Seq::empty(), child_pairs(roots))))
}

/// Finds the first object entry whose key is `key`, or the number of
/// entries when no entry has it.
fn position_of_json_key(entries: &Vec<(String, JsonValue)>, key: &String) -> (i: usize)
    ensures
        i as int == key_index(json_entries_view(entries@), key@),
{
    proof {
        lemma_json_entries_view(entries@);
    }
    let ghost m = json_entries_view(entries@);
    let n = entries.len();
    let mut i: usize = 0;
    while i < n
        invariant
            0 <= i <= n,
            n == entries.len(),
            m == json_entries_view(entries@),
            m.len() == n,
            forall|j: int| 0 <= j < i ==> m[j].0 != key@,
            forall|j: int| 0 <= j < m.len() ==> m[j].0 == #[trigger] entries@[j].0@,
        decreases n - i,
    {
        if entries[i].0.eq(key) {
            proof {
                assert(m[i as int].0 == key@);
                lemma_key_index_first(m, key@, i as int);
            }
            return i;
        }
        i = i + 1;
    }
    proof {
        lemma_key_index_absent(m, key@);
    }
    n
}

/// Replacing one object entry replaces its pair in the view.
proof fn lemma_json_view_update(s: Seq<(String, JsonValue)>, i: int, x: (String, JsonValue))
    requires
        0 <= i < s.len(),
    ensures
        json_entries_view(s.update(i, x)) =~= json_entries_view(s).update(i, (x.0@, x.1@)),
{
    lemma_json_entries_view(s);
    lemma_json_entries_view(s.update(i, x));
    assert forall|j: int| 0 <= j < s.len() implies json_entries_view(s.update(i, x))[j]
        == json_entries_view(s).update(i, (x.0@, x.1@))[j] by {
        assert(json_entries_view(s.update(i, x))[j] == (s.update(i, x)[j].0@, s.update(
            i,
            x,
        )[j].1@));
        assert(json_entries_view(s)[j] == (s[j].0@, s[j].1@));
        if j != i {
            assert(s.update(i, x)[j] == s[j]);
        } else {
            assert(s.update(i, x)[j] == x);
        }
    }
}

/// Plain map insertion into assembled object entries: replaces the
/// value of an existing key, else appends the pair.
fn insert_json(entries: &mut Vec<(String, JsonValue)>, key: String, v: JsonValue)
    ensures
        json_entries_view(final(entries)@) == insert_entry(
            json_entries_view(old(entries)@),
            key@,
            v@,
        ),
{
    let ghost m = json_entries_view(old(entries)@);
    let i = position_of_json_key(entries, &key);
    proof {
        lemma_json_entries_view(entries@);
        lemma_key_index(m, key@);
    }
    if i < entries.len() {
        let ghost old_entries = entries@;
        let (k0, _) = entries.remove(i);
        let ghost gv = v;
        entries.insert(i, (k0, v));
        proof {
            assert(entries@ =~= old_entries.update(i as int, (old_entries[i as int].0, gv)));
            lemma_json_view_update(old_entries, i as int, (old_entries[i as int].0, gv));
            assert(json_entries_view(old_entries)[i as int] == (
                old_entries[i as int].0@,
                old_entries[i as int].1@,
            ));
            assert(m[i as int].0 == key@);
            assert(json_entries_view(entries@) =~= insert_entry(m, key@, v@));
        }
    } else {
        let ghost old_entries = entries@;
        entries.push((key, v));
        proof {
            assert(entries@.drop_last() =~= old_entries);
            assert(json_entries_view(entries@) == json_entries_view(old_entries).push(
                (key@, v@),
            ));
            assert(json_entries_view(entries@) =~= insert_entry(m, key@, v@));
        }
    }
}

/// Extending the children by one extends their pairs by that child's
/// `(name, projection)` pair.
proof fn lemma_child_pairs_snoc(cs: Seq<ElemModel>, i: int)
    requires
        0 <= i < cs.len(),
    ensures
        child_pairs(cs.take(i + 1)) == child_pairs(cs.take(i)).push(
            (cs[i].name, project_elem(cs[i])),
        ),
{
    assert(cs.take(i + 1).drop_last() =~= cs.take(i));
    assert(cs.take(i + 1).last() == cs[i]);
}

/// Projects one element onto its JSON object: text under `"_"`,
/// children merged in document order under the merge rule, and the
/// attribute object under `"$"` when any attribute is present.
fn project_element(e: &XmlData) -> (r: JsonValue)
    ensures
        r@ == project_elem(e@),
    decreases *e,
{
    let mut entries: Vec<(String, MergedValue)> = Vec::new();
    if let Some(t) = &e.data {
        entries.push(("_".to_owned(), MergedValue::Single(JsonValue::Str(t.clone()))));
        proof {
            reveal_strlit("_");
            assert("_"@ =~= text_key());
            lemma_merged_entries_view(entries@);
            assert(merged_entries_view(entries@) =~= text_entries(e@.text));
        }
    } else {
        proof {
            assert(merged_entries_view(entries@) =~= text_entries(e@.text));
        }
    }
    let ghost cs = e@.children;
    proof {
        crate::tree::lemma_elems_view(e.sub_elements@);
        assert(merged_entries_view(entries@) == merge_all(
            text_entries(e@.text),
            child_pairs(cs.take(0)),
        )) by {
            assert(cs.take(0) =~= Seq::<ElemModel>::empty());
        }
    }
    let n = e.sub_elements.len();
    let mut i: usize = 0;
    while i < n
        invariant
            0 <= i <= n,
            n == e.sub_elements.len(),
            cs == elems_view(e.sub_elements@),
            cs == e@.children,
            cs.len() == n,
            forall|j: int| 0 <= j < n ==> cs[j] == #[trigger] e.sub_elements@[j]@,
            merged_entries_view(entries@) == merge_all(
                text_entries(e@.text),
                child_pairs(cs.take(i as int)),
            ),
        decreases n - i,
    {
        let child = &e.sub_elements[i];
        let v = project_element(child);
        let name = child.name.clone();
        merge_into(&mut entries, name, v);
        proof {
            lemma_child_pairs_snoc(cs, i as int);
            lemma_merge_all_snoc(
                text_entries(e@.text),
                child_pairs(cs.take(i as int)),
                (cs[i as int].name, project_elem(cs[i as int])),
            );
        }
        i = i + 1;
    }
    proof {
        assert(cs.take(n as int) =~= cs);
    }
    let mut obj = flatten_merged(entries);
    let mut attrs: Vec<(String, MergedValue)> = Vec::new();
    let ghost ga = e@.attributes;
    proof {
        assert(merged_entries_view(attrs@) == merge_all(
            Seq::empty(),
            attr_json_pairs(ga).take(0),
        )) by {
            assert(attr_json_pairs(ga).take(0) =~= Seq::<(Seq<char>, JsonModel)>::empty());
        }
    }
    let a_n = e.attributes.len();
    let mut k: usize = 0;
    while k < a_n
        invariant
            0 <= k <= a_n,
            a_n == e.attributes.len(),
            ga == e@.attributes,
            ga == crate::tree::attr_pairs_view(e.attributes@),
            ga.len() == a_n,
            merged_entries_view(attrs@) == merge_all(
                Seq::empty(),
                attr_json_pairs(ga).take(k as int),
            ),
        decreases a_n - k,
    {
        let pair = &e.attributes[k];
        let av = JsonValue::Str(pair.1.clone());
        merge_into(&mut attrs, pair.0.clone(), av);
        proof {
            assert(attr_json_pairs(ga).take(k as int + 1) =~= attr_json_pairs(ga).take(
                k as int,
            ).push((ga[k as int].0, JsonModel::Str(ga[k as int].1))));
            lemma_merge_all_snoc(
                Seq::empty(),
                attr_json_pairs(ga).take(k as int),
                (ga[k as int].0, JsonModel::Str(ga[k as int].1)),
            );
        }
        k = k + 1;
    }
    proof {
        assert(attr_json_pairs(ga).take(a_n as int) =~= attr_json_pairs(ga));
    }
    if a_n > 0 {
        let attr_obj = JsonValue::Object(flatten_merged(attrs));
        insert_json(&mut obj, "$".to_owned(), attr_obj);
        proof {
            reveal_strlit("$");
            assert("$"@ =~= attrs_key());
        }
    }
    JsonValue::Object(obj)
}

/// The key-value pair an element contributes to its owner's object:
/// its qualified name and its JSON projection.
pub fn to_kv(data: &XmlData) -> (r: (String, JsonValue))
    ensures
        r.0@ == data@.name,
        r.1@ == project_elem(data@),
{
    (data.name.clone(), project_element(data))
}

impl XmlDocument {
    /// Projects the whole document onto one JSON object: the root
    /// elements' `(name, projection)` pairs, merged under the same
    /// rule as children, so repeated root names become arrays.
    pub fn to_json(&self) -> (r: JsonValue)
        ensures
            r@ == project_doc(self@),
    {
        let ghost cs = self@;
        proof {
            crate::tree::lemma_elems_view(self.data@);
        }
        let mut entries: Vec<(String, MergedValue)> = Vec::new();
        proof {
            assert(merged_entries_view(entries@) == merge_all(
                Seq::empty(),
                child_pairs(cs.take(0)),
            )) by {
                assert(cs.take(0) =~= Seq::<ElemModel>::empty());
            }
        }
        let n = self.data.len();
        let mut i: usize = 0;
        while i < n
            invariant
                0 <= i <= n,
                n == self.data.len(),
                cs == elems_view(self.data@),
                cs.len() == n,
                forall|j: int| 0 <= j < n ==> cs[j] == #[trigger] self.data@[j]@,
                merged_entries_view(entries@) == merge_all(
                    Seq::empty(),
                    child_pairs(cs.take(i as int)),
                ),
            decreases n - i,
        {
            let (name, v) = to_kv(&self.data[i]);
            merge_into(&mut entries, name, v);
            proof {
                lemma_child_pairs_snoc(cs, i as int);
                lemma_merge_all_snoc(
                    Seq::empty(),
                    child_pairs(cs.take(i as int)),
                    (cs[i as int].name, project_elem(cs[i as int])),
                );
            }
            i = i + 1;
        }
        proof {
            assert(cs.take(n as int) =~= cs);
        }
        JsonValue::Object(flatten_merged(entries))
    }
}

} // verus!
