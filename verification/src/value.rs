//! The JSON value tree and its mathematical model.

use vstd::prelude::*;

use crate::number::is_number_lit;

verus! {

broadcast use vstd::std_specs::vec::group_vec_axioms;

/// Mathematical model of a JSON value tree.
///
/// Numbers are modelled by the text of their literal, exactly as it stood in
/// the input; object entries are a sequence of key/value pairs whose keys are
/// unique and strictly sorted.
#[verifier::ext_equal]
pub enum JVal {
    Null,
    Bool(bool),
    Num(Seq<char>),
    Str(Seq<char>),
    Arr(Seq<JVal>),
    Obj(Seq<(Seq<char>, JVal)>),
}

/// A parsed JSON value.
///
/// `Number` holds the numeric literal exactly as it was written (already
/// validated against the number grammar); `Object` holds its entries with
/// unique keys in strictly ascending key order, which is what makes printed
/// output deterministic.
#[derive(Debug, PartialEq)]
pub enum Json {
    Null,
    Boolean(bool),
    Number(String),
    String(String),
    Array(Vec<Json>),
    Object(Vec<(String, Json)>),
}

/// Model of an array's elements.
pub open spec fn elems_view(a: Seq<Json>) -> Seq<JVal>
    decreases a,
{
    Seq::new(
        a.len(),
        |i: int|
            if 0 <= i < a.len() {
                a[i]@
            } else {
                JVal::Null
            },
    )
}

/// Model of an object's entries.
pub open spec fn entries_view(o: Seq<(String, Json)>) -> Seq<(Seq<char>, JVal)>
    decreases o,
{
    Seq::new(
        o.len(),
        |i: int|
            if 0 <= i < o.len() {
                (o[i].0@, o[i].1@)
            } else {
                (Seq::empty(), JVal::Null)
            },
    )
}

impl View for Json {
    type V = JVal;

    open spec fn view(&self) -> JVal
        decreases self,
    {
        match self {
            Json::Null => JVal::Null,
            Json::Boolean(b) => JVal::Bool(*b),
            Json::Number(n) => JVal::Num(n@),
            Json::String(s) => JVal::Str(s@),
            Json::Array(a) => JVal::Arr(elems_view(a@)),
            Json::Object(o) => JVal::Obj(entries_view(o@)),
        }
    }
}

/// Strict lexicographic order on texts, by character code.
pub open spec fn text_lt(a: Seq<char>, b: Seq<char>) -> bool
    decreases a.len(),
{
    if b.len() == 0 {
        false
    } else if a.len() == 0 {
        true
    } else if a[0] == b[0] {
        text_lt(a.drop_first(), b.drop_first())
    } else {
        (a[0] as u32) < (b[0] as u32)
    }
}

/// Exactly one of `a < b`, `a == b`, `b < a` holds.
pub proof fn lemma_text_lt_trichotomy(a: Seq<char>, b: Seq<char>)
    ensures
        text_lt(a, b) || a == b || text_lt(b, a),
        text_lt(a, b) ==> a != b && !text_lt(b, a),
        a == b ==> !text_lt(a, b),
    decreases a.len(),
{
    if a.len() == 0 && b.len() == 0 {
        assert(a =~= b);
    } else if a.len() > 0 && b.len() > 0 {
        if a[0] == b[0] {
            lemma_text_lt_trichotomy(a.drop_first(), b.drop_first());
            if a.drop_first() == b.drop_first() {
                assert forall|i: int| 0 <= i < a.len() implies a[i] == b[i] by {
                    if i >= 1 {
                        assert(a[i] == a.drop_first()[i - 1]);
                        assert(b[i] == b.drop_first()[i - 1]);
                    }
                }
                assert(a =~= b);
            }
            if a == b {
                assert(a.drop_first() =~= b.drop_first());
            }
        } else {
            vstd::utf8::char_u32_cast(a[0], a[0] as u32);
            vstd::utf8::char_u32_cast(b[0], b[0] as u32);
            assert(a[0] as u32 != b[0] as u32);
            assert(a != b);
        }
    }
}

/// The order on texts is transitive.
pub proof fn lemma_text_lt_trans(a: Seq<char>, b: Seq<char>, c: Seq<char>)
    requires
        text_lt(a, b),
        text_lt(b, c),
    ensures
        text_lt(a, c),
    decreases a.len(),
{
    if b.len() == 0 {
    } else if a.len() == 0 {
    } else if c.len() == 0 {
    } else {
        if a[0] == b[0] && b[0] == c[0] {
            lemma_text_lt_trans(a.drop_first(), b.drop_first(), c.drop_first());
        }
    }
}

/// The keys of an entry sequence are strictly ascending (hence unique).
pub open spec fn entries_sorted(entries: Seq<(Seq<char>, JVal)>) -> bool {
    forall|i: int, j: int|
        0 <= i < j < entries.len() ==> text_lt(#[trigger] entries[i].0, #[trigger] entries[j].0)
}

/// Every value of an entry sequence is well formed.
pub open spec fn entries_wf(entries: Seq<(Seq<char>, JVal)>) -> bool
    decreases entries,
{
    forall|i: int| 0 <= i < entries.len() ==> wf(#[trigger] entries[i].1)
}

/// Every element of a sequence is well formed.
pub open spec fn elems_wf(elems: Seq<JVal>) -> bool
    decreases elems,
{
    forall|i: int| 0 <= i < elems.len() ==> wf(#[trigger] elems[i])
}

/// `lo` is strictly below every key of the entry sequence.
pub open spec fn keys_above(lo: Seq<char>, entries: Seq<(Seq<char>, JVal)>) -> bool {
    forall|i: int| 0 <= i < entries.len() ==> text_lt(lo, #[trigger] entries[i].0)
}

/// A well-formed tree: every number literal obeys the number grammar and
/// every object's keys are strictly sorted. Parsing only ever builds
/// well-formed trees, and the printer's round-trip laws are stated of them.
pub open spec fn wf(v: JVal) -> bool
    decreases v,
{
    match v {
        JVal::Null => true,
        JVal::Bool(_) => true,
        JVal::Num(t) => is_number_lit(t),
        JVal::Str(_) => true,
        JVal::Arr(elems) => elems_wf(elems),
        JVal::Obj(entries) => entries_sorted(entries) && entries_wf(entries),
    }
}

/// Insertion into a sorted entry sequence: keeps the keys sorted and unique,
/// replacing the value when the key is already present (as an ordered map
/// would).
pub open spec fn obj_insert(
    entries: Seq<(Seq<char>, JVal)>,
    k: Seq<char>,
    v: JVal,
) -> Seq<(Seq<char>, JVal)>
    decreases entries.len(),
{
    if entries.len() == 0 {
        seq![(k, v)]
    } else if text_lt(k, entries[0].0) {
        seq![(k, v)] + entries
    } else if k == entries[0].0 {
        seq![(k, v)] + entries.drop_first()
    } else {
        seq![entries[0]] + obj_insert(entries.drop_first(), k, v)
    }
}

/// Insertion preserves sortedness and well-formedness of the values, and
/// keeps every key above any strict lower bound of the old keys and the new
/// key.
pub proof fn lemma_obj_insert_props(entries: Seq<(Seq<char>, JVal)>, k: Seq<char>, v: JVal)
    requires
        entries_sorted(entries),
        entries_wf(entries),
        wf(v),
    ensures
        entries_sorted(obj_insert(entries, k, v)),
        entries_wf(obj_insert(entries, k, v)),
        forall|lo: Seq<char>|
            text_lt(lo, k) && keys_above(lo, entries) ==> #[trigger] keys_above(
                lo,
                obj_insert(entries, k, v),
            ),
    decreases entries.len(),
{
    let out = obj_insert(entries, k, v);
    if entries.len() == 0 {
    } else if text_lt(k, entries[0].0) {
        assert forall|i: int, j: int| 0 <= i < j < out.len() implies text_lt(
            out[i].0,
            out[j].0,
        ) by {
            if i == 0 && j >= 2 {
                assert(out[j] == entries[j - 1]);
                lemma_text_lt_trans(k, entries[0].0, entries[j - 1].0);
            } else if i >= 1 {
                assert(out[i] == entries[i - 1] && out[j] == entries[j - 1]);
            }
        }
        assert(entries_wf(out)) by {
            assert(forall|i: int| 1 <= i < out.len() ==> out[i] == entries[i - 1]);
        }
    } else if k == entries[0].0 {
        let tail = entries.drop_first();
        assert(forall|i: int| 1 <= i < out.len() ==> out[i] == entries[i]);
        assert(entries_sorted(out)) by {
            assert forall|i: int, j: int| 0 <= i < j < out.len() implies text_lt(
                out[i].0,
                out[j].0,
            ) by {
                if i == 0 {
                    assert(text_lt(entries[0].0, entries[j].0));
                }
            }
        }
    } else {
        lemma_text_lt_trichotomy(k, entries[0].0);
        let e0 = entries[0];
        let tail = entries.drop_first();
        assert(forall|i: int| 0 <= i < tail.len() ==> tail[i] == entries[i + 1]);
        lemma_obj_insert_props(tail, k, v);
        let rec = obj_insert(tail, k, v);
        assert(keys_above(e0.0, tail));
        assert(keys_above(e0.0, rec));
        assert(forall|i: int| 1 <= i < out.len() ==> out[i] == rec[i - 1]);
        assert forall|i: int, j: int| 0 <= i < j < out.len() implies text_lt(
            out[i].0,
            out[j].0,
        ) by {
            if i == 0 {
                assert(text_lt(e0.0, rec[j - 1].0));
            }
        }
        assert forall|lo: Seq<char>|
            text_lt(lo, k) && keys_above(lo, entries) implies #[trigger] keys_above(
            lo,
            out,
        ) by {
            assert(keys_above(lo, tail));
            assert(keys_above(lo, rec));
            assert forall|i: int| 0 <= i < out.len() implies text_lt(lo, out[i].0) by {
                if i == 0 {
                    assert(text_lt(lo, entries[0].0));
                }
            }
        }
    }
}

/// Relates insertion at the first position whose key is not below `k` to
/// [`obj_insert`]: it replaces that entry when the keys are equal, and makes
/// room just before it otherwise.
pub proof fn lemma_obj_insert_at(entries: Seq<(Seq<char>, JVal)>, k: Seq<char>, v: JVal, idx: int)
    requires
        entries_sorted(entries),
        0 <= idx <= entries.len(),
        forall|j: int| 0 <= j < idx ==> text_lt(#[trigger] entries[j].0, k),
        idx < entries.len() ==> !text_lt(entries[idx].0, k),
    ensures
        obj_insert(entries, k, v) == if idx < entries.len() && entries[idx].0 == k {
            entries.update(idx, (k, v))
        } else {
            entries.insert(idx, (k, v))
        },
    decreases entries.len(),
{
    let out = obj_insert(entries, k, v);
    if idx == 0 {
        if entries.len() == 0 {
            assert(out =~= entries.insert(0, (k, v)));
        } else {
            lemma_text_lt_trichotomy(k, entries[0].0);
            if entries[0].0 == k {
                assert(out =~= entries.update(0, (k, v)));
            } else {
                assert(text_lt(k, entries[0].0));
                assert(out =~= entries.insert(0, (k, v)));
            }
        }
    } else {
        lemma_text_lt_trichotomy(k, entries[0].0);
        assert(text_lt(entries[0].0, k));
        let tail = entries.drop_first();
        assert(forall|i: int| 0 <= i < tail.len() ==> tail[i] == entries[i + 1]);
        lemma_obj_insert_at(tail, k, v, idx - 1);
        if idx < entries.len() && entries[idx].0 == k {
            assert(out =~= entries.update(idx, (k, v)));
        } else {
            assert(out =~= entries.insert(idx, (k, v)));
        }
    }
}

/// Compares two texts in the strict lexicographic order by character code.
pub fn text_less(a: &str, b: &str) -> (r: bool)
    ensures
        r == text_lt(a@, b@),
{
    let a_len = a.unicode_len();
    let b_len = b.unicode_len();
    let mut i: usize = 0;
    proof {
        assert(a@.skip(0) =~= a@);
        assert(b@.skip(0) =~= b@);
    }
    loop
        invariant
            i <= a_len,
            i <= b_len,
            a_len == a@.len(),
            b_len == b@.len(),
            text_lt(a@, b@) == text_lt(a@.skip(i as int), b@.skip(i as int)),
        decreases a_len - i,
    {
        proof {
            lemma_text_lt_step(a@, b@, i as int);
        }
        if i == b_len {
            return false;
        }
        if i == a_len {
            return true;
        }
        let ca = a.get_char(i);
        let cb = b.get_char(i);
        if ca != cb {
            return (ca as u32) < (cb as u32);
        }
        i += 1;
    }
}

/// Comparing from position `i` takes one step: when both texts go on with the
/// same character, the comparison is decided by the rest.
proof fn lemma_text_lt_step(a: Seq<char>, b: Seq<char>, i: int)
    requires
        0 <= i <= a.len(),
        0 <= i <= b.len(),
    ensures
        i < b.len() && i >= a.len() ==> text_lt(a.skip(i), b.skip(i)),
        i >= b.len() ==> !text_lt(a.skip(i), b.skip(i)),
        i < a.len() && i < b.len() && a[i] == b[i] ==> text_lt(a.skip(i), b.skip(i)) == text_lt(
            a.skip(i + 1),
            b.skip(i + 1),
        ),
        i < a.len() && i < b.len() && a[i] != b[i] ==> text_lt(a.skip(i), b.skip(i)) == ((a[i]
            as u32) < (b[i] as u32)),
{
    let sa = a.skip(i);
    let sb = b.skip(i);
    if i < a.len() && i < b.len() {
        assert(sa[0] == a[i] && sb[0] == b[i]);
        if a[i] == b[i] {
            assert(sa.drop_first() =~= a.skip(i + 1));
            assert(sb.drop_first() =~= b.skip(i + 1));
        }
    }
}

/// Inserts a key/value pair into a sorted entry list, keeping it sorted and
/// replacing the value if the key is already present.
pub fn insert_entry(entries: &mut Vec<(String, Json)>, k: String, v: Json)
    requires
        entries_sorted(entries_view(old(entries)@)),
    ensures
        entries_view(final(entries)@) == obj_insert(entries_view(old(entries)@), k@, v@),
{
    let ghost model = entries_view(old(entries)@);
    let mut idx: usize = 0;
    loop
        invariant
            idx <= entries.len(),
            entries == old(entries),
            model == entries_view(entries@),
            model.len() == entries.len(),
            forall|j: int| 0 <= j < idx ==> text_lt(#[trigger] model[j].0, k@),
        ensures
            idx <= entries.len(),
            entries == old(entries),
            forall|j: int| 0 <= j < idx ==> text_lt(#[trigger] model[j].0, k@),
            idx < entries.len() ==> !text_lt(model[idx as int].0, k@),
        decreases entries.len() - idx,
    {
        if idx == entries.len() {
            break ;
        }
        let below = text_less(entries[idx].0.as_str(), k.as_str());
        proof {
            assert(model[idx as int].0 == entries@[idx as int].0@);
        }
        if !below {
            break ;
        }
        idx += 1;
    }
    proof {
        lemma_obj_insert_at(model, k@, v@, idx as int);
    }
    if idx < entries.len() && entries[idx].0 == k {
        let ghost pre = entries@;
        entries[idx] = (k, v);
        proof {
            assert(entries_view(entries@) =~= entries_view(pre).update(idx as int, (k@, v@)));
        }
    } else {
        let ghost pre = entries@;
        entries.insert(idx, (k, v));
        proof {
            assert(entries_view(entries@) =~= entries_view(pre).insert(idx as int, (k@, v@)));
        }
    }
}

} // verus!
