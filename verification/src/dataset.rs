//! Server-side sorting of semi-structured record sets by a named field.
//!
//! Comparison policy: text fields compare lexicographically by code point,
//! numeric fields by value, boolean fields with false before true, and any
//! other pairing (missing field, mismatched kinds) compares equal rather
//! than failing. The sort is stable — records comparing equal keep their
//! relative input order — and a descending sort reverses the comparator,
//! never the output, so ties keep input order in both directions.

use vstd::prelude::*;
use vstd::seq_lib::lemma_multiset_commutative;
use crate::text::{
    cmp_chars, lemma_cmp_chars_antisym, lemma_cmp_chars_refl, lemma_cmp_chars_trans, str_cmp,
    str_eq,
};

verus! {

/// One field value of a semi-structured record.
#[derive(Debug, Clone, PartialEq, Eq)]
pub enum FieldValue {
    /// A text value.
    Text(String),
    /// A numeric value.
    Number(i64),
    /// A boolean value.
    Truth(bool),
    /// Anything the comparison policy treats as opaque.
    Other,
}

/// A semi-structured record: named fields in order. A lookup takes the
/// first field with the wanted name.
#[derive(Debug, Clone, PartialEq, Eq)]
pub struct Record {
    pub fields: Vec<(String, FieldValue)>,
}

/// A request to sort records by a field; no direction means ascending.
pub struct SortRequest {
    pub items: Vec<Record>,
    pub sort_by: String,
    pub order: Option<String>,
}

/// The reordered records.
pub struct SortResponse {
    pub sorted: Vec<Record>,
}

/// The first field with the given name, or `Other` when there is none.
pub open spec fn field_in(fields: Seq<(String, FieldValue)>, name: Seq<char>) -> FieldValue
    decreases fields.len(),
{
    if fields.len() == 0 {
        FieldValue::Other
    } else if fields[0].0@ == name {
        fields[0].1
    } else {
        field_in(fields.drop_first(), name)
    }
}

/// The value a record carries under a field name.
pub open spec fn field_of(r: Record, name: Seq<char>) -> FieldValue {
    field_in(r.fields@, name)
}

/// The comparison kind of a value; values of different kinds compare equal.
pub open spec fn kind_of(v: FieldValue) -> int {
    match v {
        FieldValue::Text(_) => 0,
        FieldValue::Number(_) => 1,
        FieldValue::Truth(_) => 2,
        FieldValue::Other => 3,
    }
}

/// Three-way comparison of two field values under the comparison policy.
pub open spec fn cmp_fv(a: FieldValue, b: FieldValue) -> int {
    match (a, b) {
        (FieldValue::Text(s), FieldValue::Text(t)) => cmp_chars(s@, t@),
        (FieldValue::Number(p), FieldValue::Number(q)) => if p < q {
            -1
        } else if p == q {
            0
        } else {
            1
        },
        (FieldValue::Truth(p), FieldValue::Truth(q)) => if p == q {
            0
        } else if !p {
            -1
        } else {
            1
        },
        _ => 0,
    }
}

/// Three-way comparison of two records on a field; `desc` flips the sign.
pub open spec fn rec_cmp(a: Record, b: Record, field: Seq<char>, desc: bool) -> int {
    if desc {
        -cmp_fv(field_of(a, field), field_of(b, field))
    } else {
        cmp_fv(field_of(a, field), field_of(b, field))
    }
}

/// Whether `a` may stand before `b` in the sorted output.
pub open spec fn rec_le(a: Record, b: Record, field: Seq<char>, desc: bool) -> bool {
    rec_cmp(a, b, field, desc) <= 0
}

/// Insert a record into an already sorted sequence: behind every record
/// that may stand before it, so that ties keep input order.
pub open spec fn stable_insert(s: Seq<Record>, x: Record, field: Seq<char>, desc: bool) -> Seq<
    Record,
>
    decreases s.len(),
{
    if s.len() == 0 {
        seq![x]
    } else if rec_le(s[0], x, field, desc) {
        seq![s[0]] + stable_insert(s.drop_first(), x, field, desc)
    } else {
        seq![x] + s
    }
}

/// Stable sorting by repeated insertion, taking the input left to right.
pub open spec fn stable_sort(s: Seq<Record>, field: Seq<char>, desc: bool) -> Seq<Record>
    decreases s.len(),
{
    if s.len() == 0 {
        Seq::empty()
    } else {
        stable_insert(stable_sort(s.drop_last(), field, desc), s.last(), field, desc)
    }
}

/// The requested direction is descending exactly on the text "desc".
pub open spec fn is_desc(order: Seq<char>) -> bool {
    order == "desc"@
}

/// The first field with the given name equals what `field_in` says.
proof fn lemma_field_in_match(fields: Seq<(String, FieldValue)>, name: Seq<char>, i: int)
    requires
        0 <= i < fields.len(),
        fields[i].0@ == name,
        forall|j: int| 0 <= j < i ==> (#[trigger] fields[j]).0@ != name,
    ensures
        field_in(fields, name) == fields[i].1,
    decreases i,
{
    if i > 0 {
        assert(fields[0].0@ != name);
        assert forall|j: int| 0 <= j < i - 1 implies (#[trigger] fields.drop_first()[j]).0@
            != name by {
            assert(fields.drop_first()[j] == fields[j + 1]);
        }
        lemma_field_in_match(fields.drop_first(), name, i - 1);
    }
}

/// Without a matching field, `field_in` yields `Other`.
proof fn lemma_field_in_none(fields: Seq<(String, FieldValue)>, name: Seq<char>)
    requires
        forall|j: int| 0 <= j < fields.len() ==> (#[trigger] fields[j]).0@ != name,
    ensures
        field_in(fields, name) == FieldValue::Other,
    decreases fields.len(),
{
    if fields.len() > 0 {
        assert forall|j: int| 0 <= j < fields.len() - 1 implies (
        #[trigger] fields.drop_first()[j]).0@ != name by {
            assert(fields.drop_first()[j] == fields[j + 1]);
        }
        lemma_field_in_none(fields.drop_first(), name);
    }
}

/// The position of the first field with the given name.
fn field_position(r: &Record, name: &str) -> (p: Option<usize>)
    ensures
        p is Some ==> p.unwrap() < r.fields@.len() && r.fields@[p.unwrap() as int].0@ == name@
            && field_of(*r, name@) == r.fields@[p.unwrap() as int].1,
        p is None ==> field_of(*r, name@) == FieldValue::Other,
{
    let n = r.fields.len();
    let mut idx: usize = 0;
    while idx < n
        invariant
            n == r.fields@.len(),
            idx <= n,
            forall|j: int| 0 <= j < idx ==> (#[trigger] r.fields@[j]).0@ != name@,
        decreases n - idx,
    {
        if str_eq(r.fields[idx].0.as_str(), name) {
            proof {
                lemma_field_in_match(r.fields@, name@, idx as int);
            }
            return Some(idx);
        }
        idx += 1;
    }
    proof {
        lemma_field_in_none(r.fields@, name@);
    }
    None
}

/// Three-way comparison of two field values.
fn cmp_fv_exec(a: &FieldValue, b: &FieldValue) -> (c: i32)
    ensures
        c as int == cmp_fv(*a, *b),
        -1 <= c <= 1,
{
    match (a, b) {
        (FieldValue::Text(s), FieldValue::Text(t)) => str_cmp(s.as_str(), t.as_str()),
        (FieldValue::Number(p), FieldValue::Number(q)) => {
            if p < q {
                -1
            } else if p == q {
                0
            } else {
                1
            }
        },
        (FieldValue::Truth(p), FieldValue::Truth(q)) => {
            if p == q {
                0
            } else if !*p {
                -1
            } else {
                1
            }
        },
        _ => 0,
    }
}

/// Three-way comparison of two records on a field.
fn rec_cmp_exec(a: &Record, b: &Record, name: &str) -> (c: i32)
    ensures
        c as int == cmp_fv(field_of(*a, name@), field_of(*b, name@)),
        -1 <= c <= 1,
{
    let pa = field_position(a, name);
    let pb = field_position(b, name);
    match (pa, pb) {
        (Some(i), Some(j)) => cmp_fv_exec(&a.fields[i].1, &b.fields[j].1),
        _ => 0,
    }
}

/// Whether `a` may stand before `b`.
fn rec_le_exec(a: &Record, b: &Record, name: &str, desc: bool) -> (r: bool)
    ensures
        r == rec_le(*a, *b, name@, desc),
{
    let c = rec_cmp_exec(a, b, name);
    if desc {
        c >= 0
    } else {
        c <= 0
    }
}

/// Inserting at the first position whose record may not stand before `x`
/// is exactly the stable insertion.
proof fn lemma_stable_insert_at(s: Seq<Record>, x: Record, field: Seq<char>, desc: bool, j: int)
    requires
        0 <= j <= s.len(),
        forall|i: int| 0 <= i < j ==> rec_le(#[trigger] s[i], x, field, desc),
        j < s.len() ==> !rec_le(s[j], x, field, desc),
    ensures
        stable_insert(s, x, field, desc) == s.insert(j, x),
    decreases j,
{
    if j == 0 {
        if s.len() == 0 {
            assert(stable_insert(s, x, field, desc) =~= s.insert(0, x));
        } else {
            assert(stable_insert(s, x, field, desc) =~= s.insert(0, x));
        }
    } else {
        assert(rec_le(s[0], x, field, desc));
        assert forall|i: int| 0 <= i < j - 1 implies rec_le(
            #[trigger] s.drop_first()[i],
            x,
            field,
            desc,
        ) by {
            assert(s.drop_first()[i] == s[i + 1]);
        }
        assert(j - 1 < s.drop_first().len() ==> !rec_le(s.drop_first()[j - 1], x, field, desc));
        lemma_stable_insert_at(s.drop_first(), x, field, desc, j - 1);
        assert(stable_insert(s, x, field, desc) =~= s.insert(j, x));
    }
}

/// Sort records in place by a named field. The result is exactly the
/// stable insertion sort of the input under the comparison policy:
/// descending reverses the comparator, not the output.
pub fn sort_items(items: &mut Vec<Record>, sort_by: &str, order: &str)
    ensures
        final(items)@ == stable_sort(old(items)@, sort_by@, is_desc(order@)),
{
    let desc = str_eq(order, "desc");
    let ghost orig = items@;
    let mut out: Vec<Record> = Vec::new();
    while items.len() > 0
        invariant
            items@.len() <= orig.len(),
            items@ == orig.skip(orig.len() - items@.len()),
            out@ == stable_sort(orig.take(orig.len() - items@.len()), sort_by@, desc),
            desc == is_desc(order@),
        decreases items@.len(),
    {
        let ghost k = orig.len() - items@.len();
        let x = items.remove(0);
        proof {
            assert(x == orig[k]);
            assert(items@ =~= orig.skip(k + 1));
        }
        let mut j: usize = 0;
        while j < out.len() && rec_le_exec(&out[j], &x, sort_by, desc)
            invariant
                j <= out@.len(),
                forall|i: int| 0 <= i < j ==> rec_le(#[trigger] out@[i], x, sort_by@, desc),
            decreases out@.len() - j,
        {
            j += 1;
        }
        let ghost out_before = out@;
        out.insert(j, x);
        proof {
            lemma_stable_insert_at(out_before, x, sort_by@, desc, j as int);
            assert(orig.take(k + 1).drop_last() =~= orig.take(k));
            assert(orig.take(k + 1).last() == orig[k]);
            assert(stable_sort(orig.take(k + 1), sort_by@, desc) == stable_insert(
                stable_sort(orig.take(k), sort_by@, desc),
                orig[k],
                sort_by@,
                desc,
            ));
        }
    }
    proof {
        assert(orig.take(orig.len() as int) =~= orig);
    }
    *items = out;
}

/// Every value compares equal to itself.
pub proof fn lemma_cmp_fv_refl(a: FieldValue)
    ensures
        cmp_fv(a, a) == 0,
{
    match a {
        FieldValue::Text(s) => lemma_cmp_chars_refl(s@),
        _ => (),
    }
}

/// Flipping the operands flips the sign.
pub proof fn lemma_cmp_fv_antisym(a: FieldValue, b: FieldValue)
    ensures
        cmp_fv(b, a) == -cmp_fv(a, b),
{
    match (a, b) {
        (FieldValue::Text(s), FieldValue::Text(t)) => lemma_cmp_chars_antisym(s@, t@),
        _ => (),
    }
}

/// Among values of one kind, the comparison is transitive, strictly so as
/// soon as one step is strict.
pub proof fn lemma_cmp_fv_trans(a: FieldValue, b: FieldValue, c: FieldValue)
    requires
        kind_of(a) == kind_of(b),
        kind_of(b) == kind_of(c),
        cmp_fv(a, b) <= 0,
        cmp_fv(b, c) <= 0,
    ensures
        cmp_fv(a, c) <= 0,
        cmp_fv(a, b) < 0 || cmp_fv(b, c) < 0 ==> cmp_fv(a, c) < 0,
{
    match (a, b) {
        (FieldValue::Text(s), FieldValue::Text(t)) => {
            match c {
                FieldValue::Text(u) => lemma_cmp_chars_trans(s@, t@, u@),
                _ => (),
            }
        },
        _ => (),
    }
}

/// Two values tying with a third value of their kind tie with each other.
proof fn lemma_cmp_fv_eq_trans(a: FieldValue, b: FieldValue, v: FieldValue)
    requires
        kind_of(a) == kind_of(v),
        kind_of(b) == kind_of(v),
        cmp_fv(a, v) == 0,
        cmp_fv(b, v) == 0,
    ensures
        cmp_fv(a, b) == 0,
{
    lemma_cmp_fv_antisym(b, v);
    lemma_cmp_fv_antisym(a, v);
    lemma_cmp_fv_trans(a, v, b);
    lemma_cmp_fv_trans(b, v, a);
    lemma_cmp_fv_antisym(a, b);
}

/// One of the two orders always holds.
pub proof fn lemma_rec_le_total(a: Record, b: Record, field: Seq<char>, desc: bool)
    ensures
        rec_le(a, b, field, desc) || rec_le(b, a, field, desc),
{
    lemma_cmp_fv_antisym(field_of(a, field), field_of(b, field));
}

/// The order is transitive among records whose key values share a kind.
pub proof fn lemma_rec_le_trans(a: Record, b: Record, c: Record, field: Seq<char>, desc: bool)
    requires
        kind_of(field_of(a, field)) == kind_of(field_of(b, field)),
        kind_of(field_of(b, field)) == kind_of(field_of(c, field)),
        rec_le(a, b, field, desc),
        rec_le(b, c, field, desc),
    ensures
        rec_le(a, c, field, desc),
{
    let fa = field_of(a, field);
    let fb = field_of(b, field);
    let fc = field_of(c, field);
    if desc {
        lemma_cmp_fv_antisym(fa, fb);
        lemma_cmp_fv_antisym(fb, fc);
        lemma_cmp_fv_trans(fc, fb, fa);
        lemma_cmp_fv_antisym(fc, fa);
    } else {
        lemma_cmp_fv_trans(fa, fb, fc);
    }
}

/// Pairwise sortedness under the record order.
pub open spec fn sorted_recs(s: Seq<Record>, field: Seq<char>, desc: bool) -> bool {
    forall|i: int, j: int|
        0 <= i < j < s.len() ==> rec_le(#[trigger] s[i], #[trigger] s[j], field, desc)
}

/// All records carry a key value of one comparison kind on the field.
pub open spec fn uniform_kind(s: Seq<Record>, field: Seq<char>, k: int) -> bool {
    forall|i: int| 0 <= i < s.len() ==> kind_of(field_of(#[trigger] s[i], field)) == k
}

/// A stable insertion is one record longer, and every record of it is the
/// inserted one or one of the sequence.
proof fn lemma_stable_insert_elements(s: Seq<Record>, x: Record, field: Seq<char>, desc: bool)
    ensures
        stable_insert(s, x, field, desc).len() == s.len() + 1,
        forall|m: int|
            0 <= m < s.len() + 1 ==> #[trigger] stable_insert(s, x, field, desc)[m] == x
                || s.contains(stable_insert(s, x, field, desc)[m]),
    decreases s.len(),
{
    let r = stable_insert(s, x, field, desc);
    if s.len() == 0 {
    } else if rec_le(s[0], x, field, desc) {
        let tail = s.drop_first();
        lemma_stable_insert_elements(tail, x, field, desc);
        let rt = stable_insert(tail, x, field, desc);
        assert forall|m: int| 0 <= m < s.len() + 1 implies #[trigger] r[m] == x || s.contains(
            r[m],
        ) by {
            if m == 0 {
                assert(r[0] == s[0]);
                assert(s.contains(s[0]));
            } else {
                assert(r[m] == rt[m - 1]);
                if rt[m - 1] == x {
                } else {
                    let i = choose|i: int| 0 <= i < tail.len() && tail[i] == rt[m - 1];
                    assert(s[i + 1] == tail[i]);
                    assert(s.contains(s[i + 1]));
                }
            }
        }
    } else {
        assert forall|m: int| 0 <= m < s.len() + 1 implies #[trigger] r[m] == x || s.contains(
            r[m],
        ) by {
            if m > 0 {
                assert(r[m] == s[m - 1]);
                assert(s.contains(s[m - 1]));
            }
        }
    }
}

/// A stable insertion holds exactly the old records plus the new one.
pub proof fn lemma_stable_insert_multiset(s: Seq<Record>, x: Record, field: Seq<char>, desc: bool)
    ensures
        stable_insert(s, x, field, desc).to_multiset() == s.to_multiset().insert(x),
    decreases s.len(),
{
    broadcast use vstd::seq_lib::group_to_multiset_ensures;

    let r = stable_insert(s, x, field, desc);
    if s.len() == 0 {
        assert(r =~= Seq::<Record>::empty().push(x));
        assert(r.to_multiset() =~= s.to_multiset().insert(x));
    } else if rec_le(s[0], x, field, desc) {
        let tail = s.drop_first();
        lemma_stable_insert_multiset(tail, x, field, desc);
        let rt = stable_insert(tail, x, field, desc);
        lemma_multiset_commutative(seq![s[0]], rt);
        assert(seq![s[0]] + tail =~= s);
        lemma_multiset_commutative(seq![s[0]], tail);
        assert(r.to_multiset() =~= s.to_multiset().insert(x));
    } else {
        lemma_multiset_commutative(seq![x], s);
        assert(seq![x] =~= Seq::<Record>::empty().push(x));
        assert(r.to_multiset() =~= s.to_multiset().insert(x));
    }
}

/// Sorting reorders: the output holds exactly the input records.
pub proof fn lemma_stable_sort_multiset(s: Seq<Record>, field: Seq<char>, desc: bool)
    ensures
        stable_sort(s, field, desc).to_multiset() == s.to_multiset(),
    decreases s.len(),
{
    broadcast use vstd::seq_lib::group_to_multiset_ensures;

    if s.len() > 0 {
        lemma_stable_sort_multiset(s.drop_last(), field, desc);
        lemma_stable_insert_multiset(
            stable_sort(s.drop_last(), field, desc),
            s.last(),
            field,
            desc,
        );
        assert(s =~= s.drop_last().push(s.last()));
        assert(s.to_multiset() == s.drop_last().to_multiset().insert(s.last()));
    }
}

/// Inserting a record of the right kind keeps a sorted sequence sorted.
proof fn lemma_stable_insert_sorted(
    s: Seq<Record>,
    x: Record,
    field: Seq<char>,
    desc: bool,
    k: int,
)
    requires
        sorted_recs(s, field, desc),
        uniform_kind(s, field, k),
        kind_of(field_of(x, field)) == k,
    ensures
        sorted_recs(stable_insert(s, x, field, desc), field, desc),
    decreases s.len(),
{
    let r = stable_insert(s, x, field, desc);
    if s.len() == 0 {
    } else if rec_le(s[0], x, field, desc) {
        let tail = s.drop_first();
        assert forall|i: int, j: int| 0 <= i < j < tail.len() implies rec_le(
            #[trigger] tail[i],
            #[trigger] tail[j],
            field,
            desc,
        ) by {
            assert(tail[i] == s[i + 1]);
            assert(tail[j] == s[j + 1]);
        }
        assert forall|i: int| 0 <= i < tail.len() implies kind_of(
            field_of(#[trigger] tail[i], field),
        ) == k by {
            assert(tail[i] == s[i + 1]);
        }
        lemma_stable_insert_sorted(tail, x, field, desc, k);
        lemma_stable_insert_elements(tail, x, field, desc);
        let rt = stable_insert(tail, x, field, desc);
        assert forall|i: int, j: int| 0 <= i < j < r.len() implies rec_le(
            #[trigger] r[i],
            #[trigger] r[j],
            field,
            desc,
        ) by {
            if i == 0 {
                assert(r[j] == rt[j - 1]);
                if rt[j - 1] == x {
                } else {
                    let m = choose|m: int| 0 <= m < tail.len() && tail[m] == rt[j - 1];
                    assert(tail[m] == s[m + 1]);
                    assert(rec_le(s[0], s[m + 1], field, desc));
                }
            } else {
                assert(r[i] == rt[i - 1]);
                assert(r[j] == rt[j - 1]);
            }
        }
    } else {
        lemma_rec_le_total(x, s[0], field, desc);
        assert forall|i: int, j: int| 0 <= i < j < r.len() implies rec_le(
            #[trigger] r[i],
            #[trigger] r[j],
            field,
            desc,
        ) by {
            if i == 0 {
                assert(r[j] == s[j - 1]);
                if j - 1 > 0 {
                    assert(rec_le(s[0], s[j - 1], field, desc));
                    lemma_rec_le_trans(x, s[0], s[j - 1], field, desc);
                }
            } else {
                assert(r[i] == s[i - 1]);
                assert(r[j] == s[j - 1]);
            }
        }
    }
}

/// Sorting sorts: among records whose key values share a kind, the output
/// stands in order, and it keeps the kind.
pub proof fn lemma_stable_sort_sorted(s: Seq<Record>, field: Seq<char>, desc: bool, k: int)
    requires
        uniform_kind(s, field, k),
    ensures
        sorted_recs(stable_sort(s, field, desc), field, desc),
        uniform_kind(stable_sort(s, field, desc), field, k),
    decreases s.len(),
{
    if s.len() > 0 {
        let s0 = s.drop_last();
        assert forall|i: int| 0 <= i < s0.len() implies kind_of(field_of(#[trigger] s0[i], field))
            == k by {
            assert(s0[i] == s[i]);
        }
        lemma_stable_sort_sorted(s0, field, desc, k);
        let a = stable_sort(s0, field, desc);
        lemma_stable_insert_sorted(a, s.last(), field, desc, k);
        lemma_stable_insert_elements(a, s.last(), field, desc);
        let r = stable_sort(s, field, desc);
        assert forall|i: int| 0 <= i < r.len() implies kind_of(field_of(#[trigger] r[i], field))
            == k by {
            if r[i] == s.last() {
            } else {
                let m = choose|m: int| 0 <= m < a.len() && a[m] == r[i];
            }
        }
    }
}

/// The records of a sequence that tie with a key value, in order.
pub open spec fn ties_of(s: Seq<Record>, field: Seq<char>, v: FieldValue) -> Seq<Record>
    decreases s.len(),
{
    if s.len() == 0 {
        Seq::empty()
    } else {
        (if cmp_fv(field_of(s[0], field), v) == 0 {
            seq![s[0]]
        } else {
            Seq::empty()
        }) + ties_of(s.drop_first(), field, v)
    }
}

/// The ties of a sequence split off its last record.
proof fn lemma_ties_of_snoc(s: Seq<Record>, field: Seq<char>, v: FieldValue)
    requires
        s.len() > 0,
    ensures
        ties_of(s, field, v) == ties_of(s.drop_last(), field, v) + (if cmp_fv(
            field_of(s.last(), field),
            v,
        ) == 0 {
            seq![s.last()]
        } else {
            Seq::<Record>::empty()
        }),
    decreases s.len(),
{
    if s.len() == 1 {
        assert(s.drop_last() =~= Seq::<Record>::empty());
        assert(s.drop_first() =~= Seq::<Record>::empty());
        assert(ties_of(s, field, v) =~= ties_of(s.drop_last(), field, v) + (if cmp_fv(
            field_of(s.last(), field),
            v,
        ) == 0 {
            seq![s.last()]
        } else {
            Seq::<Record>::empty()
        }));
    } else {
        let tail = s.drop_first();
        lemma_ties_of_snoc(tail, field, v);
        assert(tail.drop_last() =~= s.drop_last().drop_first());
        assert(tail.last() == s.last());
        assert(s.drop_last()[0] == s[0]);
        assert(s.drop_last().len() > 0);
        assert(ties_of(s, field, v) =~= ties_of(s.drop_last(), field, v) + (if cmp_fv(
            field_of(s.last(), field),
            v,
        ) == 0 {
            seq![s.last()]
        } else {
            Seq::<Record>::empty()
        }));
    }
}

/// Without a tying record there are no ties.
proof fn lemma_ties_of_none(s: Seq<Record>, field: Seq<char>, v: FieldValue)
    requires
        forall|i: int| 0 <= i < s.len() ==> cmp_fv(field_of(#[trigger] s[i], field), v) != 0,
    ensures
        ties_of(s, field, v) == Seq::<Record>::empty(),
    decreases s.len(),
{
    if s.len() > 0 {
        let tail = s.drop_first();
        assert forall|i: int| 0 <= i < tail.len() implies cmp_fv(
            field_of(#[trigger] tail[i], field),
            v,
        ) != 0 by {
            assert(tail[i] == s[i + 1]);
        }
        lemma_ties_of_none(tail, field, v);
        assert(ties_of(s, field, v) =~= Seq::<Record>::empty());
    }
}

/// Stable insertion appends a tying record to the ties and leaves the ties
/// of any other key value alone.
proof fn lemma_ties_insert(
    r: Seq<Record>,
    x: Record,
    field: Seq<char>,
    desc: bool,
    v: FieldValue,
    k: int,
)
    requires
        sorted_recs(r, field, desc),
        uniform_kind(r, field, k),
        kind_of(field_of(x, field)) == k,
        kind_of(v) == k,
    ensures
        cmp_fv(field_of(x, field), v) == 0 ==> ties_of(stable_insert(r, x, field, desc), field, v)
            == ties_of(r, field, v).push(x),
        cmp_fv(field_of(x, field), v) != 0 ==> ties_of(stable_insert(r, x, field, desc), field, v)
            == ties_of(r, field, v),
    decreases r.len(),
{
    let ins = stable_insert(r, x, field, desc);
    if r.len() == 0 {
        assert(ins =~= seq![x]);
        assert(ins[0] == x);
        assert(ins.drop_first() =~= Seq::<Record>::empty());
        assert(ties_of(ins.drop_first(), field, v) == Seq::<Record>::empty());
        assert(ties_of(r, field, v) == Seq::<Record>::empty());
        if cmp_fv(field_of(x, field), v) == 0 {
            assert(ties_of(ins, field, v) =~= ties_of(r, field, v).push(x));
        } else {
            assert(ties_of(ins, field, v) =~= ties_of(r, field, v));
        }
    } else if rec_le(r[0], x, field, desc) {
        let tail = r.drop_first();
        assert forall|i: int, j: int| 0 <= i < j < tail.len() implies rec_le(
            #[trigger] tail[i],
            #[trigger] tail[j],
            field,
            desc,
        ) by {
            assert(tail[i] == r[i + 1]);
            assert(tail[j] == r[j + 1]);
        }
        assert forall|i: int| 0 <= i < tail.len() implies kind_of(
            field_of(#[trigger] tail[i], field),
        ) == k by {
            assert(tail[i] == r[i + 1]);
        }
        lemma_ties_insert(tail, x, field, desc, v, k);
        let rt = stable_insert(tail, x, field, desc);
        assert(ins == seq![r[0]] + rt);
        assert(ins[0] == r[0]);
        assert(ins.drop_first() =~= rt);
        if cmp_fv(field_of(x, field), v) == 0 {
            assert(ties_of(ins, field, v) =~= ties_of(r, field, v).push(x));
        } else {
            assert(ties_of(ins, field, v) =~= ties_of(r, field, v));
        }
    } else {
        assert(ins == seq![x] + r);
        assert(ins[0] == x);
        assert(ins.drop_first() =~= r);
        if cmp_fv(field_of(x, field), v) == 0 {
            assert forall|i: int| 0 <= i < r.len() implies cmp_fv(
                field_of(#[trigger] r[i], field),
                v,
            ) != 0 by {
                if cmp_fv(field_of(r[i], field), v) == 0 {
                    lemma_cmp_fv_eq_trans(field_of(r[i], field), field_of(x, field), v);
                    lemma_cmp_fv_antisym(field_of(r[i], field), field_of(x, field));
                    assert(rec_le(r[i], x, field, desc));
                    if i > 0 {
                        assert(rec_le(r[0], r[i], field, desc));
                        lemma_rec_le_trans(r[0], r[i], x, field, desc);
                    }
                    assert(false);
                }
            }
            lemma_ties_of_none(r, field, v);
            assert(ties_of(ins, field, v) =~= ties_of(r, field, v).push(x));
        } else {
            assert(ties_of(ins, field, v) =~= ties_of(r, field, v));
        }
    }
}

/// No two records of the sequence tie on the field.
pub open spec fn distinct_keys(s: Seq<Record>, field: Seq<char>) -> bool {
    forall|i: int, j: int|
        0 <= i < j < s.len() ==> cmp_fv(
            field_of(#[trigger] s[i], field),
            field_of(#[trigger] s[j], field),
        ) != 0
}

/// A record standing at two positions is counted at least twice.
proof fn lemma_dup_counts_twice(s: Seq<Record>, i: int, j: int)
    requires
        0 <= i < j < s.len(),
        s[i] == s[j],
    ensures
        s.to_multiset().count(s[i]) >= 2,
{
    broadcast use vstd::seq_lib::group_to_multiset_ensures;
    broadcast use vstd::multiset::group_multiset_axioms;

    let s2 = s.remove(i);
    assert(s2[j - 1] == s[j]);
    assert(s2.contains(s[i]));
    assert(s2.to_multiset().count(s[i]) > 0);
    assert(s2.to_multiset() == s.to_multiset().remove(s[i]));
}

/// A record counted at least twice stands at two positions.
proof fn lemma_count_two_positions(s: Seq<Record>, x: Record)
    requires
        s.to_multiset().count(x) >= 2,
    ensures
        exists|i: int, j: int| #![trigger s[i], s[j]] 0 <= i < j < s.len() && s[i] == x && s[j] == x,
    decreases s.len(),
{
    broadcast use vstd::seq_lib::group_to_multiset_ensures;
    broadcast use vstd::multiset::group_multiset_axioms;

    assert(s.contains(x));
    let s0 = s.drop_last();
    assert(s =~= s0.push(s.last()));
    assert(s.to_multiset() == s0.to_multiset().insert(s.last()));
    if s.last() == x {
        assert(s0.to_multiset().count(x) >= 1);
        assert(s0.contains(x));
        let i = choose|i: int| 0 <= i < s0.len() && s0[i] == x;
        assert(s[i] == x);
        assert(s[s.len() - 1] == x);
    } else {
        assert(s0.to_multiset().count(x) >= 2);
        lemma_count_two_positions(s0, x);
        let (i, j) = choose|i: int, j: int|
            #![trigger s0[i], s0[j]]
            0 <= i < j < s0.len() && s0[i] == x && s0[j] == x;
        assert(s[i] == x);
        assert(s[j] == x);
    }
}

/// Sorting keeps keys pairwise distinct.
proof fn lemma_sort_distinct(s: Seq<Record>, field: Seq<char>, desc: bool)
    requires
        distinct_keys(s, field),
    ensures
        distinct_keys(stable_sort(s, field, desc), field),
{
    broadcast use vstd::seq_lib::group_to_multiset_ensures;
    broadcast use vstd::multiset::group_multiset_axioms;

    lemma_stable_sort_multiset(s, field, desc);
    let a = stable_sort(s, field, desc);
    assert forall|i: int, j: int| 0 <= i < j < a.len() implies cmp_fv(
        field_of(#[trigger] a[i], field),
        field_of(#[trigger] a[j], field),
    ) != 0 by {
        if cmp_fv(field_of(a[i], field), field_of(a[j], field)) == 0 {
            if a[i] == a[j] {
                lemma_dup_counts_twice(a, i, j);
                assert(s.to_multiset().count(a[i]) >= 2);
                lemma_count_two_positions(s, a[i]);
                let (p, q) = choose|p: int, q: int|
                    #![trigger s[p], s[q]]
                    0 <= p < q < s.len() && s[p] == a[i] && s[q] == a[i];
                lemma_cmp_fv_refl(field_of(s[p], field));
                assert(false);
            } else {
                assert(a.contains(a[i]));
                assert(a.to_multiset().count(a[i]) > 0);
                assert(s.contains(a[i]));
                assert(a.contains(a[j]));
                assert(a.to_multiset().count(a[j]) > 0);
                assert(s.contains(a[j]));
                let p = choose|p: int| 0 <= p < s.len() && s[p] == a[i];
                let q = choose|q: int| 0 <= q < s.len() && s[q] == a[j];
                assert(p != q);
                if p < q {
                    assert(cmp_fv(field_of(s[p], field), field_of(s[q], field)) != 0);
                } else {
                    assert(cmp_fv(field_of(s[q], field), field_of(s[p], field)) != 0);
                    lemma_cmp_fv_antisym(field_of(s[q], field), field_of(s[p], field));
                }
                assert(false);
            }
        }
    }
}

/// The reverse of an ascending-sorted sequence is descending-sorted.
proof fn lemma_reverse_sorted(a: Seq<Record>, field: Seq<char>)
    requires
        sorted_recs(a, field, false),
    ensures
        sorted_recs(a.reverse(), field, true),
{
    let r = a.reverse();
    let n = a.len();
    assert forall|i: int, j: int| 0 <= i < j < r.len() implies rec_le(
        #[trigger] r[i],
        #[trigger] r[j],
        field,
        true,
    ) by {
        assert(r[i] == a[n - 1 - i]);
        assert(r[j] == a[n - 1 - j]);
        assert(rec_le(a[n - 1 - j], a[n - 1 - i], field, false));
        lemma_cmp_fv_antisym(field_of(a[n - 1 - j], field), field_of(a[n - 1 - i], field));
    }
}

/// The reverse holds the same records.
proof fn lemma_reverse_multiset(s: Seq<Record>)
    ensures
        s.reverse().to_multiset() == s.to_multiset(),
    decreases s.len(),
{
    broadcast use vstd::seq_lib::group_to_multiset_ensures;
    broadcast use vstd::multiset::group_multiset_axioms;

    if s.len() > 0 {
        assert(s.reverse() =~= seq![s.last()] + s.drop_last().reverse());
        lemma_multiset_commutative(seq![s.last()], s.drop_last().reverse());
        lemma_reverse_multiset(s.drop_last());
        assert(s =~= s.drop_last().push(s.last()));
        assert(seq![s.last()] =~= Seq::<Record>::empty().push(s.last()));
        assert(s.reverse().to_multiset() =~= s.to_multiset());
    }
}

/// Sorted sequences of the same records with pairwise-distinct keys are
/// one and the same ordering.
proof fn lemma_sorted_distinct_unique(
    u: Seq<Record>,
    w: Seq<Record>,
    field: Seq<char>,
    desc: bool,
)
    requires
        sorted_recs(u, field, desc),
        sorted_recs(w, field, desc),
        distinct_keys(u, field),
        u.to_multiset() == w.to_multiset(),
    ensures
        u == w,
    decreases u.len(),
{
    broadcast use vstd::seq_lib::group_to_multiset_ensures;
    broadcast use vstd::multiset::group_multiset_axioms;

    assert(u.len() == u.to_multiset().len());
    assert(w.len() == w.to_multiset().len());
    if u.len() == 0 {
        assert(u =~= w);
    } else {
        assert(u.contains(u[0]));
        assert(u.to_multiset().count(u[0]) > 0);
        assert(w.contains(u[0]));
        let kw = choose|k: int| 0 <= k < w.len() && w[k] == u[0];
        assert(w.contains(w[0]));
        assert(w.to_multiset().count(w[0]) > 0);
        assert(u.contains(w[0]));
        let mu = choose|m: int| 0 <= m < u.len() && u[m] == w[0];
        if kw != 0 && mu != 0 {
            assert(rec_le(w[0], w[kw], field, desc));
            assert(rec_le(u[0], u[mu], field, desc));
            lemma_cmp_fv_antisym(field_of(u[0], field), field_of(w[0], field));
            assert(cmp_fv(field_of(u[0], field), field_of(u[mu], field)) == 0);
            assert(false);
        }
        assert(u[0] == w[0]);
        let ut = u.drop_first();
        let wt = w.drop_first();
        assert(ut =~= u.remove(0));
        assert(wt =~= w.remove(0));
        assert(u.remove(0).to_multiset() == u.to_multiset().remove(u[0]));
        assert(w.remove(0).to_multiset() == w.to_multiset().remove(w[0]));
        assert(ut.to_multiset() == wt.to_multiset());
        assert forall|i: int, j: int| 0 <= i < j < ut.len() implies rec_le(
            #[trigger] ut[i],
            #[trigger] ut[j],
            field,
            desc,
        ) by {
            assert(ut[i] == u[i + 1]);
            assert(ut[j] == u[j + 1]);
        }
        assert forall|i: int, j: int| 0 <= i < j < wt.len() implies rec_le(
            #[trigger] wt[i],
            #[trigger] wt[j],
            field,
            desc,
        ) by {
            assert(wt[i] == w[i + 1]);
            assert(wt[j] == w[j + 1]);
        }
        assert forall|i: int, j: int| 0 <= i < j < ut.len() implies cmp_fv(
            field_of(#[trigger] ut[i], field),
            field_of(#[trigger] ut[j], field),
        ) != 0 by {
            assert(ut[i] == u[i + 1]);
            assert(ut[j] == u[j + 1]);
        }
        lemma_sorted_distinct_unique(ut, wt, field, desc);
        assert forall|i: int| 0 <= i < u.len() implies u[i] == w[i] by {
            if i > 0 {
                assert(u[i] == ut[i - 1]);
                assert(w[i] == wt[i - 1]);
            }
        }
        assert(u =~= w);
    }
}

/// Round trip: sorting ascending and then sorting that result descending
/// on the same field yields the exact reverse of the ascending result,
/// provided no two records tie on the field.
pub proof fn lemma_sort_round_trip(s: Seq<Record>, field: Seq<char>, k: int)
    requires
        uniform_kind(s, field, k),
        distinct_keys(s, field),
    ensures
        stable_sort(stable_sort(s, field, false), field, true) == stable_sort(
            s,
            field,
            false,
        ).reverse(),
{
    broadcast use vstd::seq_lib::group_to_multiset_ensures;

    let a = stable_sort(s, field, false);
    lemma_stable_sort_sorted(s, field, false, k);
    lemma_stable_sort_multiset(s, field, false);
    lemma_sort_distinct(s, field, false);
    let b = stable_sort(a, field, true);
    lemma_stable_sort_sorted(a, field, true, k);
    lemma_stable_sort_multiset(a, field, true);
    let r = a.reverse();
    lemma_reverse_sorted(a, field);
    lemma_reverse_multiset(a);
    let n = a.len();
    assert forall|i: int, j: int| 0 <= i < j < r.len() implies cmp_fv(
        field_of(#[trigger] r[i], field),
        field_of(#[trigger] r[j], field),
    ) != 0 by {
        assert(r[i] == a[n - 1 - i]);
        assert(r[j] == a[n - 1 - j]);
        assert(cmp_fv(field_of(a[n - 1 - j], field), field_of(a[n - 1 - i], field)) != 0);
        lemma_cmp_fv_antisym(field_of(a[n - 1 - j], field), field_of(a[n - 1 - i], field));
    }
    lemma_sorted_distinct_unique(r, b, field, true);
}

/// Stability: for any key value of the shared kind, the records tying with
/// it stand in the sorted output exactly in their input order.
pub proof fn lemma_sort_stable(
    s: Seq<Record>,
    field: Seq<char>,
    desc: bool,
    v: FieldValue,
    k: int,
)
    requires
        uniform_kind(s, field, k),
        kind_of(v) == k,
    ensures
        ties_of(stable_sort(s, field, desc), field, v) == ties_of(s, field, v),
    decreases s.len(),
{
    if s.len() > 0 {
        let s0 = s.drop_last();
        assert forall|i: int| 0 <= i < s0.len() implies kind_of(field_of(#[trigger] s0[i], field))
            == k by {
            assert(s0[i] == s[i]);
        }
        lemma_sort_stable(s0, field, desc, v, k);
        lemma_stable_sort_sorted(s0, field, desc, k);
        let a = stable_sort(s0, field, desc);
        lemma_ties_insert(a, s.last(), field, desc, v, k);
        lemma_ties_of_snoc(s, field, v);
        if cmp_fv(field_of(s.last(), field), v) == 0 {
            assert(ties_of(s0, field, v).push(s.last()) =~= ties_of(s0, field, v) + seq![
                s.last()
            ]);
        } else {
            assert(ties_of(s0, field, v) + Seq::<Record>::empty() =~= ties_of(s0, field, v));
        }
    }
}

} // verus!
