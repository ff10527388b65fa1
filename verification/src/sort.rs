use vstd::prelude::*;
use crate::workout::Workout;

verus! {

broadcast use vstd::seq_lib::group_to_multiset_ensures;

/// The records stand in ascending order of their parsed dates.
pub open spec fn sorted_by_date(s: Seq<Workout>) -> bool {
    forall|i: int, j: int| 0 <= i <= j < s.len() ==> s[i].spec_ts() <= s[j].spec_ts()
}

/// Inserts `w` into the already sorted `s`, after every element whose date is
/// not later: the insertion step of a stable insertion sort.
pub open spec fn spec_insert(s: Seq<Workout>, w: Workout) -> Seq<Workout>
    decreases s.len(),
{
    if s.len() == 0 {
        seq![w]
    } else if w.spec_ts() < s.last().spec_ts() {
        spec_insert(s.drop_last(), w).push(s.last())
    } else {
        s.push(w)
    }
}

/// Stable insertion sort of the records by parsed date, ascending.
pub open spec fn spec_sort(s: Seq<Workout>) -> Seq<Workout>
    decreases s.len(),
{
    if s.len() == 0 {
        Seq::empty()
    } else {
        spec_insert(spec_sort(s.drop_last()), s.last())
    }
}

/// The subsequence of records whose parsed date is `t`, in their original
/// order; stability of the sort is stated through it.
pub open spec fn date_group(s: Seq<Workout>, t: i64) -> Seq<Workout>
    decreases s.len(),
{
    if s.len() == 0 {
        Seq::empty()
    } else if s.last().spec_ts() == t {
        date_group(s.drop_last(), t).push(s.last())
    } else {
        date_group(s.drop_last(), t)
    }
}

/// Inserting a record adds exactly that record to the collection's contents.
pub proof fn lemma_insert_multiset(s: Seq<Workout>, w: Workout)
    ensures
        spec_insert(s, w).to_multiset() == s.to_multiset().insert(w),
    decreases s.len(),
{
    if s.len() == 0 {
        assert(s =~= Seq::<Workout>::empty());
        assert(spec_insert(s, w) =~= Seq::<Workout>::empty().push(w));
    } else if w.spec_ts() < s.last().spec_ts() {
        lemma_insert_multiset(s.drop_last(), w);
        assert(s =~= s.drop_last().push(s.last()));
        assert(spec_insert(s.drop_last(), w).push(s.last()).to_multiset() =~= s.drop_last()
            .to_multiset().insert(w).insert(s.last()));
        assert(s.drop_last().to_multiset().insert(w).insert(s.last()) =~= s.drop_last()
            .to_multiset().insert(s.last()).insert(w));
    } else {
    }
}

/// Sorting does not add, drop or duplicate records: the sorted sequence holds
/// exactly the records of the input.
pub proof fn lemma_sort_multiset(s: Seq<Workout>)
    ensures
        spec_sort(s).to_multiset() == s.to_multiset(),
    decreases s.len(),
{
    if s.len() > 0 {
        lemma_sort_multiset(s.drop_last());
        lemma_insert_multiset(spec_sort(s.drop_last()), s.last());
        assert(s =~= s.drop_last().push(s.last()));
        assert(s.to_multiset() =~= s.drop_last().to_multiset().insert(s.last()));
    } else {
        assert(s =~= Seq::<Workout>::empty());
        assert(spec_sort(s) =~= s);
    }
}

/// Every record of `s` is a record of `spec_insert(s, w)` or is `w` itself.
proof fn lemma_insert_elems(s: Seq<Workout>, w: Workout, i: int)
    requires
        0 <= i < spec_insert(s, w).len(),
    ensures
        spec_insert(s, w)[i] == w || s.contains(spec_insert(s, w)[i]),
{
    lemma_insert_multiset(s, w);
    let x = spec_insert(s, w)[i];
    assert(spec_insert(s, w).contains(x));
    assert(spec_insert(s, w).to_multiset().count(x) > 0);
    if x != w {
        assert(s.to_multiset().count(x) > 0);
    }
}

/// Inserting into a sorted sequence keeps it sorted.
pub proof fn lemma_insert_sorted(s: Seq<Workout>, w: Workout)
    requires
        sorted_by_date(s),
    ensures
        sorted_by_date(spec_insert(s, w)),
    decreases s.len(),
{
    if s.len() == 0 {
    } else if w.spec_ts() < s.last().spec_ts() {
        let t = spec_insert(s.drop_last(), w);
        lemma_insert_sorted(s.drop_last(), w);
        assert forall|i: int| 0 <= i < t.len() implies t[i].spec_ts()
            <= s.last().spec_ts() by {
            lemma_insert_elems(s.drop_last(), w, i);
            if t[i] != w {
                let j = choose|j: int| 0 <= j < s.drop_last().len() && s.drop_last()[j] == t[i];
                assert(s[j] == t[i]);
            }
        }
        let u = t.push(s.last());
        assert forall|i: int, j: int| 0 <= i <= j < u.len() implies u[i].spec_ts()
            <= u[j].spec_ts() by {
            if j < t.len() {
                assert(u[i] == t[i] && u[j] == t[j]);
            } else {
                assert(u[j] == s.last());
            }
        }
    } else {
        let u = s.push(w);
        assert forall|i: int, j: int| 0 <= i <= j < u.len() implies u[i].spec_ts()
            <= u[j].spec_ts() by {
            if j < s.len() {
                assert(u[i] == s[i] && u[j] == s[j]);
            } else {
                assert(u[j] == w);
                if i < s.len() {
                    assert(s[i].spec_ts() <= s[s.len() - 1].spec_ts());
                }
            }
        }
    }
}

/// The sorted sequence is in ascending date order.
pub proof fn lemma_sort_sorted(s: Seq<Workout>)
    ensures
        sorted_by_date(spec_sort(s)),
    decreases s.len(),
{
    if s.len() > 0 {
        lemma_sort_sorted(s.drop_last());
        lemma_insert_sorted(spec_sort(s.drop_last()), s.last());
    }
}

/// Sorting an already sorted sequence leaves it unchanged.
pub proof fn lemma_sorted_sort_id(s: Seq<Workout>)
    requires
        sorted_by_date(s),
    ensures
        spec_sort(s) == s,
    decreases s.len(),
{
    if s.len() == 0 {
        assert(spec_sort(s) =~= s);
    } else {
        assert(sorted_by_date(s.drop_last()));
        lemma_sorted_sort_id(s.drop_last());
        if s.len() == 1 {
            assert(spec_sort(s) =~= s);
        } else {
            assert(s.drop_last().last().spec_ts() <= s.last().spec_ts());
            assert(spec_insert(s.drop_last(), s.last()) == s.drop_last().push(s.last()));
            assert(s.drop_last().push(s.last()) =~= s);
        }
    }
}

/// Sorting twice is the same as sorting once.
pub proof fn lemma_sort_idempotent(s: Seq<Workout>)
    ensures
        spec_sort(spec_sort(s)) == spec_sort(s),
{
    lemma_sort_sorted(s);
    lemma_sorted_sort_id(spec_sort(s));
}

/// Inserting a record leaves every date group unchanged, except that the
/// record's own group gains it at the end.
proof fn lemma_insert_group(s: Seq<Workout>, w: Workout, t: i64)
    ensures
        date_group(spec_insert(s, w), t) == if w.spec_ts() == t {
            date_group(s, t).push(w)
        } else {
            date_group(s, t)
        },
    decreases s.len(),
{
    if s.len() == 0 {
        let u = spec_insert(s, w);
        assert(u =~= seq![w]);
        assert(u.drop_last() =~= Seq::<Workout>::empty());
        assert(u.last() == w);
        assert(date_group(u.drop_last(), t) =~= Seq::<Workout>::empty());
        assert(date_group(s, t) =~= Seq::<Workout>::empty());
    } else if w.spec_ts() < s.last().spec_ts() {
        lemma_insert_group(s.drop_last(), w, t);
        let u = spec_insert(s.drop_last(), w).push(s.last());
        assert(spec_insert(s, w) == u);
        assert(u.drop_last() =~= spec_insert(s.drop_last(), w));
        assert(u.last() == s.last());
        assert(u.len() > 0);
        if u.last().spec_ts() == t {
            assert(date_group(u, t) == date_group(u.drop_last(), t).push(u.last()));
        } else {
            assert(date_group(u, t) == date_group(u.drop_last(), t));
        }
    } else {
        let u = s.push(w);
        assert(spec_insert(s, w) == u);
        assert(u.drop_last() =~= s);
        assert(u.last() == w);
        assert(u.len() > 0);
        if w.spec_ts() == t {
            assert(date_group(u, t) == date_group(u.drop_last(), t).push(u.last()));
        } else {
            assert(date_group(u, t) == date_group(u.drop_last(), t));
        }
    }
}

/// The sort is stable: within any one date, the records keep their original
/// order.
pub proof fn lemma_sort_stable(s: Seq<Workout>, t: i64)
    ensures
        date_group(spec_sort(s), t) == date_group(s, t),
    decreases s.len(),
{
    if s.len() > 0 {
        lemma_sort_stable(s.drop_last(), t);
        lemma_insert_group(spec_sort(s.drop_last()), s.last(), t);
    }
}

/// Positional insertion at the first index whose record is later than `w`
/// agrees with `spec_insert`.
proof fn lemma_spec_insert_at(s: Seq<Workout>, w: Workout, i: int)
    requires
        0 <= i <= s.len(),
        forall|k: int| i <= k < s.len() ==> s[k].spec_ts() > w.spec_ts(),
        i > 0 ==> s[i - 1].spec_ts() <= w.spec_ts(),
    ensures
        spec_insert(s, w) == s.insert(i, w),
    decreases s.len(),
{
    if i == s.len() {
        if s.len() == 0 {
            assert(spec_insert(s, w) =~= s.insert(i, w));
        } else {
            assert(s[s.len() - 1].spec_ts() <= w.spec_ts());
            assert(spec_insert(s, w) == s.push(w));
            assert(s.push(w) =~= s.insert(i, w));
        }
    } else {
        assert(s[s.len() - 1].spec_ts() > w.spec_ts());
        lemma_spec_insert_at(s.drop_last(), w, i);
        assert(spec_insert(s.drop_last(), w).push(s.last()) =~= s.insert(i, w));
    }
}

/// Inserts `w` into the sorted `out`, after every record whose date is not
/// later than `w`'s.
fn insert_sorted(out: &mut Vec<Workout>, w: Workout)
    ensures
        final(out)@ == spec_insert(old(out)@, w),
{
    let mut i: usize = out.len();
    while i > 0 && !out[i - 1].date_le(&w)
        invariant
            i <= out.len(),
            out@ == old(out)@,
            forall|k: int| i <= k < out@.len() ==> out@[k].spec_ts() > w.spec_ts(),
        decreases i,
    {
        i = i - 1;
    }
    proof {
        lemma_spec_insert_at(out@, w, i as int);
    }
    out.insert(i, w);
}

/// Sorts the records by parsed date, ascending; equal dates keep their
/// original order, so the result is exactly `spec_sort` of the input.
pub fn sort_workouts(ws: &mut Vec<Workout>)
    ensures
        final(ws)@ == spec_sort(old(ws)@),
{
    let ghost orig = ws@;
    let mut out: Vec<Workout> = Vec::new();
    while ws.len() > 0
        invariant
            ws@.len() <= orig.len(),
            ws@ == orig.subrange(orig.len() - ws@.len(), orig.len() as int),
            out@ == spec_sort(orig.subrange(0, orig.len() - ws@.len())),
        decreases ws@.len(),
    {
        let ghost k: int = orig.len() - ws@.len();
        let w = ws.remove(0);
        proof {
            assert(w == orig.subrange(k, orig.len() as int)[0]);
            assert(ws@ =~= orig.subrange(k + 1, orig.len() as int));
        }
        insert_sorted(&mut out, w);
        proof {
            let pre = orig.subrange(0, k + 1);
            assert(pre.drop_last() =~= orig.subrange(0, k));
            assert(pre.last() == orig[k]);
        }
    }
    proof {
        assert(orig.subrange(0, orig.len() as int) =~= orig);
    }
    *ws = out;
}

} // verus!
