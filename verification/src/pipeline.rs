//! Aggregation and policy pipeline: stable sort, optional reversal,
//! retention filtering against a duration threshold, and rendering of one
//! output line per surviving record.

use vstd::prelude::*;
use vstd::seq_lib::*;
use vstd::string::StringSliceAdditionalSpecFns;
use crate::bytes::{lex_le, lemma_lex_le_total, lemma_lex_le_trans, extend_bytes};
use crate::record::{AgeRecord, SortBy, ModFilter, MAX_ELAPSED, valid_elapsed};

verus! {

broadcast use vstd::seq_lib::group_seq_properties;

// --- sort order ------------------------------------------------------------------

/// The order a sort key induces on records.
pub open spec fn key_le(a: AgeRecord, b: AgeRecord, sb: SortBy) -> bool {
    match sb {
        SortBy::Name => lex_le(a.path@, b.path@),
        SortBy::LastModified => a.elapsed <= b.elapsed,
    }
}

pub proof fn lemma_key_le_total(a: AgeRecord, b: AgeRecord, sb: SortBy)
    ensures
        key_le(a, b, sb) || key_le(b, a, sb),
{
    if sb is Name {
        lemma_lex_le_total(a.path@, b.path@);
    }
}

pub proof fn lemma_key_le_trans(a: AgeRecord, b: AgeRecord, c: AgeRecord, sb: SortBy)
    requires
        key_le(a, b, sb),
        key_le(b, c, sb),
    ensures
        key_le(a, c, sb),
{
    if sb is Name {
        lemma_lex_le_trans(a.path@, b.path@, c.path@);
    }
}

fn key_le_exec(a: &AgeRecord, b: &AgeRecord, sb: SortBy) -> (r: bool)
    ensures
        r == key_le(*a, *b, sb),
{
    match sb {
        SortBy::Name => crate::bytes::lex_le_bytes(&a.path, &b.path),
        SortBy::LastModified => a.elapsed <= b.elapsed,
    }
}

/// Non-decreasing under `key_le`.
pub open spec fn sorted_by_key(s: Seq<AgeRecord>, sb: SortBy) -> bool {
    forall|i: int, j: int| 0 <= i < j < s.len() ==> key_le(s[i], s[j], sb)
}

// --- the stable sort, as a specification ----------------------------------------

/// Inserts `x` after every element it does not strictly precede, which is
/// what keeps the sort stable.
pub open spec fn insert_sorted(x: AgeRecord, s: Seq<AgeRecord>, sb: SortBy) -> Seq<AgeRecord>
    decreases s.len(),
{
    if s.len() == 0 {
        seq![x]
    } else if key_le(s.last(), x, sb) {
        s.push(x)
    } else {
        insert_sorted(x, s.drop_last(), sb).push(s.last())
    }
}

/// Insertion sort: the unique stable ordering of `s` under the key.
/// Ties keep their original discovery order.
pub open spec fn stable_sort(s: Seq<AgeRecord>, sb: SortBy) -> Seq<AgeRecord>
    decreases s.len(),
{
    if s.len() == 0 {
        Seq::empty()
    } else {
        insert_sorted(s.last(), stable_sort(s.drop_last(), sb), sb)
    }
}

proof fn lemma_insert_sorted_multiset(x: AgeRecord, s: Seq<AgeRecord>, sb: SortBy)
    ensures
        insert_sorted(x, s, sb).to_multiset() =~= s.to_multiset().insert(x),
    decreases s.len(),
{
    broadcast use vstd::seq_lib::group_to_multiset_ensures;
    broadcast use vstd::multiset::group_multiset_axioms;

    if s.len() == 0 {
        assert(seq![x] =~= Seq::<AgeRecord>::empty().push(x));
    } else if key_le(s.last(), x, sb) {
    } else {
        lemma_insert_sorted_multiset(x, s.drop_last(), sb);
        assert(s =~= s.drop_last().push(s.last()));
    }
}

/// Sorting permutes the records and changes nothing else.
pub proof fn lemma_stable_sort_multiset(s: Seq<AgeRecord>, sb: SortBy)
    ensures
        stable_sort(s, sb).to_multiset() =~= s.to_multiset(),
    decreases s.len(),
{
    broadcast use vstd::seq_lib::group_to_multiset_ensures;
    broadcast use vstd::multiset::group_multiset_axioms;

    if s.len() > 0 {
        lemma_stable_sort_multiset(s.drop_last(), sb);
        lemma_insert_sorted_multiset(s.last(), stable_sort(s.drop_last(), sb), sb);
        assert(s =~= s.drop_last().push(s.last()));
    }
}

proof fn lemma_insert_sorted_elems(x: AgeRecord, s: Seq<AgeRecord>, sb: SortBy)
    ensures
        forall|k: int|
            0 <= k < insert_sorted(x, s, sb).len() ==> insert_sorted(x, s, sb)[k] == x
                || s.contains(#[trigger] insert_sorted(x, s, sb)[k]),
    decreases s.len(),
{
    if s.len() == 0 {
    } else if key_le(s.last(), x, sb) {
    } else {
        lemma_insert_sorted_elems(x, s.drop_last(), sb);
        assert forall|k: int|
            0 <= k < insert_sorted(x, s, sb).len() implies insert_sorted(x, s, sb)[k] == x
            || s.contains(insert_sorted(x, s, sb)[k]) by {
            let t = insert_sorted(x, s.drop_last(), sb);
            if k < t.len() {
                assert(insert_sorted(x, s, sb)[k] == t[k]);
                if t[k] != x {
                    let j = choose|j: int| 0 <= j < s.drop_last().len() && s.drop_last()[j] == t[k];
                    assert(s[j] == t[k]);
                }
            } else {
                assert(insert_sorted(x, s, sb)[k] == s.last());
                assert(s[s.len() - 1] == s.last());
            }
        }
    }
}

proof fn lemma_insert_sorted_sorted(x: AgeRecord, s: Seq<AgeRecord>, sb: SortBy)
    requires
        sorted_by_key(s, sb),
    ensures
        sorted_by_key(insert_sorted(x, s, sb), sb),
    decreases s.len(),
{
    if s.len() == 0 {
    } else if key_le(s.last(), x, sb) {
        let t = s.push(x);
        assert forall|i: int, j: int| 0 <= i < j < t.len() implies key_le(t[i], t[j], sb) by {
            if j == t.len() - 1 {
                if i < s.len() - 1 {
                    lemma_key_le_trans(s[i], s.last(), x, sb);
                }
            }
        }
    } else {
        assert(sorted_by_key(s.drop_last(), sb)) by {
            assert(forall|i: int, j: int|
                0 <= i < j < s.drop_last().len() ==> key_le(
                    #[trigger] s.drop_last()[i],
                    #[trigger] s.drop_last()[j],
                    sb,
                ));
        }
        lemma_insert_sorted_sorted(x, s.drop_last(), sb);
        lemma_insert_sorted_elems(x, s.drop_last(), sb);
        let t0 = insert_sorted(x, s.drop_last(), sb);
        let t = t0.push(s.last());
        assert forall|i: int, j: int| 0 <= i < j < t.len() implies key_le(t[i], t[j], sb) by {
            if j == t.len() - 1 {
                assert(t[j] == s.last());
                assert(t[i] == t0[i]);
                if t0[i] == x {
                    lemma_key_le_total(s.last(), x, sb);
                } else {
                    let m = choose|m: int|
                        0 <= m < s.drop_last().len() && s.drop_last()[m] == t0[i];
                    assert(s[m] == t0[i]);
                    assert(key_le(s[m], s[s.len() - 1], sb));
                }
            }
        }
    }
}

/// Sorting orders the records by the chosen key.
pub proof fn lemma_stable_sort_sorted(s: Seq<AgeRecord>, sb: SortBy)
    ensures
        sorted_by_key(stable_sort(s, sb), sb),
    decreases s.len(),
{
    if s.len() > 0 {
        lemma_stable_sort_sorted(s.drop_last(), sb);
        lemma_insert_sorted_sorted(s.last(), stable_sort(s.drop_last(), sb), sb);
    }
}

/// Every record of the sorted sequence is a record of the input.
pub proof fn lemma_stable_sort_contains(s: Seq<AgeRecord>, sb: SortBy)
    ensures
        forall|k: int|
            0 <= k < stable_sort(s, sb).len() ==> s.contains(#[trigger] stable_sort(s, sb)[k]),
        stable_sort(s, sb).len() == s.len(),
{
    broadcast use vstd::seq_lib::group_to_multiset_ensures;

    lemma_stable_sort_multiset(s, sb);
    assert forall|k: int|
        0 <= k < stable_sort(s, sb).len() implies s.contains(#[trigger] stable_sort(s, sb)[k]) by {
        let t = stable_sort(s, sb);
        assert(t.contains(t[k]));
        assert(t.to_multiset().count(t[k]) > 0);
        assert(s.to_multiset().count(t[k]) > 0);
    }
    assert(stable_sort(s, sb).to_multiset().len() == s.to_multiset().len());
}

proof fn lemma_insert_sorted_at(x: AgeRecord, s: Seq<AgeRecord>, p: int, sb: SortBy)
    requires
        0 <= p <= s.len(),
        forall|j: int| p <= j < s.len() ==> !key_le(#[trigger] s[j], x, sb),
        p > 0 ==> key_le(s[p - 1], x, sb),
    ensures
        insert_sorted(x, s, sb) == s.insert(p, x),
    decreases s.len(),
{
    if p == s.len() {
        if s.len() == 0 {
            assert(insert_sorted(x, s, sb) =~= s.insert(p, x));
        } else {
            assert(key_le(s.last(), x, sb));
            assert(s.push(x) =~= s.insert(p, x));
        }
    } else {
        assert(!key_le(s.last(), x, sb));
        lemma_insert_sorted_at(x, s.drop_last(), p, sb);
        assert(s.drop_last().insert(p, x).push(s.last()) =~= s.insert(p, x));
    }
}

// --- the stable sort, executable --------------------------------------------------

/// Sorts the records by the chosen key; ties keep their original order
/// ([`stable_sort`] pins the result exactly).
pub fn sort_records(v: &mut Vec<AgeRecord>, sb: SortBy)
    ensures
        final(v)@ == stable_sort(old(v)@, sb),
{
    let ghost orig = v@;
    let mut i: usize = 1;
    proof {
        if orig.len() > 0 {
            let t1 = orig.take(1);
            assert(t1.len() == 1);
            assert(t1.drop_last() =~= Seq::<AgeRecord>::empty());
            assert(stable_sort(t1.drop_last(), sb) == Seq::<AgeRecord>::empty());
            assert(stable_sort(t1, sb) == insert_sorted(t1.last(), Seq::<AgeRecord>::empty(), sb));
            assert(insert_sorted(t1.last(), Seq::<AgeRecord>::empty(), sb) =~= seq![t1.last()]);
            assert(t1 =~= seq![t1.last()]);
            assert(stable_sort(t1, sb) == t1);
            assert(orig.take(1) + orig.skip(1) =~= orig);
        }
        assert(orig.take(orig.len() as int) =~= orig);
    }
    if v.len() <= 1 {
        proof {
            if orig.len() == 0 {
                assert(stable_sort(orig, sb) =~= orig);
            } else {
                assert(stable_sort(orig, sb) =~= insert_sorted(
                    orig.last(),
                    stable_sort(orig.drop_last(), sb),
                    sb,
                ));
                assert(orig.drop_last() =~= Seq::<AgeRecord>::empty());
                assert(stable_sort(orig, sb) =~= orig);
            }
        }
        return ;
    }
    while i < v.len()
        invariant
            1 <= i <= orig.len(),
            v@.len() == orig.len(),
            v@ == stable_sort(orig.take(i as int), sb) + orig.skip(i as int),
        decreases orig.len() - i,
    {
        let ghost pre = stable_sort(orig.take(i as int), sb);
        let x = v.remove(i);
        proof {
            assert(x == orig[i as int]) by {
                assert(orig.skip(i as int)[0] == orig[i as int]);
            }
            assert(v@ =~= pre + orig.skip(i + 1)) by {
                assert(orig.skip(i as int).skip(1) =~= orig.skip(i + 1));
            }
        }
        let mut p: usize = i;
        loop
            invariant
                0 <= p <= i,
                i < orig.len(),
                v@ == pre + orig.skip(i + 1),
                pre.len() == i,
                v@.len() == orig.len() - 1,
                forall|j: int| p <= j < i ==> !key_le(#[trigger] pre[j], x, sb),
            ensures
                0 <= p <= i,
                forall|j: int| p <= j < i ==> !key_le(#[trigger] pre[j], x, sb),
                p > 0 ==> key_le(pre[p - 1], x, sb),
            decreases p,
        {
            if p == 0 {
                break ;
            }
            proof {
                assert(v@[p - 1] == pre[p - 1]);
            }
            if key_le_exec(&v[p - 1], &x, sb) {
                break ;
            }
            p = p - 1;
        }
        v.insert(p, x);
        proof {
            lemma_insert_sorted_at(x, pre, p as int, sb);
            assert((pre + orig.skip(i + 1)).insert(p as int, x) =~= pre.insert(p as int, x)
                + orig.skip(i + 1));
            assert(orig.take(i + 1).drop_last() =~= orig.take(i as int));
            assert(orig.take(i + 1).last() == orig[i as int]);
            assert(stable_sort(orig.take(i + 1), sb) == insert_sorted(x, pre, sb));
        }
        i = i + 1;
    }
    proof {
        assert(orig.take(orig.len() as int) =~= orig);
        assert(orig.skip(orig.len() as int) =~= Seq::<AgeRecord>::empty());
        assert(v@ =~= stable_sort(orig, sb));
    }
}

// --- reversal ----------------------------------------------------------------------

/// Reverses the order of the records in place.
pub fn reverse_records(v: &mut Vec<AgeRecord>)
    ensures
        final(v)@ == old(v)@.reverse(),
{
    let ghost orig = v@;
    let mut out: Vec<AgeRecord> = Vec::new();
    proof {
        assert(orig.take(orig.len() as int) =~= orig);
        assert(orig.skip(orig.len() as int).reverse() =~= Seq::<AgeRecord>::empty());
    }
    while v.len() > 0
        invariant
            v@.len() <= orig.len(),
            v@ == orig.take(v@.len() as int),
            out@ == orig.skip(v@.len() as int).reverse(),
        decreases v@.len(),
    {
        let ghost k = v@.len() as int;
        let x = v.pop().unwrap();
        proof {
            assert(orig.take(k)[k - 1] == orig[k - 1]);
            assert(x == orig[k - 1]);
            assert(v@ =~= orig.take(k - 1)) by {
                assert(orig.take(k).drop_last() =~= orig.take(k - 1));
            }
            let a = orig.skip(k - 1);
            let b = orig.skip(k);
            assert(a.len() == orig.len() - k + 1);
            assert(out@.push(x) =~= a.reverse()) by {
                assert forall|m: int| 0 <= m < out@.len() implies out@[m] == orig[orig.len() - 1
                    - m] by {
                    assert(out@[m] == b.reverse()[m]);
                    assert(b.reverse()[m] == b[b.len() - 1 - m]);
                    assert(b[b.len() - 1 - m] == orig[k + (b.len() - 1 - m)]);
                }
                assert forall|m: int| 0 <= m < a.len() implies a.reverse()[m] == orig[orig.len()
                    - 1 - m] by {
                    assert(a.reverse()[m] == a[a.len() - 1 - m]);
                    assert(a[a.len() - 1 - m] == orig[(k - 1) + (a.len() - 1 - m)]);
                }
                assert(a.reverse()[a.len() - 1] == orig[orig.len() - 1 - (a.len() - 1)]);
            }
        }
        out.push(x);
    }
    proof {
        assert(orig.skip(0) =~= orig);
    }
    *v = out;
}

// --- retention filter ----------------------------------------------------------------

/// Whether a record survives the retention filter: with a threshold and the
/// one-sided "unmodified" selection only strictly older records stay; with
/// "modified" only strictly younger ones; a record exactly at the threshold
/// is dropped by both. Without a threshold, or without a selection, every
/// record stays.
pub open spec fn keeps(r: AgeRecord, f: ModFilter, since: Option<i64>) -> bool {
    match since {
        Some(d) => match f {
            ModFilter::OnlyUnmodified => r.elapsed > d,
            ModFilter::OnlyModified => r.elapsed < d,
            ModFilter::NoFilter => true,
        },
        None => true,
    }
}

/// The records that survive the retention filter, in order.
pub open spec fn retained(s: Seq<AgeRecord>, f: ModFilter, since: Option<i64>) -> Seq<AgeRecord> {
    s.filter(|r: AgeRecord| keeps(r, f, since))
}

fn keeps_exec(r: &AgeRecord, f: ModFilter, since: Option<i64>) -> (res: bool)
    ensures
        res == keeps(*r, f, since),
{
    match since {
        Some(d) => match f {
            ModFilter::OnlyUnmodified => r.elapsed > d,
            ModFilter::OnlyModified => r.elapsed < d,
            ModFilter::NoFilter => true,
        },
        None => true,
    }
}

/// Applies the retention filter in place.
pub fn retain_records(v: &mut Vec<AgeRecord>, f: ModFilter, since: Option<i64>)
    ensures
        final(v)@ == retained(old(v)@, f, since),
{
    let ghost orig = v@;
    let mut out: Vec<AgeRecord> = Vec::new();
    let ghost mut i: int = 0;
    proof {
        reveal(Seq::filter);
        assert(orig.take(0) =~= Seq::<AgeRecord>::empty());
        assert(orig.skip(0) =~= orig);
        assert(out@ =~= retained(orig.take(0), f, since));
    }
    while v.len() > 0
        invariant
            0 <= i <= orig.len(),
            i + v@.len() == orig.len(),
            v@ == orig.skip(i),
            out@ == retained(orig.take(i), f, since),
        decreases v@.len(),
    {
        let x = v.remove(0);
        proof {
            assert(x == orig[i]) by {
                assert(orig.skip(i)[0] == orig[i]);
            }
            assert(v@ =~= orig.skip(i + 1)) by {
                assert(orig.skip(i).remove(0) =~= orig.skip(i + 1));
            }
            reveal(Seq::filter);
            assert(orig.take(i + 1).drop_last() =~= orig.take(i));
            assert(orig.take(i + 1).last() == orig[i]);
        }
        if keeps_exec(&x, f, since) {
            out.push(x);
        }
        proof {
            i = i + 1;
        }
    }
    proof {
        assert(i == orig.len());
        assert(orig.take(orig.len() as int) =~= orig);
    }
    *v = out;
}

// --- rendering ------------------------------------------------------------------------

/// The humanized English phrase for an elapsed duration of `secs` seconds,
/// rough accuracy, past tense.
pub uninterp spec fn human_text_of(secs: int) -> Seq<u8>;

/// Relies on chrono_humanize::HumanTime::to_text_en with rough accuracy and
/// past tense, applied to chrono::Duration::seconds(secs): the rendered
/// phrase depends on the duration alone. The bound keeps the duration
/// constructor in range.
#[verifier::external_body]
fn humanize_elapsed(secs: i64) -> (r: Vec<u8>)
    requires
        -MAX_ELAPSED <= secs <= MAX_ELAPSED,
    ensures
        r@ == human_text_of(secs as int),
{
    chrono_humanize::HumanTime::from(chrono::Duration::seconds(secs))
        .to_text_en(chrono_humanize::Accuracy::Rough, chrono_humanize::Tense::Past)
        .into_bytes()
}

pub open spec fn modified_phrase() -> Seq<u8> {
    " last modified ".spec_bytes()
}

pub open spec fn added_phrase() -> Seq<u8> {
    " hasn't been modified, since it was added to the store, ".spec_bytes()
}

/// The output line a record produces, if any: a record with history is shown
/// unless the "only unmodified" selection is active, a record without history
/// unless "only modified" is active; all other combinations are suppressed.
pub open spec fn rendered_line(r: AgeRecord, f: ModFilter) -> Option<Seq<u8>> {
    if r.has_history && !(f is OnlyUnmodified) {
        Some(r.path@ + modified_phrase() + human_text_of(r.elapsed as int))
    } else if !r.has_history && !(f is OnlyModified) {
        Some(r.path@ + added_phrase() + human_text_of(r.elapsed as int))
    } else {
        None
    }
}

/// Renders one record as a line of output, or nothing if its history state
/// contradicts the active one-sided selection.
pub fn render_record(r: &AgeRecord, f: ModFilter) -> (out: Option<Vec<u8>>)
    requires
        valid_elapsed(r.elapsed),
    ensures
        match rendered_line(*r, f) {
            Some(s) => out matches Some(v) && v@ == s,
            None => out is None,
        },
{
    let active_unmodified = match f {
        ModFilter::OnlyUnmodified => true,
        _ => false,
    };
    let active_modified = match f {
        ModFilter::OnlyModified => true,
        _ => false,
    };
    if r.has_history {
        if active_unmodified {
            return None;
        }
        let mut line: Vec<u8> = Vec::new();
        extend_bytes(&mut line, r.path.as_slice());
        extend_bytes(&mut line, " last modified ".as_bytes());
        let h = humanize_elapsed(r.elapsed);
        extend_bytes(&mut line, h.as_slice());
        Some(line)
    } else {
        if active_modified {
            return None;
        }
        let mut line: Vec<u8> = Vec::new();
        extend_bytes(&mut line, r.path.as_slice());
        extend_bytes(
            &mut line,
            " hasn't been modified, since it was added to the store, ".as_bytes(),
        );
        let h = humanize_elapsed(r.elapsed);
        extend_bytes(&mut line, h.as_slice());
        Some(line)
    }
}

/// The lines the surviving records produce, in order.
pub open spec fn rendered_all(s: Seq<AgeRecord>, f: ModFilter) -> Seq<Seq<u8>>
    decreases s.len(),
{
    if s.len() == 0 {
        Seq::empty()
    } else {
        rendered_all(s.drop_last(), f) + (match rendered_line(s.last(), f) {
            Some(l) => seq![l],
            None => Seq::<Seq<u8>>::empty(),
        })
    }
}

// --- the whole pipeline ------------------------------------------------------------------

/// Every record's elapsed age is within humanizable range.
pub open spec fn all_valid(s: Seq<AgeRecord>) -> bool {
    forall|i: int| 0 <= i < s.len() ==> valid_elapsed(#[trigger] s[i].elapsed)
}

/// What the whole pipeline prints: sort, optionally reverse, filter, render.
pub open spec fn spec_process(
    s: Seq<AgeRecord>,
    sb: SortBy,
    rev: bool,
    f: ModFilter,
    since: Option<i64>,
) -> Seq<Seq<u8>> {
    let sorted = stable_sort(s, sb);
    let ordered = if rev {
        sorted.reverse()
    } else {
        sorted
    };
    rendered_all(retained(ordered, f, since), f)
}

proof fn lemma_sort_valid(s: Seq<AgeRecord>, sb: SortBy)
    requires
        all_valid(s),
    ensures
        all_valid(stable_sort(s, sb)),
{
    lemma_stable_sort_contains(s, sb);
    let t = stable_sort(s, sb);
    assert forall|k: int| 0 <= k < t.len() implies valid_elapsed(#[trigger] t[k].elapsed) by {
        assert(s.contains(t[k]));
        let j = choose|j: int| 0 <= j < s.len() && s[j] == t[k];
        assert(valid_elapsed(s[j].elapsed));
    }
}

proof fn lemma_retained_valid(s: Seq<AgeRecord>, f: ModFilter, since: Option<i64>)
    requires
        all_valid(s),
    ensures
        all_valid(retained(s, f, since)),
    decreases s.len(),
{
    reveal(Seq::filter);
    if s.len() > 0 {
        assert(all_valid(s.drop_last()));
        lemma_retained_valid(s.drop_last(), f, since);
        let r = retained(s.drop_last(), f, since);
        let whole = retained(s, f, since);
        assert forall|k: int| 0 <= k < whole.len() implies valid_elapsed(
            #[trigger] whole[k].elapsed,
        ) by {
            if k < r.len() {
                assert(whole[k] == r[k]);
            } else {
                assert(whole[k] == s.last());
                assert(s[s.len() - 1] == s.last());
            }
        }
    }
}

/// Runs the aggregation pipeline over the collected records: sorts them by
/// the chosen key (ties keep discovery order), reverses if asked, applies the
/// retention filter, and renders each surviving record as one line of output.
pub fn process_records(
    records: Vec<AgeRecord>,
    sb: SortBy,
    rev: bool,
    f: ModFilter,
    since: Option<i64>,
) -> (out: Vec<Vec<u8>>)
    requires
        all_valid(records@),
    ensures
        out@.len() == spec_process(records@, sb, rev, f, since).len(),
        forall|i: int|
            0 <= i < out@.len() ==> out@[i]@ == spec_process(records@, sb, rev, f, since)[i],
{
    let ghost s0 = records@;
    let mut v = records;
    sort_records(&mut v, sb);
    proof {
        lemma_sort_valid(s0, sb);
    }
    if rev {
        reverse_records(&mut v);
        proof {
            let t = stable_sort(s0, sb);
            assert forall|k: int| 0 <= k < v@.len() implies valid_elapsed(
                #[trigger] v@[k].elapsed,
            ) by {
                assert(v@[k] == t[t.len() - 1 - k]);
            }
        }
    }
    let ghost ordered = v@;
    retain_records(&mut v, f, since);
    proof {
        lemma_retained_valid(ordered, f, since);
    }
    let ghost survivors = v@;
    let mut out: Vec<Vec<u8>> = Vec::new();
    let mut i: usize = 0;
    proof {
        assert(survivors.take(0) =~= Seq::<AgeRecord>::empty());
    }
    while i < v.len()
        invariant
            0 <= i <= v@.len(),
            v@ == survivors,
            all_valid(survivors),
            out@.len() == rendered_all(survivors.take(i as int), f).len(),
            forall|k: int|
                0 <= k < out@.len() ==> out@[k]@ == rendered_all(survivors.take(i as int), f)[k],
        decreases v@.len() - i,
    {
        proof {
            assert(survivors.take(i + 1).drop_last() =~= survivors.take(i as int));
            assert(survivors.take(i + 1).last() == survivors[i as int]);
        }
        match render_record(&v[i], f) {
            Some(l) => {
                out.push(l);
            },
            None => {
            },
        }
        i = i + 1;
    }
    proof {
        assert(survivors.take(survivors.len() as int) =~= survivors);
    }
    out
}

// --- laws --------------------------------------------------------------------------------

pub open spec fn distinct_paths(s: Seq<AgeRecord>) -> bool {
    forall|i: int, j: int| 0 <= i < j < s.len() ==> s[i].path@ != s[j].path@
}

proof fn lemma_insert_sorted_distinct(x: AgeRecord, s: Seq<AgeRecord>, sb: SortBy)
    requires
        distinct_paths(s),
        forall|j: int| 0 <= j < s.len() ==> #[trigger] s[j].path@ != x.path@,
    ensures
        distinct_paths(insert_sorted(x, s, sb)),
    decreases s.len(),
{
    if s.len() == 0 {
    } else if key_le(s.last(), x, sb) {
        let t = s.push(x);
        assert forall|i: int, j: int| 0 <= i < j < t.len() implies t[i].path@ != t[j].path@ by {
            if j == t.len() - 1 {
                assert(t[i] == s[i]);
            }
        }
    } else {
        let dl = s.drop_last();
        assert(distinct_paths(dl)) by {
            assert(forall|i: int, j: int|
                0 <= i < j < dl.len() ==> #[trigger] dl[i].path@ != #[trigger] dl[j].path@);
        }
        assert(forall|j: int| 0 <= j < dl.len() ==> #[trigger] dl[j].path@ != x.path@);
        lemma_insert_sorted_distinct(x, dl, sb);
        lemma_insert_sorted_elems(x, dl, sb);
        let t0 = insert_sorted(x, dl, sb);
        let t = t0.push(s.last());
        assert forall|i: int, j: int| 0 <= i < j < t.len() implies t[i].path@ != t[j].path@ by {
            if j == t.len() - 1 {
                assert(t[i] == t0[i]);
                assert(t[j] == s.last());
                if t0[i] == x {
                    assert(s[s.len() - 1].path@ != x.path@);
                } else {
                    let m = choose|m: int| 0 <= m < dl.len() && dl[m] == t0[i];
                    assert(s[m] == t0[i]);
                    assert(s[m].path@ != s[s.len() - 1].path@);
                }
            }
        }
    }
}

proof fn lemma_stable_sort_distinct(s: Seq<AgeRecord>, sb: SortBy)
    requires
        distinct_paths(s),
    ensures
        distinct_paths(stable_sort(s, sb)),
    decreases s.len(),
{
    broadcast use vstd::seq_lib::group_to_multiset_ensures;

    if s.len() > 0 {
        let dl = s.drop_last();
        let x = s.last();
        assert(distinct_paths(dl)) by {
            assert(forall|i: int, j: int|
                0 <= i < j < dl.len() ==> #[trigger] dl[i].path@ != #[trigger] dl[j].path@);
        }
        lemma_stable_sort_distinct(dl, sb);
        lemma_stable_sort_multiset(dl, sb);
        let t = stable_sort(dl, sb);
        assert forall|j: int| 0 <= j < t.len() implies #[trigger] t[j].path@ != x.path@ by {
            assert(t.contains(t[j]));
            assert(t.to_multiset().count(t[j]) > 0);
            assert(dl.contains(t[j]));
            let m = choose|m: int| 0 <= m < dl.len() && dl[m] == t[j];
            assert(s[m] == t[j]);
            assert(s[m].path@ != s[s.len() - 1].path@);
        }
        lemma_insert_sorted_distinct(x, t, sb);
    }
}

/// Law: the retention boundary is open on both sides. With a threshold, a
/// record exactly at it is dropped by both one-sided selections; "only
/// unmodified" keeps exactly the strictly older records, "only modified"
/// exactly the strictly younger ones.
pub proof fn lemma_threshold_boundary(r: AgeRecord, d: i64)
    ensures
        keeps(r, ModFilter::OnlyUnmodified, Some(d)) == (r.elapsed > d),
        keeps(r, ModFilter::OnlyModified, Some(d)) == (r.elapsed < d),
        r.elapsed == d ==> !keeps(r, ModFilter::OnlyUnmodified, Some(d)) && !keeps(
            r,
            ModFilter::OnlyModified,
            Some(d),
        ),
{
}

/// Law: sorting by name and then reversing is the same as sorting by name in
/// descending lexicographic order, for any set of records with distinct
/// paths: the reversed sequence holds exactly the input's records and is
/// strictly descending, which pins it uniquely among the permutations.
pub proof fn lemma_sort_name_reverse_desc(s: Seq<AgeRecord>)
    requires
        distinct_paths(s),
    ensures
        ({
            let t = stable_sort(s, SortBy::Name).reverse();
            &&& t.to_multiset() == s.to_multiset()
            &&& forall|i: int, j: int|
                0 <= i < j < t.len() ==> lex_le(#[trigger] t[j].path@, #[trigger] t[i].path@)
                    && t[j].path@ != t[i].path@
        }),
{
    let t0 = stable_sort(s, SortBy::Name);
    let t = t0.reverse();
    lemma_stable_sort_sorted(s, SortBy::Name);
    lemma_stable_sort_distinct(s, SortBy::Name);
    lemma_stable_sort_multiset(s, SortBy::Name);
    t0.lemma_reverse_to_multiset();
    assert(t.to_multiset() =~= s.to_multiset());
    assert forall|i: int, j: int| 0 <= i < j < t.len() implies lex_le(
        #[trigger] t[j].path@,
        #[trigger] t[i].path@,
    ) && t[j].path@ != t[i].path@ by {
        assert(t[i] == t0[t0.len() - 1 - i]);
        assert(t[j] == t0[t0.len() - 1 - j]);
        assert(key_le(t0[t0.len() - 1 - j], t0[t0.len() - 1 - i], SortBy::Name));
    }
}

} // verus!
