use vstd::prelude::*;
use crate::snapshot::RecordView;
use crate::reconcile::{
    entry_of,
    names_of,
    insert_desc,
    sort_desc,
    split_current,
    position_of,
    clamp_selection,
    lemma_position_found,
};
use crate::app::App;

verus! {

/// Records listed from most to least recent activity.
pub open spec fn descending(s: Seq<RecordView>) -> bool {
    forall|i: int, j: int| 0 <= i < j < s.len() ==> s[i].activity >= s[j].activity
}

/// The records that `split_current` lists as others, with their activity.
pub open spec fn other_records(s: Seq<RecordView>) -> Seq<RecordView>
    decreases s.len(),
{
    if s.len() == 0 {
        Seq::empty()
    } else {
        let o = other_records(s.drop_last());
        if s.last().attached && split_current(s.drop_last()).0 is None {
            o
        } else {
            o.push(s.last())
        }
    }
}

pub open spec fn has_attached(s: Seq<RecordView>) -> bool {
    exists|i: int| 0 <= i < s.len() && #[trigger] s[i].attached
}

proof fn lemma_insert_members(t: Seq<RecordView>, r: RecordView)
    ensures
        insert_desc(t, r).to_multiset() == t.to_multiset().insert(r),
    decreases t.len(),
{
    broadcast use vstd::seq_lib::group_to_multiset_ensures;

    if t.len() == 0 || t.last().activity >= r.activity {
    } else {
        lemma_insert_members(t.drop_last(), r);
        assert(t.drop_last().push(t.last()) =~= t);
    }
}

proof fn lemma_sort_members(s: Seq<RecordView>)
    ensures
        sort_desc(s).to_multiset() == s.to_multiset(),
    decreases s.len(),
{
    broadcast use vstd::seq_lib::group_to_multiset_ensures;

    if s.len() > 0 {
        lemma_sort_members(s.drop_last());
        lemma_insert_members(sort_desc(s.drop_last()), s.last());
        assert(s.drop_last().push(s.last()) =~= s);
    }
}

proof fn lemma_insert_descending(t: Seq<RecordView>, r: RecordView)
    requires
        descending(t),
    ensures
        descending(insert_desc(t, r)),
    decreases t.len(),
{
    broadcast use vstd::seq_lib::group_to_multiset_ensures;

    if t.len() == 0 || t.last().activity >= r.activity {
    } else {
        let u = t.drop_last();
        lemma_insert_descending(u, r);
        lemma_insert_members(u, r);
        let v = insert_desc(u, r);
        assert forall|i: int| 0 <= i < v.len() implies v[i].activity >= t.last().activity by {
            assert(v.to_multiset().count(v[i]) > 0);
            assert(u.to_multiset().insert(r).count(v[i]) > 0);
            if v[i] != r {
                assert(u.to_multiset().count(v[i]) > 0);
                assert(u.contains(v[i]));
                let k = choose|k: int| 0 <= k < u.len() && u[k] == v[i];
                assert(t[k] == u[k]);
            }
        }
    }
}

proof fn lemma_sort_descending(s: Seq<RecordView>)
    ensures
        descending(sort_desc(s)),
    decreases s.len(),
{
    if s.len() > 0 {
        lemma_sort_descending(s.drop_last());
        lemma_insert_descending(sort_desc(s.drop_last()), s.last());
    }
}

proof fn lemma_split_shape(s: Seq<RecordView>)
    ensures
        split_current(s).1 == other_records(s).map_values(|r: RecordView| entry_of(r)),
        split_current(s).1.len() + (if split_current(s).0 is Some { 1int } else { 0 }) == s.len(),
        split_current(s).0 is Some <==> has_attached(s),
        forall|i: int|
            0 <= i < other_records(s).len() ==> s.contains(#[trigger] other_records(s)[i]),
    decreases s.len(),
{
    if s.len() > 0 {
        let u = s.drop_last();
        lemma_split_shape(u);
        let o = other_records(u);
        assert(o.push(s.last()).map_values(|r: RecordView| entry_of(r)) =~= o.map_values(
            |r: RecordView| entry_of(r),
        ).push(entry_of(s.last())));
        assert forall|i: int| 0 <= i < other_records(s).len() implies s.contains(
            #[trigger] other_records(s)[i],
        ) by {
            if i < o.len() {
                let k = choose|k: int| 0 <= k < u.len() && u[k] == o[i];
                assert(s[k] == u[k]);
            } else {
                assert(s[s.len() - 1] == s.last());
            }
        }
        if has_attached(s) && !has_attached(u) {
            let k = choose|k: int| 0 <= k < s.len() && #[trigger] s[k].attached;
            if k < u.len() {
                assert(u[k].attached);
            }
        }
        if has_attached(u) {
            let k = choose|k: int| 0 <= k < u.len() && #[trigger] u[k].attached;
            assert(s[k].attached);
        }
    }
}

/// The record that `split_current` makes current.
pub open spec fn current_record(s: Seq<RecordView>) -> Option<RecordView>
    decreases s.len(),
{
    if s.len() == 0 {
        None
    } else {
        match current_record(s.drop_last()) {
            Some(c) => Some(c),
            None => if s.last().attached {
                Some(s.last())
            } else {
                None
            },
        }
    }
}

proof fn lemma_current_record(s: Seq<RecordView>)
    ensures
        split_current(s).0 == (match current_record(s) {
            Some(c) => Some(entry_of(c)),
            None => None,
        }),
        split_current(s).0 is None ==> other_records(s).to_multiset() == s.to_multiset(),
        current_record(s) matches Some(c) ==> other_records(s).to_multiset().insert(c)
            == s.to_multiset(),
    decreases s.len(),
{
    broadcast use vstd::seq_lib::group_to_multiset_ensures;

    if s.len() > 0 {
        let u = s.drop_last();
        lemma_current_record(u);
        assert(u.push(s.last()) =~= s);
        if let Some(c) = current_record(u) {
            assert(other_records(u).to_multiset().insert(c).insert(s.last()) =~= other_records(
                u,
            ).to_multiset().insert(s.last()).insert(c));
        }
    }
}

/// At most one session is current, and every other record of the snapshot
/// is listed among the others: the current record and the others together
/// are exactly the snapshot's records, and there is a current one exactly
/// when some record is attached.
pub proof fn law_single_current(recs: Seq<RecordView>)
    ensures
        ({
            let sorted = sort_desc(recs);
            let split = split_current(sorted);
            &&& split.1.len() + (if split.0 is Some { 1int } else { 0 }) == recs.len()
            &&& split.0 is Some <==> has_attached(recs)
            &&& split.1 == other_records(sorted).map_values(|r: RecordView| entry_of(r))
            &&& match current_record(sorted) {
                Some(c) => split.0 == Some(entry_of(c)) && c.attached
                    && other_records(sorted).to_multiset().insert(c) == recs.to_multiset(),
                None => split.0 is None && other_records(sorted).to_multiset() == recs.to_multiset(),
            }
        }),
{
    let sorted = sort_desc(recs);
    lemma_sort_members(recs);
    lemma_split_shape(sorted);
    lemma_current_record(sorted);
    lemma_current_attached(sorted);
    assert(sorted.len() == recs.len()) by {
        sorted.to_multiset_ensures();
        recs.to_multiset_ensures();
    }
    assert(has_attached(sorted) <==> has_attached(recs)) by {
        sorted.to_multiset_ensures();
        recs.to_multiset_ensures();
        if has_attached(sorted) {
            let k = choose|k: int| 0 <= k < sorted.len() && #[trigger] sorted[k].attached;
            assert(sorted.to_multiset().count(sorted[k]) > 0);
            assert(recs.contains(sorted[k]));
        }
        if has_attached(recs) {
            let k = choose|k: int| 0 <= k < recs.len() && #[trigger] recs[k].attached;
            assert(recs.to_multiset().count(recs[k]) > 0);
            assert(sorted.contains(recs[k]));
        }
    }
}

proof fn lemma_current_attached(s: Seq<RecordView>)
    ensures
        current_record(s) matches Some(c) ==> c.attached,
    decreases s.len(),
{
    if s.len() > 0 {
        lemma_current_attached(s.drop_last());
    }
}

proof fn lemma_others_descending(s: Seq<RecordView>)
    requires
        descending(s),
    ensures
        descending(other_records(s)),
    decreases s.len(),
{
    if s.len() > 0 {
        let u = s.drop_last();
        lemma_others_descending(u);
        lemma_split_shape(u);
        let o = other_records(u);
        assert forall|i: int| 0 <= i < o.len() implies o[i].activity >= s.last().activity by {
            let k = choose|k: int| 0 <= k < u.len() && u[k] == o[i];
            assert(s[k] == u[k]);
        }
    }
}

/// The others are listed by activity: a record with a greater activity
/// timestamp comes before one with a smaller.
pub proof fn law_others_by_activity(recs: Seq<RecordView>)
    ensures
        split_current(sort_desc(recs)).1 == other_records(sort_desc(recs)).map_values(
            |r: RecordView| entry_of(r),
        ),
        descending(other_records(sort_desc(recs))),
{
    lemma_sort_descending(recs);
    lemma_split_shape(sort_desc(recs));
    lemma_others_descending(sort_desc(recs));
}

/// A refresh keeps the highlight on the selected session when that session
/// is still listed, wherever it has moved.
pub proof fn law_selection_follows_name(old: App, new: App, recs: Seq<RecordView>)
    requires
        App::reconciled(old, new, recs),
        old.selected_session < old.others().len(),
        names_of(new.others()).contains(old.others()[old.selected_session as int].0),
    ensures
        new.selected_session < new.others().len(),
        new.others()[new.selected_session as int].0 == old.others()[old.selected_session as int].0,
{
    let n = old.others()[old.selected_session as int].0;
    lemma_position_found(new.others(), n);
    let k = choose|k: int| 0 <= k < names_of(new.others()).len() && names_of(new.others())[k] == n;
    assert(new.others()[k].0 == n);
}

/// A refresh that no longer lists the selected session keeps the old index,
/// held within the new list.
pub proof fn law_selection_kept_when_gone(old: App, new: App, recs: Seq<RecordView>)
    requires
        App::reconciled(old, new, recs),
        old.selected_session < old.others().len(),
        !names_of(new.others()).contains(old.others()[old.selected_session as int].0),
    ensures
        new.selected_session == clamp_selection(
            old.selected_session as int,
            new.others().len() as int,
        ),
{
    let n = old.others()[old.selected_session as int].0;
    lemma_position_found(new.others(), n);
    if position_of(new.others(), n) is Some {
        let p = position_of(new.others(), n)->0;
        assert(names_of(new.others())[p] == n);
    }
}

/// A snapshot without records gives an empty view.
pub proof fn law_empty_snapshot(old: App, new: App, recs: Seq<RecordView>)
    requires
        App::reconciled(old, new, recs),
        recs.len() == 0,
    ensures
        new.current() is None,
        new.others().len() == 0,
        new.selected_session == 0,
{
}

} // verus!
