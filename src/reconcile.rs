use vstd::prelude::*;
use crate::snapshot::{SessionRecord, RecordView, records_view};

verus! {

/// A listed session as the view shows it: its name and its description.
pub type Entry = (String, String);

/// The value of an entry: its name and description.
pub open spec fn entry_view(e: Entry) -> (Seq<char>, Seq<char>) {
    (e.0@, e.1@)
}

/// The values of a list of entries.
pub open spec fn entries_view(v: Seq<Entry>) -> Seq<(Seq<char>, Seq<char>)> {
    v.map_values(|e: Entry| entry_view(e))
}

/// The entry that lists a record.
pub open spec fn entry_of(r: RecordView) -> (Seq<char>, Seq<char>) {
    (r.name, r.description)
}

pub open spec fn names_of(s: Seq<(Seq<char>, Seq<char>)>) -> Seq<Seq<char>> {
    s.map_values(|e: (Seq<char>, Seq<char>)| e.0)
}

/// Puts `r` after every record of `t`'s tail end whose activity is not lower,
/// so that among equal activities the earlier record stays first.
pub open spec fn insert_desc(t: Seq<RecordView>, r: RecordView) -> Seq<RecordView>
    decreases t.len(),
{
    if t.len() == 0 || t.last().activity >= r.activity {
        t.push(r)
    } else {
        insert_desc(t.drop_last(), r).push(t.last())
    }
}

/// The records by activity, most recent first; equal activities keep their order.
pub open spec fn sort_desc(s: Seq<RecordView>) -> Seq<RecordView>
    decreases s.len(),
{
    if s.len() == 0 {
        s
    } else {
        insert_desc(sort_desc(s.drop_last()), s.last())
    }
}

/// The first attached record, and the entries of all the others, in order.
pub open spec fn split_current(s: Seq<RecordView>) -> (Option<(Seq<char>, Seq<char>)>, Seq<(Seq<char>, Seq<char>)>)
    decreases s.len(),
{
    if s.len() == 0 {
        (None, Seq::empty())
    } else {
        let p = split_current(s.drop_last());
        if s.last().attached && p.0 is None {
            (Some(entry_of(s.last())), p.1)
        } else {
            (p.0, p.1.push(entry_of(s.last())))
        }
    }
}

/// Index of the first entry named `n`.
pub open spec fn position_of(s: Seq<(Seq<char>, Seq<char>)>, n: Seq<char>) -> Option<int>
    decreases s.len(),
{
    if s.len() == 0 {
        None
    } else {
        match position_of(s.drop_last(), n) {
            Some(p) => Some(p),
            None => if s.last().0 == n {
                Some(s.len() - 1)
            } else {
                None
            },
        }
    }
}

/// The selection after a refresh: the anchor's new place when it is still
/// listed, else the old index; then held within the list.
pub open spec fn restored_selection(
    old_others: Seq<(Seq<char>, Seq<char>)>,
    old_sel: int,
    others: Seq<(Seq<char>, Seq<char>)>,
) -> int {
    let anchored = if 0 <= old_sel < old_others.len() {
        match position_of(others, old_others[old_sel].0) {
            Some(p) => p,
            None => old_sel,
        }
    } else {
        old_sel
    };
    clamp_selection(anchored, others.len() as int)
}

pub open spec fn clamp_selection(i: int, len: int) -> int {
    if len == 0 {
        0
    } else if i < len {
        i
    } else {
        len - 1
    }
}

/// Names listed now that were not listed before.
pub open spec fn fresh_names(before: Seq<Seq<char>>, now: Seq<Seq<char>>) -> Set<Seq<char>> {
    Set::new(|n: Seq<char>| now.contains(n) && !before.contains(n))
}

/// The one new name, when exactly one appeared.
pub open spec fn sole_fresh_name(before: Seq<Seq<char>>, now: Seq<Seq<char>>) -> Option<Seq<char>> {
    if exists|n: Seq<char>| fresh_names(before, now) == set![n] {
        Some(choose|n: Seq<char>| fresh_names(before, now) == set![n])
    } else {
        None
    }
}

pub proof fn lemma_position_of(s: Seq<(Seq<char>, Seq<char>)>, n: Seq<char>, k: int)
    requires
        0 <= k <= s.len(),
        forall|j: int| 0 <= j < k ==> s[j].0 != n,
        k == s.len() || s[k].0 == n,
    ensures
        position_of(s, n) == (if k == s.len() { None } else { Some(k) }),
    decreases s.len(),
{
    if s.len() > 0 {
        let k2 = if k == s.len() { k - 1 } else { k };
        lemma_position_of(s.drop_last(), n, k2);
    }
}

/// A found position names an entry of that name.
pub proof fn lemma_position_found(s: Seq<(Seq<char>, Seq<char>)>, n: Seq<char>)
    ensures
        position_of(s, n) matches Some(p) ==> 0 <= p < s.len() && s[p].0 == n,
        position_of(s, n) is None ==> forall|j: int| 0 <= j < s.len() ==> s[j].0 != n,
    decreases s.len(),
{
    if s.len() > 0 {
        lemma_position_found(s.drop_last(), n);
        if position_of(s, n) is None {
            assert forall|j: int| 0 <= j < s.len() implies s[j].0 != n by {
                if j < s.len() - 1 {
                    assert(s[j] == s.drop_last()[j]);
                }
            }
        }
    }
}

/// A copy of a record.
pub fn clone_record(r: &SessionRecord) -> (c: SessionRecord)
    ensures
        c@ == r@,
{
    SessionRecord {
        activity: r.activity,
        name: r.name.clone(),
        attached: r.attached,
        description: r.description.clone(),
    }
}

fn insert_record(out: &mut Vec<SessionRecord>, r: SessionRecord)
    ensures
        records_view(final(out)@) == insert_desc(records_view(old(out)@), r@),
{
    let ghost goal = insert_desc(records_view(out@), r@);
    let key = r.activity;
    let mut tail: Vec<SessionRecord> = Vec::new();
    assert(records_view(tail@).reverse() =~= Seq::<RecordView>::empty());
    assert(goal =~= insert_desc(records_view(out@), r@) + records_view(tail@).reverse());
    while out.len() > 0 && out[out.len() - 1].activity < key
        invariant
            key == r@.activity,
            goal == insert_desc(records_view(out@), r@) + records_view(tail@).reverse(),
        decreases out.len(),
    {
        let ghost before = records_view(out@);
        let ghost tail_before = records_view(tail@);
        let x = out.pop().unwrap();
        assert(before.drop_last() =~= records_view(out@));
        tail.push(x);
        assert(records_view(tail@) =~= tail_before.push(x@));
        assert(records_view(tail@).reverse() =~= seq![x@] + tail_before.reverse());
        assert(insert_desc(before, r@) == insert_desc(records_view(out@), r@).push(x@));
        assert(goal =~= insert_desc(records_view(out@), r@) + records_view(tail@).reverse());
    }
    let ghost before = records_view(out@);
    out.push(r);
    assert(records_view(out@) =~= before.push(r@));
    assert(goal =~= records_view(out@) + records_view(tail@).reverse());
    while tail.len() > 0
        invariant
            goal == records_view(out@) + records_view(tail@).reverse(),
        decreases tail.len(),
    {
        let ghost out_before = records_view(out@);
        let ghost tail_before = records_view(tail@);
        let x = tail.pop().unwrap();
        assert(tail_before =~= records_view(tail@).push(x@));
        out.push(x);
        assert(records_view(out@) =~= out_before.push(x@));
        assert(tail_before.reverse() =~= seq![x@] + records_view(tail@).reverse());
        assert(goal =~= records_view(out@) + records_view(tail@).reverse());
    }
    assert(records_view(tail@).reverse() =~= Seq::<RecordView>::empty());
    assert(goal =~= records_view(out@));
}

/// The records sorted by activity, most recent first; a stable sort.
pub fn sort_records(v: &Vec<SessionRecord>) -> (r: Vec<SessionRecord>)
    ensures
        records_view(r@) == sort_desc(records_view(v@)),
{
    let mut out: Vec<SessionRecord> = Vec::new();
    let mut i: usize = 0;
    assert(records_view(v@).take(0) =~= Seq::<RecordView>::empty());
    assert(records_view(out@) =~= Seq::<RecordView>::empty());
    while i < v.len()
        invariant
            i <= v.len(),
            records_view(out@) == sort_desc(records_view(v@).take(i as int)),
        decreases v.len() - i,
    {
        let x = clone_record(&v[i]);
        insert_record(&mut out, x);
        assert(records_view(v@).take(i + 1).drop_last() =~= records_view(v@).take(i as int));
        i = i + 1;
    }
    assert(records_view(v@).take(i as int) =~= records_view(v@));
    out
}

pub open spec fn opt_entry_view(o: Option<Entry>) -> Option<(Seq<char>, Seq<char>)> {
    match o {
        Some(e) => Some(entry_view(e)),
        None => None,
    }
}

pub open spec fn strings_view(v: Seq<String>) -> Seq<Seq<char>> {
    v.map_values(|s: String| s@)
}

/// Splits sorted records into the current session and the others.
pub fn split_records(sorted: &Vec<SessionRecord>) -> (r: (Option<Entry>, Vec<Entry>))
    ensures
        (opt_entry_view(r.0), entries_view(r.1@)) == split_current(records_view(sorted@)),
{
    let mut current: Option<Entry> = None;
    let mut others: Vec<Entry> = Vec::new();
    let mut i: usize = 0;
    assert(records_view(sorted@).take(0) =~= Seq::<RecordView>::empty());
    assert(entries_view(others@) =~= Seq::<(Seq<char>, Seq<char>)>::empty());
    while i < sorted.len()
        invariant
            i <= sorted.len(),
            (opt_entry_view(current), entries_view(others@)) == split_current(
                records_view(sorted@).take(i as int),
            ),
        decreases sorted.len() - i,
    {
        let r = &sorted[i];
        let ghost prev = entries_view(others@);
        assert(records_view(sorted@).take(i + 1).drop_last() =~= records_view(sorted@).take(
            i as int,
        ));
        assert(records_view(sorted@).take(i + 1).last() == r@);
        let e = (r.name.clone(), r.description.clone());
        if r.attached && current.is_none() {
            current = Some(e);
        } else {
            others.push(e);
            assert(entries_view(others@) =~= prev.push(entry_of(r@)));
        }
        i = i + 1;
    }
    assert(records_view(sorted@).take(i as int) =~= records_view(sorted@));
    (current, others)
}

/// Index of the first entry named `n`.
pub fn find_entry(v: &Vec<Entry>, n: &String) -> (r: Option<usize>)
    ensures
        match r {
            Some(p) => position_of(entries_view(v@), n@) == Some(p as int),
            None => position_of(entries_view(v@), n@) is None,
        },
{
    let mut i: usize = 0;
    while i < v.len()
        invariant
            i <= v.len(),
            forall|j: int| 0 <= j < i ==> entries_view(v@)[j].0 != n@,
        decreases v.len() - i,
    {
        if v[i].0 == *n {
            proof {
                lemma_position_of(entries_view(v@), n@, i as int);
            }
            return Some(i);
        }
        i = i + 1;
    }
    proof {
        lemma_position_of(entries_view(v@), n@, i as int);
    }
    None
}

/// Whether `n` is among `v`.
pub fn contains_name(v: &Vec<String>, n: &String) -> (r: bool)
    ensures
        r == strings_view(v@).contains(n@),
{
    let mut i: usize = 0;
    while i < v.len()
        invariant
            i <= v.len(),
            forall|j: int| 0 <= j < i ==> strings_view(v@)[j] != n@,
        decreases v.len() - i,
    {
        if v[i] == *n {
            assert(strings_view(v@)[i as int] == n@);
            return true;
        }
        i = i + 1;
    }
    false
}

/// The index of the one entry whose name was not listed `before`, when
/// exactly one such name appeared; `None` when none or several did.
pub fn pick_new_entry(before: &Vec<String>, now: &Vec<Entry>) -> (r: Option<usize>)
    ensures
        match sole_fresh_name(strings_view(before@), names_of(entries_view(now@))) {
            Some(n) => r.is_some() && position_of(entries_view(now@), n) == Some(r->0 as int),
            None => r is None,
        },
{
    let ghost old_names = strings_view(before@);
    let ghost names = names_of(entries_view(now@));
    let mut found: Option<usize> = None;
    let mut ambiguous = false;
    let mut i: usize = 0;
    while i < now.len()
        invariant
            i <= now.len(),
            old_names == strings_view(before@),
            names == names_of(entries_view(now@)),
            found is None ==> !ambiguous,
            found is None ==> forall|j: int| 0 <= j < i ==> old_names.contains(#[trigger] names[j]),
            found matches Some(k) ==> {
                &&& k < i
                &&& !old_names.contains(names[k as int])
                &&& forall|j: int| 0 <= j < k ==> old_names.contains(#[trigger] names[j])
                &&& !ambiguous ==> forall|j: int|
                    0 <= j < i ==> old_names.contains(#[trigger] names[j]) || names[j] == names[k as int]
                &&& ambiguous ==> exists|j: int|
                    0 <= j < i && !old_names.contains(#[trigger] names[j]) && names[j] != names[k as int]
            },
        decreases now.len() - i,
    {
        let known = contains_name(before, &now[i].0);
        assert(names[i as int] == now@[i as int].0@);
        if !known {
            match found {
                None => {
                    found = Some(i);
                },
                Some(k) => {
                    assert(names[k as int] == now@[k as int].0@);
                    if now[i].0 != now[k].0 {
                        ambiguous = true;
                        assert(!old_names.contains(names[i as int]) && names[i as int] != names[k as int]);
                    }
                },
            }
        }
        i = i + 1;
    }
    let ghost fresh = fresh_names(old_names, names);
    match found {
        None => {
            proof {
                assert forall|n: Seq<char>| !(fresh == set![n]) by {
                    if fresh == set![n] {
                        assert(set![n].contains(n));
                        assert(fresh.contains(n));
                        let j = choose|j: int| 0 <= j < names.len() && names[j] == n;
                        assert(old_names.contains(names[j]));
                    }
                }
            }
            None
        },
        Some(k) => {
            if ambiguous {
                proof {
                    let j = choose|j: int|
                        0 <= j < i && !old_names.contains(#[trigger] names[j]) && names[j] != names[k as int];
                    assert(fresh.contains(names[j]));
                    assert(fresh.contains(names[k as int]));
                    assert forall|n: Seq<char>| !(fresh == set![n]) by {
                        if fresh == set![n] {
                            assert(set![n].contains(names[j]));
                            assert(set![n].contains(names[k as int]));
                        }
                    }
                }
                None
            } else {
                proof {
                    let nk = names[k as int];
                    assert forall|m: Seq<char>| fresh.contains(m) <==> m == nk by {
                        if fresh.contains(m) {
                            let j = choose|j: int| 0 <= j < names.len() && names[j] == m;
                            assert(old_names.contains(names[j]) || names[j] == nk);
                        }
                        if m == nk {
                            assert(names.contains(nk));
                        }
                    }
                    assert(fresh =~= set![nk]);
                    let c = choose|n: Seq<char>| fresh == set![n];
                    assert(set![c].contains(c));
                    assert(set![nk].contains(c));
                    assert(sole_fresh_name(old_names, names) == Some(nk));
                    assert forall|j: int| 0 <= j < k implies entries_view(now@)[j].0 != nk by {
                        assert(old_names.contains(names[j]));
                    }
                    lemma_position_of(entries_view(now@), nk, k as int);
                }
                Some(k)
            }
        },
    }
}

} // verus!
