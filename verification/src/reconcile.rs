//! Reconciliation: what has to change in the store so that it holds what
//! the remote system reports.

use crate::booking::{views, Booking, BookingView};
use crate::db::{
    delete_bookings, delete_each, distinct_ids, has_id, id_values, insert_bookings, insert_each,
    update_bookings, update_each, DBError, StorageFault, Store,
};
use vstd::prelude::*;

verus! {

/// The bookings whose id does not occur among `others`.
pub open spec fn absent_from(others: Seq<BookingView>) -> spec_fn(BookingView) -> bool {
    |b: BookingView| !has_id(others, b.booking_id)
}

/// Whether `others` holds a booking with the id of `b` that differs from
/// `b` in some field.
pub open spec fn differs_in(others: Seq<BookingView>, b: BookingView) -> bool {
    exists|i: int|
        0 <= i < others.len() && (#[trigger] others[i]).booking_id == b.booking_id && others[i]
            != b
}

/// The bookings of which `others` holds a differing one under the same id.
pub open spec fn changed_from(others: Seq<BookingView>) -> spec_fn(BookingView) -> bool {
    |b: BookingView| differs_in(others, b)
}

/// The ids of the bookings `s`, in order.
pub open spec fn ids_of(s: Seq<BookingView>) -> Seq<int> {
    s.map_values(|b: BookingView| b.booking_id)
}

/// The mathematical value of [`Changes`].
pub struct ChangesView {
    pub to_insert: Seq<BookingView>,
    pub to_delete: Seq<int>,
    pub to_update: Seq<BookingView>,
}

/// What reconciliation asks of the store.
#[derive(Debug, Clone)]
pub struct Changes {
    /// Remote bookings that are not stored.
    pub to_insert: Vec<Booking>,
    /// Ids of stored bookings that the remote system no longer reports.
    pub to_delete: Vec<i64>,
    /// Remote bookings that are stored with other fields.
    pub to_update: Vec<Booking>,
}

impl View for Changes {
    type V = ChangesView;

    open spec fn view(&self) -> ChangesView {
        ChangesView {
            to_insert: views(self.to_insert@),
            to_delete: id_values(self.to_delete@),
            to_update: views(self.to_update@),
        }
    }
}

impl Changes {
    /// Whether nothing has to change.
    pub fn is_empty(&self) -> (b: bool)
        ensures
            b == (self@.to_insert.len() == 0 && self@.to_delete.len() == 0 && self@.to_update.len()
                == 0),
    {
        self.to_insert.len() == 0 && self.to_delete.len() == 0 && self.to_update.len() == 0
    }
}

/// The difference between what the remote system reports and what is
/// stored, both for the same window: each list in the order of its source.
pub open spec fn difference(remote: Seq<BookingView>, local: Seq<BookingView>) -> ChangesView {
    ChangesView {
        to_insert: remote.filter(absent_from(local)),
        to_delete: ids_of(local.filter(absent_from(remote))),
        to_update: remote.filter(changed_from(local)),
    }
}

/// Whether a booking with the id `id` is among `list`.
pub fn holds_id(list: &Vec<Booking>, id: i64) -> (b: bool)
    ensures
        b == has_id(views(list@), id as int),
{
    let mut i: usize = 0;
    while i < list.len()
        invariant
            i <= list@.len(),
            forall|j: int| 0 <= j < i ==> (#[trigger] views(list@)[j]).booking_id != id,
        decreases list@.len() - i,
    {
        if list[i].booking_id == id {
            assert(views(list@)[i as int].booking_id == id);
            return true;
        }
        i += 1;
    }
    false
}

/// Whether `list` holds a booking with the id of `booking` that differs
/// from it in some field.
pub fn holds_changed(list: &Vec<Booking>, booking: &Booking) -> (b: bool)
    ensures
        b == differs_in(views(list@), booking@),
{
    let mut i: usize = 0;
    while i < list.len()
        invariant
            i <= list@.len(),
            forall|j: int|
                0 <= j < i ==> !((#[trigger] views(list@)[j]).booking_id == booking@.booking_id
                    && views(list@)[j] != booking@),
        decreases list@.len() - i,
    {
        if list[i].booking_id == booking.booking_id && !(list[i] == *booking) {
            assert(views(list@)[i as int] == list@[i as int]@);
            return true;
        }
        assert(views(list@)[i as int] == list@[i as int]@);
        i += 1;
    }
    false
}

/// Computes what has to change in the store, given the bookings that the
/// remote system reports and those that are stored for the same window.
/// Bookings are matched by their id alone.
#[verifier::rlimit(40)]
pub fn reconcile(remote: &Vec<Booking>, local: &Vec<Booking>) -> (changes: Changes)
    ensures
        changes@ == difference(views(remote@), views(local@)),
{
    let ghost r = views(remote@);
    let ghost l = views(local@);
    let mut to_insert: Vec<Booking> = Vec::new();
    let mut to_update: Vec<Booking> = Vec::new();
    let mut i: usize = 0;
    while i < remote.len()
        invariant
            i <= remote@.len(),
            r == views(remote@),
            l == views(local@),
            views(to_insert@) == r.take(i as int).filter(absent_from(l)),
            views(to_update@) == r.take(i as int).filter(changed_from(l)),
        decreases remote@.len() - i,
    {
        proof {
            assert(r.take(i + 1) =~= r.take(i as int).push(r[i as int]));
            Seq::lemma_filter_push(r.take(i as int), r[i as int], absent_from(l));
            Seq::lemma_filter_push(r.take(i as int), r[i as int], changed_from(l));
        }
        if !holds_id(local, remote[i].booking_id) {
            let ghost before = to_insert@;
            to_insert.push(remote[i].duplicate());
            assert(views(to_insert@) =~= views(before).push(r[i as int]));
        }
        if holds_changed(local, &remote[i]) {
            let ghost before = to_update@;
            to_update.push(remote[i].duplicate());
            assert(views(to_update@) =~= views(before).push(r[i as int]));
        }
        i += 1;
    }
    assert(r.take(i as int) =~= r);
    let mut to_delete: Vec<i64> = Vec::new();
    let mut k: usize = 0;
    while k < local.len()
        invariant
            k <= local@.len(),
            r == views(remote@),
            l == views(local@),
            id_values(to_delete@) == ids_of(l.take(k as int).filter(absent_from(r))),
        decreases local@.len() - k,
    {
        proof {
            assert(l.take(k + 1) =~= l.take(k as int).push(l[k as int]));
            Seq::lemma_filter_push(l.take(k as int), l[k as int], absent_from(r));
        }
        if !holds_id(remote, local[k].booking_id) {
            let ghost before = to_delete@;
            to_delete.push(local[k].booking_id);
            assert(id_values(to_delete@) =~= id_values(before).push(l[k as int].booking_id));
            assert(ids_of(l.take(k as int).filter(absent_from(r)).push(l[k as int])) =~= ids_of(
                l.take(k as int).filter(absent_from(r)),
            ).push(l[k as int].booking_id));
        }
        k += 1;
    }
    assert(l.take(k as int) =~= l);
    Changes { to_insert, to_delete, to_update }
}


/// The table after the changes are applied to it: first the inserts, then
/// the deletes, then the updates, each in order, up to the first operation
/// that fails; and that operation's error.
pub open spec fn applied(s: Seq<BookingView>, changes: ChangesView) -> (
    Seq<BookingView>,
    Option<DBError>,
) {
    let inserted = insert_each(s, changes.to_insert);
    if !inserted.1 {
        (inserted.0, Some(DBError::InsertBooking(StorageFault::Conflict)))
    } else {
        let updated = update_each(delete_each(inserted.0, changes.to_delete), changes.to_update);
        if updated.1 {
            (updated.0, None)
        } else {
            (updated.0, Some(DBError::UpdateBooking(StorageFault::NotFound)))
        }
    }
}

/// Applies the changes to the store: all inserts, then all deletes, then all
/// updates. The first operation that fails ends the run; what was done
/// before it stays done.
pub fn apply_changes(db: &mut Store, changes: &Changes) -> (r: Result<(), DBError>)
    requires
        old(db).wf(),
    ensures
        final(db).wf(),
        final(db)@ == applied(old(db)@, changes@).0,
        match r {
            Ok(_) => applied(old(db)@, changes@).1 is None,
            Err(e) => applied(old(db)@, changes@).1 == Some(e),
        },
{
    match insert_bookings(db, &changes.to_insert) {
        Ok(_) => {},
        Err(e) => {
            return Err(e);
        },
    }
    match delete_bookings(db, &changes.to_delete) {
        Ok(_) => {},
        Err(e) => {
            return Err(e);
        },
    }
    update_bookings(db, &changes.to_update)
}

/// What a filter keeps: the elements that it was given and that pass.
pub proof fn lemma_filter_members<A>(s: Seq<A>, keep: spec_fn(A) -> bool)
    ensures
        forall|x: A| #[trigger] s.filter(keep).contains(x) <==> s.contains(x) && keep(x),
{
    assert forall|x: A| #[trigger] s.filter(keep).contains(x) <==> s.contains(x) && keep(x) by {
        if s.filter(keep).contains(x) {
            s.lemma_filter_contains_rev(keep, x);
            let i = choose|i: int| 0 <= i < s.filter(keep).len() && s.filter(keep)[i] == x;
            s.lemma_filter_pred(keep, i);
        }
        if s.contains(x) && keep(x) {
            let i = choose|i: int| 0 <= i < s.len() && s[i] == x;
            s.lemma_filter_contains(keep, i);
        }
    }
}

/// A filter that nothing passes keeps nothing.
pub proof fn lemma_filter_none<A>(s: Seq<A>, keep: spec_fn(A) -> bool)
    requires
        forall|x: A| s.contains(x) ==> !keep(x),
    ensures
        s.filter(keep).len() == 0,
{
    lemma_filter_members(s, keep);
    if s.filter(keep).len() > 0 {
        assert(s.filter(keep).contains(s.filter(keep)[0]));
    }
}

/// A booking is among `s` only if its id is.
pub proof fn lemma_member_has_id(s: Seq<BookingView>, b: BookingView)
    requires
        s.contains(b),
    ensures
        has_id(s, b.booking_id),
{
    let i = choose|i: int| 0 <= i < s.len() && s[i] == b;
    assert(s[i].booking_id == b.booking_id);
}

/// Completeness of the difference. For a remote and a local set of bookings,
/// each keyed by its ids: what is to be inserted are exactly the remote
/// bookings whose id is not stored; what is to be deleted are exactly the
/// stored ids that the remote set lacks; what is to be updated are exactly
/// the remote bookings that are stored with other fields. No id stands in
/// two of the three, and a booking that both sets hold with the same fields
/// stands in none.
#[verifier::rlimit(40)]
pub proof fn lemma_difference_complete(remote: Seq<BookingView>, local: Seq<BookingView>)
    requires
        distinct_ids(remote),
        distinct_ids(local),
    ensures
        forall|b: BookingView| #[trigger]
            difference(remote, local).to_insert.contains(b) <==> remote.contains(b) && !has_id(
                local,
                b.booking_id,
            ),
        forall|id: int| #[trigger]
            difference(remote, local).to_delete.contains(id) <==> has_id(local, id) && !has_id(
                remote,
                id,
            ),
        forall|b: BookingView| #[trigger]
            difference(remote, local).to_update.contains(b) <==> remote.contains(b) && has_id(
                local,
                b.booking_id,
            ) && !local.contains(b),
        forall|id: int|
            !(#[trigger] has_id(difference(remote, local).to_insert, id) && difference(
                remote,
                local,
            ).to_delete.contains(id)),
        forall|id: int|
            !(#[trigger] has_id(difference(remote, local).to_insert, id) && has_id(
                difference(remote, local).to_update,
                id,
            )),
        forall|id: int|
            !(#[trigger] has_id(difference(remote, local).to_update, id) && difference(
                remote,
                local,
            ).to_delete.contains(id)),
        forall|b: BookingView|
            remote.contains(b) && local.contains(b) ==> {
                &&& !(#[trigger] has_id(difference(remote, local).to_insert, b.booking_id))
                &&& !difference(remote, local).to_delete.contains(b.booking_id)
                &&& !has_id(difference(remote, local).to_update, b.booking_id)
            },
{
    let d = difference(remote, local);
    lemma_filter_members(remote, absent_from(local));
    lemma_filter_members(remote, changed_from(local));
    lemma_filter_members(local, absent_from(remote));
    let gone = local.filter(absent_from(remote));
    assert forall|id: int| #[trigger] d.to_delete.contains(id) <==> has_id(local, id) && !has_id(
        remote,
        id,
    ) by {
        if d.to_delete.contains(id) {
            let i = choose|i: int| 0 <= i < d.to_delete.len() && d.to_delete[i] == id;
            assert(gone.contains(gone[i]));
            lemma_member_has_id(local, gone[i]);
        }
        if has_id(local, id) && !has_id(remote, id) {
            let i = choose|i: int| 0 <= i < local.len() && (#[trigger] local[i]).booking_id == id;
            assert(local.contains(local[i]));
            assert(gone.contains(local[i]));
            let k = choose|k: int| 0 <= k < gone.len() && gone[k] == local[i];
            assert(d.to_delete[k] == id);
        }
    }
    assert forall|b: BookingView| #[trigger]
        d.to_update.contains(b) <==> remote.contains(b) && has_id(local, b.booking_id)
            && !local.contains(b) by {
        if d.to_update.contains(b) {
            let i = choose|i: int|
                0 <= i < local.len() && (#[trigger] local[i]).booking_id == b.booking_id
                    && local[i] != b;
            if local.contains(b) {
                let j = choose|j: int| 0 <= j < local.len() && local[j] == b;
                assert(local[j].booking_id == local[i].booking_id);
            }
        }
        if remote.contains(b) && has_id(local, b.booking_id) && !local.contains(b) {
            let i = choose|i: int|
                0 <= i < local.len() && (#[trigger] local[i]).booking_id == b.booking_id;
            assert(local.contains(local[i]));
            assert(differs_in(local, b));
        }
    }
    assert forall|id: int| has_id(d.to_insert, id) implies has_id(remote, id) && !has_id(
        local,
        id,
    ) by {
        let i = choose|i: int| 0 <= i < d.to_insert.len() && (#[trigger] d.to_insert[i]).booking_id
            == id;
        assert(d.to_insert.contains(d.to_insert[i]));
        lemma_member_has_id(remote, d.to_insert[i]);
    }
    assert forall|id: int| has_id(d.to_update, id) implies has_id(remote, id) && has_id(
        local,
        id,
    ) by {
        let i = choose|i: int| 0 <= i < d.to_update.len() && (#[trigger] d.to_update[i]).booking_id
            == id;
        assert(d.to_update.contains(d.to_update[i]));
        lemma_member_has_id(remote, d.to_update[i]);
    }
    assert forall|b: BookingView| remote.contains(b) && local.contains(b) implies {
        &&& !(#[trigger] has_id(d.to_insert, b.booking_id))
        &&& !d.to_delete.contains(b.booking_id)
        &&& !has_id(d.to_update, b.booking_id)
    } by {
        lemma_member_has_id(remote, b);
        lemma_member_has_id(local, b);
        if has_id(d.to_update, b.booking_id) {
            let i = choose|i: int|
                0 <= i < d.to_update.len() && (#[trigger] d.to_update[i]).booking_id
                    == b.booking_id;
            let u = d.to_update[i];
            assert(d.to_update.contains(u));
            let m = choose|m: int| 0 <= m < remote.len() && remote[m] == u;
            let n = choose|n: int| 0 <= n < remote.len() && remote[n] == b;
            assert(remote[m].booking_id == remote[n].booking_id);
            assert(u == b);
        }
    }
}

} // verus!
