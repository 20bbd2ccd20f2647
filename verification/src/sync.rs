//! One synchronisation cycle and the schedule that repeats it.

use crate::booking::{views, Booking, BookingView};
use crate::db::{
    delete_each, distinct_ids, get_bookings_in_timeframe, has_id, in_window, insert_each,
    is_table, lemma_delete_each, lemma_filter_keeps_table, lemma_insert_each, lemma_update_each,
    not_ended_before, prune_before, stored_values, update_each, DBError, Store,
};
use crate::pull_from_ct::{CTApiError, ParseFault};
use crate::reconcile::{
    absent_from, applied, apply_changes, changed_from, difference, differs_in,
    lemma_difference_complete, lemma_filter_members, lemma_filter_none, lemma_member_has_id,
    reconcile, Changes, ChangesView,
};
use crate::time::{Instant, InstantView};
use vstd::prelude::*;
use vstd::string::*;

verus! {

/// Something went wrong while gathering the remote bookings into the store.
#[derive(Debug, Clone, PartialEq, Eq)]
pub enum GatherError {
    DB(DBError),
    CT(CTApiError),
}

impl From<DBError> for GatherError {
    fn from(value: DBError) -> (r: GatherError) {
        GatherError::DB(value)
    }
}

impl vstd::std_specs::convert::FromSpecImpl<DBError> for GatherError {
    open spec fn obeys_from_spec() -> bool {
        true
    }

    open spec fn from_spec(value: DBError) -> GatherError {
        GatherError::DB(value)
    }
}

impl From<CTApiError> for GatherError {
    fn from(value: CTApiError) -> (r: GatherError) {
        GatherError::CT(value)
    }
}

impl vstd::std_specs::convert::FromSpecImpl<CTApiError> for GatherError {
    open spec fn obeys_from_spec() -> bool {
        true
    }

    open spec fn from_spec(value: CTApiError) -> GatherError {
        GatherError::CT(value)
    }
}

impl GatherError {
    /// The message of the error: which side failed, and how.
    pub open spec fn message_text(self) -> Seq<char> {
        match self {
            GatherError::DB(e) => "DBError: "@ + e.message_text(),
            GatherError::CT(e) => "CTApiError: "@ + e.message_text(),
        }
    }

    /// The error in words.
    pub fn message(&self) -> (text: String)
        ensures
            text@ == self.message_text(),
    {
        match self {
            GatherError::DB(e) => {
                let mut out = "DBError: ".to_owned();
                out.append(e.message().as_str());
                out
            },
            GatherError::CT(e) => {
                let mut out = "CTApiError: ".to_owned();
                out.append(e.message().as_str());
                out
            },
        }
    }
}

/// The window of one cycle: from the midnight that began the day of the
/// cycle to the last second of the day after. The remote system is asked
/// for the two days, the store for the interval between the two moments.
#[derive(Debug, Clone, Copy, PartialEq, Eq)]
pub struct SyncWindow {
    pub start: Instant,
    pub end: Instant,
}

/// The window of the cycle that runs at `now`: one day of lookahead.
/// `None` on the last day of the year 9999, which has no day after it.
pub fn sync_window(now: &Instant) -> (r: Option<SyncWindow>)
    ensures
        match r {
            Some(w) => {
                &&& !now@.is_last_day()
                &&& w.start@ == now@.midnight()
                &&& w.end@ == now@.next_day().last_second()
                &&& w.start@.wf()
                &&& w.end@.wf()
            },
            None => now@.is_last_day(),
        },
{
    match now.next_day() {
        Some(tomorrow) => Some(SyncWindow { start: now.midnight(), end: tomorrow.last_second() }),
        None => None,
    }
}

/// Whether some id occurs twice among `list`.
pub fn has_duplicate_ids(list: &Vec<Booking>) -> (b: bool)
    ensures
        b == !distinct_ids(views(list@)),
{
    let ghost s = views(list@);
    let mut j: usize = 0;
    while j < list.len()
        invariant
            j <= list@.len(),
            s == views(list@),
            forall|a: int, c: int|
                0 <= a < c < j ==> (#[trigger] s[a]).booking_id != (#[trigger] s[c]).booking_id,
        decreases list@.len() - j,
    {
        let mut i: usize = 0;
        while i < j
            invariant
                i <= j < list@.len(),
                s == views(list@),
                forall|a: int| 0 <= a < i ==> (#[trigger] s[a]).booking_id != s[j as int].booking_id,
            decreases j - i,
        {
            if list[i].booking_id == list[j].booking_id {
                assert(s[i as int].booking_id == s[j as int].booking_id);
                return true;
            }
            i += 1;
        }
        j += 1;
    }
    false
}

/// What was fetched, as mathematical values.
pub open spec fn fetched_view(fetched: Result<Vec<Booking>, CTApiError>) -> Result<
    Seq<BookingView>,
    CTApiError,
> {
    match fetched {
        Ok(remote) => Ok(views(remote@)),
        Err(e) => Err(e),
    }
}

/// The table after one reconciliation, and the error that ended it early.
///
/// A failed fetch changes nothing. So does an answer in which an id occurs
/// twice: it counts as an answer outside the protocol. Otherwise the stored
/// bookings of the window are compared with the remote ones and the
/// difference is applied.
pub open spec fn gathered(
    s: Seq<BookingView>,
    fetched: Result<Seq<BookingView>, CTApiError>,
    start: InstantView,
    end: InstantView,
) -> (Seq<BookingView>, Option<GatherError>) {
    match fetched {
        Err(e) => (s, Some(GatherError::CT(e))),
        Ok(remote) => if !distinct_ids(remote) {
            (s, Some(GatherError::CT(CTApiError::Deserialize)))
        } else {
            let done = applied(s, difference(remote, s.filter(in_window(start, end))));
            match done.1 {
                Some(e) => (done.0, Some(GatherError::DB(e))),
                None => (done.0, None),
            }
        },
    }
}

/// Brings what was fetched from the remote system for `window` into the
/// store: new bookings are inserted, bookings that are no longer reported
/// are deleted, changed ones are updated. A failure on the way leaves what
/// was done before it.
pub fn get_bookings_into_db(
    db: &mut Store,
    fetched: Result<Vec<Booking>, CTApiError>,
    window: &SyncWindow,
) -> (r: Result<(), GatherError>)
    requires
        old(db).wf(),
    ensures
        final(db).wf(),
        final(db)@ == gathered(
            old(db)@,
            fetched_view(fetched),
            window.start@.whole_second(),
            window.end@.whole_second(),
        ).0,
        match r {
            Ok(_) => gathered(
                old(db)@,
                fetched_view(fetched),
                window.start@.whole_second(),
                window.end@.whole_second(),
            ).1 is None,
            Err(e) => gathered(
                old(db)@,
                fetched_view(fetched),
                window.start@.whole_second(),
                window.end@.whole_second(),
            ).1 == Some(e),
        },
{
    let bookings_from_ct = match fetched {
        Ok(remote) => remote,
        Err(e) => {
            return Err(GatherError::CT(e));
        },
    };
    if has_duplicate_ids(&bookings_from_ct) {
        return Err(GatherError::CT(CTApiError::Deserialize));
    }
    let bookings_from_db = match get_bookings_in_timeframe(db, window.start, window.end) {
        Ok(local) => local,
        Err(e) => {
            return Err(GatherError::DB(e));
        },
    };
    let changes = reconcile(&bookings_from_ct, &bookings_from_db);
    match apply_changes(db, &changes) {
        Ok(_) => Ok(()),
        Err(e) => Err(GatherError::DB(e)),
    }
}


/// Reconciliation is idempotent. Take a store and a remote set of bookings,
/// keyed by their ids, at whole seconds and all within the window. If one
/// reconciliation goes through, the store then holds every remote booking,
/// and a second one with the same remote set finds nothing to insert, to
/// delete or to update, and leaves the store as it is.
#[verifier::rlimit(40)]
pub proof fn lemma_reconciliation_idempotent(
    s: Seq<BookingView>,
    remote: Seq<BookingView>,
    start: InstantView,
    end: InstantView,
)
    requires
        is_table(s),
        is_table(remote),
        forall|i: int| 0 <= i < remote.len() ==> (#[trigger] remote[i]).intersects(start, end),
        gathered(s, Ok(remote), start, end).1 is None,
    ensures
        is_table(gathered(s, Ok(remote), start, end).0),
        forall|i: int|
            0 <= i < remote.len() ==> gathered(s, Ok(remote), start, end).0.contains(
                #[trigger] remote[i],
            ),
        ({
            let t = gathered(s, Ok(remote), start, end).0;
            let again = difference(remote, t.filter(in_window(start, end)));
            &&& again.to_insert.len() == 0
            &&& again.to_delete.len() == 0
            &&& again.to_update.len() == 0
            &&& gathered(t, Ok(remote), start, end) == (t, None::<GatherError>)
        }),
{
    let w = in_window(start, end);
    let local = s.filter(w);
    let d = difference(remote, local);
    let ins = d.to_insert;
    let del = d.to_delete;
    let upd = d.to_update;
    lemma_filter_keeps_table(s, w);
    lemma_filter_members(s, w);
    lemma_difference_complete(remote, local);
    lemma_filter_keeps_table(remote, absent_from(local));
    lemma_filter_keeps_table(remote, changed_from(local));
    lemma_filter_members(remote, absent_from(local));
    lemma_filter_members(remote, changed_from(local));
    let s1 = insert_each(s, ins).0;
    lemma_insert_each(s, ins);
    assert(stored_values(ins) =~= ins) by {
        assert forall|k: int| 0 <= k < ins.len() implies stored_values(ins)[k] == ins[k] by {
            assert(ins[k].start_time.nanos == 0 && ins[k].end_time.nanos == 0);
            assert(ins[k].stored().start_time == ins[k].start_time);
            assert(ins[k].stored().end_time == ins[k].end_time);
        }
    }
    assert(s1 == s + ins);
    assert(is_table(s1)) by {
        assert forall|i: int, j: int| 0 <= i < j < s1.len() implies (#[trigger] s1[i]).booking_id
            != (#[trigger] s1[j]).booking_id by {
            if j < s.len() {
                assert(s[i].booking_id != s[j].booking_id);
            } else if i < s.len() {
                assert(!has_id(s, ins[j - s.len()].booking_id));
            } else {
                assert(ins[i - s.len()].booking_id != ins[j - s.len()].booking_id);
            }
        }
        assert forall|i: int| 0 <= i < s1.len() implies {
            &&& (#[trigger] s1[i]).start_time.wf()
            &&& s1[i].end_time.wf()
            &&& s1[i].start_time.nanos == 0
            &&& s1[i].end_time.nanos == 0
        } by {
            if i < s.len() {
                assert(s[i].start_time.wf());
            } else {
                assert(ins[i - s.len()].start_time.wf());
            }
        }
    }
    let s2 = delete_each(s1, del);
    lemma_delete_each(s1, del);
    let t = update_each(s2, upd).0;
    assert(t == gathered(s, Ok(remote), start, end).0);
    lemma_update_each(s2, upd);
    assert(is_table(t)) by {
        assert forall|i: int, j: int| 0 <= i < j < t.len() implies (#[trigger] t[i]).booking_id
            != (#[trigger] t[j]).booking_id by {
            assert(s2[i].booking_id != s2[j].booking_id);
        }
        assert forall|i: int| 0 <= i < t.len() implies {
            &&& (#[trigger] t[i]).start_time.wf()
            &&& t[i].end_time.wf()
            &&& t[i].start_time.nanos == 0
            &&& t[i].end_time.nanos == 0
        } by {
            if has_id(upd, s2[i].booking_id) {
                let k = choose|k: int|
                    0 <= k < upd.len() && (#[trigger] upd[k]).booking_id == s2[i].booking_id;
                assert(t[i] == upd[k].stored());
                assert(upd[k].start_time.wf());
            } else {
                assert(t[i] == s2[i]);
                assert(s2[i].start_time.wf());
            }
        }
    }
    // Every remote booking is stored afterwards.
    assert forall|b: BookingView| remote.contains(b) implies t.contains(b) by {
        lemma_member_has_id(remote, b);
        assert(b.start_time.nanos == 0 && b.end_time.nanos == 0 && b.stored() == b) by {
            let m = choose|m: int| 0 <= m < remote.len() && remote[m] == b;
            assert(remote[m].start_time.nanos == 0);
            assert(b.stored().start_time == b.start_time);
            assert(b.stored().end_time == b.end_time);
        }
        if !has_id(local, b.booking_id) {
            assert(ins.contains(b));
            let k = choose|k: int| 0 <= k < ins.len() && ins[k] == b;
            assert(s1[s.len() + k] == b);
            assert(s1.contains(b));
            assert(!del.contains(b.booking_id));
            assert(s2.contains(b));
            let i = choose|i: int| 0 <= i < s2.len() && s2[i] == b;
            if has_id(upd, b.booking_id) {
                let u = choose|u: int|
                    0 <= u < upd.len() && (#[trigger] upd[u]).booking_id == b.booking_id;
                assert(upd.contains(upd[u]));
                assert(false);
            }
            assert(t[i] == s2[i]);
        } else {
            let j = choose|j: int|
                0 <= j < local.len() && (#[trigger] local[j]).booking_id == b.booking_id;
            let l = local[j];
            assert(local.contains(l));
            assert(s.contains(l));
            let p = choose|p: int| 0 <= p < s.len() && s[p] == l;
            assert(s1[p] == l);
            assert(s1.contains(l));
            assert(!del.contains(l.booking_id));
            assert(s2.contains(l));
            let i = choose|i: int| 0 <= i < s2.len() && s2[i] == l;
            if l == b {
                if has_id(upd, b.booking_id) {
                    let u = choose|u: int|
                        0 <= u < upd.len() && (#[trigger] upd[u]).booking_id == b.booking_id;
                    assert(upd.contains(upd[u]));
                    assert(remote.contains(upd[u]));
                    let m = choose|m: int| 0 <= m < remote.len() && remote[m] == b;
                    let n = choose|n: int| 0 <= n < remote.len() && remote[n] == upd[u];
                    assert(remote[m].booking_id == remote[n].booking_id);
                    assert(upd[u] == b);
                    assert(local.contains(b));
                    assert(false);
                }
                assert(t[i] == s2[i]);
            } else {
                assert(!local.contains(b)) by {
                    if local.contains(b) {
                        let q = choose|q: int| 0 <= q < local.len() && local[q] == b;
                        assert(local[q].booking_id == local[j].booking_id);
                    }
                }
                assert(upd.contains(b));
                let u = choose|u: int| 0 <= u < upd.len() && upd[u] == b;
                assert(upd[u].booking_id == s2[i].booking_id);
                assert(t[i] == upd[u].stored());
            }
            assert(t[i] == b);
        }
    }
    assert forall|i: int| 0 <= i < remote.len() implies t.contains(#[trigger] remote[i]) by {
        assert(remote.contains(remote[i]));
    }
    // Every stored booking within the window is a remote one.
    assert forall|x: BookingView| t.contains(x) && w(x) implies has_id(remote, x.booking_id) by {
        let i = choose|i: int| 0 <= i < t.len() && t[i] == x;
        let y = s2[i];
        if has_id(upd, y.booking_id) {
            let u = choose|u: int|
                0 <= u < upd.len() && (#[trigger] upd[u]).booking_id == y.booking_id;
            assert(upd.contains(upd[u]));
            lemma_member_has_id(remote, upd[u]);
        } else {
            assert(x == y);
            assert(s2.contains(y));
            assert(s1.contains(y));
            let p = choose|p: int| 0 <= p < s1.len() && s1[p] == y;
            if p < s.len() {
                assert(s.contains(s[p]));
                assert(local.contains(y));
                lemma_member_has_id(local, y);
                assert(!del.contains(y.booking_id));
            } else {
                assert(ins.contains(ins[p - s.len()]));
                lemma_member_has_id(remote, y);
            }
        }
    }
    let local2 = t.filter(w);
    lemma_filter_members(t, w);
    lemma_filter_keeps_table(t, w);
    let again = difference(remote, local2);
    assert(again.to_insert.len() == 0) by {
        assert forall|b: BookingView| remote.contains(b) implies !absent_from(local2)(b) by {
            let m = choose|m: int| 0 <= m < remote.len() && remote[m] == b;
            assert(remote[m].intersects(start, end));
            assert(local2.contains(b));
            lemma_member_has_id(local2, b);
        }
        lemma_filter_none(remote, absent_from(local2));
    }
    assert(again.to_update.len() == 0) by {
        assert forall|b: BookingView| remote.contains(b) implies !changed_from(local2)(b) by {
            let m = choose|m: int| 0 <= m < remote.len() && remote[m] == b;
            assert(remote[m].intersects(start, end));
            assert(local2.contains(b));
            if differs_in(local2, b) {
                let q = choose|q: int|
                    0 <= q < local2.len() && (#[trigger] local2[q]).booking_id == b.booking_id
                        && local2[q] != b;
                let r = choose|r: int| 0 <= r < local2.len() && local2[r] == b;
                assert(local2[q].booking_id == local2[r].booking_id);
                assert(false);
            }
        }
        lemma_filter_none(remote, changed_from(local2));
    }
    assert(again.to_delete.len() == 0) by {
        assert forall|x: BookingView| local2.contains(x) implies !absent_from(remote)(x) by {
            assert(t.contains(x) && w(x));
        }
        lemma_filter_none(local2, absent_from(remote));
    }
    assert(again.to_insert =~= Seq::empty());
    assert(again.to_update =~= Seq::empty());
    assert(again.to_delete =~= Seq::empty());
}


/// How one cycle ended: the outcome of the reconciliation and that of the
/// pruning. Neither failure stops the schedule.
#[derive(Debug, PartialEq, Eq)]
pub struct CycleReport {
    pub gathered: Result<(), GatherError>,
    pub pruned: Result<u64, DBError>,
}

/// What has happened, as the driver of the schedule reports it.
#[derive(Debug)]
pub enum SyncEvent {
    /// The timer has fired at the given moment; the first tick comes at once.
    Tick(Instant),
    /// Shutdown was signalled while the scheduler waited.
    Shutdown,
    /// The remote system has answered, or failed to.
    Fetched(Result<Vec<Booking>, CTApiError>),
    /// The store has handed out the bookings of the window, or failed to.
    Selected(Result<Vec<Booking>, DBError>),
    /// The changes have been applied, or the first failure among them.
    Applied(Result<(), DBError>),
    /// The store has been pruned of so many bookings, or failed to.
    Pruned(Result<u64, DBError>),
}

/// What the driver of the schedule is to do next.
#[derive(Debug)]
pub enum SyncStep {
    /// Ask the remote system for the bookings of the window's days.
    Fetch(SyncWindow),
    /// Read the stored bookings that meet the window.
    Select(SyncWindow),
    /// Apply the changes to the store: inserts, deletes, updates.
    Apply(Changes),
    /// Delete the stored bookings that end before the given moment.
    Prune(Instant),
    /// The cycle is over: wait for the next tick or for shutdown.
    Wait(CycleReport),
    /// Stop.
    Exit,
}

/// Where the scheduler stands.
#[derive(Debug)]
pub enum SyncPhase {
    /// Between two cycles.
    Waiting,
    /// The remote system has been asked.
    Fetching(SyncWindow),
    /// The store has been asked for what it holds of the window.
    Selecting(SyncWindow, Vec<Booking>),
    /// The changes are being applied.
    Applying,
    /// The store is being pruned; the reconciliation has ended as given.
    Pruning(Result<(), GatherError>),
    /// Shutdown has been seen: nothing more is done.
    Stopping,
}

/// The mathematical value of a [`SyncEvent`].
pub enum SyncEventView {
    Tick(InstantView),
    Shutdown,
    Fetched(Result<Seq<BookingView>, CTApiError>),
    Selected(Result<Seq<BookingView>, DBError>),
    Applied(Result<(), DBError>),
    Pruned(Result<u64, DBError>),
}

/// The mathematical value of a [`SyncStep`].
pub enum SyncStepView {
    Fetch(InstantView, InstantView),
    Select(InstantView, InstantView),
    Apply(ChangesView),
    Prune(InstantView),
    Wait(CycleReport),
    Exit,
}

/// The mathematical value of a [`SyncPhase`].
pub enum SyncPhaseView {
    Waiting,
    Fetching(InstantView, InstantView),
    Selecting(InstantView, InstantView, Seq<BookingView>),
    Applying,
    Pruning(Result<(), GatherError>),
    Stopping,
}

impl View for SyncEvent {
    type V = SyncEventView;

    open spec fn view(&self) -> SyncEventView {
        match *self {
            SyncEvent::Tick(now) => SyncEventView::Tick(now@),
            SyncEvent::Shutdown => SyncEventView::Shutdown,
            SyncEvent::Fetched(r) => SyncEventView::Fetched(fetched_view(r)),
            SyncEvent::Selected(r) => SyncEventView::Selected(
                match r {
                    Ok(local) => Ok(views(local@)),
                    Err(e) => Err(e),
                },
            ),
            SyncEvent::Applied(r) => SyncEventView::Applied(r),
            SyncEvent::Pruned(r) => SyncEventView::Pruned(r),
        }
    }
}

impl View for SyncStep {
    type V = SyncStepView;

    open spec fn view(&self) -> SyncStepView {
        match *self {
            SyncStep::Fetch(w) => SyncStepView::Fetch(w.start@, w.end@),
            SyncStep::Select(w) => SyncStepView::Select(w.start@, w.end@),
            SyncStep::Apply(changes) => SyncStepView::Apply(changes@),
            SyncStep::Prune(before) => SyncStepView::Prune(before@),
            SyncStep::Wait(report) => SyncStepView::Wait(report),
            SyncStep::Exit => SyncStepView::Exit,
        }
    }
}

impl View for SyncPhase {
    type V = SyncPhaseView;

    open spec fn view(&self) -> SyncPhaseView {
        match *self {
            SyncPhase::Waiting => SyncPhaseView::Waiting,
            SyncPhase::Fetching(w) => SyncPhaseView::Fetching(w.start@, w.end@),
            SyncPhase::Selecting(w, remote) => SyncPhaseView::Selecting(
                w.start@,
                w.end@,
                views(remote@),
            ),
            SyncPhase::Applying => SyncPhaseView::Applying,
            SyncPhase::Pruning(gathered) => SyncPhaseView::Pruning(gathered),
            SyncPhase::Stopping => SyncPhaseView::Stopping,
        }
    }
}

/// The mathematical value of a [`SyncScheduler`]: the moment of the last
/// tick, and where in the cycle it stands.
pub struct SyncSchedulerView {
    pub now: InstantView,
    pub phase: SyncPhaseView,
}

/// The scheduler's rule. Given where it stands and what has happened, where
/// it stands next and what is to be done; `None` for an event that does
/// not belong to the phase.
///
/// A tick starts a cycle: fetch, select, apply, prune, in this order. A
/// failure of the fetch, an answer that names an id twice, a failure of the
/// select and a day without a day after it each end the reconciliation and
/// lead straight to the pruning, which goes by the midnight that began the
/// day of the tick. Shutdown is seen only while waiting, and is final.
pub open spec fn transition(s: SyncSchedulerView, event: SyncEventView) -> Option<
    (SyncSchedulerView, SyncStepView),
> {
    match (s.phase, event) {
        (SyncPhaseView::Stopping, _) => Some((s, SyncStepView::Exit)),
        (SyncPhaseView::Waiting, SyncEventView::Shutdown) => Some(
            (SyncSchedulerView { phase: SyncPhaseView::Stopping, ..s }, SyncStepView::Exit),
        ),
        (SyncPhaseView::Waiting, SyncEventView::Tick(now)) => if now.is_last_day() {
            Some(
                (
                    SyncSchedulerView {
                        now,
                        phase: SyncPhaseView::Pruning(
                            Err(GatherError::CT(CTApiError::ParseTime(ParseFault::OutOfRange))),
                        ),
                    },
                    SyncStepView::Prune(now.midnight()),
                ),
            )
        } else {
            Some(
                (
                    SyncSchedulerView {
                        now,
                        phase: SyncPhaseView::Fetching(
                            now.midnight(),
                            now.next_day().last_second(),
                        ),
                    },
                    SyncStepView::Fetch(now.midnight(), now.next_day().last_second()),
                ),
            )
        },
        (SyncPhaseView::Fetching(start, end), SyncEventView::Fetched(Err(e))) => Some(
            (
                SyncSchedulerView { phase: SyncPhaseView::Pruning(Err(GatherError::CT(e))), ..s },
                SyncStepView::Prune(s.now.midnight()),
            ),
        ),
        (SyncPhaseView::Fetching(start, end), SyncEventView::Fetched(Ok(remote))) => if distinct_ids(
            remote,
        ) {
            Some(
                (
                    SyncSchedulerView { phase: SyncPhaseView::Selecting(start, end, remote), ..s },
                    SyncStepView::Select(start, end),
                ),
            )
        } else {
            Some(
                (
                    SyncSchedulerView {
                        phase: SyncPhaseView::Pruning(
                            Err(GatherError::CT(CTApiError::Deserialize)),
                        ),
                        ..s
                    },
                    SyncStepView::Prune(s.now.midnight()),
                ),
            )
        },
        (SyncPhaseView::Selecting(start, end, remote), SyncEventView::Selected(Err(e))) => Some(
            (
                SyncSchedulerView { phase: SyncPhaseView::Pruning(Err(GatherError::DB(e))), ..s },
                SyncStepView::Prune(s.now.midnight()),
            ),
        ),
        (SyncPhaseView::Selecting(start, end, remote), SyncEventView::Selected(Ok(local))) => Some(
            (
                SyncSchedulerView { phase: SyncPhaseView::Applying, ..s },
                SyncStepView::Apply(difference(remote, local)),
            ),
        ),
        (SyncPhaseView::Applying, SyncEventView::Applied(r)) => Some(
            (
                SyncSchedulerView {
                    phase: SyncPhaseView::Pruning(
                        match r {
                            Ok(_) => Ok(()),
                            Err(e) => Err(GatherError::DB(e)),
                        },
                    ),
                    ..s
                },
                SyncStepView::Prune(s.now.midnight()),
            ),
        ),
        (SyncPhaseView::Pruning(gathered), SyncEventView::Pruned(pruned)) => Some(
            (
                SyncSchedulerView { phase: SyncPhaseView::Waiting, ..s },
                SyncStepView::Wait(CycleReport { gathered, pruned }),
            ),
        ),
        _ => None,
    }
}

/// Only shutdown stops the schedule. A scheduler that has not stopped
/// stops on exactly one event, shutdown while it waits; whatever else
/// happens, failures of the remote system and of the store included, it
/// goes on. Once stopped it stays stopped and asks for nothing more.
pub proof fn lemma_only_shutdown_stops(s: SyncSchedulerView, event: SyncEventView)
    ensures
        s.phase is Stopping ==> transition(s, event) == Some((s, SyncStepView::Exit)),
        !(s.phase is Stopping) && transition(s, event) is Some ==> {
            let next = transition(s, event)->0;
            &&& next.0.phase is Stopping <==> s.phase is Waiting && event is Shutdown
            &&& next.1 is Exit <==> s.phase is Waiting && event is Shutdown
        },
        s.phase is Pruning && event is Pruned ==> {
            let next = transition(s, event)->0;
            &&& transition(s, event) is Some
            &&& next.0.phase is Waiting
            &&& next.1 is Wait
        },
{
}

/// The scheduler of the synchronisation: it decides, event by event, what
/// the driver does next. The driver performs the step and reports back.
#[derive(Debug)]
pub struct SyncScheduler {
    now: Instant,
    phase: SyncPhase,
}

impl View for SyncScheduler {
    type V = SyncSchedulerView;

    closed spec fn view(&self) -> SyncSchedulerView {
        SyncSchedulerView { now: self.now@, phase: self.phase@ }
    }
}

impl SyncScheduler {
    /// A scheduler that waits for its first tick. Until then `started` is
    /// its moment.
    pub fn new(started: Instant) -> (r: SyncScheduler)
        ensures
            r@ == (SyncSchedulerView { now: started@, phase: SyncPhaseView::Waiting }),
    {
        SyncScheduler { now: started, phase: SyncPhase::Waiting }
    }

    /// Whether shutdown has been seen.
    pub fn is_stopping(&self) -> (b: bool)
        ensures
            b == (self@.phase is Stopping),
    {
        match self.phase {
            SyncPhase::Stopping => true,
            _ => false,
        }
    }

    /// Whether the scheduler stands between two cycles.
    pub fn is_waiting(&self) -> (b: bool)
        ensures
            b == (self@.phase is Waiting),
    {
        match self.phase {
            SyncPhase::Waiting => true,
            _ => false,
        }
    }

    /// Takes an event and answers with the next step. An event that does
    /// not belong to the phase changes nothing and gets no step.
    pub fn on_event(self, event: SyncEvent) -> (r: (SyncScheduler, Option<SyncStep>))
        ensures
            match r.1 {
                Some(step) => transition(self@, event@) == Some((r.0@, step@)),
                None => transition(self@, event@) is None && r.0@ == self@,
            },
    {
        let now = self.now;
        let boundary = now.midnight();
        match (self.phase, event) {
            (SyncPhase::Stopping, _) => (
                SyncScheduler { now, phase: SyncPhase::Stopping },
                Some(SyncStep::Exit),
            ),
            (SyncPhase::Waiting, SyncEvent::Shutdown) => (
                SyncScheduler { now, phase: SyncPhase::Stopping },
                Some(SyncStep::Exit),
            ),
            (SyncPhase::Waiting, SyncEvent::Tick(at)) => match sync_window(&at) {
                Some(w) => (
                    SyncScheduler { now: at, phase: SyncPhase::Fetching(w) },
                    Some(SyncStep::Fetch(w)),
                ),
                None => (
                    SyncScheduler {
                        now: at,
                        phase: SyncPhase::Pruning(
                            Err(GatherError::CT(CTApiError::ParseTime(ParseFault::OutOfRange))),
                        ),
                    },
                    Some(SyncStep::Prune(at.midnight())),
                ),
            },
            (SyncPhase::Fetching(w), SyncEvent::Fetched(Err(e))) => (
                SyncScheduler { now, phase: SyncPhase::Pruning(Err(GatherError::CT(e))) },
                Some(SyncStep::Prune(boundary)),
            ),
            (SyncPhase::Fetching(w), SyncEvent::Fetched(Ok(remote))) => {
                if has_duplicate_ids(&remote) {
                    (
                        SyncScheduler {
                            now,
                            phase: SyncPhase::Pruning(
                                Err(GatherError::CT(CTApiError::Deserialize)),
                            ),
                        },
                        Some(SyncStep::Prune(boundary)),
                    )
                } else {
                    (
                        SyncScheduler { now, phase: SyncPhase::Selecting(w, remote) },
                        Some(SyncStep::Select(w)),
                    )
                }
            },
            (SyncPhase::Selecting(w, remote), SyncEvent::Selected(Err(e))) => (
                SyncScheduler { now, phase: SyncPhase::Pruning(Err(GatherError::DB(e))) },
                Some(SyncStep::Prune(boundary)),
            ),
            (SyncPhase::Selecting(w, remote), SyncEvent::Selected(Ok(local))) => {
                let changes = reconcile(&remote, &local);
                (SyncScheduler { now, phase: SyncPhase::Applying }, Some(SyncStep::Apply(changes)))
            },
            (SyncPhase::Applying, SyncEvent::Applied(r)) => {
                let gathered = match r {
                    Ok(_) => Ok(()),
                    Err(e) => Err(GatherError::DB(e)),
                };
                (
                    SyncScheduler { now, phase: SyncPhase::Pruning(gathered) },
                    Some(SyncStep::Prune(boundary)),
                )
            },
            (SyncPhase::Pruning(gathered), SyncEvent::Pruned(pruned)) => (
                SyncScheduler { now, phase: SyncPhase::Waiting },
                Some(SyncStep::Wait(CycleReport { gathered, pruned })),
            ),
            (phase, _) => (SyncScheduler { now, phase }, None),
        }
    }
}


/// What one whole cycle makes of the table `s` when it runs at `now` and
/// the remote system answers with `fetched`: the table after reconciliation
/// and pruning, and the report of the cycle.
pub open spec fn cycle(
    s: Seq<BookingView>,
    now: InstantView,
    fetched: Result<Seq<BookingView>, CTApiError>,
) -> (Seq<BookingView>, CycleReport) {
    let reconciled = if now.is_last_day() {
        (s, Some(GatherError::CT(CTApiError::ParseTime(ParseFault::OutOfRange))))
    } else {
        gathered(s, fetched, now.midnight(), now.next_day().last_second())
    };
    let pruned = reconciled.0.filter(not_ended_before(now.midnight()));
    (
        pruned,
        CycleReport {
            gathered: match reconciled.1 {
                Some(e) => Err(e),
                None => Ok(()),
            },
            pruned: Ok((reconciled.0.len() - pruned.len()) as u64),
        },
    )
}

/// Runs one cycle of the schedule against the store, with `fetched` as the
/// remote system's answer: every step that the scheduler asks for is
/// performed on `db` and reported back to it, until it waits again.
///
/// A scheduler that is not waiting takes no tick: nothing happens then.
#[verifier::rlimit(40)]
pub fn run_cycle(
    scheduler: SyncScheduler,
    db: &mut Store,
    now: Instant,
    fetched: Result<Vec<Booking>, CTApiError>,
) -> (r: (SyncScheduler, Option<CycleReport>))
    requires
        old(db).wf(),
    ensures
        final(db).wf(),
        scheduler@.phase is Waiting ==> {
            &&& r.0@ == (SyncSchedulerView { now: now@, phase: SyncPhaseView::Waiting })
            &&& r.1 == Some(cycle(old(db)@, now@, fetched_view(fetched)).1)
            &&& final(db)@ == cycle(old(db)@, now@, fetched_view(fetched)).0
        },
        !(scheduler@.phase is Waiting) ==> r.0@ == scheduler@ && r.1 is None && final(db)@ == old(
            db,
        )@,
{
    let ghost table = db@;
    let ghost answer = fetched_view(fetched);
    proof {
        assert(now@.midnight().whole_second() == now@.midnight());
        assert(now@.next_day().last_second().whole_second() == now@.next_day().last_second());
    }
    let (scheduler, step) = scheduler.on_event(SyncEvent::Tick(now));
    let (scheduler, step) = match step {
        Some(SyncStep::Fetch(_)) => scheduler.on_event(SyncEvent::Fetched(fetched)),
        other => (scheduler, other),
    };
    let (scheduler, step) = match step {
        Some(SyncStep::Select(w)) => {
            let local = get_bookings_in_timeframe(db, w.start, w.end);
            scheduler.on_event(SyncEvent::Selected(local))
        },
        other => (scheduler, other),
    };
    let (scheduler, step) = match step {
        Some(SyncStep::Apply(changes)) => {
            let done = apply_changes(db, &changes);
            scheduler.on_event(SyncEvent::Applied(done))
        },
        other => (scheduler, other),
    };
    let (scheduler, step) = match step {
        Some(SyncStep::Prune(before)) => {
            let removed = prune_before(db, &before);
            scheduler.on_event(SyncEvent::Pruned(Ok(removed)))
        },
        other => (scheduler, other),
    };
    match step {
        Some(SyncStep::Wait(report)) => (scheduler, Some(report)),
        _ => (scheduler, None),
    }
}

} // verus!
