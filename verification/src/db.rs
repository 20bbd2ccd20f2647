//! The booking store: a table of bookings keyed by their id, each kept in
//! the storage encoding, with the operations that read and change it.

use crate::booking::{views, Booking, BookingView};
use crate::time::{lemma_storage_round_trip, parse_storage, Instant, InstantView};
use vstd::prelude::*;
use vstd::string::*;

verus! {

/// Why an operation of the store failed.
#[derive(Debug, Clone, PartialEq, Eq)]
pub enum StorageFault {
    /// A booking with this id is stored already.
    Conflict,
    /// No booking with this id is stored.
    NotFound,
    /// The engine underneath failed; the text describes how.
    Engine(String),
}

/// An error of the store, by the operation that met it.
#[derive(Debug, Clone, PartialEq, Eq)]
pub enum DBError {
    SelectBookings(StorageFault),
    InsertBooking(StorageFault),
    DeleteBooking(StorageFault),
    UpdateBooking(StorageFault),
}

impl StorageFault {
    /// What the fault says of itself.
    pub open spec fn message_text(self) -> Seq<char> {
        match self {
            StorageFault::Conflict => "a booking with this id is stored already"@,
            StorageFault::NotFound => "no booking with this id is stored"@,
            StorageFault::Engine(text) => text@,
        }
    }

    /// The fault in words.
    pub fn message(&self) -> (text: String)
        ensures
            text@ == self.message_text(),
    {
        match self {
            StorageFault::Conflict => "a booking with this id is stored already".to_owned(),
            StorageFault::NotFound => "no booking with this id is stored".to_owned(),
            StorageFault::Engine(text) => text.clone(),
        }
    }
}

impl DBError {
    /// The fault that the operation met.
    pub open spec fn fault(self) -> StorageFault {
        match self {
            DBError::SelectBookings(f) => f,
            DBError::InsertBooking(f) => f,
            DBError::DeleteBooking(f) => f,
            DBError::UpdateBooking(f) => f,
        }
    }

    /// How the message begins, by the operation.
    pub open spec fn message_head(self) -> Seq<char> {
        match self {
            DBError::SelectBookings(_) => "Unable to select bookings from the DB. Inner Error: "@,
            DBError::InsertBooking(_) => "Unable to insert booking into the DB. Inner Error: "@,
            DBError::DeleteBooking(_) => "Unable to delete booking from the DB. Inner Error: "@,
            DBError::UpdateBooking(_) => "Unable to update booking in the DB. Inner Error: "@,
        }
    }

    /// The message of the error: which operation failed, the fault in
    /// words, and a full stop.
    pub open spec fn message_text(self) -> Seq<char> {
        self.message_head() + self.fault().message_text() + "."@
    }

    /// The error in words.
    pub fn message(&self) -> (text: String)
        ensures
            text@ == self.message_text(),
    {
        let mut out = match self {
            DBError::SelectBookings(_) => {
                "Unable to select bookings from the DB. Inner Error: ".to_owned()
            },
            DBError::InsertBooking(_) => {
                "Unable to insert booking into the DB. Inner Error: ".to_owned()
            },
            DBError::DeleteBooking(_) => {
                "Unable to delete booking from the DB. Inner Error: ".to_owned()
            },
            DBError::UpdateBooking(_) => {
                "Unable to update booking in the DB. Inner Error: ".to_owned()
            },
        };
        let inner = match self {
            DBError::SelectBookings(f) => f.message(),
            DBError::InsertBooking(f) => f.message(),
            DBError::DeleteBooking(f) => f.message(),
            DBError::UpdateBooking(f) => f.message(),
        };
        out.append(inner.as_str());
        out.append(".");
        out
    }
}

/// A booking as it is persisted: the times are UTC wall-clock text without
/// a zone, `YYYY-MM-DDTHH:MM:SS`.
#[derive(Debug, Clone)]
pub struct NaiveBooking {
    pub booking_id: i64,
    pub title: String,
    pub resource_id: i64,
    pub start_time: String,
    pub end_time: String,
}

impl NaiveBooking {
    /// The booking that the row stands for, its times read as UTC; `None`
    /// where one of the two texts is no stored time.
    pub open spec fn reading(&self) -> Option<BookingView> {
        match (parse_storage(self.start_time@), parse_storage(self.end_time@)) {
            (Some(start), Some(end)) => Some(
                BookingView {
                    resource_id: self.resource_id as int,
                    booking_id: self.booking_id as int,
                    title: self.title@,
                    start_time: start,
                    end_time: end,
                },
            ),
            _ => None,
        }
    }

    /// The row under which `booking` is persisted.
    pub fn from_booking(booking: &Booking) -> (row: NaiveBooking)
        ensures
            row.reading() == Some(booking@.stored()),
            booking@.start_time.wf(),
            booking@.end_time.wf(),
    {
        let start_time = booking.start_time.to_storage();
        let end_time = booking.end_time.to_storage();
        proof {
            lemma_storage_round_trip(booking.start_time@);
            lemma_storage_round_trip(booking.end_time@);
        }
        NaiveBooking {
            booking_id: booking.booking_id,
            title: booking.title.clone(),
            resource_id: booking.resource_id,
            start_time,
            end_time,
        }
    }

    /// Taking a stored row, interpret its times as UTC.
    pub fn interpret_as_utc(self) -> (r: Option<Booking>)
        ensures
            match r {
                Some(b) => self.reading() == Some(b@),
                None => self.reading() is None,
            },
    {
        let start_time = match Instant::from_storage(self.start_time.as_str()) {
            Some(t) => t,
            None => { return None; },
        };
        let end_time = match Instant::from_storage(self.end_time.as_str()) {
            Some(t) => t,
            None => { return None; },
        };
        Some(
            Booking {
                resource_id: self.resource_id,
                booking_id: self.booking_id,
                title: self.title,
                start_time,
                end_time,
            },
        )
    }

    fn duplicate(&self) -> (r: NaiveBooking)
        ensures
            r == *self,
    {
        NaiveBooking {
            booking_id: self.booking_id,
            title: self.title.clone(),
            resource_id: self.resource_id,
            start_time: self.start_time.clone(),
            end_time: self.end_time.clone(),
        }
    }
}

/// Whether a booking with the id `id` is among `s`.
pub open spec fn has_id(s: Seq<BookingView>, id: int) -> bool {
    exists|i: int| 0 <= i < s.len() && (#[trigger] s[i]).booking_id == id
}

/// No id occurs twice among `s`.
pub open spec fn distinct_ids(s: Seq<BookingView>) -> bool {
    forall|i: int, j: int|
        0 <= i < j < s.len() ==> (#[trigger] s[i]).booking_id != (#[trigger] s[j]).booking_id
}

/// What holds of the contents of every store: no id occurs twice, and every
/// time is a real moment at whole seconds.
pub open spec fn is_table(s: Seq<BookingView>) -> bool {
    &&& distinct_ids(s)
    &&& forall|i: int|
        0 <= i < s.len() ==> {
            &&& (#[trigger] s[i]).start_time.wf()
            &&& s[i].end_time.wf()
            &&& s[i].start_time.nanos == 0
            &&& s[i].end_time.nanos == 0
        }
}

/// The bookings whose interval meets the closed window from `start` to `end`.
pub open spec fn in_window(start: InstantView, end: InstantView) -> spec_fn(BookingView) -> bool {
    |b: BookingView| b.intersects(start, end)
}

/// The bookings with another id than `id`.
pub open spec fn other_than(id: int) -> spec_fn(BookingView) -> bool {
    |b: BookingView| b.booking_id != id
}

/// The bookings that do not end before `boundary`.
pub open spec fn not_ended_before(boundary: InstantView) -> spec_fn(BookingView) -> bool {
    |b: BookingView| !b.end_time.before(boundary)
}

/// Puts `b`, as it is stored, in the place of the booking with its id.
pub open spec fn replaced_by(b: BookingView) -> spec_fn(BookingView) -> BookingView {
    |r: BookingView|
        if r.booking_id == b.booking_id {
            b.stored()
        } else {
            r
        }
}

/// Whether every one of the rows can be read.
pub open spec fn rows_readable(rows: Seq<NaiveBooking>) -> bool {
    forall|i: int| 0 <= i < rows.len() ==> (#[trigger] rows[i]).reading() is Some
}

/// The bookings that the rows stand for, in order.
pub open spec fn row_values(rows: Seq<NaiveBooking>) -> Seq<BookingView> {
    rows.map_values(|row: NaiveBooking| row.reading().unwrap())
}

/// The store: the table of persisted bookings.
pub struct Store {
    rows: Vec<NaiveBooking>,
}

impl View for Store {
    type V = Seq<BookingView>;

    /// The stored bookings, in the order in which they were inserted.
    closed spec fn view(&self) -> Seq<BookingView> {
        row_values(self.rows@)
    }
}

impl Store {
    /// Every row can be read, and no id occurs twice.
    pub closed spec fn wf(&self) -> bool {
        &&& rows_readable(self.rows@)
        &&& is_table(self@)
    }

    /// The contents of a well-formed store are a table.
    pub proof fn lemma_wf_is_table(&self)
        requires
            self.wf(),
        ensures
            is_table(self@),
    {
    }

    /// A store without bookings.
    pub fn new() -> (db: Store)
        ensures
            db.wf(),
            db@ == Seq::<BookingView>::empty(),
    {
        let db = Store { rows: Vec::new() };
        assert(db@ =~= Seq::<BookingView>::empty());
        db
    }

    /// The store that holds the given rows, as they come from where they
    /// were persisted. `None` where a row cannot be read or an id occurs
    /// twice.
    pub fn from_rows(rows: Vec<NaiveBooking>) -> (r: Option<Store>)
        ensures
            match r {
                Some(db) => db.wf() && rows_readable(rows@) && db@ == row_values(rows@),
                None => !rows_readable(rows@) || !distinct_ids(row_values(rows@)),
            },
    {
        let ghost values = row_values(rows@);
        let mut j: usize = 0;
        while j < rows.len()
            invariant
                j <= rows@.len(),
                values == row_values(rows@),
                forall|a: int| 0 <= a < j ==> (#[trigger] rows@[a]).reading() is Some,
                forall|a: int, c: int|
                    0 <= a < c < j ==> (#[trigger] values[a]).booking_id != (
                    #[trigger] values[c]).booking_id,
            decreases rows@.len() - j,
        {
            if rows[j].duplicate().interpret_as_utc().is_none() {
                return None;
            }
            let mut i: usize = 0;
            while i < j
                invariant
                    i <= j < rows@.len(),
                    values == row_values(rows@),
                    rows@[j as int].reading() is Some,
                    forall|a: int| 0 <= a < j ==> (#[trigger] rows@[a]).reading() is Some,
                    forall|a: int|
                        0 <= a < i ==> (#[trigger] values[a]).booking_id != values[j as int].booking_id,
                decreases j - i,
            {
                if rows[i].booking_id == rows[j].booking_id {
                    assert(values[i as int].booking_id == values[j as int].booking_id);
                    return None;
                }
                assert(values[i as int].booking_id == rows@[i as int].booking_id);
                i += 1;
            }
            j += 1;
        }
        let db = Store { rows };
        proof {
            assert forall|i: int| 0 <= i < values.len() implies {
                &&& (#[trigger] values[i]).start_time.wf()
                &&& values[i].end_time.wf()
                &&& values[i].start_time.nanos == 0
                &&& values[i].end_time.nanos == 0
            } by {
                assert(rows@[i].reading() is Some);
            }
        }
        Some(db)
    }

    /// The rows of the store, as they are to be persisted.
    pub fn to_rows(&self) -> (rows: Vec<NaiveBooking>)
        requires
            self.wf(),
        ensures
            rows_readable(rows@),
            row_values(rows@) == self@,
    {
        let mut rows: Vec<NaiveBooking> = Vec::new();
        let mut i: usize = 0;
        while i < self.rows.len()
            invariant
                self.wf(),
                i <= self.rows@.len(),
                rows@ == self.rows@.take(i as int),
            decreases self.rows@.len() - i,
        {
            rows.push(self.rows[i].duplicate());
            assert(rows@ =~= self.rows@.take(i + 1));
            i += 1;
        }
        assert(rows@ =~= self.rows@);
        rows
    }

    /// The number of stored bookings.
    pub fn len(&self) -> (n: usize)
        ensures
            n == self@.len(),
    {
        self.rows.len()
    }

    fn read_row(&self, i: usize) -> (b: Booking)
        requires
            self.wf(),
            i < self@.len(),
        ensures
            b@ == self@[i as int],
    {
        match self.rows[i].duplicate().interpret_as_utc() {
            Some(b) => b,
            None => {
                proof {
                    assert(self.rows@[i as int].reading() is Some);
                }
                unreached()
            },
        }
    }

    /// Whether a booking with the id `id` is stored.
    pub fn contains_id(&self, id: i64) -> (b: bool)
        requires
            self.wf(),
        ensures
            b == has_id(self@, id as int),
    {
        let mut i: usize = 0;
        while i < self.rows.len()
            invariant
                self.wf(),
                i <= self.rows@.len(),
                forall|j: int| 0 <= j < i ==> (#[trigger] self@[j]).booking_id != id,
            decreases self.rows@.len() - i,
        {
            if self.rows[i].booking_id == id {
                assert(self@[i as int].booking_id == id);
                return true;
            }
            assert(self@[i as int].booking_id == self.rows@[i as int].booking_id);
            i += 1;
        }
        false
    }
}


/// The first `i + 1` elements are the first `i` and the one that follows.
proof fn lemma_take_next<A>(s: Seq<A>, i: int)
    requires
        0 <= i < s.len(),
    ensures
        s.take(i + 1) == s.take(i).push(s[i]),
{
    assert(s.take(i + 1) =~= s.take(i).push(s[i]));
}

/// What is left of a table after some bookings are taken out is a table,
/// and holds no id that the table did not hold.
#[verifier::rlimit(40)]
pub proof fn lemma_filter_keeps_table(s: Seq<BookingView>, keep: spec_fn(BookingView) -> bool)
    requires
        is_table(s),
    ensures
        is_table(s.filter(keep)),
        forall|id: int| has_id(s.filter(keep), id) ==> has_id(s, id),
    decreases s.len(),
{
    reveal(Seq::filter);
    if s.len() > 0 {
        let front = s.drop_last();
        lemma_filter_keeps_table(front, keep);
        assert forall|id: int| has_id(s.filter(keep), id) implies has_id(s, id) by {
            let k = choose|k: int|
                0 <= k < s.filter(keep).len() && (#[trigger] s.filter(keep)[k]).booking_id == id;
            if k < front.filter(keep).len() {
                assert(front.filter(keep)[k].booking_id == id);
                assert(has_id(front.filter(keep), id));
                assert(has_id(front, id));
                let j = choose|j: int| 0 <= j < front.len() && (#[trigger] front[j]).booking_id == id;
                assert(s[j].booking_id == id);
            } else {
                assert(s[s.len() - 1].booking_id == id);
            }
        }
        if keep(s.last()) {
            let kept = front.filter(keep);
            assert(s.filter(keep) == kept.push(s.last()));
            assert forall|i: int, j: int| 0 <= i < j < s.filter(keep).len() implies s.filter(
                keep,
            )[i].booking_id != s.filter(keep)[j].booking_id by {
                if j == kept.len() {
                    if kept[i].booking_id == s.last().booking_id {
                        assert(has_id(kept, s.last().booking_id));
                        assert(has_id(front, s.last().booking_id));
                        let m = choose|m: int|
                            0 <= m < front.len() && (#[trigger] front[m]).booking_id
                                == s.last().booking_id;
                        assert(s[m].booking_id == s[s.len() - 1].booking_id);
                    }
                } else {
                    assert(kept[i].booking_id != kept[j].booking_id);
                }
            }
            assert forall|i: int| 0 <= i < s.filter(keep).len() implies {
                &&& (#[trigger] s.filter(keep)[i]).start_time.wf()
                &&& s.filter(keep)[i].end_time.wf()
                &&& s.filter(keep)[i].start_time.nanos == 0
                &&& s.filter(keep)[i].end_time.nanos == 0
            } by {
                if i < kept.len() {
                    assert(kept[i].start_time.wf());
                } else {
                    assert(s[s.len() - 1].start_time.wf());
                }
            }
        }
    }
}

/// All bookings of the store, in the order in which they were inserted.
pub fn get_all_bookings(db: &Store) -> (r: Result<Vec<Booking>, DBError>)
    requires
        db.wf(),
    ensures
        match r {
            Ok(found) => views(found@) == db@,
            Err(_) => false,
        },
{
    let mut found: Vec<Booking> = Vec::new();
    let mut i: usize = 0;
    while i < db.rows.len()
        invariant
            db.wf(),
            i <= db.rows@.len(),
            views(found@) == db@.take(i as int),
        decreases db.rows@.len() - i,
    {
        let b = db.read_row(i);
        let ghost before = found@;
        found.push(b);
        proof {
            lemma_take_next(db@, i as int);
            assert(views(found@) =~= views(before).push(b@));
        }
        i += 1;
    }
    assert(db@.take(i as int) =~= db@);
    Ok(found)
}

/// Get all bookings in the store which intersect the interval from `start`
/// to `end`, both ends included and both taken at whole seconds. They come
/// in the order in which they were inserted.
pub fn get_bookings_in_timeframe(db: &Store, start: Instant, end: Instant) -> (r: Result<
    Vec<Booking>,
    DBError,
>)
    requires
        db.wf(),
    ensures
        match r {
            Ok(found) => views(found@) == db@.filter(
                in_window(start@.whole_second(), end@.whole_second()),
            ),
            Err(_) => false,
        },
{
    let from = start.whole_second();
    let to = end.whole_second();
    let ghost keep = in_window(from@, to@);
    let mut found: Vec<Booking> = Vec::new();
    let mut i: usize = 0;
    while i < db.rows.len()
        invariant
            db.wf(),
            i <= db.rows@.len(),
            keep == in_window(from@, to@),
            views(found@) == db@.take(i as int).filter(keep),
        decreases db.rows@.len() - i,
    {
        let b = db.read_row(i);
        proof {
            lemma_take_next(db@, i as int);
            Seq::lemma_filter_push(db@.take(i as int), db@[i as int], keep);
        }
        if b.intersects(&from, &to) {
            let ghost before = found@;
            found.push(b);
            assert(views(found@) =~= views(before).push(b@));
        }
        i += 1;
    }
    assert(db@.take(i as int) =~= db@);
    Ok(found)
}

/// Insert a booking into the store, its times cut to whole seconds. It
/// fails with a conflict, and changes nothing, where a booking with the same
/// id is stored already.
pub fn insert_booking(db: &mut Store, booking: &Booking) -> (r: Result<(), DBError>)
    requires
        old(db).wf(),
    ensures
        final(db).wf(),
        match r {
            Ok(_) => !has_id(old(db)@, booking@.booking_id) && final(db)@ == old(db)@.push(
                booking@.stored(),
            ),
            Err(e) => has_id(old(db)@, booking@.booking_id) && final(db)@ == old(db)@ && e
                == DBError::InsertBooking(StorageFault::Conflict),
        },
{
    if db.contains_id(booking.booking_id) {
        return Err(DBError::InsertBooking(StorageFault::Conflict));
    }
    let row = NaiveBooking::from_booking(booking);
    db.rows.push(row);
    proof {
        let before = old(db)@;
        let after = db@;
        assert(after =~= before.push(booking@.stored()));
        assert forall|i: int, j: int| 0 <= i < j < after.len() implies after[i].booking_id
            != after[j].booking_id by {
            if j == before.len() {
                assert(before[i].booking_id != booking@.booking_id);
            } else {
                assert(before[i].booking_id != before[j].booking_id);
            }
        }
        assert forall|i: int| 0 <= i < after.len() implies {
            &&& (#[trigger] after[i]).start_time.wf()
            &&& after[i].end_time.wf()
            &&& after[i].start_time.nanos == 0
            &&& after[i].end_time.nanos == 0
        } by {
            if i < before.len() {
                assert(before[i].start_time.wf());
            }
        }
    }
    Ok(())
}

/// Remove the booking with the id `booking_id` from the store. Where none is
/// stored, nothing changes.
pub fn delete_booking(db: &mut Store, booking_id: i64) -> (r: Result<(), DBError>)
    requires
        old(db).wf(),
    ensures
        final(db).wf(),
        r is Ok,
        final(db)@ == old(db)@.filter(other_than(booking_id as int)),
{
    let ghost keep = other_than(booking_id as int);
    let mut kept: Vec<NaiveBooking> = Vec::new();
    let mut i: usize = 0;
    while i < db.rows.len()
        invariant
            db.wf(),
            *db == *old(db),
            i <= db.rows@.len(),
            keep == other_than(booking_id as int),
            forall|j: int| 0 <= j < kept@.len() ==> (#[trigger] kept@[j]).reading() is Some,
            row_values(kept@) == db@.take(
                i as int,
            ).filter(keep),
        decreases db.rows@.len() - i,
    {
        proof {
            lemma_take_next(db@, i as int);
            Seq::lemma_filter_push(db@.take(i as int), db@[i as int], keep);
        }
        if db.rows[i].booking_id != booking_id {
            let ghost before = kept@;
            kept.push(db.rows[i].duplicate());
            assert(row_values(kept@)
                =~= row_values(before).push(
                db@[i as int],
            ));
        }
        i += 1;
    }
    proof {
        assert(db@.take(i as int) =~= db@);
        lemma_filter_keeps_table(db@, keep);
    }
    db.rows = kept;
    Ok(())
}


/// Replace the stored booking that has the id of `booking` by `booking`,
/// its times cut to whole seconds. It fails with `NotFound`, and changes
/// nothing, where no booking with that id is stored.
#[verifier::rlimit(40)]
pub fn update_booking(db: &mut Store, booking: &Booking) -> (r: Result<(), DBError>)
    requires
        old(db).wf(),
    ensures
        final(db).wf(),
        match r {
            Ok(_) => has_id(old(db)@, booking@.booking_id) && final(db)@ == old(db)@.map_values(
                replaced_by(booking@),
            ),
            Err(e) => !has_id(old(db)@, booking@.booking_id) && final(db)@ == old(db)@ && e
                == DBError::UpdateBooking(StorageFault::NotFound),
        },
{
    if !db.contains_id(booking.booking_id) {
        return Err(DBError::UpdateBooking(StorageFault::NotFound));
    }
    let ghost put = replaced_by(booking@);
    let row = NaiveBooking::from_booking(booking);
    let mut rows: Vec<NaiveBooking> = Vec::new();
    let mut i: usize = 0;
    while i < db.rows.len()
        invariant
            db.wf(),
            *db == *old(db),
            i <= db.rows@.len(),
            put == replaced_by(booking@),
            row.reading() == Some(booking@.stored()),
            rows@.len() == i,
            forall|j: int| 0 <= j < i ==> (#[trigger] rows@[j]).reading() == Some(put(db@[j])),
        decreases db.rows@.len() - i,
    {
        if db.rows[i].booking_id == booking.booking_id {
            rows.push(row.duplicate());
        } else {
            rows.push(db.rows[i].duplicate());
        }
        i += 1;
    }
    let ghost before = db@;
    db.rows = rows;
    proof {
        let after = db@;
        assert(after.len() == before.len());
        assert forall|j: int| 0 <= j < after.len() implies after[j] == put(before[j]) by {
            assert(db.rows@[j].reading() == Some(put(before[j])));
        }
        assert(after =~= before.map_values(put));
        assert forall|i: int, j: int| 0 <= i < j < after.len() implies after[i].booking_id
            != after[j].booking_id by {
            assert(before[i].booking_id != before[j].booking_id);
        }
        assert forall|i: int| 0 <= i < after.len() implies {
            &&& (#[trigger] after[i]).start_time.wf()
            &&& after[i].end_time.wf()
            &&& after[i].start_time.nanos == 0
            &&& after[i].end_time.nanos == 0
        } by {
            assert(before[i].start_time.wf());
        }
    }
    Ok(())
}

/// Delete every booking that ends strictly before `before`, taken at whole
/// seconds, and return how many were deleted.
pub fn prune_before(db: &mut Store, before: &Instant) -> (removed: u64)
    requires
        old(db).wf(),
    ensures
        final(db).wf(),
        final(db)@ == old(db)@.filter(not_ended_before(before@.whole_second())),
        removed == old(db)@.len() - final(db)@.len(),
{
    let boundary = before.whole_second();
    let ghost keep = not_ended_before(boundary@);
    let mut kept: Vec<NaiveBooking> = Vec::new();
    let mut removed: u64 = 0;
    let mut i: usize = 0;
    while i < db.rows.len()
        invariant
            db.wf(),
            *db == *old(db),
            i <= db.rows@.len(),
            keep == not_ended_before(boundary@),
            kept@.len() + removed == i,
            forall|j: int| 0 <= j < kept@.len() ==> (#[trigger] kept@[j]).reading() is Some,
            row_values(kept@) == db@.take(
                i as int,
            ).filter(keep),
        decreases db.rows@.len() - i,
    {
        proof {
            lemma_take_next(db@, i as int);
            Seq::lemma_filter_push(db@.take(i as int), db@[i as int], keep);
        }
        let b = db.read_row(i);
        if b.end_time.is_before(&boundary) {
            removed += 1;
        } else {
            let ghost so_far = kept@;
            kept.push(db.rows[i].duplicate());
            assert(row_values(kept@)
                =~= row_values(so_far).push(
                db@[i as int],
            ));
        }
        i += 1;
    }
    proof {
        assert(db@.take(i as int) =~= db@);
        lemma_filter_keeps_table(db@, keep);
    }
    db.rows = kept;
    removed
}

/// Delete old bookings from the store.
///
/// This removes all bookings which have ended before the midnight that
/// began the day of `now`, and returns their number. Bookings that have
/// ended earlier on the day of `now` are kept.
pub fn prune_old_bookings(db: &mut Store, now: &Instant) -> (r: Result<u64, DBError>)
    requires
        old(db).wf(),
    ensures
        final(db).wf(),
        final(db)@ == old(db)@.filter(not_ended_before(now@.midnight())),
        match r {
            Ok(removed) => removed == old(db)@.len() - final(db)@.len(),
            Err(_) => false,
        },
{
    let boundary = now.midnight();
    Ok(prune_before(db, &boundary))
}


/// The table after the bookings `bs` are inserted one after the other, up
/// to the first whose id is taken already; and whether all were inserted.
pub open spec fn insert_each(s: Seq<BookingView>, bs: Seq<BookingView>) -> (Seq<BookingView>, bool)
    decreases bs.len(),
{
    if bs.len() == 0 {
        (s, true)
    } else if has_id(s, bs.first().booking_id) {
        (s, false)
    } else {
        insert_each(s.push(bs.first().stored()), bs.drop_first())
    }
}

/// The table after the bookings with the ids `ids` are deleted one after
/// the other.
pub open spec fn delete_each(s: Seq<BookingView>, ids: Seq<int>) -> Seq<BookingView>
    decreases ids.len(),
{
    if ids.len() == 0 {
        s
    } else {
        delete_each(s.filter(other_than(ids.first())), ids.drop_first())
    }
}

/// The ids as mathematical integers.
pub open spec fn id_values(ids: Seq<i64>) -> Seq<int> {
    ids.map_values(|id: i64| id as int)
}

/// The table after the bookings `bs` are written over the stored ones of
/// their ids one after the other, up to the first whose id is not stored;
/// and whether all were written.
pub open spec fn update_each(s: Seq<BookingView>, bs: Seq<BookingView>) -> (Seq<BookingView>, bool)
    decreases bs.len(),
{
    if bs.len() == 0 {
        (s, true)
    } else if !has_id(s, bs.first().booking_id) {
        (s, false)
    } else {
        update_each(s.map_values(replaced_by(bs.first())), bs.drop_first())
    }
}

/// Insert the bookings in order. The first that is in conflict with a
/// stored one ends the run with its error; those before it stay inserted.
pub fn insert_bookings(db: &mut Store, bookings: &Vec<Booking>) -> (r: Result<(), DBError>)
    requires
        old(db).wf(),
    ensures
        final(db).wf(),
        final(db)@ == insert_each(old(db)@, views(bookings@)).0,
        match r {
            Ok(_) => insert_each(old(db)@, views(bookings@)).1,
            Err(e) => !insert_each(old(db)@, views(bookings@)).1 && e == DBError::InsertBooking(
                StorageFault::Conflict,
            ),
        },
{
    let ghost all = views(bookings@);
    assert(all.skip(0) =~= all);
    let mut i: usize = 0;
    while i < bookings.len()
        invariant
            db.wf(),
            i <= bookings@.len(),
            all == views(bookings@),
            insert_each(old(db)@, all) == insert_each(db@, all.skip(i as int)),
        decreases bookings@.len() - i,
    {
        proof {
            assert(all.skip(i as int).first() == bookings@[i as int]@);
            assert(all.skip(i as int).drop_first() =~= all.skip(i + 1));
        }
        match insert_booking(db, &bookings[i]) {
            Ok(_) => {},
            Err(e) => {
                return Err(e);
            },
        }
        i += 1;
    }
    Ok(())
}

/// Delete the bookings with the given ids, in order. An id under which
/// nothing is stored is passed over.
pub fn delete_bookings(db: &mut Store, bookings: &Vec<i64>) -> (r: Result<(), DBError>)
    requires
        old(db).wf(),
    ensures
        final(db).wf(),
        r is Ok,
        final(db)@ == delete_each(old(db)@, id_values(bookings@)),
{
    let ghost all = id_values(bookings@);
    assert(all.skip(0) =~= all);
    let mut i: usize = 0;
    while i < bookings.len()
        invariant
            db.wf(),
            i <= bookings@.len(),
            all == id_values(bookings@),
            delete_each(old(db)@, all) == delete_each(db@, all.skip(i as int)),
        decreases bookings@.len() - i,
    {
        proof {
            assert(all.skip(i as int).first() == bookings@[i as int]);
            assert(all.skip(i as int).drop_first() =~= all.skip(i + 1));
        }
        match delete_booking(db, bookings[i]) {
            Ok(_) => {},
            Err(e) => {
                return Err(e);
            },
        }
        i += 1;
    }
    Ok(())
}

/// Update the bookings in order. The first whose id is not stored ends the
/// run with its error; those before it stay written.
pub fn update_bookings(db: &mut Store, bookings: &Vec<Booking>) -> (r: Result<(), DBError>)
    requires
        old(db).wf(),
    ensures
        final(db).wf(),
        final(db)@ == update_each(old(db)@, views(bookings@)).0,
        match r {
            Ok(_) => update_each(old(db)@, views(bookings@)).1,
            Err(e) => !update_each(old(db)@, views(bookings@)).1 && e == DBError::UpdateBooking(
                StorageFault::NotFound,
            ),
        },
{
    let ghost all = views(bookings@);
    assert(all.skip(0) =~= all);
    let mut i: usize = 0;
    while i < bookings.len()
        invariant
            db.wf(),
            i <= bookings@.len(),
            all == views(bookings@),
            update_each(old(db)@, all) == update_each(db@, all.skip(i as int)),
        decreases bookings@.len() - i,
    {
        proof {
            assert(all.skip(i as int).first() == bookings@[i as int]@);
            assert(all.skip(i as int).drop_first() =~= all.skip(i + 1));
        }
        match update_booking(db, &bookings[i]) {
            Ok(_) => {},
            Err(e) => {
                return Err(e);
            },
        }
        i += 1;
    }
    Ok(())
}


/// The bookings as the store keeps them.
pub open spec fn stored_values(bs: Seq<BookingView>) -> Seq<BookingView> {
    bs.map_values(|b: BookingView| b.stored())
}

/// Where all of `bs` could be inserted, they stand behind what was stored,
/// in order; none of their ids was stored, and none occurs twice among them.
#[verifier::rlimit(40)]
pub proof fn lemma_insert_each(s: Seq<BookingView>, bs: Seq<BookingView>)
    requires
        insert_each(s, bs).1,
    ensures
        insert_each(s, bs).0 == s + stored_values(bs),
        forall|k: int| 0 <= k < bs.len() ==> !has_id(s, (#[trigger] bs[k]).booking_id),
        distinct_ids(bs),
    decreases bs.len(),
{
    if bs.len() == 0 {
        assert(s + stored_values(bs) =~= s);
    } else {
        let first = bs.first();
        let rest = bs.drop_first();
        let next = s.push(first.stored());
        lemma_insert_each(next, rest);
        assert(next + stored_values(rest) =~= s + stored_values(bs));
        assert forall|k: int| 0 <= k < bs.len() implies !has_id(
            s,
            (#[trigger] bs[k]).booking_id,
        ) by {
            if k > 0 {
                assert(bs[k] == rest[k - 1]);
                assert(!has_id(next, rest[k - 1].booking_id));
                if has_id(s, bs[k].booking_id) {
                    let i = choose|i: int|
                        0 <= i < s.len() && (#[trigger] s[i]).booking_id == bs[k].booking_id;
                    assert(next[i].booking_id == bs[k].booking_id);
                }
            }
        }
        assert forall|i: int, j: int| 0 <= i < j < bs.len() implies (#[trigger] bs[i]).booking_id
            != (#[trigger] bs[j]).booking_id by {
            assert(bs[j] == rest[j - 1]);
            if i == 0 {
                assert(!has_id(next, rest[j - 1].booking_id));
                assert(next[s.len() as int].booking_id == first.booking_id);
            } else {
                assert(bs[i] == rest[i - 1]);
            }
        }
    }
}

/// After the ids `ids` are deleted from a table, a table is left: it holds
/// the bookings of the old one whose id is not among `ids`, and no others.
#[verifier::rlimit(40)]
pub proof fn lemma_delete_each(s: Seq<BookingView>, ids: Seq<int>)
    requires
        is_table(s),
    ensures
        is_table(delete_each(s, ids)),
        forall|x: BookingView| #[trigger]
            delete_each(s, ids).contains(x) <==> s.contains(x) && !ids.contains(x.booking_id),
    decreases ids.len(),
{
    if ids.len() > 0 {
        let keep = other_than(ids.first());
        let next = s.filter(keep);
        let rest = ids.drop_first();
        lemma_filter_keeps_table(s, keep);
        lemma_delete_each(next, rest);
        assert forall|x: BookingView| #[trigger]
            delete_each(s, ids).contains(x) <==> s.contains(x) && !ids.contains(
                x.booking_id,
            ) by {
            if next.contains(x) {
                s.lemma_filter_contains_rev(keep, x);
                let i = choose|i: int| 0 <= i < next.len() && next[i] == x;
                s.lemma_filter_pred(keep, i);
            }
            if s.contains(x) && keep(x) {
                let i = choose|i: int| 0 <= i < s.len() && s[i] == x;
                s.lemma_filter_contains(keep, i);
            }
            if rest.contains(x.booking_id) {
                let k = choose|k: int| 0 <= k < rest.len() && rest[k] == x.booking_id;
                assert(ids[k + 1] == x.booking_id);
            }
            if ids.contains(x.booking_id) && x.booking_id != ids.first() {
                let k = choose|k: int| 0 <= k < ids.len() && ids[k] == x.booking_id;
                assert(rest[k - 1] == x.booking_id);
            }
        }
    }
}

/// Where all of `bs` could be written, and no id occurs twice among them,
/// every stored booking keeps its place and its id: one whose id is among
/// `bs` has become that booking as stored, every other one is unchanged.
#[verifier::rlimit(40)]
pub proof fn lemma_update_each(s: Seq<BookingView>, bs: Seq<BookingView>)
    requires
        distinct_ids(bs),
        update_each(s, bs).1,
    ensures
        update_each(s, bs).0.len() == s.len(),
        forall|i: int|
            0 <= i < s.len() ==> (#[trigger] update_each(s, bs).0[i]).booking_id
                == s[i].booking_id,
        forall|i: int|
            0 <= i < s.len() && !has_id(bs, s[i].booking_id) ==> #[trigger] update_each(s, bs).0[i]
                == s[i],
        forall|i: int, k: int|
            0 <= i < s.len() && 0 <= k < bs.len() && (#[trigger] bs[k]).booking_id
                == s[i].booking_id ==> #[trigger] update_each(s, bs).0[i] == bs[k].stored(),
    decreases bs.len(),
{
    if bs.len() > 0 {
        let first = bs.first();
        let rest = bs.drop_first();
        let next = s.map_values(replaced_by(first));
        assert(has_id(next, first.booking_id) == has_id(s, first.booking_id)) by {
            if has_id(s, first.booking_id) {
                let i = choose|i: int|
                    0 <= i < s.len() && (#[trigger] s[i]).booking_id == first.booking_id;
                assert(next[i].booking_id == first.booking_id);
            }
        }
        assert forall|i: int, j: int| 0 <= i < j < rest.len() implies (#[trigger] rest[i]).booking_id
            != (#[trigger] rest[j]).booking_id by {
            assert(rest[i] == bs[i + 1] && rest[j] == bs[j + 1]);
        }
        lemma_update_each(next, rest);
        let t = update_each(s, bs).0;
        assert(t == update_each(next, rest).0);
        assert forall|i: int| 0 <= i < s.len() && !has_id(bs, s[i].booking_id) implies #[trigger] t[i]
            == s[i] by {
            assert(bs[0].booking_id != s[i].booking_id);
            assert(next[i] == s[i]);
            if has_id(rest, next[i].booking_id) {
                let k = choose|k: int|
                    0 <= k < rest.len() && (#[trigger] rest[k]).booking_id == next[i].booking_id;
                assert(bs[k + 1].booking_id == s[i].booking_id);
            }
        }
        assert forall|i: int, k: int|
            0 <= i < s.len() && 0 <= k < bs.len() && (#[trigger] bs[k]).booking_id
                == s[i].booking_id implies #[trigger] t[i] == bs[k].stored() by {
            if k == 0 {
                assert(next[i] == first.stored());
                if has_id(rest, next[i].booking_id) {
                    let m = choose|m: int|
                        0 <= m < rest.len() && (#[trigger] rest[m]).booking_id
                            == next[i].booking_id;
                    assert(bs[m + 1].booking_id == bs[0].booking_id);
                }
            } else {
                assert(bs[0].booking_id != bs[k].booking_id);
                assert(next[i] == s[i]);
                assert(rest[k - 1] == bs[k]);
            }
        }
        assert forall|i: int| 0 <= i < s.len() implies (#[trigger] t[i]).booking_id
            == s[i].booking_id by {
            assert(next[i].booking_id == s[i].booking_id);
        }
    }
}


/// The boundary of pruning. Of the bookings of a table, pruning at the
/// midnight that began the day of `now` keeps exactly those that do not end
/// before that midnight: one that ends at the midnight itself stays, one
/// that ends a second earlier, or any time earlier, goes.
pub proof fn lemma_prune_boundary(s: Seq<BookingView>, now: InstantView, b: BookingView)
    requires
        s.contains(b),
    ensures
        s.filter(not_ended_before(now.midnight())).contains(b) <==> !b.end_time.before(
            now.midnight(),
        ),
        b.end_time == now.midnight() ==> s.filter(not_ended_before(now.midnight())).contains(b),
        b.end_time.before(now.midnight()) ==> !s.filter(not_ended_before(now.midnight())).contains(
            b,
        ),
{
    let keep = not_ended_before(now.midnight());
    let kept = s.filter(keep);
    if kept.contains(b) {
        let i = choose|i: int| 0 <= i < kept.len() && kept[i] == b;
        s.lemma_filter_pred(keep, i);
    }
    if keep(b) {
        let i = choose|i: int| 0 <= i < s.len() && s[i] == b;
        s.lemma_filter_contains(keep, i);
    }
}

} // verus!
