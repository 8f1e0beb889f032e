//! The time range of a request for recordings.

use crate::error::ErrorCode;
use crate::text;
use crate::time;
use crate::time::Timestamp;
use vstd::prelude::*;
use vstd::string::*;

verus! {

/// The times that could be read, in their order.
pub open spec fn present(dates: Seq<Option<Timestamp>>) -> Seq<Timestamp>
    decreases dates.len(),
{
    if dates.len() == 0 {
        Seq::<Timestamp>::empty()
    } else {
        match dates.last() {
            Some(t) => present(dates.drop_last()).push(t),
            None => present(dates.drop_last()),
        }
    }
}

/// What the parts of a range between its dashes are read as.
pub open spec fn range_dates(range: Seq<char>) -> Seq<Option<Timestamp>> {
    text::split(range, '-').map_values(
        |part: Seq<char>| time::from_pair(time::parsed_time(part, time::RANGE_FORMAT@)),
    )
}

/// The two ends of a range, if exactly two times could be read.
pub open spec fn range_of(dates: Seq<Option<Timestamp>>) -> Option<(Timestamp, Timestamp)> {
    let found = present(dates);
    if found.len() == 2 {
        Some((found[0], found[1]))
    } else {
        None
    }
}

/// What is said of a range that cannot be read.
pub open spec fn unreadable_range(range: Seq<char>) -> Seq<char> {
    "Unable to parse time range from "@ + range
}

/// The two ends of a range, if exactly two times could be read.
pub fn two_dates(dates: &Vec<Option<Timestamp>>) -> (r: Option<(Timestamp, Timestamp)>)
    ensures
        r == range_of(dates@),
        r is Some <==> present(dates@).len() == 2,
        r matches Some(ends) ==> ends.0 == present(dates@)[0] && ends.1 == present(dates@)[1],
{
    let mut found: Vec<Timestamp> = Vec::new();
    let len = dates.len();
    let mut k: usize = 0;
    assert(dates@.take(0) =~= Seq::<Option<Timestamp>>::empty());
    while k < len
        invariant
            k <= len,
            len == dates@.len(),
            found@ == present(dates@.take(k as int)),
        decreases len - k,
    {
        assert(dates@.take(k + 1).drop_last() =~= dates@.take(k as int));
        match dates[k] {
            Some(t) => {
                found.push(t);
            },
            None => {},
        }
        k = k + 1;
    }
    assert(dates@.take(len as int) =~= dates@);
    if found.len() == 2 {
        Some((found[0], found[1]))
    } else {
        None
    }
}

/// Reads the two ends of a time range. Parts that are no times are passed over. A range that
/// was written is read back.
pub fn parse_date_range(range: &str) -> (r: Result<(Timestamp, Timestamp), String>)
    ensures
        r is Ok <==> range_of(range_dates(range@)) is Some,
        r matches Ok(ends) ==> Some(ends) == range_of(range_dates(range@)) && ends.0.wf()
            && ends.1.wf(),
        r matches Err(msg) ==> msg@ == "Unable to parse time range from "@ + range@,
        r matches Err(msg) ==> msg@ == unreadable_range(range@),
        forall|a: Timestamp, b: Timestamp|
            #![trigger time::second_text(a), time::second_text(b)]
            writable(a) && writable(b) && range@ == time::second_text(a) + seq!['-']
                + time::second_text(b) ==> r == Ok::<(Timestamp, Timestamp), String>((a, b)),
{
    let parts = text::split_on(range, '-');
    let ghost split = text::split(range@, '-');
    let ghost all = range_dates(range@);
    let mut dates: Vec<Option<Timestamp>> = Vec::new();
    let len = parts.len();
    assert(text::texts(parts@).len() == parts@.len());
    let mut k: usize = 0;
    while k < len
        invariant
            k <= len,
            len == parts@.len(),
            len == all.len(),
            text::texts(parts@) == split,
            split == text::split(range@, '-'),
            all == range_dates(range@),
            dates@ == all.take(k as int),
            forall|j: int| 0 <= j < k ==> (#[trigger] dates@[j] matches Some(t) ==> t.wf()),
            forall|j: int, t: Timestamp|
                0 <= j < k && writable(t) && split[j] == #[trigger] time::second_text(t)
                    ==> #[trigger] dates@[j] == Some(t),
        decreases len - k,
    {
        assert(split[k as int] == parts@[k as int]@);
        let date = time::chrono_parse(parts[k].as_str(), time::RANGE_FORMAT);
        assert(time::from_pair(time::as_pair(date)) == date);
        dates.push(date);
        assert(all.take(k + 1) =~= all.take(k as int).push(all[k as int]));
        k = k + 1;
    }
    assert(all.take(len as int) =~= all);
    proof {
        lemma_present_wf(dates@);
        assert forall|a: Timestamp, b: Timestamp|
            #![trigger time::second_text(a), time::second_text(b)]
            writable(a) && writable(b) && range@ == time::second_text(a) + seq!['-']
                + time::second_text(b) implies range_of(dates@) == Some((a, b)) by {
            let x = time::second_text(a);
            let y = time::second_text(b);
            time::lemma_stamp_lacks(a, '-');
            time::lemma_stamp_lacks(b, '-');
            text::lemma_split_concat(x, '-', y);
            text::lemma_split_whole(x, '-');
            text::lemma_split_whole(y, '-');
            assert(split =~= seq![x, y]);
            assert(dates@[0] == Some(a));
            assert(dates@[1] == Some(b));
            lemma_present_two(dates@, a, b);
        }
    }
    match two_dates(&dates) {
        Some(ends) => Ok(ends),
        None => Err(text::concat("Unable to parse time range from ", range)),
    }
}

/// Whether a time is written whole in a range: it has no fraction of a second, and lies in
/// the century that two-digit years stand for.
pub open spec fn writable(t: Timestamp) -> bool {
    t.wf() && 0 <= t.secs < time::TWO_DIGIT_YEARS_END && t.nanos % 1_000_000_000 == 0
}

proof fn lemma_present_two(dates: Seq<Option<Timestamp>>, a: Timestamp, b: Timestamp)
    requires
        dates.len() == 2,
        dates[0] == Some(a),
        dates[1] == Some(b),
    ensures
        present(dates) == seq![a, b],
{
    let one = dates.drop_last();
    assert(one.drop_last() =~= Seq::<Option<Timestamp>>::empty());
    assert(present(one.drop_last()) == Seq::<Timestamp>::empty());
    assert(present(one) =~= seq![a]);
    assert(present(dates) =~= seq![a, b]);
}

proof fn lemma_present_wf(dates: Seq<Option<Timestamp>>)
    requires
        forall|j: int| 0 <= j < dates.len() ==> (#[trigger] dates[j] matches Some(t) ==> t.wf()),
    ensures
        forall|k: int| 0 <= k < present(dates).len() ==> (#[trigger] present(dates)[k]).wf(),
    decreases dates.len(),
{
    if dates.len() > 0 {
        let front = dates.drop_last();
        assert forall|j: int| 0 <= j < front.len() implies (#[trigger] front[j] matches Some(t)
            ==> t.wf()) by {
            assert(front[j] == dates[j]);
        }
        lemma_present_wf(front);
        assert(dates[dates.len() - 1] == dates.last());
        assert forall|k: int| 0 <= k < present(dates).len() implies (#[trigger] present(
            dates,
        )[k]).wf() by {
            if k < present(front).len() {
                assert(present(dates)[k] == present(front)[k]);
            }
        }
    }
}

/// The message for a range that does not end after it begins.
pub open spec fn reversed_message() -> Seq<char> {
    "Invalid time range, begin date should be prior to end"@
}

/// Lets a range pass that was read and ends after it begins.
pub fn check_range(parsed: Result<(Timestamp, Timestamp), String>) -> (r: Result<
    (Timestamp, Timestamp),
    ErrorCode,
>)
    ensures
        r is Ok <==> (parsed matches Ok(ends) && ends.0.lt(ends.1)),
        r matches Ok(ends) ==> parsed == Ok::<(Timestamp, Timestamp), String>(ends),
        r is Ok <==> (parsed matches Ok(ends) && (ends.0.secs < ends.1.secs || (ends.0.secs
            == ends.1.secs && ends.0.nanos < ends.1.nanos))),
        r is Err ==> (r matches Err(ErrorCode::InternalError(said)) && said@ == (match parsed {
            Err(msg) => "Internal error "@ + msg@,
            Ok(_) => "Invalid time range, begin date should be prior to end"@,
        })),
        parsed matches Err(msg) ==> (r matches Err(e) && e.says("Internal error "@ + msg@)),
        parsed matches Ok(ends) && !ends.0.lt(ends.1) ==> (r matches Err(e) && e.says(
            reversed_message(),
        )),
{
    match parsed {
        Err(msg) => Err(ErrorCode::from_error(msg.as_str())),
        Ok(ends) => if ends.1.not_after(&ends.0) {
            Err(
                ErrorCode::InternalError(
                    "Invalid time range, begin date should be prior to end".to_owned(),
                ),
            )
        } else {
            Ok(ends)
        },
    }
}

/// Reads the time range of a request, and refuses one that does not end after it begins.
pub fn requested_range(range: &str) -> (r: Result<(Timestamp, Timestamp), ErrorCode>)
    ensures
        r is Ok <==> (range_of(range_dates(range@)) matches Some(ends) && ends.0.lt(ends.1)),
        r matches Ok(ends) ==> Some(ends) == range_of(range_dates(range@)) && ends.0.wf()
            && ends.1.wf(),
        r is Err ==> (r matches Err(ErrorCode::InternalError(said)) && said@ == (
        if range_of(range_dates(range@)) is None {
            "Internal error "@ + ("Unable to parse time range from "@ + range@)
        } else {
            "Invalid time range, begin date should be prior to end"@
        })),
        range_of(range_dates(range@)) is None ==> (r matches Err(e) && e.says(
            "Internal error "@ + unreadable_range(range@),
        )),
        range_of(range_dates(range@)) matches Some(ends) && !ends.0.lt(ends.1) ==> (r matches Err(e)
            && e.says(reversed_message())),
        forall|a: Timestamp, b: Timestamp|
            #![trigger time::second_text(a), time::second_text(b)]
            writable(a) && writable(b) && a.lt(b) && range@ == time::second_text(a) + seq!['-']
                + time::second_text(b) ==> r == Ok::<(Timestamp, Timestamp), ErrorCode>((a, b)),
{
    check_range(parse_date_range(range))
}

/// One more part of a range adds its time where it is read as one, and nothing otherwise. No parts
/// have no times.
pub proof fn law_only_times_count(dates: Seq<Option<Timestamp>>, t: Timestamp)
    ensures
        present(Seq::<Option<Timestamp>>::empty()) == Seq::<Timestamp>::empty(),
        present(dates.push(Some(t))) == present(dates).push(t),
        present(dates.push(None)) == present(dates),
{
    assert(dates.push(Some(t)).drop_last() =~= dates);
    assert(dates.push(None::<Timestamp>).drop_last() =~= dates);
}

/// A range is read at its dashes, each part as chrono reads it, and has two ends exactly where two
/// of the parts are times: the first one and the second one.
pub proof fn law_a_range_has_two_ends(range: Seq<char>, k: int)
    ensures
        range_dates(range).len() == text::split(range, '-').len(),
        0 <= k < text::split(range, '-').len() ==> range_dates(range)[k] == time::from_pair(
            time::parsed_time(text::split(range, '-')[k], time::RANGE_FORMAT@),
        ),
        range_of(range_dates(range)) is Some <==> present(range_dates(range)).len() == 2,
        range_of(range_dates(range)) matches Some(ends) ==> ends.0 == present(
            range_dates(range),
        )[0] && ends.1 == present(range_dates(range))[1],
{
}

} // verus!
