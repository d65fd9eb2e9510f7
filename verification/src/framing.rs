//! Logs of framed entries: what a scan of a log finds, whatever the header
//! looks like.
//!
//! An entry is a header of fixed length and a payload whose length the header
//! gives. A scan reads entries one after the other until there is no whole
//! entry to read, and says where, and whether it was an unsound one that
//! stopped it.

use crate::disk;
use vstd::prelude::*;

verus! {

/// How the entries of a log look.
pub struct Format {
    pub header_len: nat,
    /// No entry reaches past this many bytes from the start of the log.
    pub capacity: nat,
    /// The payload length, where the bytes are a header at all.
    pub payload_len: spec_fn(Seq<u8>) -> Option<nat>,
    /// The payload is the one that the header was written for.
    pub sound: spec_fn(Seq<u8>, Seq<u8>) -> bool,
}

/// A header and its payload.
pub type Entry = (Seq<u8>, Seq<u8>);

#[verifier::ext_equal]
pub struct Found {
    pub entries: Seq<Entry>,
    /// Where the first entry that was not read would start.
    pub resume_at: nat,
    /// Where an unsound entry starts, if that is what stopped the scan.
    pub corruption_at: Option<nat>,
}

/// The `n` bytes from `at` on are there.
pub open spec fn present(contents: Seq<u8>, at: int, n: nat) -> bool {
    at + n <= contents.len() && at + n <= u64::MAX
}

/// The payload length of the whole entry `cursor` bytes into the log, if
/// there is one.
pub open spec fn entry_len(f: Format, contents: Seq<u8>, base: int, cursor: nat) -> Option<nat> {
    let at = base + cursor;
    if cursor + f.header_len > f.capacity || !present(contents, at, f.header_len) {
        None
    } else {
        match (f.payload_len)(contents.subrange(at, at + f.header_len)) {
            Some(n) => if cursor + f.header_len + n > f.capacity || !present(
                contents,
                at,
                f.header_len + n,
            ) {
                None
            } else {
                Some(n)
            },
            None => None,
        }
    }
}

/// The entry with a payload of `n` bytes, `cursor` bytes into the log.
pub open spec fn entry_at(
    f: Format,
    contents: Seq<u8>,
    base: int,
    cursor: nat,
    n: nat,
) -> Entry {
    let at = base + cursor;
    (
        contents.subrange(at, at + f.header_len),
        contents.subrange(at + f.header_len, at + f.header_len + n),
    )
}

/// What a scan finds from `cursor` on.
pub open spec fn scan_from(f: Format, contents: Seq<u8>, base: int, cursor: nat) -> Found
    decreases f.capacity - cursor,
    when f.header_len > 0
{
    match entry_len(f, contents, base, cursor) {
        Some(n) => {
            let e = entry_at(f, contents, base, cursor, n);
            if (f.sound)(e.0, e.1) {
                let more = scan_from(f, contents, base, cursor + f.header_len + n);
                Found { entries: seq![e] + more.entries, ..more }
            } else {
                Found {
                    entries: Seq::empty(),
                    resume_at: cursor,
                    corruption_at: Some(cursor),
                }
            }
        },
        None => Found { entries: Seq::empty(), resume_at: cursor, corruption_at: None },
    }
}

/// What a scan of the whole log finds.
pub open spec fn scan_log(f: Format, contents: Seq<u8>, base: int) -> Found {
    scan_from(f, contents, base, 0)
}

pub proof fn lemma_scan_bounds(f: Format, contents: Seq<u8>, base: int, cursor: nat)
    requires
        f.header_len > 0,
    ensures
        ({
            let found = scan_from(f, contents, base, cursor);
            &&& found.resume_at >= cursor
            &&& found.resume_at > cursor ==> found.resume_at <= f.capacity && base
                + found.resume_at <= contents.len() && base + found.resume_at <= u64::MAX
            &&& found.corruption_at matches Some(at) ==> at == found.resume_at
        }),
    decreases f.capacity - cursor,
{
    if let Some(n) = entry_len(f, contents, base, cursor) {
        let e = entry_at(f, contents, base, cursor, n);
        if (f.sound)(e.0, e.1) {
            lemma_scan_bounds(f, contents, base, cursor + f.header_len + n);
        }
    }
}

/// A scan that starts over in a log whose bytes up to `resume_at` are as they
/// were finds the same entries, and then whatever starts there.
pub proof fn lemma_scan_resumes(
    f: Format,
    before: Seq<u8>,
    after: Seq<u8>,
    base: int,
    cursor: nat,
)
    requires
        f.header_len > 0,
        0 <= base,
        ({
            let end = base + scan_from(f, before, base, cursor).resume_at;
            &&& end <= after.len() || scan_from(f, before, base, cursor).resume_at == cursor
            &&& forall|i: int|
                base + cursor <= i < end ==> #[trigger] after[i] == before[i]
        }),
    ensures
        ({
            let found = scan_from(f, before, base, cursor);
            let more = scan_from(f, after, base, found.resume_at);
            scan_from(f, after, base, cursor) == (Found {
                entries: found.entries + more.entries,
                ..more
            })
        }),
    decreases f.capacity - cursor,
{
    let found = scan_from(f, before, base, cursor);
    let more = scan_from(f, after, base, found.resume_at);
    match entry_len(f, before, base, cursor) {
        Some(n) => {
            let e = entry_at(f, before, base, cursor, n);
            if (f.sound)(e.0, e.1) {
                let next = cursor + f.header_len + n;
                lemma_scan_bounds(f, before, base, next);
                let at = base + cursor;
                assert(after.subrange(at, at + f.header_len) =~= before.subrange(
                    at,
                    at + f.header_len,
                ));
                assert(after.subrange(at + f.header_len, at + f.header_len + n)
                    =~= before.subrange(at + f.header_len, at + f.header_len + n));
                assert(entry_len(f, after, base, cursor) == Some(n));
                assert(entry_at(f, after, base, cursor, n) == e);
                lemma_scan_resumes(f, before, after, base, next);
                let rest = scan_from(f, before, base, next);
                assert(seq![e] + (rest.entries + more.entries) =~= (seq![e] + rest.entries)
                    + more.entries);
            } else {
                assert(found.entries + more.entries =~= more.entries);
            }
        },
        None => {
            assert(found.entries + more.entries =~= more.entries);
        },
    }
}

/// From `from` to `at` the log holds these entries, one behind the other,
/// whatever lies behind them.
pub open spec fn runs_to(
    f: Format,
    contents: Seq<u8>,
    base: int,
    from: nat,
    at: nat,
    entries: Seq<Entry>,
) -> bool
    decreases entries.len(),
{
    if entries.len() == 0 {
        from == at
    } else {
        match entry_len(f, contents, base, from) {
            Some(n) => {
                let e = entry_at(f, contents, base, from, n);
                &&& e == entries[0]
                &&& (f.sound)(e.0, e.1)
                &&& runs_to(
                    f,
                    contents,
                    base,
                    from + f.header_len + n,
                    at,
                    entries.drop_first(),
                )
            },
            None => false,
        }
    }
}

/// A scan runs to where it stops.
pub proof fn lemma_scan_runs(f: Format, contents: Seq<u8>, base: int, from: nat)
    requires
        f.header_len > 0,
    ensures
        ({
            let found = scan_from(f, contents, base, from);
            runs_to(f, contents, base, from, found.resume_at, found.entries)
        }),
    decreases f.capacity - from,
{
    if let Some(n) = entry_len(f, contents, base, from) {
        let e = entry_at(f, contents, base, from, n);
        if (f.sound)(e.0, e.1) {
            let next = from + f.header_len + n;
            lemma_scan_runs(f, contents, base, next);
            let rest = scan_from(f, contents, base, next);
            assert((seq![e] + rest.entries).drop_first() =~= rest.entries);
        }
    }
}

/// A scan finds the entries that it runs through, and then whatever is behind
/// them.
pub proof fn lemma_run_is_scanned(
    f: Format,
    contents: Seq<u8>,
    base: int,
    from: nat,
    at: nat,
    entries: Seq<Entry>,
)
    requires
        f.header_len > 0,
        runs_to(f, contents, base, from, at, entries),
    ensures
        from <= at,
        from < at ==> at <= f.capacity && base + at <= contents.len() && base + at <= u64::MAX,
        scan_from(f, contents, base, from).entries == entries + scan_from(
            f,
            contents,
            base,
            at,
        ).entries,
    decreases entries.len(),
{
    let more = scan_from(f, contents, base, at).entries;
    if entries.len() == 0 {
        assert(entries + more =~= more);
    } else {
        let n = entry_len(f, contents, base, from)->0;
        let next = from + f.header_len + n;
        let rest = entries.drop_first();
        lemma_run_is_scanned(f, contents, base, next, at, rest);
        assert(seq![entries[0]] + (rest + more) =~= entries + more);
    }
}

/// What is changed behind a run leaves the run as it is.
pub proof fn lemma_run_stays(
    f: Format,
    before: Seq<u8>,
    after: Seq<u8>,
    base: int,
    from: nat,
    at: nat,
    entries: Seq<Entry>,
)
    requires
        f.header_len > 0,
        0 <= base,
        runs_to(f, before, base, from, at, entries),
        after.len() >= before.len(),
        forall|i: int|
            base + from <= i < base + at && i < before.len() ==> #[trigger] after[i] == before[i],
    ensures
        runs_to(f, after, base, from, at, entries),
    decreases entries.len(),
{
    if entries.len() > 0 {
        let n = entry_len(f, before, base, from)->0;
        let next = from + f.header_len + n;
        let start = base + from;
        lemma_run_is_scanned(f, before, base, next, at, entries.drop_first());
        assert(after.subrange(start, start + f.header_len) =~= before.subrange(
            start,
            start + f.header_len,
        ));
        assert(after.subrange(start + f.header_len, start + f.header_len + n) =~= before.subrange(
            start + f.header_len,
            start + f.header_len + n,
        ));
        lemma_run_stays(f, before, after, base, next, at, entries.drop_first());
    }
}

/// One sound entry more at the end of a run.
proof fn lemma_run_grows(
    f: Format,
    contents: Seq<u8>,
    base: int,
    from: nat,
    at: nat,
    entries: Seq<Entry>,
    n: nat,
)
    requires
        f.header_len > 0,
        runs_to(f, contents, base, from, at, entries),
        entry_len(f, contents, base, at) == Some(n),
        ({
            let e = entry_at(f, contents, base, at, n);
            (f.sound)(e.0, e.1)
        }),
    ensures
        runs_to(
            f,
            contents,
            base,
            from,
            at + f.header_len + n,
            entries.push(entry_at(f, contents, base, at, n)),
        ),
    decreases entries.len(),
{
    let e = entry_at(f, contents, base, at, n);
    if entries.len() == 0 {
        assert(entries.push(e).drop_first() =~= Seq::empty());
        assert(runs_to(
            f,
            contents,
            base,
            at + f.header_len + n,
            at + f.header_len + n,
            Seq::empty(),
        ));
    } else {
        let m = entry_len(f, contents, base, from)->0;
        lemma_run_grows(
            f,
            contents,
            base,
            from + f.header_len + m,
            at,
            entries.drop_first(),
            n,
        );
        assert(entries.push(e).drop_first() =~= entries.drop_first().push(e));
    }
}

/// One sound entry more, written at the end of a run: the run goes through it.
pub proof fn lemma_run_after_append(
    f: Format,
    contents: Seq<u8>,
    base: int,
    at: nat,
    entries: Seq<Entry>,
    header: Seq<u8>,
    payload: Seq<u8>,
)
    requires
        f.header_len > 0,
        0 <= base,
        runs_to(f, contents, base, 0, at, entries),
        header.len() == f.header_len,
        (f.payload_len)(header) == Some(payload.len()),
        (f.sound)(header, payload),
        at + header.len() + payload.len() <= f.capacity,
        base + at + header.len() + payload.len() <= u64::MAX,
    ensures
        runs_to(
            f,
            disk::written(contents, base + at, header + payload),
            base,
            0,
            at + header.len() + payload.len(),
            entries.push((header, payload)),
        ),
{
    let after = disk::written(contents, base + at, header + payload);
    let start = base + at;
    let n = payload.len();
    lemma_run_stays(f, contents, after, base, 0, at, entries);
    assert(after.subrange(start, start + f.header_len) =~= header);
    assert(after.subrange(start + f.header_len, start + f.header_len + n) =~= payload);
    assert(entry_len(f, after, base, at) == Some(n));
    assert(entry_at(f, after, base, at, n) == (header, payload));
    lemma_run_grows(f, after, base, 0, at, entries, n);
}

/// One sound entry more, written where the last scan stopped: a scan then
/// finds the same entries, the new one, and whatever starts behind it.
pub proof fn lemma_scan_after_append(
    f: Format,
    contents: Seq<u8>,
    base: int,
    header: Seq<u8>,
    payload: Seq<u8>,
)
    requires
        f.header_len > 0,
        0 <= base,
        header.len() == f.header_len,
        (f.payload_len)(header) == Some(payload.len()),
        (f.sound)(header, payload),
        ({
            let at = scan_log(f, contents, base).resume_at;
            &&& at + header.len() + payload.len() <= f.capacity
            &&& base + at + header.len() + payload.len() <= u64::MAX
        }),
    ensures
        ({
            let found = scan_log(f, contents, base);
            let after = disk::written(contents, base + found.resume_at, header + payload);
            let more = scan_from(
                f,
                after,
                base,
                found.resume_at + header.len() + payload.len(),
            );
            scan_log(f, after, base) == (Found {
                entries: found.entries.push((header, payload)) + more.entries,
                ..more
            })
        }),
{
    let found = scan_log(f, contents, base);
    let at = found.resume_at;
    let after = disk::written(contents, base + at, header + payload);
    lemma_scan_bounds(f, contents, base, 0);
    lemma_scan_resumes(f, contents, after, base, 0);
    let start = base + at;
    let n = payload.len();
    assert(after.subrange(start, start + f.header_len) =~= header);
    assert(after.subrange(start + f.header_len, start + f.header_len + n) =~= payload);
    assert(entry_len(f, after, base, at) == Some(n));
    assert(entry_at(f, after, base, at, n) == (header, payload));
    let more = scan_from(f, after, base, at + header.len() + n);
    assert(found.entries + (seq![(header, payload)] + more.entries) =~= found.entries.push(
        (header, payload),
    ) + more.entries);
}

/// One unsound entry more: a scan finds the same entries as before and tells
/// where the unsound one starts.
pub proof fn lemma_scan_after_unsound(
    f: Format,
    contents: Seq<u8>,
    base: int,
    header: Seq<u8>,
    payload: Seq<u8>,
)
    requires
        f.header_len > 0,
        0 <= base,
        header.len() == f.header_len,
        (f.payload_len)(header) == Some(payload.len()),
        !(f.sound)(header, payload),
        ({
            let at = scan_log(f, contents, base).resume_at;
            &&& at + header.len() + payload.len() <= f.capacity
            &&& base + at + header.len() + payload.len() <= u64::MAX
        }),
    ensures
        ({
            let found = scan_log(f, contents, base);
            let after = disk::written(contents, base + found.resume_at, header + payload);
            scan_log(f, after, base) == (Found {
                entries: found.entries,
                resume_at: found.resume_at,
                corruption_at: Some(found.resume_at),
            })
        }),
{
    let found = scan_log(f, contents, base);
    let at = found.resume_at;
    let after = disk::written(contents, base + at, header + payload);
    lemma_scan_bounds(f, contents, base, 0);
    lemma_scan_resumes(f, contents, after, base, 0);
    let start = base + at;
    let n = payload.len();
    assert(after.subrange(start, start + f.header_len) =~= header);
    assert(after.subrange(start + f.header_len, start + f.header_len + n) =~= payload);
    assert(entry_len(f, after, base, at) == Some(n));
    assert(entry_at(f, after, base, at, n) == (header, payload));
    assert(found.entries + Seq::<Entry>::empty() =~= found.entries);
}

/// A log that is cut off inside its last entry: a scan finds the entries
/// before it, and no corruption.
pub proof fn lemma_scan_cut_off(
    f: Format,
    contents: Seq<u8>,
    base: int,
    header: Seq<u8>,
    payload: Seq<u8>,
    cut: int,
)
    requires
        f.header_len > 0,
        0 <= base,
        header.len() == f.header_len,
        (f.payload_len)(header) == Some(payload.len()),
        ({
            let at = base + scan_log(f, contents, base).resume_at;
            at <= cut < at + header.len() + payload.len()
        }),
    ensures
        ({
            let found = scan_log(f, contents, base);
            let after = disk::written(contents, base + found.resume_at, header + payload);
            scan_log(f, after.take(cut), base) == (Found {
                entries: found.entries,
                resume_at: found.resume_at,
                corruption_at: None,
            })
        }),
{
    let found = scan_log(f, contents, base);
    let at = found.resume_at;
    let start = base + at;
    let whole = disk::written(contents, start, header + payload);
    let after = whole.take(cut);
    lemma_scan_bounds(f, contents, base, 0);
    lemma_scan_resumes(f, contents, after, base, 0);
    if cut >= start + f.header_len {
        assert(after.subrange(start, start + f.header_len) =~= header);
    }
    assert(entry_len(f, after, base, at) is None);
    assert(found.entries + Seq::<Entry>::empty() =~= found.entries);
}

} // verus!
