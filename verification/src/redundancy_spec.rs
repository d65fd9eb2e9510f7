//! A grammar for redundancy schemes that people can type:
//!
//! ```text
//! <N>                     N replicas on any disks           ("3")
//! <slot>(,<slot>)*        one slot per replica, in order    ("hdd,ssd")
//! <slot>                  any | hdd | ssd | nvme | disk:<id in hexadecimal>
//! rs:<k>+<m>              erasure coding, reserved
//! ```

use crate::hrw::MAX_SELECT;
use crate::proto::{DiskClass, RedundancyScheme, ReplicaSlot, SchemeView, Uuid};
use crate::text;
use vstd::prelude::*;

verus! {

#[derive(Debug, PartialEq, Eq)]
pub enum ParseError {
    Empty,
    UnknownSlot(String),
    BadUuid(String),
    BadErasureCoding(String),
    TooManySlots(usize),
}

#[verifier::ext_equal]
pub enum ParseErrorView {
    Empty,
    UnknownSlot(Seq<char>),
    BadUuid(Seq<char>),
    BadErasureCoding(Seq<char>),
    TooManySlots(nat),
}

impl View for ParseError {
    type V = ParseErrorView;

    open spec fn view(&self) -> ParseErrorView {
        match self {
            ParseError::Empty => ParseErrorView::Empty,
            ParseError::UnknownSlot(s) => ParseErrorView::UnknownSlot(s@),
            ParseError::BadUuid(s) => ParseErrorView::BadUuid(s@),
            ParseError::BadErasureCoding(s) => ParseErrorView::BadErasureCoding(s@),
            ParseError::TooManySlots(n) => ParseErrorView::TooManySlots(*n as nat),
        }
    }
}

/// The quoted form of a text.
pub uninterp spec fn quoted(s: Seq<char>) -> Seq<char>;

/// The quoted form of a text.
///
/// `str` is quoted and escaped by its own `Debug`; which characters it escapes
/// is not stated.
#[verifier::external_body]
fn quote(s: &str) -> (q: String)
    ensures
        q@ == quoted(s@),
{
    format!("{s:?}")
}

/// The text of an error.
pub open spec fn error_text(e: ParseErrorView) -> Seq<char> {
    match e {
        ParseErrorView::Empty => "empty redundancy spec"@,
        ParseErrorView::UnknownSlot(s) => "unknown slot "@ + quoted(s)
            + " (expected any/hdd/ssd/nvme/disk:<uuid>)"@,
        ParseErrorView::BadUuid(s) => "invalid disk id "@ + quoted(s),
        ParseErrorView::BadErasureCoding(s) => "invalid erasure coding spec "@ + quoted(s)
            + " (expected rs:<k>+<m>)"@,
        ParseErrorView::TooManySlots(n) => text::decimal(n) + " slots exceeds the maximum of "@
            + text::decimal(MAX_SELECT as nat),
    }
}

impl ParseError {
    /// The text of the error.
    pub fn message(&self) -> (s: String)
        ensures
            s@ == error_text(self@),
    {
        match self {
            ParseError::Empty => "empty redundancy spec".to_string(),
            ParseError::UnknownSlot(s) => text::joined(
                text::joined("unknown slot ", quote(s.as_str()).as_str()).as_str(),
                " (expected any/hdd/ssd/nvme/disk:<uuid>)",
            ),
            ParseError::BadUuid(s) => text::joined(
                "invalid disk id ",
                quote(s.as_str()).as_str(),
            ),
            ParseError::BadErasureCoding(s) => text::joined(
                text::joined("invalid erasure coding spec ", quote(s.as_str()).as_str()).as_str(),
                " (expected rs:<k>+<m>)",
            ),
            ParseError::TooManySlots(n) => text::joined(
                text::joined(
                    text::to_decimal(*n as u64).as_str(),
                    " slots exceeds the maximum of ",
                ).as_str(),
                text::to_decimal(MAX_SELECT as u64).as_str(),
            ),
        }
    }
}

// ---------------------------------------------------------------------
// What a text means

/// `s` without its hyphens.
pub open spec fn without_hyphens(s: Seq<char>) -> Seq<char>
    decreases s.len(),
{
    if s.len() == 0 {
        Seq::empty()
    } else if s.last() == '-' {
        without_hyphens(s.drop_last())
    } else {
        without_hyphens(s.drop_last()).push(s.last())
    }
}

/// What one slot means.
pub open spec fn slot_meaning(term: Seq<char>) -> Result<ReplicaSlot, ParseErrorView> {
    if term == "any"@ {
        Ok(ReplicaSlot::AnyOfClass(None))
    } else if term == "hdd"@ {
        Ok(ReplicaSlot::AnyOfClass(Some(DiskClass::Hdd)))
    } else if term == "ssd"@ {
        Ok(ReplicaSlot::AnyOfClass(Some(DiskClass::Ssd)))
    } else if term == "nvme"@ {
        Ok(ReplicaSlot::AnyOfClass(Some(DiskClass::Nvme)))
    } else if "disk:"@.is_prefix_of(term) {
        let id = term.skip(5);
        match text::unsigned(without_hyphens(id), 16, u128::MAX as nat) {
            Some(n) => Ok(ReplicaSlot::Pinned(Uuid(n as u128))),
            None => Err(ParseErrorView::BadUuid(id)),
        }
    } else {
        Err(ParseErrorView::UnknownSlot(term))
    }
}

/// What a row of slots means: the slots, or the first error among them.
pub open spec fn slots_meaning(terms: Seq<Seq<char>>) -> Result<Seq<ReplicaSlot>, ParseErrorView>
    decreases terms.len(),
{
    if terms.len() == 0 {
        Ok(Seq::empty())
    } else {
        match slots_meaning(terms.drop_last()) {
            Ok(slots) => match slot_meaning(text::trim(terms.last())) {
                Ok(slot) => Ok(slots.push(slot)),
                Err(e) => Err(e),
            },
            Err(e) => Err(e),
        }
    }
}

/// Where the first `+` is.
pub open spec fn first_plus(s: Seq<char>) -> Option<int>
    decreases s.len(),
{
    if s.len() == 0 {
        None
    } else {
        match first_plus(s.drop_last()) {
            Some(i) => Some(i),
            None => if s.last() == '+' {
                Some(s.len() - 1)
            } else {
                None
            },
        }
    }
}

/// What an erasure-coding text means.
pub open spec fn erasure_meaning(s: Seq<char>) -> Result<SchemeView, ParseErrorView> {
    let rs = s.skip(3);
    match first_plus(rs) {
        Some(i) => match (
            text::unsigned(rs.take(i), 10, u8::MAX as nat),
            text::unsigned(rs.skip(i + 1), 10, u8::MAX as nat),
        ) {
            (Some(k), Some(m)) => Ok(
                SchemeView::ErasureCoded { data_shards: k as u8, parity_shards: m as u8 },
            ),
            _ => Err(ParseErrorView::BadErasureCoding(s)),
        },
        None => Err(ParseErrorView::BadErasureCoding(s)),
    }
}

/// `n` slots without a constraint.
pub open spec fn any_slots(n: nat) -> Seq<ReplicaSlot> {
    Seq::new(n, |i: int| ReplicaSlot::AnyOfClass(None))
}

/// What a text means.
pub open spec fn meaning(text: Seq<char>) -> Result<SchemeView, ParseErrorView> {
    let s = text::trim(text);
    if s.len() == 0 {
        Err(ParseErrorView::Empty)
    } else if "rs:"@.is_prefix_of(s) {
        erasure_meaning(s)
    } else {
        match text::unsigned(s, 10, usize::MAX as nat) {
            Some(n) => if n > MAX_SELECT {
                Err(ParseErrorView::TooManySlots(n))
            } else {
                Ok(SchemeView::Replicated(any_slots(n)))
            },
            None => match slots_meaning(text::split(s, ',')) {
                Ok(slots) => if slots.len() > MAX_SELECT {
                    Err(ParseErrorView::TooManySlots(slots.len()))
                } else {
                    Ok(SchemeView::Replicated(slots))
                },
                Err(e) => Err(e),
            },
        }
    }
}

// ---------------------------------------------------------------------
// Parsing

/// `r` is what `m` says, on the values that the views stand for.
pub open spec fn says<T: View, V>(m: Result<V, ParseErrorView>, r: Result<T, ParseError>) -> bool where
    T: View<V = V>,
 {
    match m {
        Ok(v) => r is Ok && r->Ok_0@ == v,
        Err(e) => r is Err && r->Err_0@ == e,
    }
}

fn parse_uuid_hex(v: &Vec<char>, from: usize, to: usize) -> (r: Result<Uuid, ParseError>)
    requires
        from <= to <= v@.len(),
    ensures
        ({
            let id = v@.subrange(from as int, to as int);
            match text::unsigned(without_hyphens(id), 16, u128::MAX as nat) {
                Some(n) => r == Ok::<Uuid, ParseError>(Uuid(n as u128)),
                None => r is Err && r->Err_0@ == ParseErrorView::BadUuid(id),
            }
        }),
{
    let ghost id = v@.subrange(from as int, to as int);
    let mut digits: Vec<char> = Vec::new();
    let mut i: usize = from;
    assert(id.take(0) =~= Seq::empty());
    while i < to
        invariant
            from <= i <= to <= v@.len(),
            id == v@.subrange(from as int, to as int),
            digits@ == without_hyphens(id.take(i - from)),
        decreases to - i,
    {
        let c: char = v[i];
        if c != '-' {
            digits.push(c);
        }
        i = i + 1;
        assert(id.take(i - from).drop_last() =~= id.take(i - from - 1));
    }
    assert(id.take(i - from) =~= id);
    assert(digits@.subrange(0, digits@.len() as int) =~= digits@);
    match text::parse_unsigned(&digits, 0, digits.len(), 16, u128::MAX) {
        Some(n) => Ok(Uuid(n)),
        None => Err(ParseError::BadUuid(text::to_text(v, from, to))),
    }
}

fn parse_slot(v: &Vec<char>, from: usize, to: usize) -> (r: Result<ReplicaSlot, ParseError>)
    requires
        from <= to <= v@.len(),
    ensures
        match slot_meaning(v@.subrange(from as int, to as int)) {
            Ok(slot) => r == Ok::<ReplicaSlot, ParseError>(slot),
            Err(e) => r is Err && r->Err_0@ == e,
        },
{
    if text::is_text(v, from, to, "any") {
        return Ok(ReplicaSlot::AnyOfClass(None));
    }
    if text::is_text(v, from, to, "hdd") {
        return Ok(ReplicaSlot::AnyOfClass(Some(DiskClass::Hdd)));
    }
    if text::is_text(v, from, to, "ssd") {
        return Ok(ReplicaSlot::AnyOfClass(Some(DiskClass::Ssd)));
    }
    if text::is_text(v, from, to, "nvme") {
        return Ok(ReplicaSlot::AnyOfClass(Some(DiskClass::Nvme)));
    }
    if text::has_prefix(v, from, to, "disk:") {
        proof {
            reveal_strlit("disk:");
            assert(v@.subrange(from as int, to as int).skip(5) =~= v@.subrange(
                from + 5,
                to as int,
            ));
        }
        match parse_uuid_hex(v, from + 5, to) {
            Ok(id) => Ok(ReplicaSlot::Pinned(id)),
            Err(e) => Err(e),
        }
    } else {
        Err(ParseError::UnknownSlot(text::to_text(v, from, to)))
    }
}

/// What cannot be read in the first slots cannot be read with more of them.
proof fn lemma_slots_stop(terms: Seq<Seq<char>>, n: int, e: ParseErrorView)
    requires
        0 <= n <= terms.len(),
        slots_meaning(terms.take(n)) == Err::<Seq<ReplicaSlot>, ParseErrorView>(e),
    ensures
        slots_meaning(terms) == Err::<Seq<ReplicaSlot>, ParseErrorView>(e),
    decreases terms.len() - n,
{
    if n < terms.len() {
        assert(terms.take(n + 1).drop_last() =~= terms.take(n));
        lemma_slots_stop(terms, n + 1, e);
    } else {
        assert(terms.take(n) =~= terms);
    }
}

/// Splitting from `i` on goes on with the last part found so far.
proof fn lemma_split_take(s: Seq<char>, c: char, i: int)
    requires
        0 <= i < s.len(),
    ensures
        split_at(s, c, i + 1) == (if s[i] == c {
            split_at(s, c, i).push(Seq::empty())
        } else {
            let before = split_at(s, c, i);
            before.update(before.len() - 1, before.last().push(s[i]))
        }),
        split_at(s, c, i).len() >= 1,
{
    text::lemma_split_nonempty(s.take(i), c);
    assert(s.take(i + 1).drop_last() =~= s.take(i));
}

spec fn split_at(s: Seq<char>, c: char, i: int) -> Seq<Seq<char>> {
    text::split(s.take(i), c)
}

/// Where the parts between separators start and end.
fn split_bounds(v: &Vec<char>, from: usize, to: usize, c: char) -> (parts: Vec<(usize, usize)>)
    requires
        from <= to <= v@.len(),
    ensures
        bounds(v@, from as int, to as int, parts@, text::split(v@.subrange(from as int, to as int), c)),
{
    let ghost s = v@.subrange(from as int, to as int);
    let mut parts: Vec<(usize, usize)> = Vec::new();
    let mut start: usize = from;
    let mut i: usize = from;
    proof {
        assert(s.take(0) =~= Seq::empty());
        assert(v@.subrange(from as int, from as int) =~= Seq::empty());
    }
    while i < to
        invariant
            from <= start <= i <= to <= v@.len(),
            s == v@.subrange(from as int, to as int),
            split_at(s, c, i - from).len() == parts@.len() + 1,
            split_at(s, c, i - from).last() == v@.subrange(start as int, i as int),
            bounds(v@, from as int, to as int, parts@, split_at(s, c, i - from).drop_last()),
        decreases to - i,
    {
        let ghost before = split_at(s, c, i - from);
        let ghost found = parts@;
        proof {
            lemma_split_take(s, c, i - from);
            assert(s[i - from] == v@[i as int]);
        }
        if v[i] == c {
            parts.push((start, i));
            start = i + 1;
            proof {
                let after = split_at(s, c, i + 1 - from);
                assert(after.drop_last() =~= before);
                assert(v@.subrange(start as int, i + 1) =~= Seq::empty());
                assert forall|k: int| 0 <= k < parts@.len() implies from
                    <= (#[trigger] parts@[k]).0 <= parts@[k].1 <= to && before[k] == v@.subrange(
                    parts@[k].0 as int,
                    parts@[k].1 as int,
                ) by {
                    if k < found.len() {
                        assert(parts@[k] == found[k]);
                        assert(before.drop_last()[k] == before[k]);
                    }
                }
            }
        } else {
            proof {
                let after = split_at(s, c, i + 1 - from);
                assert(after.drop_last() =~= before.drop_last());
                assert(v@.subrange(start as int, i + 1) =~= v@.subrange(
                    start as int,
                    i as int,
                ).push(v@[i as int]));
            }
        }
        i = i + 1;
    }
    let ghost all = split_at(s, c, i - from);
    let ghost found = parts@;
    parts.push((start, to));
    proof {
        assert(s.take(i - from) =~= s);
        assert forall|k: int| 0 <= k < parts@.len() implies from <= (#[trigger] parts@[k]).0
            <= parts@[k].1 <= to && all[k] == v@.subrange(
            parts@[k].0 as int,
            parts@[k].1 as int,
        ) by {
            if k < found.len() {
                assert(parts@[k] == found[k]);
                assert(all.drop_last()[k] == all[k]);
            }
        }
    }
    parts
}

/// The pairs say where the parts start and end.
spec fn bounds(
    v: Seq<char>,
    from: int,
    to: int,
    pairs: Seq<(usize, usize)>,
    parts: Seq<Seq<char>>,
) -> bool {
    &&& pairs.len() == parts.len()
    &&& forall|k: int|
        0 <= k < pairs.len() ==> from <= (#[trigger] pairs[k]).0 <= pairs[k].1 <= to && parts[k]
            == v.subrange(pairs[k].0 as int, pairs[k].1 as int)
}

fn parse_slots(v: &Vec<char>, from: usize, to: usize) -> (r: Result<Vec<ReplicaSlot>, ParseError>)
    requires
        from <= to <= v@.len(),
    ensures
        says(slots_meaning(text::split(v@.subrange(from as int, to as int), ',')), r),
{
    let parts = split_bounds(v, from, to, ',');
    let ghost terms = text::split(v@.subrange(from as int, to as int), ',');
    let mut slots: Vec<ReplicaSlot> = Vec::new();
    let mut i: usize = 0;
    assert(terms.take(0) =~= Seq::empty());
    while i < parts.len()
        invariant
            from <= to <= v@.len(),
            i <= parts@.len(),
            terms == text::split(v@.subrange(from as int, to as int), ','),
            bounds(v@, from as int, to as int, parts@, terms),
            slots_meaning(terms.take(i as int)) == Ok::<Seq<ReplicaSlot>, ParseErrorView>(slots@),
        decreases parts@.len() - i,
    {
        let (a, b) = parts[i];
        proof {
            assert(from <= parts@[i as int].0);
            assert(terms.take(i + 1).drop_last() =~= terms.take(i as int));
            assert(terms.take(i + 1).last() == v@.subrange(a as int, b as int));
        }
        let (a, b) = text::trimmed(v, a, b);
        match parse_slot(v, a, b) {
            Ok(slot) => slots.push(slot),
            Err(e) => {
                proof {
                    lemma_slots_stop(terms, i + 1, e@);
                }
                return Err(e);
            },
        }
        i = i + 1;
    }
    assert(terms.take(i as int) =~= terms);
    Ok(slots)
}

/// Where the first `+` between `from` and `to` is.
fn find_plus(v: &Vec<char>, from: usize, to: usize) -> (r: Option<usize>)
    requires
        from <= to <= v@.len(),
    ensures
        match r {
            Some(i) => from <= i < to && first_plus(v@.subrange(from as int, to as int)) == Some(
                i - from,
            ),
            None => first_plus(v@.subrange(from as int, to as int)) is None,
        },
{
    let ghost s = v@.subrange(from as int, to as int);
    let mut i: usize = from;
    assert(s.take(0) =~= Seq::empty());
    while i < to
        invariant
            from <= i <= to <= v@.len(),
            s == v@.subrange(from as int, to as int),
            first_plus(s.take(i - from)) is None,
        decreases to - i,
    {
        assert(s.take(i + 1 - from).drop_last() =~= s.take(i - from));
        if v[i] == '+' {
            proof {
                lemma_first_plus(s, i + 1 - from, i - from);
            }
            return Some(i);
        }
        i = i + 1;
    }
    assert(s.take(i - from) =~= s);
    None
}

proof fn lemma_first_plus(s: Seq<char>, n: int, i: int)
    requires
        0 <= n <= s.len(),
        first_plus(s.take(n)) == Some(i),
    ensures
        first_plus(s) == Some(i),
    decreases s.len() - n,
{
    if n < s.len() {
        assert(s.take(n + 1).drop_last() =~= s.take(n));
        lemma_first_plus(s, n + 1, i);
    } else {
        assert(s.take(n) =~= s);
    }
}

fn parse_erasure(v: &Vec<char>, from: usize, to: usize) -> (r: Result<RedundancyScheme, ParseError>)
    requires
        from + 3 <= to <= v@.len(),
    ensures
        says(erasure_meaning(v@.subrange(from as int, to as int)), r),
{
    let ghost s = v@.subrange(from as int, to as int);
    let ghost rs = s.skip(3);
    assert(rs =~= v@.subrange(from + 3, to as int));
    match find_plus(v, from + 3, to) {
        Some(i) => {
            proof {
                assert(rs.take(i - from - 3) =~= v@.subrange(from + 3, i as int));
                assert(rs.skip(i - from - 3 + 1) =~= v@.subrange(i + 1, to as int));
            }
            let k = text::parse_unsigned(v, from + 3, i, 10, u8::MAX as u128);
            let m = text::parse_unsigned(v, i + 1, to, 10, u8::MAX as u128);
            match (k, m) {
                (Some(k), Some(m)) => Ok(
                    RedundancyScheme::ErasureCoded {
                        data_shards: k as u8,
                        parity_shards: m as u8,
                    },
                ),
                _ => Err(ParseError::BadErasureCoding(text::to_text(v, from, to))),
            }
        },
        None => Err(ParseError::BadErasureCoding(text::to_text(v, from, to))),
    }
}

/// The scheme that a text means.
pub fn parse(spec_text: &str) -> (r: Result<RedundancyScheme, ParseError>)
    ensures
        says(meaning(spec_text@), r),
{
    let v = text::to_chars(spec_text);
    let (from, to) = text::trimmed(&v, 0, v.len());
    let ghost s = text::trim(spec_text@);
    assert(v@.subrange(0, v@.len() as int) =~= v@);
    assert(v@.subrange(from as int, to as int) == s);
    if from == to {
        return Err(ParseError::Empty);
    }
    if text::has_prefix(&v, from, to, "rs:") {
        proof {
            reveal_strlit("rs:");
        }
        return parse_erasure(&v, from, to);
    }
    if let Some(n) = text::parse_unsigned(&v, from, to, 10, usize::MAX as u128) {
        let n: usize = n as usize;
        if n > MAX_SELECT {
            return Err(ParseError::TooManySlots(n));
        }
        let mut slots: Vec<ReplicaSlot> = Vec::new();
        let mut i: usize = 0;
        while i < n
            invariant
                i <= n,
                slots@ == any_slots(i as nat),
            decreases n - i,
        {
            slots.push(ReplicaSlot::AnyOfClass(None));
            i = i + 1;
            assert(slots@ =~= any_slots(i as nat));
        }
        return Ok(RedundancyScheme::Replicated(slots));
    }
    match parse_slots(&v, from, to) {
        Ok(slots) => {
            if slots.len() > MAX_SELECT {
                return Err(ParseError::TooManySlots(slots.len()));
            }
            Ok(RedundancyScheme::Replicated(slots))
        },
        Err(e) => Err(e),
    }
}

// ---------------------------------------------------------------------
// Formatting

pub open spec fn slot_text(slot: ReplicaSlot) -> Seq<char> {
    match slot {
        ReplicaSlot::AnyOfClass(None) => "any"@,
        ReplicaSlot::AnyOfClass(Some(DiskClass::Hdd)) => "hdd"@,
        ReplicaSlot::AnyOfClass(Some(DiskClass::Ssd)) => "ssd"@,
        ReplicaSlot::AnyOfClass(Some(DiskClass::Nvme)) => "nvme"@,
        ReplicaSlot::Pinned(id) => "disk:"@ + text::hex(id.0 as nat, 32),
    }
}

pub open spec fn slot_texts(slots: Seq<ReplicaSlot>) -> Seq<Seq<char>> {
    Seq::new(slots.len(), |i: int| slot_text(slots[i]))
}

/// The text of a scheme. That of no slots is the count of them.
pub open spec fn scheme_text(s: SchemeView) -> Seq<char> {
    match s {
        SchemeView::Replicated(slots) => if slots.len() == 0 {
            "0"@
        } else {
            text::join(slot_texts(slots), ',')
        },
        SchemeView::ErasureCoded { data_shards, parity_shards } => "rs:"@ + text::decimal(
            data_shards as nat,
        ) + "+"@ + text::decimal(parity_shards as nat),
    }
}

fn format_slot(slot: &ReplicaSlot) -> (s: String)
    ensures
        s@ == slot_text(*slot),
{
    match slot {
        ReplicaSlot::AnyOfClass(None) => "any".to_string(),
        ReplicaSlot::AnyOfClass(Some(DiskClass::Hdd)) => "hdd".to_string(),
        ReplicaSlot::AnyOfClass(Some(DiskClass::Ssd)) => "ssd".to_string(),
        ReplicaSlot::AnyOfClass(Some(DiskClass::Nvme)) => "nvme".to_string(),
        ReplicaSlot::Pinned(id) => text::joined("disk:", text::to_hex(id.0, 32).as_str()),
    }
}

/// The text of a scheme. A count of replicas comes out as that many `any`, and
/// as `0` where there are none.
pub fn format(scheme: &RedundancyScheme) -> (s: String)
    ensures
        s@ == scheme_text(scheme@),
{
    match scheme {
        RedundancyScheme::Replicated(slots) => {
            if slots.len() == 0 {
                return "0".to_string();
            }
            let ghost all = slot_texts(slots@);
            let mut s: String = String::new();
            let mut i: usize = 0;
            assert(all.take(0) =~= Seq::empty());
            assert(s@ =~= text::join(all.take(0), ','));
            while i < slots.len()
                invariant
                    i <= slots@.len(),
                    all == slot_texts(slots@),
                    s@ == text::join(all.take(i as int), ','),
                decreases slots@.len() - i,
            {
                let ghost before = s@;
                if i > 0 {
                    s.push(',');
                }
                let part = format_slot(&slots[i]);
                s.append(part.as_str());
                proof {
                    let next = all.take(i + 1);
                    assert(next.drop_last() =~= all.take(i as int));
                    assert(i == 0 ==> before =~= Seq::empty());
                    assert(s@ =~= text::join(next, ','));
                }
                i = i + 1;
            }
            assert(all.take(i as int) =~= all);
            s
        },
        RedundancyScheme::ErasureCoded { data_shards, parity_shards } => {
            let k = text::joined("rs:", text::to_decimal(*data_shards as u64).as_str());
            let k = text::joined(k.as_str(), "+");
            text::joined(k.as_str(), text::to_decimal(*parity_shards as u64).as_str())
        },
    }
}

// ---------------------------------------------------------------------
// Laws

proof fn lemma_hex_is_plain(s: Seq<char>)
    requires
        forall|i: int| 0 <= i < s.len() ==> '0' <= #[trigger] s[i] <= '9' || 'a' <= s[i] <= 'f',
    ensures
        without_hyphens(s) == s,
    decreases s.len(),
{
    if s.len() > 0 {
        let init = s.drop_last();
        assert forall|i: int| 0 <= i < init.len() implies '0' <= #[trigger] init[i] <= '9' || 'a'
            <= init[i] <= 'f' by {
            assert(init[i] == s[i]);
        }
        lemma_hex_is_plain(init);
        assert(s[s.len() - 1] != '-');
        assert(init.push(s.last()) =~= s);
    } else {
        assert(s =~= Seq::empty());
    }
}

proof fn lemma_pow16_32()
    ensures
        text::pow16(32) == 0x1_0000_0000_0000_0000_0000_0000_0000_0000,
{
    reveal_with_fuel(text::pow16, 33);
}

/// The text of a slot means the slot, starts with a letter that no other kind
/// of text starts with, ends without white space, and holds no comma.
proof fn lemma_slot_text(slot: ReplicaSlot)
    ensures
        slot_meaning(slot_text(slot)) == Ok::<ReplicaSlot, ParseErrorView>(slot),
        slot_text(slot).len() > 0,
        slot_text(slot)[0] == 'a' || slot_text(slot)[0] == 'h' || slot_text(slot)[0] == 's'
            || slot_text(slot)[0] == 'n' || slot_text(slot)[0] == 'd',
        !text::is_white(slot_text(slot).last()),
        forall|k: int| 0 <= k < slot_text(slot).len() ==> #[trigger] slot_text(slot)[k] != ',',
{
    reveal_strlit("any");
    reveal_strlit("hdd");
    reveal_strlit("ssd");
    reveal_strlit("nvme");
    reveal_strlit("disk:");
    let t = slot_text(slot);
    match slot {
        ReplicaSlot::AnyOfClass(None) => {},
        ReplicaSlot::AnyOfClass(Some(DiskClass::Hdd)) => {
            assert(t[0] != "any"@[0]);
        },
        ReplicaSlot::AnyOfClass(Some(DiskClass::Ssd)) => {
            assert(t[0] != "any"@[0]);
            assert(t[0] != "hdd"@[0]);
        },
        ReplicaSlot::AnyOfClass(Some(DiskClass::Nvme)) => {
            assert(t.len() != "any"@.len());
        },
        ReplicaSlot::Pinned(id) => {
            let h = text::hex(id.0 as nat, 32);
            lemma_pow16_32();
            text::hex_round_trip(id.0 as nat, 32);
            lemma_hex_is_plain(h);
            assert(t.len() == 37);
            assert(t.take(5) =~= "disk:"@);
            assert("disk:"@.is_prefix_of(t));
            assert(t.skip(5) =~= h);
            assert(h[0] != '+');
            assert forall|k: int| 0 <= k < t.len() implies #[trigger] t[k] != ',' by {
                if k >= 5 {
                    assert(t[k] == h[k - 5]);
                }
            }
            assert(t.last() == h[31]);
        },
    }
}

proof fn lemma_texts_mean(slots: Seq<ReplicaSlot>)
    ensures
        slots_meaning(slot_texts(slots)) == Ok::<Seq<ReplicaSlot>, ParseErrorView>(slots),
    decreases slots.len(),
{
    let texts = slot_texts(slots);
    if slots.len() > 0 {
        let init = slots.drop_last();
        assert(texts.drop_last() =~= slot_texts(init));
        lemma_texts_mean(init);
        let last = slots.last();
        lemma_slot_text(last);
        let t = slot_text(last);
        assert(texts.last() == t);
        text::lemma_trim_tight(t);
        assert(init.push(last) =~= slots);
    } else {
        assert(texts =~= Seq::empty());
        assert(slots =~= Seq::empty());
    }
}

proof fn lemma_join_ends(parts: Seq<Seq<char>>, c: char)
    requires
        parts.len() >= 1,
        forall|i: int| 0 <= i < parts.len() ==> (#[trigger] parts[i]).len() > 0,
    ensures
        text::join(parts, c).len() > 0,
        text::join(parts, c)[0] == parts[0][0],
        text::join(parts, c).last() == parts.last().last(),
    decreases parts.len(),
{
    if parts.len() > 1 {
        let init = parts.drop_last();
        assert forall|i: int| 0 <= i < init.len() implies (#[trigger] init[i]).len() > 0 by {
            assert(init[i] == parts[i]);
        }
        lemma_join_ends(init, c);
        assert(parts[parts.len() - 1].len() > 0);
    }
}

proof fn lemma_first_char_no_number(s: Seq<char>, max: nat)
    requires
        s.len() > 0,
        s[0] == 'a' || s[0] == 'h' || s[0] == 's' || s[0] == 'n' || s[0] == 'd',
    ensures
        text::unsigned(s, 10, max) is None,
{
    lemma_digits_need_digits(s);
}

proof fn lemma_digits_need_digits(s: Seq<char>)
    requires
        s.len() > 0,
        text::digit(s[0], 10) is None,
    ensures
        text::digits_value(s, 10) is None,
    decreases s.len(),
{
    if s.len() > 1 {
        lemma_digits_need_digits(s.drop_last());
    }
}

proof fn lemma_decimal_unsigned(n: nat, max: nat)
    requires
        n <= max,
    ensures
        text::unsigned(text::decimal(n), 10, max) == Some(n),
{
    text::decimal_round_trip(n);
    assert(text::decimal(n)[0] != '+');
}

proof fn lemma_no_plus(s: Seq<char>)
    requires
        forall|i: int| 0 <= i < s.len() ==> #[trigger] s[i] != '+',
    ensures
        first_plus(s) is None,
    decreases s.len(),
{
    if s.len() > 0 {
        let init = s.drop_last();
        assert forall|i: int| 0 <= i < init.len() implies #[trigger] init[i] != '+' by {
            assert(init[i] == s[i]);
        }
        lemma_no_plus(init);
        assert(s[s.len() - 1] != '+');
    }
}

/// The text of no slots means no slots.
proof fn lemma_none_means_none()
    ensures
        meaning("0"@) == Ok::<SchemeView, ParseErrorView>(
            SchemeView::Replicated(Seq::empty()),
        ),
{
    reveal_strlit("0");
    reveal_strlit("rs:");
    let t = "0"@;
    text::decimal_round_trip(0);
    assert(t =~= text::decimal(0));
    lemma_decimal_unsigned(0, usize::MAX as nat);
    text::lemma_trim_tight(t);
    assert(any_slots(0) =~= Seq::empty());
}

/// The text of a scheme means the scheme, for every scheme that can be set.
pub proof fn format_then_parse(s: SchemeView)
    requires
        s matches SchemeView::Replicated(slots) ==> slots.len() <= MAX_SELECT,
    ensures
        meaning(scheme_text(s)) == Ok::<SchemeView, ParseErrorView>(s),
{
    let t = scheme_text(s);
    match s {
        SchemeView::Replicated(slots) if slots.len() == 0 => {
            lemma_none_means_none();
            assert(slots =~= Seq::empty());
        },
        SchemeView::Replicated(slots) => {
            let texts = slot_texts(slots);
            assert forall|i: int| 0 <= i < texts.len() implies (#[trigger] texts[i]).len() > 0 by {
                lemma_slot_text(slots[i]);
            }
            lemma_join_ends(texts, ',');
            lemma_slot_text(slots[0]);
            lemma_slot_text(slots.last());
            assert(texts[0] == slot_text(slots[0]));
            assert(texts.last() == slot_text(slots.last()));
            text::lemma_trim_tight(t);
            assert(!"rs:"@.is_prefix_of(t)) by {
                reveal_strlit("rs:");
                if "rs:"@.is_prefix_of(t) {
                    assert(t.subrange(0, 3)[0] == t[0]);
                    assert("rs:"@[0] == 'r');
                }
            }
            lemma_first_char_no_number(t, usize::MAX as nat);
            assert forall|i: int, k: int|
                0 <= i < texts.len() && 0 <= k < texts[i].len() implies #[trigger] texts[i][k]
                != ',' by {
                lemma_slot_text(slots[i]);
            }
            text::split_undoes_join(texts, ',');
            lemma_texts_mean(slots);
        },
        SchemeView::ErasureCoded { data_shards, parity_shards } => {
            reveal_strlit("rs:");
            reveal_strlit("+");
            let k = text::decimal(data_shards as nat);
            let m = text::decimal(parity_shards as nat);
            text::decimal_round_trip(data_shards as nat);
            text::decimal_round_trip(parity_shards as nat);
            lemma_decimal_unsigned(data_shards as nat, 255);
            lemma_decimal_unsigned(parity_shards as nat, 255);
            assert(t[0] == 'r');
            assert(t.last() == m.last());
            assert('0' <= m[m.len() - 1] <= '9');
            text::lemma_trim_tight(t);
            assert(t.subrange(0, 3) =~= "rs:"@);
            assert("rs:"@.is_prefix_of(t));
            let rs = t.skip(3);
            let n = k.len() as int;
            assert(rs =~= k + "+"@ + m);
            assert(rs.take(n) =~= k);
            assert(rs.skip(n + 1) =~= m);
            assert forall|i: int| 0 <= i < k.len() implies #[trigger] k[i] != '+' by {
                assert('0' <= k[i] <= '9');
            }
            lemma_no_plus(k);
            assert(rs.take(n + 1).drop_last() =~= k);
            assert(first_plus(rs.take(n + 1)) == Some(n));
            lemma_first_plus(rs, n + 1, n);
        },
    }
}

/// What a text means can be said again: formatting what was parsed and parsing
/// that changes nothing.
pub proof fn parse_then_format_then_parse(t: Seq<char>)
    requires
        meaning(t) is Ok,
    ensures
        meaning(scheme_text(meaning(t)->Ok_0)) == meaning(t),
{
    format_then_parse(meaning(t)->Ok_0);
}

/// A count means that many replicas, each of them anywhere, as long as there are
/// no more than sixteen; more are refused, and the refusal tells how many.
pub proof fn a_count_means_that_many_replicas(n: nat)
    requires
        n <= usize::MAX,
    ensures
        n <= 16 ==> (meaning(text::decimal(n)) matches Ok(SchemeView::Replicated(slots))
            && slots.len() == n && (forall|i: int|
            0 <= i < slots.len() ==> #[trigger] slots[i] == ReplicaSlot::AnyOfClass(None))),
        n > 16 ==> meaning(text::decimal(n)) == Err::<SchemeView, ParseErrorView>(
            ParseErrorView::TooManySlots(n),
        ),
{
    reveal_strlit("rs:");
    let t = text::decimal(n);
    text::decimal_round_trip(n);
    lemma_decimal_unsigned(n, usize::MAX as nat);
    assert('0' <= t[0] <= '9');
    assert('0' <= t[t.len() - 1] <= '9');
    text::lemma_trim_tight(t);
    if "rs:"@.is_prefix_of(t) {
        assert(t.subrange(0, 3)[0] == t[0]);
        assert("rs:"@[0] == 'r');
    }
}

/// Each word for a slot means that slot: any disk, a disk of a class, or the disk
/// with the number that the digits are worth.
pub proof fn words_mean_their_slots(id: Seq<char>, n: nat)
    requires
        id.len() > 0,
        id[0] != '+',
        id[0] != '-',
        n <= u128::MAX,
    ensures
        slot_meaning("any"@) == Ok::<ReplicaSlot, ParseErrorView>(ReplicaSlot::AnyOfClass(None)),
        slot_meaning("hdd"@) == Ok::<ReplicaSlot, ParseErrorView>(
            ReplicaSlot::AnyOfClass(Some(DiskClass::Hdd)),
        ),
        slot_meaning("ssd"@) == Ok::<ReplicaSlot, ParseErrorView>(
            ReplicaSlot::AnyOfClass(Some(DiskClass::Ssd)),
        ),
        slot_meaning("nvme"@) == Ok::<ReplicaSlot, ParseErrorView>(
            ReplicaSlot::AnyOfClass(Some(DiskClass::Nvme)),
        ),
        text::digits_value(without_hyphens(id), 16) == Some(n) ==> slot_meaning("disk:"@ + id)
            == Ok::<ReplicaSlot, ParseErrorView>(ReplicaSlot::Pinned(Uuid(n as u128))),
        text::digits_value(without_hyphens(id), 16) is None ==> slot_meaning("disk:"@ + id)
            == Err::<ReplicaSlot, ParseErrorView>(ParseErrorView::BadUuid(id)),
{
    reveal_strlit("any");
    reveal_strlit("hdd");
    reveal_strlit("ssd");
    reveal_strlit("nvme");
    reveal_strlit("disk:");
    assert("any"@[0] != "hdd"@[0] && "any"@[0] != "ssd"@[0] && "hdd"@[0] != "ssd"@[0]);
    assert("nvme"@.len() != "any"@.len());
    let t = "disk:"@ + id;
    assert(t[0] == 'd');
    assert("any"@[0] != t[0] && "hdd"@[0] != t[0] && "ssd"@[0] != t[0] && "nvme"@[0] != t[0]);
    assert(t.take(5) =~= "disk:"@);
    assert("disk:"@.is_prefix_of(t));
    assert(t.skip(5) =~= id);
    lemma_first_stays(id);
}

proof fn lemma_first_stays(id: Seq<char>)
    requires
        id.len() > 0,
        id[0] != '-',
    ensures
        without_hyphens(id).len() > 0,
        without_hyphens(id)[0] == id[0],
    decreases id.len(),
{
    if id.len() > 1 {
        lemma_first_stays(id.drop_last());
    } else {
        assert(without_hyphens(id.drop_last()) =~= Seq::empty());
    }
}

/// Hyphens between the digits of an id mean nothing.
pub proof fn hyphens_mean_nothing(a: Seq<char>, b: Seq<char>)
    ensures
        without_hyphens(a + seq!['-'] + b) == without_hyphens(a + b),
        (forall|i: int| 0 <= i < a.len() ==> #[trigger] a[i] != '-') ==> without_hyphens(a) == a,
    decreases a.len() + b.len(),
{
    if b.len() > 0 {
        hyphens_mean_nothing(a, b.drop_last());
        assert((a + seq!['-'] + b).drop_last() =~= a + seq!['-'] + b.drop_last());
        assert((a + b).drop_last() =~= a + b.drop_last());
    } else {
        assert((a + seq!['-'] + b).drop_last() =~= a);
        assert(a + b =~= a);
        if a.len() > 0 && (forall|i: int| 0 <= i < a.len() ==> #[trigger] a[i] != '-') {
            let init = a.drop_last();
            assert forall|i: int| 0 <= i < init.len() implies #[trigger] init[i] != '-' by {
                assert(init[i] == a[i]);
            }
            hyphens_mean_nothing(init, b);
            assert(a[a.len() - 1] != '-');
            assert(init.push(a.last()) =~= a);
        } else if a.len() == 0 {
            assert(a =~= Seq::empty());
        }
    }
    if b.len() > 0 && (forall|i: int| 0 <= i < a.len() ==> #[trigger] a[i] != '-') {
        hyphens_mean_nothing(a, Seq::empty());
    }
}

/// Only words for slots mean one.
pub proof fn other_words_mean_no_slot(term: Seq<char>)
    ensures
        match slot_meaning(term) {
            Ok(ReplicaSlot::AnyOfClass(None)) => term == "any"@,
            Ok(ReplicaSlot::AnyOfClass(Some(DiskClass::Hdd))) => term == "hdd"@,
            Ok(ReplicaSlot::AnyOfClass(Some(DiskClass::Ssd))) => term == "ssd"@,
            Ok(ReplicaSlot::AnyOfClass(Some(DiskClass::Nvme))) => term == "nvme"@,
            Ok(ReplicaSlot::Pinned(_)) => "disk:"@.is_prefix_of(term),
            Err(ParseErrorView::BadUuid(id)) => term == "disk:"@ + id,
            Err(ParseErrorView::UnknownSlot(t)) => t == term && !"disk:"@.is_prefix_of(term),
            Err(_) => false,
        },
{
    reveal_strlit("disk:");
    if "disk:"@.is_prefix_of(term) {
        assert(term =~= "disk:"@ + term.skip(5));
    }
}

proof fn lemma_slots_pointwise(parts: Seq<Seq<char>>, slots: Seq<ReplicaSlot>)
    requires
        parts.len() == slots.len(),
        forall|i: int|
            0 <= i < parts.len() ==> slot_meaning(text::trim(#[trigger] parts[i])) == Ok::<
                ReplicaSlot,
                ParseErrorView,
            >(slots[i]),
    ensures
        slots_meaning(parts) == Ok::<Seq<ReplicaSlot>, ParseErrorView>(slots),
    decreases parts.len(),
{
    if parts.len() > 0 {
        let init = parts.drop_last();
        assert forall|i: int| 0 <= i < init.len() implies slot_meaning(
            text::trim(#[trigger] init[i]),
        ) == Ok::<ReplicaSlot, ParseErrorView>(slots.drop_last()[i]) by {
            assert(init[i] == parts[i]);
        }
        lemma_slots_pointwise(init, slots.drop_last());
        assert(parts[parts.len() - 1] == parts.last());
        assert(slots.drop_last().push(slots.last()) =~= slots);
    } else {
        assert(slots =~= Seq::empty());
    }
}

/// A list of words means the slots of the words, in order and as many; white
/// space around a word means nothing, and more than sixteen are refused.
pub proof fn a_list_means_its_slots_in_order(t: Seq<char>, slots: Seq<ReplicaSlot>)
    requires
        text::unsigned(text::trim(t), 10, usize::MAX as nat) is None,
        !"rs:"@.is_prefix_of(text::trim(t)),
        text::trim(t).len() > 0,
        ({
            let parts = text::split(text::trim(t), ',');
            &&& parts.len() == slots.len()
            &&& forall|i: int|
                0 <= i < parts.len() ==> slot_meaning(text::trim(#[trigger] parts[i])) == Ok::<
                    ReplicaSlot,
                    ParseErrorView,
                >(slots[i])
        }),
    ensures
        slots.len() <= 16 ==> meaning(t) == Ok::<SchemeView, ParseErrorView>(
            SchemeView::Replicated(slots),
        ),
        slots.len() > 16 ==> meaning(t) == Err::<SchemeView, ParseErrorView>(
            ParseErrorView::TooManySlots(slots.len()),
        ),
{
    lemma_slots_pointwise(text::split(text::trim(t), ','), slots);
}

/// A list with a word that means no slot is refused, with the fault of the first
/// such word.
pub proof fn a_list_fails_at_its_first_bad_word(t: Seq<char>, k: int, e: ParseErrorView)
    requires
        text::unsigned(text::trim(t), 10, usize::MAX as nat) is None,
        !"rs:"@.is_prefix_of(text::trim(t)),
        text::trim(t).len() > 0,
        0 <= k < text::split(text::trim(t), ',').len(),
        slot_meaning(text::trim(text::split(text::trim(t), ',')[k])) == Err::<
            ReplicaSlot,
            ParseErrorView,
        >(e),
        forall|i: int|
            0 <= i < k ==> slot_meaning(
                text::trim(#[trigger] text::split(text::trim(t), ',')[i]),
            ) is Ok,
    ensures
        meaning(t) == Err::<SchemeView, ParseErrorView>(e),
{
    let parts = text::split(text::trim(t), ',');
    let good = parts.take(k);
    let slots = Seq::new(k as nat, |i: int| slot_meaning(text::trim(parts[i]))->Ok_0);
    assert forall|i: int| 0 <= i < good.len() implies slot_meaning(
        text::trim(#[trigger] good[i]),
    ) == Ok::<ReplicaSlot, ParseErrorView>(slots[i]) by {
        assert(good[i] == parts[i]);
    }
    lemma_slots_pointwise(good, slots);
    assert(parts.take(k + 1).drop_last() =~= good);
    lemma_slots_stop(parts, k + 1, e);
}

/// White space around a text means nothing, and white space alone is empty.
pub proof fn white_space_means_nothing(t: Seq<char>)
    ensures
        meaning(text::trim(t)) == meaning(t),
        (forall|i: int| 0 <= i < t.len() ==> text::is_white(#[trigger] t[i])) <==> meaning(t)
            == Err::<SchemeView, ParseErrorView>(ParseErrorView::Empty),
{
    text::trimming_takes_white_space_alone(t, ' ');
    let s = text::trim(t);
    if s.len() > 0 {
        text::lemma_trim_tight(s);
    } else {
        assert(s =~= Seq::empty());
    }
    let (a, b) = choose|a: int, b: int|
        #![trigger t.subrange(a, b)]
        0 <= a <= b <= t.len() && s == t.subrange(a, b) && (forall|i: int|
            0 <= i < t.len() && !(a <= i < b) ==> text::is_white(#[trigger] t[i]));
    if s.len() > 0 {
        assert(s[0] == t[a]);
        lemma_not_empty(s);
    }
}

/// Only nothing is called empty.
proof fn lemma_not_empty(s: Seq<char>)
    requires
        s.len() > 0,
        text::trim(s) == s,
    ensures
        meaning(s) != Err::<SchemeView, ParseErrorView>(ParseErrorView::Empty),
{
    lemma_slots_not_empty(text::split(s, ','));
}

proof fn lemma_slots_not_empty(parts: Seq<Seq<char>>)
    ensures
        slots_meaning(parts) != Err::<Seq<ReplicaSlot>, ParseErrorView>(ParseErrorView::Empty),
    decreases parts.len(),
{
    if parts.len() > 0 {
        lemma_slots_not_empty(parts.drop_last());
    }
}

/// Erasure coding is written as its two shard counts, read back as them, and what
/// is not two counts is refused as it stands.
pub proof fn shard_counts_mean_erasure_coding(k: u8, m: u8, t: Seq<char>)
    ensures
        meaning("rs:"@ + text::decimal(k as nat) + "+"@ + text::decimal(m as nat)) == Ok::<
            SchemeView,
            ParseErrorView,
        >(SchemeView::ErasureCoded { data_shards: k, parity_shards: m }),
        "rs:"@.is_prefix_of(text::trim(t)) ==> match meaning(t) {
            Ok(s) => s is ErasureCoded,
            Err(e) => e == ParseErrorView::BadErasureCoding(text::trim(t)),
        },
        meaning(t) matches Ok(s) ==> (s is ErasureCoded ==> "rs:"@.is_prefix_of(text::trim(t))),
{
    format_then_parse(SchemeView::ErasureCoded { data_shards: k, parity_shards: m });
    reveal_strlit("rs:");
    if "rs:"@.is_prefix_of(text::trim(t)) {
        assert("rs:"@.len() == 3);
    }
}

/// A scheme is written as its slots' words, one per slot and in order, and no
/// slots as zero.
pub proof fn schemes_are_written_as_their_slots(slots: Seq<ReplicaSlot>, k: u8, m: u8, i: int)
    requires
        0 <= i < slots.len(),
    ensures
        ({
            let parts = text::split(scheme_text(SchemeView::Replicated(slots)), ',');
            &&& parts.len() == slots.len()
            &&& match slots[i] {
                ReplicaSlot::AnyOfClass(None) => parts[i] == "any"@,
                ReplicaSlot::AnyOfClass(Some(DiskClass::Hdd)) => parts[i] == "hdd"@,
                ReplicaSlot::AnyOfClass(Some(DiskClass::Ssd)) => parts[i] == "ssd"@,
                ReplicaSlot::AnyOfClass(Some(DiskClass::Nvme)) => parts[i] == "nvme"@,
                ReplicaSlot::Pinned(id) => {
                    &&& "disk:"@.is_prefix_of(parts[i])
                    &&& parts[i].len() == 37
                    &&& text::digits_value(parts[i].skip(5), 16) == Some(id.0 as nat)
                },
            }
        }),
        scheme_text(SchemeView::Replicated(Seq::empty())) == text::decimal(0),
        scheme_text(SchemeView::ErasureCoded { data_shards: k, parity_shards: m }) == "rs:"@
            + text::decimal(k as nat) + "+"@ + text::decimal(m as nat),
{
    let texts = slot_texts(slots);
    assert forall|a: int, b: int|
        0 <= a < texts.len() && 0 <= b < texts[a].len() implies #[trigger] texts[a][b] != ',' by {
        lemma_slot_text(slots[a]);
    }
    text::split_undoes_join(texts, ',');
    assert(texts[i] == slot_text(slots[i]));
    reveal_strlit("0");
    assert("0"@ =~= text::decimal(0));
    if let ReplicaSlot::Pinned(id) = slots[i] {
        reveal_strlit("disk:");
        lemma_pow16_32();
        let h = text::hex(id.0 as nat, 32);
        text::hex_round_trip(id.0 as nat, 32);
        assert(texts[i].take(5) =~= "disk:"@);
        assert(texts[i].skip(5) =~= h);
    }
}

/// Every refusal is worded apart from the others, and names what was refused.
pub proof fn refusals_name_what_was_refused(t: Seq<char>, n: nat)
    ensures
        error_text(ParseErrorView::UnknownSlot(t)) == "unknown slot "@ + quoted(t)
            + " (expected any/hdd/ssd/nvme/disk:<uuid>)"@,
        error_text(ParseErrorView::BadUuid(t)) == "invalid disk id "@ + quoted(t),
        error_text(ParseErrorView::BadErasureCoding(t)) == "invalid erasure coding spec "@
            + quoted(t) + " (expected rs:<k>+<m>)"@,
        error_text(ParseErrorView::TooManySlots(n)) == text::decimal(n)
            + " slots exceeds the maximum of "@ + text::decimal(16),
{
}

} // verus!
