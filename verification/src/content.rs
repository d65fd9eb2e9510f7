//! What the bytes of a file are: the pieces that its record points to, in what
//! the data disks hold.

use crate::bytes;
use crate::pool::SEGMENT_BASE_OFFSET;
use crate::proto::{
    self, ChunkPointer, ChunkView, DataLocator, DiskId, Extent, ExtentView, InodeId, InodeRecord,
    InodeView, LocatorView,
};
use crate::segment::HEADER_LEN;
use vstd::prelude::*;

verus! {

/// Why the bytes of a file cannot be told.
pub enum ReadFault {
    /// A piece has no replica.
    NoReplica,
    /// A replica is on a disk that the pool does not have.
    NoSuchDisk,
    /// A replica reaches past the end of its disk.
    PastEnd,
    /// An extent reaches past the end of its file.
    BadExtent,
}

/// The piece of `len` bytes that starts `header` bytes into its first replica.
/// Disk number `n` is the one with the id `n`, and offsets count from the start
/// of a disk's data region.
pub open spec fn piece(
    data: Seq<Seq<u8>>,
    replicas: Seq<(DiskId, u64)>,
    header: nat,
    len: nat,
) -> Result<Seq<u8>, ReadFault> {
    if replicas.len() == 0 {
        Err(ReadFault::NoReplica)
    } else {
        let (id, offset) = replicas[0];
        let at = SEGMENT_BASE_OFFSET + offset + header;
        if !(1 <= id.0 <= data.len()) {
            Err(ReadFault::NoSuchDisk)
        } else if at > u64::MAX || at + len > data[id.0 - 1].len() {
            Err(ReadFault::PastEnd)
        } else {
            Ok(data[id.0 - 1].subrange(at, at + len))
        }
    }
}

/// The chunks' payloads, one after the other.
pub open spec fn chunks_content(data: Seq<Seq<u8>>, chunks: Seq<ChunkView>) -> Result<
    Seq<u8>,
    ReadFault,
>
    decreases chunks.len(),
{
    if chunks.len() == 0 {
        Ok(Seq::empty())
    } else {
        match chunks_content(data, chunks.drop_last()) {
            Ok(head) => match piece(
                data,
                chunks.last().replicas,
                HEADER_LEN as nat,
                chunks.last().len as nat,
            ) {
                Ok(tail) => Ok(head + tail),
                Err(f) => Err(f),
            },
            Err(f) => Err(f),
        }
    }
}

/// `c` with `p` in place of its bytes from `offset` on.
pub open spec fn patched(c: Seq<u8>, offset: int, p: Seq<u8>) -> Seq<u8> {
    Seq::new(
        c.len(),
        |i: int|
            if offset <= i < offset + p.len() {
                p[i - offset]
            } else {
                c[i]
            },
    )
}

/// `c` with every extent laid over it, in order.
pub open spec fn overlaid(data: Seq<Seq<u8>>, c: Seq<u8>, extents: Seq<ExtentView>) -> Result<
    Seq<u8>,
    ReadFault,
>
    decreases extents.len(),
{
    if extents.len() == 0 {
        Ok(c)
    } else {
        let x = extents.last();
        match overlaid(data, c, extents.drop_last()) {
            Ok(below) => match piece(data, x.replicas, 0, x.len as nat) {
                Ok(p) => if x.file_offset + p.len() > below.len() {
                    Err(ReadFault::BadExtent)
                } else {
                    Ok(patched(below, x.file_offset as int, p))
                },
                Err(f) => Err(f),
            },
            Err(f) => Err(f),
        }
    }
}

/// The bytes of a file.
pub open spec fn content(data: Seq<Seq<u8>>, rec: InodeView) -> Result<Seq<u8>, ReadFault> {
    match rec.data {
        LocatorView::ChunkLog(chunks) => chunks_content(data, chunks),
        LocatorView::Extents(extents) => if rec.size > usize::MAX {
            Err(ReadFault::BadExtent)
        } else {
            overlaid(data, bytes::zeros(rec.size as nat), extents)
        },
    }
}

/// The part of `c` that a read of `len` bytes at `offset` gives.
pub open spec fn window(c: Seq<u8>, offset: int, len: int) -> Seq<u8> {
    let start = if offset < c.len() {
        offset
    } else {
        c.len() as int
    };
    let end = if start + len < c.len() {
        start + len
    } else {
        c.len() as int
    };
    c.subrange(start, end)
}

/// `c` after a write of `p` at `offset`: longer where the write reaches past
/// the end, with zeros in a gap.
pub open spec fn overwritten(c: Seq<u8>, offset: int, p: Seq<u8>) -> Seq<u8> {
    crate::disk::written(c, offset, p)
}

/// A read of what was just written gives it back, and a read of anything
/// before or behind it gives what was there.
pub proof fn a_read_gives_back_what_was_written(c: Seq<u8>, offset: nat, p: Seq<u8>)
    ensures
        window(overwritten(c, offset as int, p), offset as int, p.len() as int) == p,
        forall|at: nat, n: nat|
            at + n <= offset && at + n <= c.len() ==> #[trigger] window(
                overwritten(c, offset as int, p),
                at as int,
                n as int,
            ) == window(c, at as int, n as int),
        forall|at: nat, n: nat|
            offset + p.len() <= at ==> #[trigger] window(
                overwritten(c, offset as int, p),
                at as int,
                n as int,
            ) == window(c, at as int, n as int),
{
    let w = overwritten(c, offset as int, p);
    assert(window(w, offset as int, p.len() as int) =~= p);
    assert forall|at: nat, n: nat| at + n <= offset && at + n <= c.len() implies #[trigger] window(
        w,
        at as int,
        n as int,
    ) == window(c, at as int, n as int) by {
        assert(window(w, at as int, n as int) =~= window(c, at as int, n as int));
    }
    assert forall|at: nat, n: nat| offset + p.len() <= at implies #[trigger] window(
        w,
        at as int,
        n as int,
    ) == window(c, at as int, n as int) by {
        assert(window(w, at as int, n as int) =~= window(c, at as int, n as int));
    }
}

/// A read gives as many bytes as were asked for, or as many as there are from
/// `offset` to the end, and they are those of the file.
pub proof fn a_read_gives_what_is_there(c: Seq<u8>, offset: nat, len: nat)
    ensures
        ({
            let w = window(c, offset as int, len as int);
            &&& offset >= c.len() ==> w.len() == 0
            &&& offset < c.len() && offset + len <= c.len() ==> w.len() == len
            &&& offset < c.len() && offset + len > c.len() ==> w.len() == c.len() - offset
            &&& forall|i: int| 0 <= i < w.len() ==> #[trigger] w[i] == c[offset + i]
        }),
{
}

/// A file that is read block by block is read whole: two reads, the second where
/// the first stopped, give what one read gives, and a read of everything gives
/// the file.
pub proof fn reads_in_blocks_give_the_file(c: Seq<u8>, offset: nat, a: nat, b: nat)
    ensures
        window(c, offset as int, a as int) + window(c, (offset + a) as int, b as int) == window(
            c,
            offset as int,
            (a + b) as int,
        ),
        a >= c.len() ==> window(c, 0, a as int) == c,
{
    let x = window(c, offset as int, a as int);
    let y = window(c, (offset + a) as int, b as int);
    assert(x + y =~= window(c, offset as int, (a + b) as int));
    if a >= c.len() {
        assert(window(c, 0, a as int) =~= c);
    }
}

/// A write changes exactly the bytes that it names. The file is as long as it was
/// or as far as the write reaches, with zeros in a gap.
pub proof fn a_write_changes_what_it_names(c: Seq<u8>, offset: nat, p: Seq<u8>)
    ensures
        ({
            let w = overwritten(c, offset as int, p);
            &&& offset + p.len() <= c.len() ==> w.len() == c.len()
            &&& offset + p.len() > c.len() ==> w.len() == offset + p.len()
            &&& forall|i: int| 0 <= i < p.len() ==> #[trigger] w[offset + i] == p[i]
            &&& forall|i: int|
                0 <= i < c.len() && (i < offset || offset + p.len() <= i) ==> #[trigger] w[i]
                    == c[i]
            &&& forall|i: int| c.len() <= i < offset ==> #[trigger] w[i] == 0
        }),
{
}

/// Two writes that do not meet may come in either order, and of two at one place
/// the later one stands.
pub proof fn writes_stand_until_overwritten(
    c: Seq<u8>,
    a: nat,
    p: Seq<u8>,
    b: nat,
    q: Seq<u8>,
)
    ensures
        a + p.len() <= b && p.len() > 0 && q.len() > 0 ==> overwritten(
            overwritten(c, a as int, p),
            b as int,
            q,
        ) == overwritten(overwritten(c, b as int, q), a as int, p),
        p.len() == q.len() ==> overwritten(overwritten(c, a as int, p), a as int, q)
            == overwritten(c, a as int, q),
{
    if a + p.len() <= b && p.len() > 0 && q.len() > 0 {
        assert(overwritten(overwritten(c, a as int, p), b as int, q) =~= overwritten(
            overwritten(c, b as int, q),
            a as int,
            p,
        ));
    }
    if p.len() == q.len() {
        assert(overwritten(overwritten(c, a as int, p), a as int, q) =~= overwritten(
            c,
            a as int,
            q,
        ));
    }
}

/// The bytes of a piece are those that its first replica holds behind the
/// header, on the disk with the replica's number.
pub proof fn a_piece_is_what_its_first_replica_holds(
    data: Seq<Seq<u8>>,
    replicas: Seq<(DiskId, u64)>,
    header: nat,
    len: nat,
)
    ensures
        piece(data, replicas, header, len) is Ok ==> replicas.len() > 0,
        replicas.len() > 0 && 1 <= replicas[0].0.0 <= data.len() ==> ({
            let held = data[replicas[0].0.0 - 1];
            let at = 0x400_1000 + replicas[0].1 + header;
            match piece(data, replicas, header, len) {
                Ok(p) => {
                    &&& p.len() == len
                    &&& at + len <= held.len()
                    &&& forall|i: int| 0 <= i < len ==> #[trigger] p[i] == held[at + i]
                },
                Err(f) => f == ReadFault::PastEnd && (at + len > held.len() || at > u64::MAX),
            }
        }),
        replicas.len() > 0 && !(1 <= replicas[0].0.0 <= data.len()) ==> piece(
            data,
            replicas,
            header,
            len,
        ) == Err::<Seq<u8>, ReadFault>(ReadFault::NoSuchDisk),
        replicas.len() == 0 ==> piece(data, replicas, header, len) == Err::<Seq<u8>, ReadFault>(
            ReadFault::NoReplica,
        ),
{
}

/// The bytes of an append-only file are its chunks' payloads in order: those of
/// the first chunks and those of the others behind them. One chunk has what is
/// behind its record's header, and none is no bytes.
pub proof fn chunks_follow_each_other(
    data: Seq<Seq<u8>>,
    rec: InodeView,
    first: Seq<ChunkView>,
    more: Seq<ChunkView>,
    chunk: ChunkView,
)
    ensures
        ({
            let of = |chunks: Seq<ChunkView>|
                content(data, InodeView { data: LocatorView::ChunkLog(chunks), ..rec });
            &&& of(Seq::empty()) == Ok::<Seq<u8>, ReadFault>(Seq::empty())
            &&& of(seq![chunk]) == piece(data, chunk.replicas, 28, chunk.len as nat)
            &&& of(first) is Ok && of(more) is Ok ==> of(first + more) == Ok::<
                Seq<u8>,
                ReadFault,
            >(of(first)->Ok_0 + of(more)->Ok_0)
            &&& of(first + more) is Ok ==> of(first) is Ok && of(more) is Ok
        }),
{
    assert(seq![chunk].drop_last() =~= Seq::<ChunkView>::empty());
    match piece(data, chunk.replicas, 28, chunk.len as nat) {
        Ok(p) => {
            assert(Seq::<u8>::empty() + p =~= p);
        },
        Err(_) => {},
    }
    lemma_chunks_concatenate(data, first, more);
}

proof fn lemma_chunks_concatenate(
    data: Seq<Seq<u8>>,
    first: Seq<ChunkView>,
    more: Seq<ChunkView>,
)
    ensures
        chunks_content(data, first) is Ok && chunks_content(data, more) is Ok ==> chunks_content(
            data,
            first + more,
        ) == Ok::<Seq<u8>, ReadFault>(
            chunks_content(data, first)->Ok_0 + chunks_content(data, more)->Ok_0,
        ),
        chunks_content(data, first + more) is Ok ==> chunks_content(data, first) is Ok
            && chunks_content(data, more) is Ok,
    decreases more.len(),
{
    if more.len() == 0 {
        assert(first + more =~= first);
        if let Ok(c) = chunks_content(data, first) {
            assert(c + Seq::<u8>::empty() =~= c);
        }
    } else {
        let init = more.drop_last();
        lemma_chunks_concatenate(data, first, init);
        assert((first + more).drop_last() =~= first + init);
        assert((first + more).last() == more.last());
        let last = piece(data, more.last().replicas, HEADER_LEN as nat, more.last().len as nat);
        if chunks_content(data, first) is Ok && chunks_content(data, init) is Ok && last is Ok {
            assert((chunks_content(data, first)->Ok_0 + chunks_content(data, init)->Ok_0)
                + last->Ok_0 =~= chunks_content(data, first)->Ok_0 + (chunks_content(
                data,
                init,
            )->Ok_0 + last->Ok_0));
        }
    }
}

/// The bytes of a writable file are as many as its size says, zeros where no
/// extent is, and where extents lie over each other those of the last one.
pub proof fn extents_lie_over_each_other(
    data: Seq<Seq<u8>>,
    rec: InodeView,
    extents: Seq<ExtentView>,
    x: ExtentView,
)
    requires
        rec.size <= usize::MAX,
    ensures
        ({
            let of = |xs: Seq<ExtentView>|
                content(data, InodeView { data: LocatorView::Extents(xs), ..rec });
            let p = piece(data, x.replicas, 0, x.len as nat);
            &&& of(Seq::empty()) matches Ok(none) && none.len() == rec.size && forall|i: int|
                0 <= i < none.len() ==> #[trigger] none[i] == 0
            &&& of(extents) is Ok ==> of(extents)->Ok_0.len() == rec.size
            &&& of(extents) is Ok && p is Ok && x.file_offset + x.len <= rec.size ==> {
                let over = of(extents.push(x));
                &&& over is Ok
                &&& over->Ok_0.len() == rec.size
                &&& forall|i: int|
                    0 <= i < x.len ==> #[trigger] over->Ok_0[x.file_offset + i] == p->Ok_0[i]
                &&& forall|i: int|
                    0 <= i < rec.size && (i < x.file_offset || x.file_offset + x.len <= i)
                        ==> #[trigger] over->Ok_0[i] == of(extents)->Ok_0[i]
            }
        }),
{
    let base = bytes::zeros(rec.size as nat);
    assert(extents.push(x).drop_last() =~= extents);
    lemma_overlaid_len(data, base, extents);
    if piece(data, x.replicas, 0, x.len as nat) is Ok {
        a_piece_is_what_its_first_replica_holds(data, x.replicas, 0, x.len as nat);
    }
}

proof fn lemma_overlaid_len(data: Seq<Seq<u8>>, c: Seq<u8>, extents: Seq<ExtentView>)
    ensures
        overlaid(data, c, extents) matches Ok(v) ==> v.len() == c.len(),
    decreases extents.len(),
{
    if extents.len() > 0 {
        lemma_overlaid_len(data, c, extents.drop_last());
    }
}

/// Writing at the end is appending.
pub proof fn writing_at_the_end_appends(c: Seq<u8>, p: Seq<u8>)
    ensures
        overwritten(c, c.len() as int, p) == c + p,
{
    assert(overwritten(c, c.len() as int, p) =~= c + p);
}

// ---------------------------------------------------------------------
// Settled files

/// Every replica is on a disk of the pool and ends below that disk's cursor.
pub open spec fn replicas_settled(
    cursors: Seq<u64>,
    replicas: Seq<(DiskId, u64)>,
    n: nat,
) -> bool {
    &&& replicas.len() > 0
    &&& forall|k: int|
        0 <= k < replicas.len() ==> {
            let (id, offset) = #[trigger] replicas[k];
            1 <= id.0 <= cursors.len() && offset + n <= cursors[id.0 - 1]
        }
}

pub open spec fn chunks_len(chunks: Seq<ChunkView>) -> nat
    decreases chunks.len(),
{
    if chunks.len() == 0 {
        0
    } else {
        chunks_len(chunks.drop_last()) + chunks.last().len as nat
    }
}

/// Everything that the record points to is below the cursors, and its size is
/// that of what it points to.
pub open spec fn rec_settled(cursors: Seq<u64>, rec: InodeView) -> bool {
    match rec.data {
        LocatorView::ChunkLog(chunks) => {
            &&& forall|i: int|
                0 <= i < chunks.len() ==> replicas_settled(
                    cursors,
                    (#[trigger] chunks[i]).replicas,
                    HEADER_LEN as nat + chunks[i].len as nat,
                )
            &&& rec.size == chunks_len(chunks)
        },
        LocatorView::Extents(extents) => {
            &&& forall|i: int|
                0 <= i < extents.len() ==> replicas_settled(
                    cursors,
                    (#[trigger] extents[i]).replicas,
                    extents[i].len as nat,
                ) && 0 < extents[i].len && extents[i].file_offset + extents[i].len <= rec.size
            &&& rec.size <= usize::MAX
        },
    }
}

/// The disks reach as far as their cursors.
pub open spec fn covered(data: Seq<Seq<u8>>, cursors: Seq<u64>) -> bool {
    &&& data.len() == cursors.len()
    &&& forall|i: int|
        0 <= i < cursors.len() ==> SEGMENT_BASE_OFFSET + #[trigger] cursors[i] <= u64::MAX && (
        cursors[i] > 0 ==> data[i].len() >= SEGMENT_BASE_OFFSET + cursors[i])
}

/// Below the cursors the disks hold what they held.
pub open spec fn same_below(before: Seq<Seq<u8>>, after: Seq<Seq<u8>>, cursors: Seq<u64>) -> bool {
    &&& after.len() == before.len()
    &&& cursors.len() == before.len()
    &&& forall|i: int|
        0 <= i < before.len() ==> (#[trigger] after[i]).len() >= before[i].len()
    &&& forall|i: int, j: int|
        0 <= i < before.len() && 0 <= j < before[i].len() && j < SEGMENT_BASE_OFFSET + cursors[i]
            ==> #[trigger] after[i][j] == before[i][j]
}

proof fn lemma_piece_settled(
    before: Seq<Seq<u8>>,
    after: Seq<Seq<u8>>,
    cursors: Seq<u64>,
    replicas: Seq<(DiskId, u64)>,
    header: nat,
    len: nat,
)
    requires
        covered(before, cursors),
        same_below(before, after, cursors),
        replicas_settled(cursors, replicas, header + len),
        header + len > 0,
    ensures
        piece(before, replicas, header, len) is Ok,
        piece(before, replicas, header, len)->Ok_0.len() == len,
        piece(after, replicas, header, len) == piece(before, replicas, header, len),
{
    let (id, offset) = replicas[0];
    let i = id.0 - 1;
    let at = SEGMENT_BASE_OFFSET + offset + header;
    assert(cursors[i] > 0);
    assert(after[i].len() >= before[i].len());
    assert forall|j: int| at <= j < at + len implies after[i][j] == before[i][j] by {}
    assert(after[i].subrange(at, at + len) =~= before[i].subrange(at, at + len));
}

proof fn lemma_chunks_settled(
    before: Seq<Seq<u8>>,
    after: Seq<Seq<u8>>,
    cursors: Seq<u64>,
    chunks: Seq<ChunkView>,
)
    requires
        covered(before, cursors),
        same_below(before, after, cursors),
        forall|i: int|
            0 <= i < chunks.len() ==> replicas_settled(
                cursors,
                (#[trigger] chunks[i]).replicas,
                HEADER_LEN as nat + chunks[i].len as nat,
            ),
    ensures
        chunks_content(before, chunks) is Ok,
        chunks_content(before, chunks)->Ok_0.len() == chunks_len(chunks),
        chunks_content(after, chunks) == chunks_content(before, chunks),
    decreases chunks.len(),
{
    if chunks.len() > 0 {
        let init = chunks.drop_last();
        assert forall|i: int| 0 <= i < init.len() implies replicas_settled(
            cursors,
            (#[trigger] init[i]).replicas,
            HEADER_LEN as nat + init[i].len as nat,
        ) by {
            assert(init[i] == chunks[i]);
        }
        lemma_chunks_settled(before, after, cursors, init);
        let last = chunks.last();
        assert(last == chunks[chunks.len() - 1]);
        lemma_piece_settled(
            before,
            after,
            cursors,
            last.replicas,
            HEADER_LEN as nat,
            last.len as nat,
        );
    }
}

proof fn lemma_extents_settled(
    before: Seq<Seq<u8>>,
    after: Seq<Seq<u8>>,
    cursors: Seq<u64>,
    c: Seq<u8>,
    extents: Seq<ExtentView>,
)
    requires
        covered(before, cursors),
        same_below(before, after, cursors),
        forall|i: int|
            0 <= i < extents.len() ==> replicas_settled(
                cursors,
                (#[trigger] extents[i]).replicas,
                extents[i].len as nat,
            ) && 0 < extents[i].len && extents[i].file_offset + extents[i].len <= c.len(),
    ensures
        overlaid(before, c, extents) is Ok,
        overlaid(before, c, extents)->Ok_0.len() == c.len(),
        overlaid(after, c, extents) == overlaid(before, c, extents),
    decreases extents.len(),
{
    if extents.len() > 0 {
        let init = extents.drop_last();
        assert forall|i: int| 0 <= i < init.len() implies replicas_settled(
            cursors,
            (#[trigger] init[i]).replicas,
            init[i].len as nat,
        ) && 0 < init[i].len && init[i].file_offset + init[i].len <= c.len() by {
            assert(init[i] == extents[i]);
        }
        lemma_extents_settled(before, after, cursors, c, init);
        let x = extents.last();
        assert(x == extents[extents.len() - 1]);
        lemma_piece_settled(before, after, cursors, x.replicas, 0, x.len as nat);
    }
}

/// A settled file has content, as long as its size says, and keeps it whatever
/// is written at or past the cursors.
pub proof fn settled_content(
    before: Seq<Seq<u8>>,
    after: Seq<Seq<u8>>,
    cursors: Seq<u64>,
    rec: InodeView,
)
    requires
        covered(before, cursors),
        same_below(before, after, cursors),
        rec_settled(cursors, rec),
    ensures
        content(before, rec) is Ok,
        content(before, rec)->Ok_0.len() == rec.size,
        content(after, rec) == content(before, rec),
{
    match rec.data {
        LocatorView::ChunkLog(chunks) => {
            lemma_chunks_settled(before, after, cursors, chunks);
        },
        LocatorView::Extents(extents) => {
            lemma_extents_settled(before, after, cursors, bytes::zeros(rec.size as nat), extents);
        },
    }
}

/// A settled file stays settled when cursors move up.
pub proof fn lemma_settled_grows(a: Seq<u64>, b: Seq<u64>, rec: InodeView)
    requires
        rec_settled(a, rec),
        b.len() == a.len(),
        forall|i: int| 0 <= i < a.len() ==> a[i] <= #[trigger] b[i],
    ensures
        rec_settled(b, rec),
{
    match rec.data {
        LocatorView::ChunkLog(chunks) => {
            assert forall|i: int| 0 <= i < chunks.len() implies replicas_settled(
                b,
                (#[trigger] chunks[i]).replicas,
                HEADER_LEN as nat + chunks[i].len as nat,
            ) by {
                lemma_replicas_grow(a, b, chunks[i].replicas, HEADER_LEN as nat + chunks[i].len as nat);
            }
        },
        LocatorView::Extents(extents) => {
            assert forall|i: int| 0 <= i < extents.len() implies replicas_settled(
                b,
                (#[trigger] extents[i]).replicas,
                extents[i].len as nat,
            ) by {
                lemma_replicas_grow(a, b, extents[i].replicas, extents[i].len as nat);
            }
        },
    }
}

proof fn lemma_replicas_grow(a: Seq<u64>, b: Seq<u64>, replicas: Seq<(DiskId, u64)>, n: nat)
    requires
        replicas_settled(a, replicas, n),
        b.len() == a.len(),
        forall|i: int| 0 <= i < a.len() ==> a[i] <= #[trigger] b[i],
    ensures
        replicas_settled(b, replicas, n),
{
    assert forall|k: int| 0 <= k < replicas.len() implies {
        let (id, offset) = #[trigger] replicas[k];
        1 <= id.0 <= b.len() && offset + n <= b[id.0 - 1]
    } by {
        let (id, offset) = replicas[k];
        assert(a[id.0 - 1] <= b[id.0 - 1]);
    }
}

/// One chunk more: its payload comes behind what was there.
pub proof fn lemma_chunk_added(data: Seq<Seq<u8>>, chunks: Seq<ChunkView>, chunk: ChunkView)
    ensures
        chunks_content(data, chunks.push(chunk)) == (match chunks_content(data, chunks) {
            Ok(head) => match piece(
                data,
                chunk.replicas,
                HEADER_LEN as nat,
                chunk.len as nat,
            ) {
                Ok(tail) => Ok(head + tail),
                Err(f) => Err(f),
            },
            Err(f) => Err(f),
        }),
        chunks_len(chunks.push(chunk)) == chunks_len(chunks) + chunk.len,
{
    assert(chunks.push(chunk).drop_last() =~= chunks);
}

/// A file of one extent that covers it whole has the extent's bytes.
pub proof fn lemma_whole_extent(data: Seq<Seq<u8>>, x: ExtentView, c: Seq<u8>, size: u64)
    requires
        x.file_offset == 0,
        x.len == c.len(),
        size == c.len(),
        piece(data, x.replicas, 0, x.len as nat) == Ok::<Seq<u8>, ReadFault>(c),
    ensures
        overlaid(data, bytes::zeros(size as nat), seq![x]) == Ok::<Seq<u8>, ReadFault>(c),
{
    assert(seq![x].drop_last() =~= Seq::<ExtentView>::empty());
    assert(overlaid(data, bytes::zeros(size as nat), Seq::<ExtentView>::empty()) == Ok::<
        Seq<u8>,
        ReadFault,
    >(bytes::zeros(size as nat)));
    assert(patched(bytes::zeros(size as nat), 0, c) =~= c);
}

// ---------------------------------------------------------------------
// Where the pieces end

/// The highest offset in a data region that a disk can be asked for.
pub const REACH: u64 = 0xffff_ffff_ffff_ffff - SEGMENT_BASE_OFFSET;

/// Where replicas of `n` bytes end: the disk of each, and its end, counted from
/// the start of the disk's data region.
pub open spec fn replica_ends(replicas: Seq<(DiskId, u64)>, n: nat) -> Set<(u128, int)>
    decreases replicas.len(),
{
    if replicas.len() == 0 {
        Set::empty()
    } else {
        replica_ends(replicas.drop_last(), n).union(
            set![(replicas.last().0.0, replicas.last().1 + n)],
        )
    }
}

pub open spec fn chunk_ends(chunks: Seq<ChunkView>) -> Set<(u128, int)>
    decreases chunks.len(),
{
    if chunks.len() == 0 {
        Set::empty()
    } else {
        chunk_ends(chunks.drop_last()).union(
            replica_ends(
                chunks.last().replicas,
                HEADER_LEN as nat + chunks.last().len as nat,
            ),
        )
    }
}

pub open spec fn extent_ends(extents: Seq<ExtentView>) -> Set<(u128, int)>
    decreases extents.len(),
{
    if extents.len() == 0 {
        Set::empty()
    } else {
        extent_ends(extents.drop_last()).union(
            replica_ends(extents.last().replicas, extents.last().len as nat),
        )
    }
}

/// Where the pieces of a file end, on every disk that has one.
pub open spec fn rec_ends(rec: InodeView) -> Set<(u128, int)> {
    match rec.data {
        LocatorView::ChunkLog(chunks) => chunk_ends(chunks),
        LocatorView::Extents(extents) => extent_ends(extents),
    }
}

pub open spec fn list_ends(list: Seq<InodeView>) -> Set<(u128, int)>
    decreases list.len(),
{
    if list.len() == 0 {
        Set::empty()
    } else {
        list_ends(list.drop_last()).union(rec_ends(list.last()))
    }
}

/// Where the pieces of all files end.
pub open spec fn all_ends(inodes: Map<InodeId, InodeView>) -> Set<(u128, int)> {
    Set::new(
        |m: (u128, int)|
            exists|k: InodeId| #[trigger]
                inodes.dom().contains(k) && rec_ends(inodes[k]).contains(m),
    )
}

/// `to` is the lowest cursor that is not below `from` and not below the end of
/// any piece on disk `id`. A piece that would end where no disk can be asked for
/// it does not count.
pub open spec fn raised_to(from: int, to: int, id: int, ends: Set<(u128, int)>) -> bool {
    &&& from <= to
    &&& forall|end: int| #[trigger]
        ends.contains((id as u128, end)) && end <= REACH ==> end <= to
    &&& to == from || ends.contains((id as u128, to)) && to <= REACH
}

/// Every cursor was raised above the pieces that end on its disk.
pub open spec fn raised(a: Seq<u64>, b: Seq<u64>, ends: Set<(u128, int)>) -> bool {
    &&& b.len() == a.len()
    &&& forall|i: int|
        0 <= i < a.len() ==> raised_to(a[i] as int, #[trigger] b[i] as int, i + 1, ends)
}

proof fn lemma_raised_twice(
    a: Seq<u64>,
    b: Seq<u64>,
    c: Seq<u64>,
    s: Set<(u128, int)>,
    t: Set<(u128, int)>,
)
    requires
        raised(a, b, s),
        raised(b, c, t),
    ensures
        raised(a, c, s.union(t)),
{
    assert forall|i: int| 0 <= i < a.len() implies raised_to(
        a[i] as int,
        #[trigger] c[i] as int,
        i + 1,
        s.union(t),
    ) by {
        assert(raised_to(a[i] as int, b[i] as int, i + 1, s));
        assert(raised_to(b[i] as int, c[i] as int, i + 1, t));
    }
}

fn raise_replicas(cursors: &mut Vec<u64>, replicas: &Vec<(DiskId, u64)>, n: u64)
    requires
        n <= 0x1_0000_0000 + HEADER_LEN,
        old(cursors)@.len() <= u32::MAX,
    ensures
        raised(old(cursors)@, final(cursors)@, replica_ends(replicas@, n as nat)),
{
    let ghost start = cursors@;
    let mut k: usize = 0;
    assert(replicas@.take(0) =~= Seq::empty());
    while k < replicas.len()
        invariant
            k <= replicas@.len(),
            n <= 0x1_0000_0000 + HEADER_LEN,
            cursors@.len() <= u32::MAX,
            raised(start, cursors@, replica_ends(replicas@.take(k as int), n as nat)),
        decreases replicas@.len() - k,
    {
        let (id, offset) = replicas[k];
        let ghost before = cursors@;
        let ghost here = set![(id.0, offset + n as nat)];
        let count: usize = cursors.len();
        if 1 <= id.0 && id.0 <= count as u128 && offset <= REACH - n {
            let i: usize = (id.0 - 1) as usize;
            if offset + n > cursors[i] {
                cursors[i] = offset + n;
            }
        }
        proof {
            assert(raised(before, cursors@, here));
            lemma_raised_twice(
                start,
                before,
                cursors@,
                replica_ends(replicas@.take(k as int), n as nat),
                here,
            );
            assert(replicas@.take(k + 1).drop_last() =~= replicas@.take(k as int));
        }
        k = k + 1;
    }
    assert(replicas@.take(k as int) =~= replicas@);
}

fn raise_chunks(cursors: &mut Vec<u64>, chunks: &Vec<ChunkPointer>)
    requires
        old(cursors)@.len() <= u32::MAX,
    ensures
        raised(old(cursors)@, final(cursors)@, chunk_ends(proto::views(chunks@))),
{
    let ghost start = cursors@;
    let ghost all = proto::views(chunks@);
    let mut i: usize = 0;
    assert(all.take(0) =~= Seq::empty());
    while i < chunks.len()
        invariant
            i <= chunks@.len(),
            all == proto::views(chunks@),
            cursors@.len() <= u32::MAX,
            raised(start, cursors@, chunk_ends(all.take(i as int))),
        decreases chunks@.len() - i,
    {
        let c = &chunks[i];
        let ghost before = cursors@;
        raise_replicas(cursors, &c.replicas, HEADER_LEN as u64 + c.len as u64);
        proof {
            lemma_raised_twice(
                start,
                before,
                cursors@,
                chunk_ends(all.take(i as int)),
                replica_ends(c@.replicas, HEADER_LEN as nat + c@.len as nat),
            );
            assert(all.take(i + 1).drop_last() =~= all.take(i as int));
            assert(all.take(i + 1).last() == c@);
        }
        i = i + 1;
    }
    assert(all.take(i as int) =~= all);
}

fn raise_extents(cursors: &mut Vec<u64>, extents: &Vec<Extent>)
    requires
        old(cursors)@.len() <= u32::MAX,
    ensures
        raised(old(cursors)@, final(cursors)@, extent_ends(proto::views(extents@))),
{
    let ghost start = cursors@;
    let ghost all = proto::views(extents@);
    let mut i: usize = 0;
    assert(all.take(0) =~= Seq::empty());
    while i < extents.len()
        invariant
            i <= extents@.len(),
            all == proto::views(extents@),
            cursors@.len() <= u32::MAX,
            raised(start, cursors@, extent_ends(all.take(i as int))),
        decreases extents@.len() - i,
    {
        let x = &extents[i];
        let ghost before = cursors@;
        raise_replicas(cursors, &x.replicas, x.len as u64);
        proof {
            lemma_raised_twice(
                start,
                before,
                cursors@,
                extent_ends(all.take(i as int)),
                replica_ends(x@.replicas, x@.len as nat),
            );
            assert(all.take(i + 1).drop_last() =~= all.take(i as int));
            assert(all.take(i + 1).last() == x@);
        }
        i = i + 1;
    }
    assert(all.take(i as int) =~= all);
}

/// Raises the cursors above everything that the records point to.
pub fn raise_above(cursors: &mut Vec<u64>, list: &Vec<InodeRecord>)
    requires
        old(cursors)@.len() <= u32::MAX,
    ensures
        raised(old(cursors)@, final(cursors)@, list_ends(proto::views(list@))),
{
    let ghost start = cursors@;
    let ghost all = proto::views(list@);
    let mut i: usize = 0;
    assert(all.take(0) =~= Seq::empty());
    while i < list.len()
        invariant
            i <= list@.len(),
            all == proto::views(list@),
            cursors@.len() <= u32::MAX,
            raised(start, cursors@, list_ends(all.take(i as int))),
        decreases list@.len() - i,
    {
        let ghost before = cursors@;
        let ghost rec = list@[i as int]@;
        match &list[i].data {
            DataLocator::ChunkLog(chunks) => raise_chunks(cursors, chunks),
            DataLocator::Extents(extents) => raise_extents(cursors, extents),
        }
        proof {
            lemma_raised_twice(
                start,
                before,
                cursors@,
                list_ends(all.take(i as int)),
                rec_ends(rec),
            );
            assert(all.take(i + 1).drop_last() =~= all.take(i as int));
            assert(all.take(i + 1).last() == rec);
        }
        i = i + 1;
    }
    assert(all.take(i as int) =~= all);
}

proof fn lemma_list_ends(list: Seq<InodeView>, m: (u128, int))
    ensures
        list_ends(list).contains(m) <==> exists|i: int|
            0 <= i < list.len() && rec_ends(#[trigger] list[i]).contains(m),
    decreases list.len(),
{
    if list.len() > 0 {
        let init = list.drop_last();
        lemma_list_ends(init, m);
        if list_ends(init).contains(m) {
            let i = choose|i: int| 0 <= i < init.len() && rec_ends(#[trigger] init[i]).contains(m);
            assert(list[i] == init[i]);
        }
        assert(list[list.len() - 1] == list.last());
        if exists|i: int| 0 <= i < list.len() && rec_ends(#[trigger] list[i]).contains(m) {
            let i = choose|i: int| 0 <= i < list.len() && rec_ends(#[trigger] list[i]).contains(m);
            if i < init.len() {
                assert(init[i] == list[i]);
            }
        }
    }
}

/// A list of all records has the ends of all files.
pub proof fn lemma_listed_ends(inodes: Map<InodeId, InodeView>, list: Seq<InodeView>)
    requires
        crate::store::lists_inodes(inodes, list),
    ensures
        list_ends(list) == all_ends(inodes),
{
    assert forall|m: (u128, int)| list_ends(list).contains(m) <==> all_ends(inodes).contains(m) by {
        lemma_list_ends(list, m);
        if list_ends(list).contains(m) {
            let i = choose|i: int| 0 <= i < list.len() && rec_ends(#[trigger] list[i]).contains(m);
            assert(inodes.dom().contains(list[i].inode));
        }
        if all_ends(inodes).contains(m) {
            let k = choose|k: InodeId| #[trigger]
                inodes.dom().contains(k) && rec_ends(inodes[k]).contains(m);
            let i = choose|i: int| 0 <= i < list.len() && (#[trigger] list[i]) == inodes[k];
            assert(rec_ends(list[i]).contains(m));
        }
    }
    assert(list_ends(list) =~= all_ends(inodes));
}

proof fn lemma_replica_end(replicas: Seq<(DiskId, u64)>, n: nat, k: int)
    requires
        0 <= k < replicas.len(),
    ensures
        replica_ends(replicas, n).contains((replicas[k].0.0, replicas[k].1 + n)),
    decreases replicas.len(),
{
    if k < replicas.len() - 1 {
        lemma_replica_end(replicas.drop_last(), n, k);
    }
}

proof fn lemma_chunk_end(chunks: Seq<ChunkView>, i: int, k: int)
    requires
        0 <= i < chunks.len(),
        0 <= k < chunks[i].replicas.len(),
    ensures
        chunk_ends(chunks).contains(
            (
                chunks[i].replicas[k].0.0,
                chunks[i].replicas[k].1 + (HEADER_LEN as nat + chunks[i].len as nat),
            ),
        ),
    decreases chunks.len(),
{
    if i < chunks.len() - 1 {
        lemma_chunk_end(chunks.drop_last(), i, k);
    } else {
        lemma_replica_end(chunks[i].replicas, HEADER_LEN as nat + chunks[i].len as nat, k);
    }
}

proof fn lemma_extent_end(extents: Seq<ExtentView>, i: int, k: int)
    requires
        0 <= i < extents.len(),
        0 <= k < extents[i].replicas.len(),
    ensures
        extent_ends(extents).contains(
            (extents[i].replicas[k].0.0, extents[i].replicas[k].1 + extents[i].len as nat),
        ),
    decreases extents.len(),
{
    if i < extents.len() - 1 {
        lemma_extent_end(extents.drop_last(), i, k);
    } else {
        lemma_replica_end(extents[i].replicas, extents[i].len as nat, k);
    }
}

/// A settled file is settled below every cursors that its pieces end below.
pub proof fn lemma_settled_below(a: Seq<u64>, b: Seq<u64>, rec: InodeView)
    requires
        rec_settled(a, rec),
        b.len() == a.len(),
        forall|i: int| 0 <= i < a.len() ==> #[trigger] a[i] <= REACH,
        forall|i: int, end: int|
            0 <= i < b.len() && #[trigger] rec_ends(rec).contains(((i + 1) as u128, end)) && end
                <= REACH ==> end <= b[i],
    ensures
        rec_settled(b, rec),
{
    match rec.data {
        LocatorView::ChunkLog(chunks) => {
            assert forall|i: int| 0 <= i < chunks.len() implies replicas_settled(
                b,
                (#[trigger] chunks[i]).replicas,
                HEADER_LEN as nat + chunks[i].len as nat,
            ) by {
                let rs = chunks[i].replicas;
                let n = HEADER_LEN as nat + chunks[i].len as nat;
                assert(replicas_settled(a, rs, n));
                assert forall|k: int| 0 <= k < rs.len() implies {
                    let (id, offset) = #[trigger] rs[k];
                    1 <= id.0 <= b.len() && offset + n <= b[id.0 - 1]
                } by {
                    let (id, offset) = rs[k];
                    let at = id.0 - 1;
                    assert(a[at] <= REACH);
                    lemma_chunk_end(chunks, i, k);
                    assert(rec_ends(rec).contains(((at + 1) as u128, offset + n)));
                }
            }
        },
        LocatorView::Extents(extents) => {
            assert forall|i: int| 0 <= i < extents.len() implies replicas_settled(
                b,
                (#[trigger] extents[i]).replicas,
                extents[i].len as nat,
            ) by {
                let rs = extents[i].replicas;
                let n = extents[i].len as nat;
                assert(replicas_settled(a, rs, n));
                assert forall|k: int| 0 <= k < rs.len() implies {
                    let (id, offset) = #[trigger] rs[k];
                    1 <= id.0 <= b.len() && offset + n <= b[id.0 - 1]
                } by {
                    let (id, offset) = rs[k];
                    let at = id.0 - 1;
                    assert(a[at] <= REACH);
                    lemma_extent_end(extents, i, k);
                    assert(rec_ends(rec).contains(((at + 1) as u128, offset + n)));
                }
            }
        },
    }
}

/// No piece of the file ends above the cursor of its disk.
pub open spec fn rec_bounded(cursors: Seq<u64>, rec: InodeView) -> bool {
    forall|m: (u128, int)| #[trigger]
        rec_ends(rec).contains(m) && 1 <= m.0 <= cursors.len() ==> m.1 <= cursors[m.0 - 1]
}

/// The pieces stay below the cursors when those move up.
pub proof fn lemma_bounded_grows(a: Seq<u64>, b: Seq<u64>, rec: InodeView)
    requires
        rec_bounded(a, rec),
        b.len() == a.len(),
        forall|i: int| 0 <= i < a.len() ==> a[i] <= #[trigger] b[i],
    ensures
        rec_bounded(b, rec),
{
    assert forall|m: (u128, int)| #[trigger]
        rec_ends(rec).contains(m) && 1 <= m.0 <= b.len() implies m.1 <= b[m.0 - 1] by {
        assert(a[m.0 - 1] <= b[m.0 - 1]);
    }
}

/// So they are in a settled file.
pub proof fn lemma_settled_bounded(cursors: Seq<u64>, rec: InodeView)
    requires
        rec_settled(cursors, rec),
    ensures
        rec_bounded(cursors, rec),
{
    assert forall|m: (u128, int)| #[trigger]
        rec_ends(rec).contains(m) && 1 <= m.0 <= cursors.len() implies m.1 <= cursors[m.0
        - 1] by {
        lemma_settled_ends(cursors, rec, m);
    }
}

/// Every end of replicas that end below the cursors does.
pub proof fn lemma_replica_ends_below(
    cursors: Seq<u64>,
    replicas: Seq<(DiskId, u64)>,
    n: nat,
    m: (u128, int),
)
    requires
        forall|k: int|
            0 <= k < replicas.len() ==> {
                let (id, offset) = #[trigger] replicas[k];
                1 <= id.0 <= cursors.len() && offset + n <= cursors[id.0 - 1]
            },
        replica_ends(replicas, n).contains(m),
    ensures
        1 <= m.0 <= cursors.len(),
        m.1 <= cursors[m.0 - 1],
    decreases replicas.len(),
{
    let last = replicas[replicas.len() - 1];
    if replica_ends(replicas.drop_last(), n).contains(m) {
        assert forall|k: int| 0 <= k < replicas.drop_last().len() implies {
            let (id, offset) = #[trigger] replicas.drop_last()[k];
            1 <= id.0 <= cursors.len() && offset + n <= cursors[id.0 - 1]
        } by {
            assert(replicas.drop_last()[k] == replicas[k]);
        }
        lemma_replica_ends_below(cursors, replicas.drop_last(), n, m);
    }
}

/// No piece of a settled file ends above the cursor of its disk.
pub proof fn lemma_settled_ends(cursors: Seq<u64>, rec: InodeView, m: (u128, int))
    requires
        rec_settled(cursors, rec),
        rec_ends(rec).contains(m),
    ensures
        1 <= m.0 <= cursors.len(),
        m.1 <= cursors[m.0 - 1],
{
    match rec.data {
        LocatorView::ChunkLog(chunks) => lemma_chunk_ends_below(cursors, chunks, m),
        LocatorView::Extents(extents) => lemma_extent_ends_below(cursors, extents, m),
    }
}

proof fn lemma_chunk_ends_below(cursors: Seq<u64>, chunks: Seq<ChunkView>, m: (u128, int))
    requires
        forall|i: int|
            0 <= i < chunks.len() ==> replicas_settled(
                cursors,
                (#[trigger] chunks[i]).replicas,
                HEADER_LEN as nat + chunks[i].len as nat,
            ),
        chunk_ends(chunks).contains(m),
    ensures
        1 <= m.0 <= cursors.len(),
        m.1 <= cursors[m.0 - 1],
    decreases chunks.len(),
{
    let init = chunks.drop_last();
    if chunk_ends(init).contains(m) {
        assert forall|i: int| 0 <= i < init.len() implies replicas_settled(
            cursors,
            (#[trigger] init[i]).replicas,
            HEADER_LEN as nat + init[i].len as nat,
        ) by {
            assert(init[i] == chunks[i]);
        }
        lemma_chunk_ends_below(cursors, init, m);
    } else {
        let last = chunks[chunks.len() - 1];
        lemma_replica_ends_below(
            cursors,
            last.replicas,
            HEADER_LEN as nat + last.len as nat,
            m,
        );
    }
}

proof fn lemma_extent_ends_below(cursors: Seq<u64>, extents: Seq<ExtentView>, m: (u128, int))
    requires
        forall|i: int|
            0 <= i < extents.len() ==> replicas_settled(
                cursors,
                (#[trigger] extents[i]).replicas,
                extents[i].len as nat,
            ),
        extent_ends(extents).contains(m),
    ensures
        1 <= m.0 <= cursors.len(),
        m.1 <= cursors[m.0 - 1],
    decreases extents.len(),
{
    let init = extents.drop_last();
    if extent_ends(init).contains(m) {
        assert forall|i: int| 0 <= i < init.len() implies replicas_settled(
            cursors,
            (#[trigger] init[i]).replicas,
            init[i].len as nat,
        ) by {
            assert(init[i] == extents[i]);
        }
        lemma_extent_ends_below(cursors, init, m);
    } else {
        let last = extents[extents.len() - 1];
        lemma_replica_ends_below(cursors, last.replicas, last.len as nat, m);
    }
}

} // verus!
