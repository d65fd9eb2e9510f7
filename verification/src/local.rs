//! The local view of the metadata: two tables of a redb database, one of inode
//! records and one of directory entries.
//!
//! Of the functions on the database nothing is proved. Each makes one transaction, and
//! its contract says what redb's documentation promises of it: a transaction
//! that commits takes effect as a whole, one that fails as a whole or not at
//! all, and a read sees exactly what was committed before it. That holds as
//! long as nobody else writes to the database, so a store owns its handle and
//! is handed one on which no other write transaction is open.

use vstd::prelude::*;

verus! {

#[verifier::external_type_specification]
#[verifier::external_body]
pub struct ExDatabase(redb::Database);

#[verifier::external_type_specification]
#[verifier::external_body]
pub struct ExError(redb::Error);

/// The rows of the table `inodes`: records by inode number.
pub uninterp spec fn inode_rows(db: redb::Database) -> Map<u64, Seq<u8>>;

/// The rows of the table `dir_entries`: inode numbers by entry key.
pub uninterp spec fn dir_rows(db: redb::Database) -> Map<Seq<u8>, u64>;

/// `a` sorts before `b`: at the first byte in which they differ it has the
/// lower one, or it is a proper beginning of `b`.
pub open spec fn sorts_before(a: Seq<u8>, b: Seq<u8>) -> bool
    decreases a.len(),
{
    if b.len() == 0 {
        false
    } else if a.len() == 0 {
        true
    } else if a[0] != b[0] {
        a[0] < b[0]
    } else {
        sorts_before(a.drop_first(), b.drop_first())
    }
}

/// A row as it is handed out.
pub open spec fn row(p: (Vec<u8>, u64)) -> (Seq<u8>, u64) {
    (p.0@, p.1)
}

/// `rows` lists the rows with keys from `from` on, in ascending order.
pub open spec fn is_range(
    table: Map<Seq<u8>, u64>,
    from: Seq<u8>,
    rows: Seq<(Vec<u8>, u64)>,
) -> bool {
    &&& forall|i: int|
        0 <= i < rows.len() ==> {
            let (k, v) = row(#[trigger] rows[i]);
            table.dom().contains(k) && table[k] == v && !sorts_before(k, from)
        }
    &&& forall|i: int, j: int|
        0 <= i < j < rows.len() ==> sorts_before(
            row(#[trigger] rows[i]).0,
            row(#[trigger] rows[j]).0,
        )
    &&& forall|k: Seq<u8>| #[trigger]
        table.dom().contains(k) && !sorts_before(k, from) ==> exists|i: int|
            0 <= i < rows.len() && row(#[trigger] rows[i]).0 == k
}

/// `rows` lists all rows of the table, in ascending order of their keys.
pub open spec fn is_table(table: Map<u64, Seq<u8>>, rows: Seq<(u64, Vec<u8>)>) -> bool {
    &&& forall|i: int|
        0 <= i < rows.len() ==> table.dom().contains((#[trigger] rows[i]).0) && table[rows[i].0]
            == rows[i].1@
    &&& forall|i: int, j: int|
        0 <= i < j < rows.len() ==> (#[trigger] rows[i]).0 < (#[trigger] rows[j]).0
    &&& forall|k: u64| #[trigger]
        table.dom().contains(k) ==> exists|i: int|
            0 <= i < rows.len() && (#[trigger] rows[i]).0 == k
}

pub open spec fn no_rows<K, V>(table: Map<K, V>) -> bool {
    table == Map::<K, V>::empty()
}

/// Leaves both tables there and empty.
///
/// `WriteTransaction::delete_table` drops a table if it is there,
/// `open_table` makes an empty one, and `commit` makes both take effect.
#[verifier::external_body]
pub(crate) fn reset(db: &mut redb::Database) -> (r: Result<(), redb::Error>)
    ensures
        r is Ok ==> no_rows(inode_rows(*final(db))) && no_rows(dir_rows(*final(db))),
{
    let txn = db.begin_write()?;
    txn.delete_table(redb::TableDefinition::<u64, &[u8]>::new("inodes"))?;
    txn.delete_table(redb::TableDefinition::<&[u8], u64>::new("dir_entries"))?;
    txn.open_table(redb::TableDefinition::<u64, &[u8]>::new("inodes"))?;
    txn.open_table(redb::TableDefinition::<&[u8], u64>::new("dir_entries"))?;
    txn.commit()?;
    Ok(())
}

/// The record of an inode.
///
/// `ReadableTable::get` finds the row of a key in what was committed last.
#[verifier::external_body]
pub(crate) fn get_inode(db: &redb::Database, inode: u64) -> (r: Result<
    Option<Vec<u8>>,
    redb::Error,
>)
    ensures
        match r {
            Ok(Some(v)) => inode_rows(*db).dom().contains(inode) && inode_rows(*db)[inode] == v@,
            Ok(None) => !inode_rows(*db).dom().contains(inode),
            Err(_) => true,
        },
{
    let txn = redb::ReadableDatabase::begin_read(db)?;
    let table = txn.open_table(redb::TableDefinition::<u64, &[u8]>::new("inodes"))?;
    let found = redb::ReadableTable::get(&table, inode)?;
    Ok(found.map(|guard| guard.value().to_vec()))
}

/// Sets the record of an inode.
///
/// `Table::insert` sets the row of a key, and `commit` makes it take effect. A
/// failed commit has taken effect as a whole or not at all.
#[verifier::external_body]
pub(crate) fn put_inode(db: &mut redb::Database, inode: u64, record: &[u8]) -> (r: Result<
    (),
    redb::Error,
>)
    ensures
        dir_rows(*final(db)) == dir_rows(*old(db)),
        r is Ok ==> inode_rows(*final(db)) == inode_rows(*old(db)).insert(inode, record@),
        r is Err ==> inode_rows(*final(db)) == inode_rows(*old(db)) || inode_rows(*final(db))
            == inode_rows(*old(db)).insert(inode, record@),
{
    let txn = db.begin_write()?;
    {
        let mut table = txn.open_table(redb::TableDefinition::<u64, &[u8]>::new("inodes"))?;
        table.insert(inode, record)?;
    }
    txn.commit()?;
    Ok(())
}

/// The inode of a directory entry.
///
/// `ReadableTable::get` finds the row of a key in what was committed last.
#[verifier::external_body]
pub(crate) fn get_dir(db: &redb::Database, key: &[u8]) -> (r: Result<Option<u64>, redb::Error>)
    ensures
        match r {
            Ok(Some(v)) => dir_rows(*db).dom().contains(key@) && dir_rows(*db)[key@] == v,
            Ok(None) => !dir_rows(*db).dom().contains(key@),
            Err(_) => true,
        },
{
    let txn = redb::ReadableDatabase::begin_read(db)?;
    let table = txn.open_table(redb::TableDefinition::<&[u8], u64>::new("dir_entries"))?;
    let found = redb::ReadableTable::get(&table, key)?;
    Ok(found.map(|guard| guard.value()))
}

/// Sets a directory entry.
///
/// `Table::insert` sets the row of a key, and `commit` makes it take effect. A
/// failed commit has taken effect as a whole or not at all.
#[verifier::external_body]
pub(crate) fn put_dir(db: &mut redb::Database, key: &[u8], child: u64) -> (r: Result<
    (),
    redb::Error,
>)
    ensures
        inode_rows(*final(db)) == inode_rows(*old(db)),
        r is Ok ==> dir_rows(*final(db)) == dir_rows(*old(db)).insert(key@, child),
        r is Err ==> dir_rows(*final(db)) == dir_rows(*old(db)) || dir_rows(*final(db))
            == dir_rows(*old(db)).insert(key@, child),
{
    let txn = db.begin_write()?;
    {
        let mut table = txn.open_table(redb::TableDefinition::<&[u8], u64>::new("dir_entries"))?;
        table.insert(key, child)?;
    }
    txn.commit()?;
    Ok(())
}

/// Removes a directory entry, if it is there.
///
/// `Table::remove` removes the row of a key, and `commit` makes it take
/// effect. A failed commit has taken effect as a whole or not at all.
#[verifier::external_body]
pub(crate) fn remove_dir(db: &mut redb::Database, key: &[u8]) -> (r: Result<(), redb::Error>)
    ensures
        inode_rows(*final(db)) == inode_rows(*old(db)),
        r is Ok ==> dir_rows(*final(db)) == dir_rows(*old(db)).remove(key@),
        r is Err ==> dir_rows(*final(db)) == dir_rows(*old(db)) || dir_rows(*final(db))
            == dir_rows(*old(db)).remove(key@),
{
    let txn = db.begin_write()?;
    {
        let mut table = txn.open_table(redb::TableDefinition::<&[u8], u64>::new("dir_entries"))?;
        table.remove(key)?;
    }
    txn.commit()?;
    Ok(())
}

/// The records of all inodes.
///
/// `ReadableTable::iter` walks all rows in ascending order of their keys, which
/// are numbers.
#[verifier::external_body]
pub(crate) fn all_inodes(db: &redb::Database) -> (r: Result<Vec<(u64, Vec<u8>)>, redb::Error>)
    ensures
        r matches Ok(rows) ==> is_table(inode_rows(*db), rows@),
{
    let txn = redb::ReadableDatabase::begin_read(db)?;
    let table = txn.open_table(redb::TableDefinition::<u64, &[u8]>::new("inodes"))?;
    let mut rows = Vec::new();
    for entry in redb::ReadableTable::iter(&table)? {
        let (inode, record) = entry?;
        rows.push((inode.value(), record.value().to_vec()));
    }
    Ok(rows)
}

/// The directory entries with keys from `from` on.
///
/// `ReadableTable::range` walks the rows in ascending order of their keys,
/// which redb compares byte by byte.
#[verifier::external_body]
pub(crate) fn range_dir(db: &redb::Database, from: &[u8]) -> (r: Result<
    Vec<(Vec<u8>, u64)>,
    redb::Error,
>)
    ensures
        r matches Ok(rows) ==> is_range(dir_rows(*db), from@, rows@),
{
    let txn = redb::ReadableDatabase::begin_read(db)?;
    let table = txn.open_table(redb::TableDefinition::<&[u8], u64>::new("dir_entries"))?;
    let mut rows = Vec::new();
    for entry in redb::ReadableTable::range::<&[u8]>(&table, from..)? {
        let (key, child) = entry?;
        rows.push((key.value().to_vec(), child.value()));
    }
    Ok(rows)
}

/// The text of a failure.
///
/// `redb::Error` is turned to text by its own `Display`; nothing is claimed of
/// what it says.
#[verifier::external_body]
pub(crate) fn message(e: redb::Error) -> (text: String) {
    e.to_string()
}

// ---------------------------------------------------------------------
// The order of keys

/// What starts with `prefix` does not sort before it.
pub proof fn lemma_prefix_first(prefix: Seq<u8>, s: Seq<u8>)
    ensures
        !sorts_before(prefix + s, prefix),
    decreases prefix.len(),
{
    if prefix.len() > 0 {
        lemma_prefix_first(prefix.drop_first(), s);
        assert((prefix + s).drop_first() =~= prefix.drop_first() + s);
    }
}

/// From the first key past those that start with `prefix`, none does.
pub proof fn lemma_prefix_ends(prefix: Seq<u8>, k: Seq<u8>, later: Seq<u8>)
    requires
        !sorts_before(k, prefix),
        !starts_with(k, prefix),
        sorts_before(k, later),
    ensures
        !starts_with(later, prefix),
    decreases prefix.len(),
{
    if prefix.len() == 0 {
        assert(k.take(0) =~= prefix);
    } else if k.len() > 0 && k[0] == prefix[0] {
        if later[0] == k[0] {
            let p = prefix.drop_first();
            let a = k.drop_first();
            let b = later.drop_first();
            assert(!starts_with(a, p)) by {
                if starts_with(a, p) {
                    assert(k.take(prefix.len() as int) =~= prefix) by {
                        assert forall|i: int| 0 <= i < prefix.len() implies k[i] == prefix[i] by {
                            if i > 0 {
                                assert(a.take(p.len() as int)[i - 1] == p[i - 1]);
                            }
                        }
                    }
                }
            }
            lemma_prefix_ends(p, a, b);
            if starts_with(later, prefix) {
                assert(b.take(p.len() as int) =~= p) by {
                    assert forall|i: int| 0 <= i < p.len() implies b[i] == p[i] by {
                        assert(later.take(prefix.len() as int)[i + 1] == prefix[i + 1]);
                    }
                }
            }
        } else if starts_with(later, prefix) {
            assert(later.take(prefix.len() as int)[0] == prefix[0]);
        }
    } else if starts_with(later, prefix) {
        assert(later.take(prefix.len() as int)[0] == prefix[0]);
    }
}

pub open spec fn starts_with(k: Seq<u8>, prefix: Seq<u8>) -> bool {
    k.len() >= prefix.len() && k.take(prefix.len() as int) == prefix
}

/// Behind a common prefix, keys sort as what follows it.
pub proof fn lemma_common_prefix(prefix: Seq<u8>, a: Seq<u8>, b: Seq<u8>)
    ensures
        sorts_before(prefix + a, prefix + b) == sorts_before(a, b),
    decreases prefix.len(),
{
    if prefix.len() > 0 {
        lemma_common_prefix(prefix.drop_first(), a, b);
        assert((prefix + a).drop_first() =~= prefix.drop_first() + a);
        assert((prefix + b).drop_first() =~= prefix.drop_first() + b);
    } else {
        assert(prefix + a =~= a);
        assert(prefix + b =~= b);
    }
}

/// Nothing comes before itself.
pub proof fn lemma_sorts_before_itself(a: Seq<u8>)
    ensures
        !sorts_before(a, a),
    decreases a.len(),
{
    if a.len() > 0 {
        lemma_sorts_before_itself(a.drop_first());
    }
}

/// Of two keys the one comes first that is smaller where they first differ, or
/// that the other starts with.
pub proof fn keys_sort_by_their_first_difference(p: Seq<u8>, x: u8, y: u8, s: Seq<u8>, t: Seq<u8>)
    ensures
        x < y ==> sorts_before(p + seq![x] + s, p + seq![y] + t) && !sorts_before(
            p + seq![y] + t,
            p + seq![x] + s,
        ),
        sorts_before(p, p + seq![y] + t),
    decreases p.len(),
{
    if p.len() > 0 {
        keys_sort_by_their_first_difference(p.drop_first(), x, y, s, t);
        assert((p + seq![x] + s).drop_first() =~= p.drop_first() + seq![x] + s);
        assert((p + seq![y] + t).drop_first() =~= p.drop_first() + seq![y] + t);
    }
}

} // verus!
