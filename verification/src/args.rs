//! How a disk is named on the command line: its path, and behind a colon its
//! class.

use crate::proto::DiskClass;
use crate::text;
use vstd::prelude::*;

verus! {

/// The class with this name.
pub open spec fn class_named(name: Seq<char>) -> Option<DiskClass> {
    if name == "hdd"@ {
        Some(DiskClass::Hdd)
    } else if name == "ssd"@ {
        Some(DiskClass::Ssd)
    } else if name == "nvme"@ {
        Some(DiskClass::Nvme)
    } else {
        None
    }
}

pub fn parse_class(s: &str) -> (class: Option<DiskClass>)
    ensures
        class == class_named(s@),
{
    let v = text::to_chars(s);
    let n: usize = v.len();
    assert(v@.subrange(0, n as int) =~= s@);
    if text::is_text(&v, 0, n, "hdd") {
        Some(DiskClass::Hdd)
    } else if text::is_text(&v, 0, n, "ssd") {
        Some(DiskClass::Ssd)
    } else if text::is_text(&v, 0, n, "nvme") {
        Some(DiskClass::Nvme)
    } else {
        None
    }
}

/// A disk to pool.
pub struct DiskArg {
    pub path: String,
    pub class: DiskClass,
}

/// `arg` names the disk at `path` of the class `class`: everything before the
/// first colon, and the class behind it. Without a colon it is a hard disk.
pub open spec fn names(arg: Seq<char>, path: Seq<char>, class: DiskClass) -> bool {
    if arg.contains(':') {
        let k = arg.index_of_first(':')->0;
        path == arg.take(k) && class_named(arg.skip(k + 1)) == Some(class)
    } else {
        path == arg && class == DiskClass::Hdd
    }
}

/// The disk that `arg` names, or what stands where its class should.
pub fn parse_disk(arg: &str) -> (r: Result<DiskArg, String>)
    ensures
        match r {
            Ok(d) => names(arg@, d.path@, d.class),
            Err(name) => {
                &&& arg@.contains(':')
                &&& name@ == arg@.skip(arg@.index_of_first(':')->0 + 1)
                &&& class_named(name@) is None
            },
        },
{
    let v = text::to_chars(arg);
    let n: usize = v.len();
    let mut k: usize = 0;
    while k < n && v[k] != ':'
        invariant
            n == v@.len(),
            v@ == arg@,
            k <= n,
            forall|j: int| 0 <= j < k ==> v@[j] != ':',
        decreases n - k,
    {
        k = k + 1;
    }
    let path = text::to_text(&v, 0, k);
    if k == n {
        assert(path@ =~= arg@);
        return Ok(DiskArg { path, class: DiskClass::Hdd });
    }
    proof {
        arg@.index_of_first_ensures(':');
        assert(arg@[k as int] == ':');
        assert(arg@.index_of_first(':')->0 == k);
        assert(v@.subrange(0, k as int) =~= arg@.take(k as int));
        assert(v@.subrange(k + 1, n as int) =~= arg@.skip(k + 1));
    }
    let name = text::to_text(&v, k + 1, n);
    match parse_class(name.as_str()) {
        Some(class) => Ok(DiskArg { path, class }),
        None => Err(name),
    }
}

// ---------------------------------------------------------------------
// Laws

/// A path alone names a hard disk. A path and a class behind a colon name a disk
/// of that class at that path, and other words behind the colon name none.
pub proof fn a_disk_is_named_by_path_and_class(
    arg: Seq<char>,
    path: Seq<char>,
    name: Seq<char>,
    got: Seq<char>,
    class: DiskClass,
)
    requires
        !path.contains(':'),
        names(arg, got, class),
    ensures
        arg == path ==> got == path && class == DiskClass::Hdd,
        arg == path + seq![':'] + name ==> got == path && match class {
            DiskClass::Hdd => name == "hdd"@,
            DiskClass::Ssd => name == "ssd"@,
            DiskClass::Nvme => name == "nvme"@,
        },
{
    if arg == path + seq![':'] + name {
        let k = path.len() as int;
        assert(arg[k] == ':');
        arg.index_of_first_ensures(':');
        let j = arg.index_of_first(':')->0;
        if j < k {
            assert(path[j] == ':');
        }
        assert(arg.take(k) =~= path);
        assert(arg.skip(k + 1) =~= name);
    }
}

/// Every class has a name that is understood.
pub proof fn every_class_has_a_name(path: Seq<char>)
    requires
        !path.contains(':'),
    ensures
        names(path, path, DiskClass::Hdd),
        names(path + seq![':'] + "hdd"@, path, DiskClass::Hdd),
        names(path + seq![':'] + "ssd"@, path, DiskClass::Ssd),
        names(path + seq![':'] + "nvme"@, path, DiskClass::Nvme),
{
    reveal_strlit("hdd");
    reveal_strlit("ssd");
    reveal_strlit("nvme");
    assert("hdd"@[0] != "ssd"@[0]);
    assert("nvme"@.len() != "ssd"@.len());
    lemma_named(path, "hdd"@);
    lemma_named(path, "ssd"@);
    lemma_named(path, "nvme"@);
}

proof fn lemma_named(path: Seq<char>, name: Seq<char>)
    requires
        !path.contains(':'),
    ensures
        ({
            let arg = path + seq![':'] + name;
            &&& arg.contains(':')
            &&& arg.take(arg.index_of_first(':')->0) == path
            &&& arg.skip(arg.index_of_first(':')->0 + 1) == name
        }),
{
    let arg = path + seq![':'] + name;
    let k = path.len() as int;
    assert(arg[k] == ':');
    arg.index_of_first_ensures(':');
    let j = arg.index_of_first(':')->0;
    if j < k {
        assert(path[j] == ':');
    }
    assert(arg.take(k) =~= path);
    assert(arg.skip(k + 1) =~= name);
}

} // verus!
