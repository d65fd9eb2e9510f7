# tartine

A filesystem that pools local disks. A file is created append-only; its
redundancy is set per file, replica by replica (any disk, a disk of a class, or
one particular disk); and it becomes writable in place by a conversion that is
never undone. Placement is rendezvous hashing in integers. The metadata is a
log, kept synchronously on two disks and replayed into local tables when a pool
is opened.

- `src/` is the library, verified with Verus: placement, the record and log
  formats, the metadata store, files, and the operations of a mount. The
  contracts speak of sequences of bytes and of a state of inodes and directory
  entries; the laws that span several functions are public proof functions.
- `tests/` runs the library against disks in memory.
- `app/` is the program around it: disks that are files, the FUSE session, the
  command-line tool and the entry points for C.

What is trusted rather than proved: the contract of `disk::Disk`, which every
disk must keep; the functions on the local tables in `local.rs`; and three small
functions on texts.
