//! The append-only / converting / writable state machine on plain numbers.

use vstd::prelude::*;

verus! {

pub const MODE_APPEND_ONLY: u32 = 0;

pub const MODE_CONVERTING: u32 = 1;

pub const MODE_WRITABLE: u32 = 2;

pub const WRITE_KIND_APPEND: i32 = 0;

pub const WRITE_KIND_RANDOM: i32 = 1;

pub const ERR_NOT_APPEND_ORDER: i32 = -1;

pub const ERR_RANDOM_WRITE_DENIED: i32 = -2;

pub const ERR_CONVERSION_IN_PROGRESS: i32 = -3;

pub const ERR_ALREADY_WRITABLE: i32 = -4;

pub const ERR_ALREADY_CONVERTING: i32 = -5;

pub const ERR_BAD_MODE: i32 = -6;

/// What a write at `offset` of a file of `size` bytes is.
pub open spec fn write_kind(mode: u32, size: u64, offset: u64) -> i32 {
    if mode == MODE_WRITABLE {
        WRITE_KIND_RANDOM
    } else if mode != MODE_APPEND_ONLY && mode != MODE_CONVERTING {
        ERR_BAD_MODE
    } else if offset == size {
        WRITE_KIND_APPEND
    } else if mode == MODE_APPEND_ONLY {
        ERR_NOT_APPEND_ORDER
    } else {
        ERR_CONVERSION_IN_PROGRESS
    }
}

/// What truncating a file comes to.
pub open spec fn truncation(mode: u32) -> i32 {
    if mode == MODE_WRITABLE {
        0
    } else if mode == MODE_APPEND_ONLY || mode == MODE_CONVERTING {
        ERR_RANDOM_WRITE_DENIED
    } else {
        ERR_BAD_MODE
    }
}

/// What starting a conversion comes to: the new mode, or an error.
pub open spec fn begun(mode: u32) -> i32 {
    if mode == MODE_APPEND_ONLY {
        MODE_CONVERTING as i32
    } else if mode == MODE_WRITABLE {
        ERR_ALREADY_WRITABLE
    } else if mode == MODE_CONVERTING {
        ERR_ALREADY_CONVERTING
    } else {
        ERR_BAD_MODE
    }
}

/// What finishing a conversion comes to: the new mode, or an error.
pub open spec fn completed(mode: u32) -> i32 {
    if mode == MODE_CONVERTING {
        MODE_WRITABLE as i32
    } else {
        ERR_BAD_MODE
    }
}

/// Classifies a write at `offset` against a file of `size` bytes in `mode`.
pub fn tartine_classify_write(mode: u32, size: u64, offset: u64) -> (r: i32)
    ensures
        r == write_kind(mode, size, offset),
{
    if mode == MODE_APPEND_ONLY {
        if offset == size {
            WRITE_KIND_APPEND
        } else {
            ERR_NOT_APPEND_ORDER
        }
    } else if mode == MODE_CONVERTING {
        if offset == size {
            WRITE_KIND_APPEND
        } else {
            ERR_CONVERSION_IN_PROGRESS
        }
    } else if mode == MODE_WRITABLE {
        WRITE_KIND_RANDOM
    } else {
        ERR_BAD_MODE
    }
}

/// Whether a file in `mode` may be truncated: 0 where it may.
pub fn tartine_truncate_allowed(mode: u32) -> (r: i32)
    ensures
        r == truncation(mode),
{
    if mode == MODE_WRITABLE {
        0
    } else if mode == MODE_APPEND_ONLY || mode == MODE_CONVERTING {
        ERR_RANDOM_WRITE_DENIED
    } else {
        ERR_BAD_MODE
    }
}

/// From append-only to converting: the new mode, or a negative error.
pub fn tartine_begin_convert(mode: u32) -> (r: i32)
    ensures
        r == begun(mode),
{
    if mode == MODE_APPEND_ONLY {
        MODE_CONVERTING as i32
    } else if mode == MODE_WRITABLE {
        ERR_ALREADY_WRITABLE
    } else if mode == MODE_CONVERTING {
        ERR_ALREADY_CONVERTING
    } else {
        ERR_BAD_MODE
    }
}

/// From converting to writable: the new mode, or a negative error.
pub fn tartine_complete_convert(mode: u32) -> (r: i32)
    ensures
        r == completed(mode),
{
    if mode == MODE_CONVERTING {
        MODE_WRITABLE as i32
    } else {
        ERR_BAD_MODE
    }
}

/// Conversion goes one way: each step that succeeds leads to a later mode, and
/// none leads away from writable.
pub proof fn conversion_is_one_way(mode: u32)
    ensures
        begun(mode) >= 0 ==> begun(mode) > mode,
        completed(mode) >= 0 ==> completed(mode) > mode,
        mode == MODE_WRITABLE ==> begun(mode) < 0 && completed(mode) < 0,
        mode == MODE_APPEND_ONLY ==> completed(begun(mode) as u32) == MODE_WRITABLE,
{
}

/// A writable file takes a write at any offset, its end included, and as a
/// write in place.
pub proof fn writable_files_take_every_write(size: u64, offset: u64)
    ensures
        write_kind(2, size, offset) == 1,
{
}

/// A file that is not writable takes a write exactly at its end, and as an
/// append. Anywhere else the refusal tells whether a conversion is on its way.
pub proof fn other_files_take_writes_at_their_end(mode: u32, size: u64, offset: u64)
    requires
        mode == 0 || mode == 1,
    ensures
        write_kind(mode, size, size) == 0,
        offset != size ==> write_kind(mode, size, offset) == if mode == 0 {
            -1int
        } else {
            -3
        },
{
}

/// A file may be truncated exactly where it may be written before its end.
pub proof fn truncation_goes_with_writes_in_place(mode: u32, size: u64, offset: u64)
    requires
        offset != size,
    ensures
        truncation(mode) == 0 <==> write_kind(mode, size, offset) >= 0,
        truncation(mode) == 0 <==> mode == 2,
        mode < 2 ==> truncation(mode) == -2,
{
}

/// A conversion begins in an append-only file and ends in a converting one, and
/// nowhere else; what is no mode is called so by every function.
pub proof fn conversions_begin_and_end_once(mode: u32, size: u64, offset: u64)
    ensures
        begun(mode) >= 0 <==> mode == 0,
        begun(0) == 1,
        completed(mode) >= 0 <==> mode == 1,
        completed(1) == 2,
        begun(1) == -5,
        begun(2) == -4,
        mode != 1 ==> completed(mode) == -6,
        mode > 2 ==> {
            &&& write_kind(mode, size, offset) == -6
            &&& truncation(mode) == -6
            &&& begun(mode) == -6
            &&& completed(mode) == -6
        },
{
}

} // verus!
