use tartine::mode::{
    tartine_begin_convert, tartine_classify_write, tartine_complete_convert,
    tartine_truncate_allowed, ERR_ALREADY_CONVERTING, ERR_ALREADY_WRITABLE, ERR_BAD_MODE,
    ERR_CONVERSION_IN_PROGRESS, ERR_NOT_APPEND_ORDER, ERR_RANDOM_WRITE_DENIED, MODE_APPEND_ONLY,
    MODE_CONVERTING, MODE_WRITABLE, WRITE_KIND_APPEND, WRITE_KIND_RANDOM,
};

#[test]
fn append_only_accepts_write_at_eof() {
    assert_eq!(
        tartine_classify_write(MODE_APPEND_ONLY, 100, 100),
        WRITE_KIND_APPEND
    );
}

#[test]
fn append_only_rejects_write_before_eof() {
    assert_eq!(
        tartine_classify_write(MODE_APPEND_ONLY, 100, 50),
        ERR_NOT_APPEND_ORDER
    );
}

#[test]
fn append_only_rejects_truncate() {
    assert_eq!(
        tartine_truncate_allowed(MODE_APPEND_ONLY),
        ERR_RANDOM_WRITE_DENIED
    );
}

#[test]
fn converting_still_accepts_tail_append_but_not_random_write() {
    assert_eq!(
        tartine_classify_write(MODE_CONVERTING, 100, 100),
        WRITE_KIND_APPEND
    );
    assert_eq!(
        tartine_classify_write(MODE_CONVERTING, 100, 10),
        ERR_CONVERSION_IN_PROGRESS
    );
}

#[test]
fn convert_is_one_way() {
    let converting = tartine_begin_convert(MODE_APPEND_ONLY);
    assert_eq!(converting, MODE_CONVERTING as i32);

    let writable = tartine_complete_convert(converting as u32);
    assert_eq!(writable, MODE_WRITABLE as i32);
    assert_eq!(tartine_begin_convert(writable as u32), ERR_ALREADY_WRITABLE);

    assert_eq!(
        tartine_classify_write(writable as u32, 100, 0),
        WRITE_KIND_RANDOM
    );
    assert_eq!(tartine_truncate_allowed(writable as u32), 0);
}

#[test]
fn numbers_that_are_no_mode_are_refused() {
    assert_eq!(tartine_classify_write(3, 100, 100), ERR_BAD_MODE);
    assert_eq!(tartine_truncate_allowed(3), ERR_BAD_MODE);
    assert_eq!(tartine_begin_convert(3), ERR_BAD_MODE);
    assert_eq!(tartine_complete_convert(3), ERR_BAD_MODE);
    assert_eq!(tartine_complete_convert(MODE_APPEND_ONLY), ERR_BAD_MODE);
    assert_eq!(
        tartine_begin_convert(MODE_CONVERTING),
        ERR_ALREADY_CONVERTING
    );
    assert_eq!(
        tartine_truncate_allowed(MODE_CONVERTING),
        ERR_RANDOM_WRITE_DENIED
    );
}
