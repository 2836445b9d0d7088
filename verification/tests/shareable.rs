//! The formatter is shareable across threads.
use localized_numbers::NumberFormatter;

#[test]
fn formatter_is_shareable_without_an_engine_resource() {
    fn assert_send_sync<T: Send + Sync>() {}

    assert_send_sync::<NumberFormatter>();
}
