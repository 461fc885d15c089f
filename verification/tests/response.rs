use brioche_cache::response::{
    next_read_offset, stream_size_hint, BodySizeHint, BodyWithSize, StreamBody,
};

#[test]
fn size_hint_bounds() {
    let hint = BodySizeHint::new();
    assert_eq!((hint.lower(), hint.upper(), hint.exact()), (0, None, None));
    let hint = BodySizeHint::with_exact(7);
    assert_eq!((hint.lower(), hint.upper(), hint.exact()), (7, Some(7), Some(7)));
    let mut hint = BodySizeHint::new();
    hint.set_upper(10);
    hint.set_lower(3);
    assert_eq!((hint.lower(), hint.upper(), hint.exact()), (3, Some(10), None));
}

#[test]
fn stream_body_size_hint() {
    let hint = stream_size_hint(3, Some(8));
    assert_eq!((hint.lower(), hint.upper()), (3, Some(8)));
    let hint = stream_size_hint(4, None);
    assert_eq!((hint.lower(), hint.upper()), (4, None));
    let hint = stream_size_hint(5, Some(5));
    assert_eq!(hint.exact(), Some(5));
}

#[test]
fn body_with_size_overrides_hint() {
    let body = BodyWithSize::new(StreamBody::new(vec![1u8, 2, 3]));
    let inner = BodySizeHint::with_exact(99);
    assert_eq!(body.size_hint(inner), inner);
    let body = body.with_size_hint(Some(BodySizeHint::with_exact(3)));
    assert_eq!(body.size_hint(inner).exact(), Some(3));
    let (stream_body, hint) = body.into_parts();
    assert_eq!(hint, Some(BodySizeHint::with_exact(3)));
    assert_eq!(stream_body.into_stream(), vec![1u8, 2, 3]);
    let body = BodyWithSize::new(()).with_size_hint(None);
    assert_eq!(body.size_hint(inner), inner);
}

#[test]
fn file_reads_advance_until_empty() {
    assert_eq!(next_read_offset(0, 16_384), Some(16_384));
    assert_eq!(next_read_offset(16_384, 100), Some(16_484));
    assert_eq!(next_read_offset(16_484, 0), None);
}
