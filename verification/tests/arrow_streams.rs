use magpyxl::raw_arrow::{
    is_laid_out, parse_offset_array, parse_stringview_array, read_validity, text_layout, try_read_stream_as_text,
    CArrowArray, CArrowArrayStream, CArrowSchema, TextLayout,
};

fn view_of(text: &[u8]) -> Vec<u8> {
    let mut v = (text.len() as i32).to_le_bytes().to_vec();
    v.extend_from_slice(text);
    v.resize(16, 0);
    v
}

fn far_view(len: i32, buffer: i32, offset: i32) -> Vec<u8> {
    let mut v = len.to_le_bytes().to_vec();
    v.extend_from_slice(b"pref");
    v.extend_from_slice(&buffer.to_le_bytes());
    v.extend_from_slice(&offset.to_le_bytes());
    v
}

fn views() -> CArrowArray {
    let mut second: Vec<u8> = Vec::new();
    second.extend(view_of(b"skipped"));
    second.extend(view_of("hé".as_bytes()));
    second.extend(view_of(b"twelve bytes"));
    second.extend(far_view(14, 0, 2));
    second.extend(view_of(b"null"));
    second.extend(far_view(20, 7, 0));
    second.extend(view_of(&[0x66, 0xff]));
    CArrowArray {
        length: 6,
        null_count: 1,
        offset: 1,
        buffers: vec![
            Some(vec![0b1110_1111]),
            Some(second),
            Some(b"..a longer text!".to_vec()),
            None,
        ],
    }
}

fn offsets(large: bool, null_count: i64) -> CArrowArray {
    let mut second: Vec<u8> = Vec::new();
    for o in [0i64, 2, 5, 5, 7] {
        if large {
            second.extend_from_slice(&o.to_le_bytes());
        } else {
            second.extend_from_slice(&(o as i32).to_le_bytes());
        }
    }
    CArrowArray {
        length: 3,
        null_count,
        offset: 1,
        buffers: vec![Some(vec![0b0000_0110]), Some(second), Some(b"ZZabcxy".to_vec())],
    }
}

fn texts(v: &[Option<String>]) -> Vec<Option<&str>> {
    v.iter().map(|s| s.as_deref()).collect()
}

fn stream(format: Option<&str>, batches: Vec<CArrowArray>, last_status: i32) -> CArrowArrayStream {
    CArrowArrayStream {
        get_schema: true,
        get_next: true,
        schema_status: 0,
        schema: CArrowSchema { format: format.map(|f| f.to_string()) },
        batches,
        last_status,
    }
}

#[test]
fn views_are_read() {
    let a = views();
    assert!(is_laid_out(&a, TextLayout::View));
    assert_eq!(
        texts(&parse_stringview_array(&a).values),
        vec![Some("hé"), Some("twelve bytes"), Some("a longer text!"), None, None, Some("f\u{fffd}")]
    );
}

#[test]
fn offsets_are_read() {
    for large in [false, true] {
        let layout = if large { TextLayout::LargeUtf8 } else { TextLayout::Utf8 };
        let a = offsets(large, 1);
        assert!(is_laid_out(&a, layout));
        assert_eq!(texts(&parse_offset_array(&a, large).values), vec![Some("abc"), Some(""), None]);
        let all = offsets(large, 0);
        assert_eq!(texts(&parse_offset_array(&all, large).values), vec![Some("abc"), Some(""), Some("xy")]);
    }
}

#[test]
fn arrays_without_rows_are_empty() {
    let none = CArrowArray { length: 0, null_count: 0, offset: 0, buffers: vec![None, None, None] };
    assert!(parse_stringview_array(&none).values.is_empty());
    assert!(parse_offset_array(&none, true).values.is_empty());
    let few = CArrowArray { length: 5, null_count: 0, offset: 0, buffers: vec![None, None] };
    assert!(is_laid_out(&few, TextLayout::View));
    assert!(parse_stringview_array(&few).values.is_empty());
    assert!(parse_offset_array(&few, false).values.is_empty());
}

#[test]
fn bad_layouts_are_told() {
    let mut a = views();
    a.length = 7;
    assert!(!is_laid_out(&a, TextLayout::View));
    let mut a = views();
    a.offset = -1;
    assert!(!is_laid_out(&a, TextLayout::View));
    let mut a = views();
    a.length = -1;
    assert!(!is_laid_out(&a, TextLayout::View));
    let mut a = views();
    a.buffers[2] = Some(vec![0; 5]);
    assert!(!is_laid_out(&a, TextLayout::View));
    let mut a = views();
    a.buffers[0] = Some(vec![]);
    assert!(!is_laid_out(&a, TextLayout::View));
    let mut a = offsets(false, 0);
    a.buffers[2] = Some(vec![0; 6]);
    assert!(!is_laid_out(&a, TextLayout::Utf8));
    assert!(!is_laid_out(&offsets(false, 0), TextLayout::LargeUtf8));
}

#[test]
fn validity_bits_are_read() {
    let bits = vec![Some(vec![0b0000_0101, 0b0000_0010])];
    assert!(!read_validity(&bits, 0, 0, 1));
    assert!(read_validity(&bits, 0, 1, 1));
    assert!(!read_validity(&bits, 1, 1, 1));
    assert!(read_validity(&bits, 8, 0, 1));
    assert!(!read_validity(&bits, 5, 4, -1));
    assert!(!read_validity(&bits, 0, 1, 0));
    assert!(!read_validity(&vec![None], 0, 1, 1));
    assert!(!read_validity(&vec![], 0, 1, 1));
}

#[test]
fn streams_are_read() {
    let r = try_read_stream_as_text(&stream(Some("u"), vec![offsets(false, 1), offsets(false, 0)], 0));
    assert!(r.release);
    assert_eq!(
        texts(&r.column.unwrap().values),
        vec![Some("abc"), Some(""), None, Some("abc"), Some(""), Some("xy")]
    );
    let r = try_read_stream_as_text(&stream(Some("U"), vec![offsets(true, 1)], 0));
    assert_eq!(texts(&r.column.unwrap().values), vec![Some("abc"), Some(""), None]);
    let r = try_read_stream_as_text(&stream(Some("vu"), vec![views()], 0));
    assert_eq!(r.column.unwrap().values.len(), 6);
    let r = try_read_stream_as_text(&stream(Some("vu"), vec![], 0));
    assert!(r.column.unwrap().values.is_empty());
}

#[test]
fn other_streams_give_nothing() {
    let r = try_read_stream_as_text(&stream(Some("l"), vec![], 0));
    assert!(r.column.is_none() && r.release);
    let r = try_read_stream_as_text(&stream(None, vec![], 0));
    assert!(r.column.is_none() && !r.release);
    let r = try_read_stream_as_text(&stream(Some("u"), vec![offsets(false, 1)], 5));
    assert!(r.column.is_none() && r.release);
    let mut s = stream(Some("u"), vec![], 0);
    s.schema_status = 1;
    let r = try_read_stream_as_text(&s);
    assert!(r.column.is_none() && !r.release);
    let mut s = stream(Some("u"), vec![], 0);
    s.get_next = false;
    let r = try_read_stream_as_text(&s);
    assert!(r.column.is_none() && !r.release);
    let mut s = stream(Some("u"), vec![], 0);
    s.get_schema = false;
    assert!(try_read_stream_as_text(&s).column.is_none());
}

#[test]
fn formats_name_layouts() {
    assert_eq!(text_layout("vu"), Some(TextLayout::View));
    assert_eq!(text_layout("u"), Some(TextLayout::Utf8));
    assert_eq!(text_layout("U"), Some(TextLayout::LargeUtf8));
    assert_eq!(text_layout("z"), None);
    assert_eq!(text_layout(""), None);
}
