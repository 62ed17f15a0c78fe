use color_tag_highlight::highlight::{error_code, highlight_into, ErrorCode};
use color_tag_highlight::lossy::{LossyChunk, LossyUtf8};
use color_tag_highlight::markup::Highlight;
use color_tag_highlight::renderer::{
    decode_lossy, shrink_and_clear, ColorTagRenderer, HighlightEvent, RenderError,
    BUFFER_HTML_RESERVE_CAPACITY, BUFFER_LINES_RESERVE_CAPACITY,
};

type Ev = Result<HighlightEvent, RenderError>;

fn start(h: usize) -> Ev {
    Ok(HighlightEvent::HighlightStart(Highlight(h)))
}

fn end() -> Ev {
    Ok(HighlightEvent::HighlightEnd)
}

fn src(start: usize, end: usize) -> Ev {
    Ok(HighlightEvent::Source { start, end })
}

fn attrs(names: &[&str]) -> Vec<Vec<u8>> {
    names.iter().map(|s| s.as_bytes().to_vec()).collect()
}

fn lines_of(r: &ColorTagRenderer) -> Vec<String> {
    r.lines().into_iter().map(|l| String::from_utf8(l).unwrap()).collect()
}

fn chunks_of(bytes: &[u8]) -> Vec<Vec<u8>> {
    let mut it = LossyUtf8::new(bytes);
    let mut out = Vec::new();
    while let Some(c) = it.next() {
        out.push(c.to_vec());
    }
    out
}

#[test]
fn single_span_one_line() {
    let mut r = ColorTagRenderer::new();
    let events = vec![start(0), src(0, 3), end()];
    assert_eq!(r.render(&events, b"a<b", &attrs(&["abc"])), Ok(()));
    assert_eq!(String::from_utf8(r.html.clone()).unwrap(), "<color=#abc>a&lt;b</color>\n");
    assert_eq!(r.line_offsets, vec![0]);
}

#[test]
fn end_to_end_script() {
    let source = b"<script>\nconst a = b('c');\nc.d();\n</script>\n";
    let table = attrs(&["ff22ff", "55ff33", "ffaa66", "229955"]);
    let events = vec![
        src(0, 1),
        start(0),
        src(1, 7),
        end(),
        src(7, 9),
        start(3),
        src(9, 14),
        end(),
        src(14, 19),
        start(1),
        src(19, 20),
        end(),
        src(20, 21),
        start(2),
        src(21, 24),
        end(),
        src(24, 29),
        start(1),
        src(29, 30),
        end(),
        src(30, 36),
        start(0),
        src(36, 42),
        end(),
        src(42, 44),
    ];
    let mut r = ColorTagRenderer::new();
    assert_eq!(r.render(&events, source, &table), Ok(()));
    assert_eq!(
        lines_of(&r),
        vec![
            "&lt;<color=#ff22ff>script</color>&gt;\n",
            "<color=#229955>const</color> a = <color=#55ff33>b</color>(<color=#ffaa66>&#39;c&#39;</color>);\n",
            "c.<color=#55ff33>d</color>();\n",
            "&lt;/<color=#ff22ff>script</color>&gt;\n",
        ]
    );
}

#[test]
fn scopes_reopen_after_line_break() {
    let mut r = ColorTagRenderer::new();
    let events = vec![start(0), start(1), src(0, 3), end(), end()];
    assert_eq!(r.render(&events, b"x\ny", &attrs(&["a", "b"])), Ok(()));
    assert_eq!(
        lines_of(&r),
        vec![
            "<color=#a><color=#b>x</color></color>\n",
            "<color=#a><color=#b>y</color></color>\n",
        ]
    );
}

#[test]
fn each_line_has_balanced_markup() {
    let mut r = ColorTagRenderer::new();
    let events = vec![start(0), src(0, 2), start(1), src(2, 6), end(), src(6, 7), end()];
    assert_eq!(r.render(&events, b"a\nb\nc\nd", &attrs(&["1", "2"])), Ok(()));
    for line in lines_of(&r) {
        assert_eq!(line.matches("<color=").count(), line.matches("</color>").count());
    }
    assert_eq!(r.line_offsets.len(), 4);
}

#[test]
fn empty_attribute_emits_no_markup() {
    let mut r = ColorTagRenderer::new();
    let events = vec![start(0), src(0, 1), start(5), src(1, 2), end(), end()];
    assert_eq!(r.render(&events, b"xy", &attrs(&[""])), Ok(()));
    assert_eq!(String::from_utf8(r.html.clone()).unwrap(), "xy\n");
}

#[test]
fn trailing_newline_drops_empty_last_line() {
    let mut r = ColorTagRenderer::new();
    let events = vec![src(0, 4)];
    assert_eq!(r.render(&events, b"ab\n\n", &attrs(&[])), Ok(()));
    assert_eq!(String::from_utf8(r.html.clone()).unwrap(), "ab\n\n");
    assert_eq!(r.line_offsets, vec![0, 3]);
}

#[test]
fn reset_twice_equals_once() {
    let mut r = ColorTagRenderer::new();
    let events = vec![src(0, 3)];
    r.render(&events, b"a\nb", &attrs(&[])).unwrap();
    r.reset();
    let (h1, o1) = (r.html.clone(), r.line_offsets.clone());
    r.reset();
    assert_eq!(h1, Vec::<u8>::new());
    assert_eq!(o1, vec![0]);
    assert_eq!(r.html, h1);
    assert_eq!(r.line_offsets, o1);
}

#[test]
fn lines_concatenate_to_buffer() {
    let mut r = ColorTagRenderer::new();
    let events = vec![start(0), src(0, 9), end()];
    r.render(&events, b"one\ntwo\nt", &attrs(&["c"])).unwrap();
    let joined: Vec<u8> = r.lines().concat();
    assert_eq!(joined, r.html);
    assert_eq!(r.lines().len(), 3);
}

#[test]
fn lone_invalid_byte_is_one_replacement() {
    let mut it = LossyUtf8::new(&[0xFF]);
    assert!(matches!(it.next(), Some(LossyChunk::Replacement)));
    assert!(it.next().is_none());
    assert_eq!(decode_lossy(&[0xFF]), "\u{fffd}".as_bytes().to_vec());
}

#[test]
fn lossy_keeps_valid_runs_around_invalid_bytes() {
    assert_eq!(
        chunks_of(b"ab\xFFcd"),
        vec![b"ab".to_vec(), "\u{fffd}".as_bytes().to_vec(), b"cd".to_vec()]
    );
    assert_eq!(chunks_of(b"a\xFF"), vec![b"a".to_vec(), "\u{fffd}".as_bytes().to_vec()]);
    assert_eq!(chunks_of("h\u{e9}".as_bytes()), vec!["h\u{e9}".as_bytes().to_vec()]);
    assert_eq!(chunks_of(b""), Vec::<Vec<u8>>::new());
    assert_eq!(decode_lossy(b"x\xE2\x82"), "x\u{fffd}\u{fffd}".as_bytes().to_vec());
}

#[test]
fn invalid_bytes_render_as_replacement() {
    let mut r = ColorTagRenderer::new();
    r.render(&vec![src(0, 3)], b"a\xFFb", &attrs(&[])).unwrap();
    assert_eq!(String::from_utf8(r.html.clone()).unwrap(), "a\u{fffd}b\n");
}

#[test]
fn lone_carriage_return_gets_zero_width_span() {
    let mut r = ColorTagRenderer::new();
    r.set_carriage_return_highlight(Some(Highlight(0)));
    r.render(&vec![src(0, 3)], b"a\rb", &attrs(&["f00"])).unwrap();
    assert_eq!(String::from_utf8(r.html.clone()).unwrap(), "a<color=#f00></color>b\n");
}

#[test]
fn carriage_return_before_line_feed_adds_nothing() {
    let mut r = ColorTagRenderer::new();
    r.set_carriage_return_highlight(Some(Highlight(0)));
    r.render(&vec![src(0, 4)], b"a\r\nb", &attrs(&["f00"])).unwrap();
    assert_eq!(String::from_utf8(r.html.clone()).unwrap(), "a\nb\n");
    assert_eq!(r.line_offsets, vec![0, 2]);
}

#[test]
fn carriage_return_without_highlight_is_dropped() {
    let mut r = ColorTagRenderer::new();
    r.render(&vec![src(0, 3)], b"a\rb", &attrs(&["f00"])).unwrap();
    assert_eq!(String::from_utf8(r.html.clone()).unwrap(), "ab\n");
}

#[test]
fn all_reserved_bytes_are_escaped() {
    let mut r = ColorTagRenderer::new();
    r.render(&vec![src(0, 6)], b"<>&'\"z", &attrs(&[])).unwrap();
    assert_eq!(String::from_utf8(r.html.clone()).unwrap(), "&lt;&gt;&amp;&#39;&quot;z\n");
}

#[test]
fn capacity_bounded_after_reset() {
    let big = vec![b'x'; 50_000];
    let mut text = Vec::new();
    for _ in 0..3000 {
        text.extend_from_slice(b"y\n");
    }
    let mut r = ColorTagRenderer::new();
    for _ in 0..3 {
        r.reset();
        r.render(&vec![src(0, big.len())], &big, &attrs(&[])).unwrap();
        r.render(&vec![src(0, text.len())], &text, &attrs(&[])).unwrap();
        r.reset();
        assert!(r.html.capacity() <= BUFFER_HTML_RESERVE_CAPACITY);
        assert!(r.line_offsets.capacity() <= BUFFER_LINES_RESERVE_CAPACITY);
        assert_eq!(r.line_offsets, vec![0]);
    }
}

#[test]
fn shrink_and_clear_empties() {
    let mut v = vec![1u32; 20];
    shrink_and_clear(&mut v, 5);
    assert!(v.is_empty());
    assert!(v.capacity() <= 5);
    let mut w = vec![1u32; 3];
    shrink_and_clear(&mut w, 5);
    assert!(w.is_empty());
}

#[test]
fn unmatched_end_is_malformed() {
    let mut r = ColorTagRenderer::new();
    assert_eq!(
        r.render(&vec![end()], b"", &attrs(&[])),
        Err(RenderError::MalformedEventStream)
    );
}

#[test]
fn span_outside_source_is_malformed() {
    let mut r = ColorTagRenderer::new();
    assert_eq!(
        r.render(&vec![src(0, 5)], b"abc", &attrs(&[])),
        Err(RenderError::MalformedEventStream)
    );
    assert_eq!(
        r.render(&vec![src(2, 1)], b"abc", &attrs(&[])),
        Err(RenderError::MalformedEventStream)
    );
}

#[test]
fn engine_errors_propagate() {
    let mut r = ColorTagRenderer::new();
    let events = vec![src(0, 1), Err(RenderError::Cancelled), src(1, 2)];
    assert_eq!(r.render(&events, b"ab", &attrs(&[])), Err(RenderError::Cancelled));
    assert_eq!(String::from_utf8(r.html.clone()).unwrap(), "a");
    let mut r = ColorTagRenderer::new();
    assert_eq!(
        r.render(&vec![Err(RenderError::InvalidLanguage)], b"", &attrs(&[])),
        Err(RenderError::InvalidLanguage)
    );
    let mut r = ColorTagRenderer::new();
    assert_eq!(r.render(&vec![Err(RenderError::Unknown)], b"", &attrs(&[])), Err(RenderError::Unknown));
}

#[test]
fn error_codes() {
    assert_eq!(error_code(Ok(())), ErrorCode::Success);
    assert_eq!(error_code(Err(RenderError::Cancelled)), ErrorCode::Timeout);
    assert_eq!(error_code(Err(RenderError::Unknown)), ErrorCode::Timeout);
    assert_eq!(error_code(Err(RenderError::InvalidLanguage)), ErrorCode::InvalidLanguage);
    assert_eq!(error_code(Err(RenderError::MalformedEventStream)), ErrorCode::Timeout);
}

#[test]
fn highlight_into_resets_first() {
    let mut r = ColorTagRenderer::new();
    r.render(&vec![src(0, 3)], b"old", &attrs(&[])).unwrap();
    let events: Result<Vec<Ev>, RenderError> = Ok(vec![start(0), src(0, 3), end()]);
    let code = highlight_into(&mut r, &events, b"a\rb", &attrs(&["f"]), Some(Highlight(0)));
    assert_eq!(code, ErrorCode::Success);
    assert_eq!(
        String::from_utf8(r.html.clone()).unwrap(),
        "<color=#f>a<color=#f></color>b</color>\n"
    );
    let failed: Result<Vec<Ev>, RenderError> = Err(RenderError::Cancelled);
    assert_eq!(highlight_into(&mut r, &failed, b"", &attrs(&[]), None), ErrorCode::Timeout);
    assert_eq!(r.line_offsets, vec![0]);
}
