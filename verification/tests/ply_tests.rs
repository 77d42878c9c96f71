use tsplat::ply::{
    FIELD_COUNT, FIELD_DC_0, FIELD_OPACITY, FIELD_ROT_W, FIELD_ROT_Z, FIELD_SCALE_0, FIELD_X,
    FIELD_Z, PlyError, PlyHeader, RecordAction, field_bits, record_action, subsample,
};

fn chars(s: &str) -> Vec<char> {
    s.chars().collect()
}

fn inria_header() -> Vec<String> {
    let mut lines = vec![
        "ply\n".to_string(),
        "format binary_little_endian 1.0\n".to_string(),
        "comment made by hand\n".to_string(),
        "element vertex 1000\n".to_string(),
    ];
    let mut props = vec!["x", "y", "z", "nx", "ny", "nz", "f_dc_0", "f_dc_1", "f_dc_2"]
        .into_iter()
        .map(String::from)
        .collect::<Vec<_>>();
    for i in 0..45 {
        props.push(format!("f_rest_{i}"));
    }
    for p in ["opacity", "scale_0", "scale_1", "scale_2", "rot_0", "rot_1", "rot_2", "rot_3"] {
        props.push(p.to_string());
    }
    for p in props {
        lines.push(format!("property float {p}\n"));
    }
    lines.push("end_header\n".to_string());
    lines
}

fn read_header(lines: &[String]) -> Result<PlyHeader, PlyError> {
    let mut h = PlyHeader::new();
    for l in lines {
        if h.feed_line(l)? {
            return Ok(h);
        }
    }
    h.feed_line("")?;
    Ok(h)
}

#[test]
fn inria_header_layout() {
    let h = read_header(&inria_header()).unwrap();
    assert_eq!(h.vertex_count, 1000);
    assert_eq!(h.prop_names.len(), 62);
    let layout = h.layout().unwrap();
    assert_eq!(layout.vertex_count, 1000);
    assert_eq!(layout.stride, 248);
    assert_eq!(layout.offsets.len(), FIELD_COUNT);
    assert_eq!(layout.offsets[FIELD_X], 0);
    assert_eq!(layout.offsets[FIELD_Z], 8);
    assert_eq!(layout.offsets[FIELD_DC_0], 24);
    assert_eq!(layout.offsets[FIELD_OPACITY], 216);
    assert_eq!(layout.offsets[FIELD_SCALE_0], 220);
    assert_eq!(layout.offsets[FIELD_ROT_W], 232);
    assert_eq!(layout.offsets[FIELD_ROT_Z], 244);
}

#[test]
fn header_lines_one_by_one() {
    let mut h = PlyHeader::new();
    assert_eq!(h.feed_line("ply\n"), Ok(false));
    assert_eq!(h.feed_line("format binary_little_endian 1.0\r\n"), Ok(false));
    assert_eq!(h.feed_line("element vertex +3  \n"), Ok(false));
    assert_eq!(h.vertex_count, 3);
    assert!(h.in_vertex);
    assert_eq!(h.feed_line("property float x\n"), Ok(false));
    assert_eq!(h.feed_line("property uchar red\n"), Ok(false));
    assert_eq!(h.feed_line("property double y\n"), Ok(false));
    assert_eq!(h.prop_names, vec![chars("x")]);
    assert_eq!(h.feed_line("element face 2\n"), Ok(false));
    assert!(!h.in_vertex);
    assert_eq!(h.feed_line("property float z\n"), Ok(false));
    assert_eq!(h.prop_names, vec![chars("x")]);
    assert_eq!(h.feed_line("end_header \t\n"), Ok(true));
}

#[test]
fn header_errors() {
    let mut h = PlyHeader::new();
    assert_eq!(h.feed_line(""), Err(PlyError::UnexpectedEof));
    assert_eq!(
        h.feed_line("format ascii 1.0\n"),
        Err(PlyError::NotLittleEndian(chars("format ascii 1.0")))
    );
    assert_eq!(
        h.feed_line("element vertex many\n"),
        Err(PlyError::BadVertexCount(chars("element vertex many")))
    );
    assert_eq!(
        h.feed_line("element vertex -1\n"),
        Err(PlyError::BadVertexCount(chars("element vertex -1")))
    );
    assert_eq!(
        h.feed_line("element vertex 99999999999999999999999\n"),
        Err(PlyError::BadVertexCount(chars("element vertex 99999999999999999999999")))
    );
    let mut v = PlyHeader::new();
    v.feed_line("element vertex 2\n").unwrap();
    assert_eq!(
        v.feed_line("property float\n"),
        Err(PlyError::PropertyWithoutName(chars("property float")))
    );
}

#[test]
fn unicode_whitespace_is_trimmed() {
    let mut h = PlyHeader::new();
    assert_eq!(h.feed_line("end_header\u{3000}\u{a0}\n"), Ok(true));
    assert_eq!(h.feed_line("format binary_big_endian\n"), Err(PlyError::NotLittleEndian(chars("format binary_big_endian"))));
}

#[test]
fn layout_errors() {
    let mut lines = inria_header();
    lines.retain(|l| l != "property float opacity\n");
    let h = read_header(&lines).unwrap();
    assert_eq!(h.layout().unwrap_err(), PlyError::MissingProperty(chars("opacity")));
    let mut lines = inria_header();
    lines.retain(|l| l != "property float y\n" && l != "property float rot_2\n");
    let h = read_header(&lines).unwrap();
    assert_eq!(h.layout().unwrap_err(), PlyError::MissingProperty(chars("y")));
    let none = read_header(&["ply\n".to_string(), "end_header\n".to_string()]).unwrap();
    assert_eq!(none.layout().unwrap_err(), PlyError::NoVertices);
}

#[test]
fn truncated_header_is_refused() {
    let lines = vec!["ply\n".to_string(), "element vertex 3\n".to_string()];
    assert_eq!(read_header(&lines).err(), Some(PlyError::UnexpectedEof));
}

#[test]
fn later_property_of_the_same_name_wins() {
    let mut lines = inria_header();
    let end = lines.pop().unwrap();
    lines.push("property float x\n".to_string());
    lines.push(end);
    let h = read_header(&lines).unwrap();
    let layout = h.layout().unwrap();
    assert_eq!(layout.offsets[FIELD_X], 4 * 62);
    assert_eq!(layout.stride, 4 * 63);
}

#[test]
fn subsampling_plan() {
    assert_eq!(subsample(1000, 0), (1, 1000));
    assert_eq!(subsample(1000, 300), (3, 300));
    assert_eq!(subsample(100, 300), (1, 100));
    assert_eq!(subsample(300, 300), (1, 300));
}

fn run(vertex_count: usize, max: usize) -> Vec<usize> {
    let (step, _) = subsample(vertex_count, max);
    let mut kept = Vec::new();
    for i in 0..vertex_count {
        match record_action(i, step, max, kept.len()) {
            RecordAction::Skip => continue,
            RecordAction::Stop => break,
            RecordAction::Keep => kept.push(i),
        }
    }
    kept
}

#[test]
fn subsampling_keeps_exactly_the_cap() {
    let kept = run(1000, 300);
    assert_eq!(kept.len(), 300);
    assert!(kept.iter().all(|i| i % 3 == 0));
    assert_eq!(kept[299], 897);
    assert_eq!(run(1000, 0).len(), 1000);
    assert_eq!(run(999, 1000).len(), 999);
    let odd = run(1001, 7);
    assert_eq!(odd.len(), 7);
    assert_eq!(odd, vec![0, 143, 286, 429, 572, 715, 858]);
}

#[test]
fn record_fields_are_little_endian() {
    let record = [0u8, 0, 0x80, 0x3f, 0x78, 0x56, 0x34, 0x12];
    assert_eq!(field_bits(&record, 0), 0x3f80_0000);
    assert_eq!(f32::from_bits(field_bits(&record, 0)), 1.0f32);
    assert_eq!(field_bits(&record, 4), 0x1234_5678);
    assert_eq!(field_bits(&record, 2), 0x5678_3f80);
}
