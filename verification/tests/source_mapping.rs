use fiasco_lsp_proxy::extract::{
    insert_module, scan_text_line, LineScan,
    extract_line_mappings, extract_line_mappings_for_file, modules_from_lines,
    try_extract_line_mappings, try_extract_line_mappings_for_file,
};
use fiasco_lsp_proxy::source_mapping::{
    FiascoSourceMapping, FileLineMappings, LineMapping, LineMappings, MapDirection,
    PreprocessSection,
};

fn lines(text: &[&str]) -> Vec<Option<String>> {
    text.iter().map(|l| Some(l.to_string())).collect()
}

fn simple_file() -> Vec<Option<String>> {
    lines(&[
        "// AUTOMATICALLY GENERATED -- DO NOT EDIT!         -*- c++ -*-",
        "",
        "#include \"foo.h\"",
        "#include \"foo_i.h\"",
        "",
        "#line 10 \"/src/foo.cpp\"",
        "int a;",
        "int b;",
        "#line 20 \"/src/foo.cpp\"",
        "int c;",
        "#endif // foo_cpp",
        "int ignored;",
    ])
}

fn mapping(section: PreprocessSection, src: u32, end: u32, file: &str, dst: u32) -> LineMapping {
    LineMapping { section, src_line: src, src_end_line: end, dst_file: file.to_string(), dst_line: dst }
}

fn summary(v: &[LineMapping]) -> Vec<(PreprocessSection, u32, u32, String, u32)> {
    v.iter()
        .map(|m| (m.section, m.src_line, m.src_end_line, m.dst_file.clone(), m.dst_line))
        .collect()
}

#[test]
fn extract_blocks_of_a_simple_file() {
    let v = extract_line_mappings("foo.cpp", &simple_file());
    assert_eq!(
        summary(&v),
        vec![
            (PreprocessSection::NoSection, 6, 7, "/src/foo.cpp".to_string(), 9),
            (PreprocessSection::NoSection, 9, 9, "/src/foo.cpp".to_string(), 19),
        ]
    );
}

#[test]
fn extract_blocks_by_section() {
    let v = extract_line_mappings(
        "a.cpp",
        &lines(&[
            "// INTERFACE definition follows",
            "#line 5 \"/s/a.cpp\"",
            "class A {};",
            "// IMPLEMENTATION definition follows",
            "//",
            "",
            "",
            "",
            "",
            "#line 8 \"/s/a.cpp\"",
            "int A::x;",
        ]),
    );
    assert_eq!(
        summary(&v),
        vec![
            (PreprocessSection::Interface, 2, 3, "/s/a.cpp".to_string(), 4),
            (PreprocessSection::Implementation, 10, 10, "/s/a.cpp".to_string(), 7),
        ]
    );
}

#[test]
fn extract_skips_unreadable_lines_and_extension_markers() {
    let mut input = lines(&[
        "#line 1 \"/s/b.cpp\"",
        "a",
        "private: // EXTENSION",
        "b",
    ]);
    input.push(None);
    let v = extract_line_mappings("b.cpp", &input);
    assert_eq!(summary(&v), vec![(PreprocessSection::NoSection, 1, 1, "/s/b.cpp".to_string(), 0)]);
}

#[test]
fn extract_without_directives_is_empty() {
    assert!(extract_line_mappings("c.cpp", &lines(&["int x;", "int y;"])).is_empty());
}

#[test]
fn extract_refuses_line_zero() {
    assert!(try_extract_line_mappings("d.cpp", &lines(&["#line 0 \"/s/d.cpp\"", "x"])).is_none());
    assert!(try_extract_line_mappings("d.cpp", &lines(&["#line 2 \"/s/d.cpp\"", "x"])).is_some());
}

#[test]
fn modules_from_stamp_lines() {
    let m = modules_from_lines(&lines(&[
        "auto/stamp-kernel.ready: a.cpp  b.cpp",
        "other line",
        "auto/stamp-boot.ready:\tc.cpp",
        "auto/stamp-kernel.ready: d.cpp",
    ]));
    assert_eq!(
        m,
        vec![
            ("kernel".to_string(), vec!["d.cpp".to_string()]),
            ("boot".to_string(), vec!["c.cpp".to_string()]),
        ]
    );
}

fn loaded() -> FiascoSourceMapping {
    let mut sm = FiascoSourceMapping::new();
    extract_line_mappings_for_file("/b/auto/foo.cpp", "foo.cpp", &simple_file(), &mut sm);
    sm.sort();
    assert_eq!(sm.check(), Ok(()));
    sm
}

#[test]
fn map_to_and_from_preprocessed_file() {
    let sm = loaded();
    let to = sm.map(MapDirection::ToPreprocess, "/src/foo.cpp", 10, 3).unwrap();
    assert_eq!((to.path.as_str(), to.line, to.character), ("/b/auto/foo.cpp", 7, 3));
    let back = sm.map(MapDirection::FromPreprocess, "/b/auto/foo.cpp", 7, 3).unwrap();
    assert_eq!((back.path.as_str(), back.line, back.character), ("/src/foo.cpp", 10, 3));
    let far = sm.map(MapDirection::ToPreprocess, "/src/foo.cpp", 19, 0).unwrap();
    assert_eq!((far.path.as_str(), far.line), ("/b/auto/foo.cpp", 9));
}

#[test]
fn map_round_trip_on_every_mapped_line() {
    let sm = loaded();
    for line in 0..30u32 {
        if let Some(to) = sm.map(MapDirection::ToPreprocess, "/src/foo.cpp", line, 1) {
            let back = sm.map(MapDirection::FromPreprocess, &to.path, to.line, to.character).unwrap();
            assert_eq!((back.path.as_str(), back.line, back.character), ("/src/foo.cpp", line, 1));
        }
    }
}

#[test]
fn unmapped_lines_and_files() {
    let sm = loaded();
    assert!(sm.map(MapDirection::ToPreprocess, "/src/foo.cpp", 15, 0).is_none());
    assert!(sm.map(MapDirection::ToPreprocess, "/src/foo.cpp", 8, 0).is_none());
    assert!(sm.map(MapDirection::ToPreprocess, "/src/other.cpp", 10, 0).is_none());
}

#[test]
fn paths_compare_by_component() {
    let sm = loaded();
    let to = sm.map(MapDirection::ToPreprocess, "/src//foo.cpp", 10, 0).unwrap();
    assert_eq!(to.line, 7);
    let files = sm.map_files(MapDirection::ToPreprocess, "/src/./foo.cpp");
    assert_eq!(files, &["/b/auto/foo.cpp".to_string()]);
    assert!(sm.map_files(MapDirection::ToPreprocess, "/src/foo.cpp/x").is_empty());
}

#[test]
fn files_lengths_and_ranges() {
    let sm = loaded();
    assert_eq!(sm.map_files(MapDirection::ToPreprocess, "/src/foo.cpp"), &["/b/auto/foo.cpp".to_string()]);
    assert!(sm.map_files(MapDirection::ToPreprocess, "/nowhere").is_empty());
    assert_eq!(
        sm.map_files_with_range(MapDirection::FromPreprocess, "/b/auto/foo.cpp", 0, 100),
        vec!["/src/foo.cpp".to_string()]
    );
    assert!(sm.map_files_with_range(MapDirection::FromPreprocess, "/b/auto/foo.cpp", 8, 8).is_empty());
    assert_eq!(sm.file_length(MapDirection::FromPreprocess, "/b/auto/foo.cpp"), Some(9));
    assert_eq!(sm.file_length(MapDirection::ToPreprocess, "/src/foo.cpp"), Some(19));
    assert_eq!(sm.file_length(MapDirection::ToPreprocess, "/nowhere"), None);
}

#[test]
fn file_mappings_push_sort_and_check() {
    let mut f = FileLineMappings::new();
    f.push(mapping(PreprocessSection::Interface, 20, 25, "/x", 0));
    f.push(mapping(PreprocessSection::Interface, 5, 9, "/y", 100));
    f.push(mapping(PreprocessSection::Implementation, 1, 2, "/x", 50));
    assert_eq!(f.length(), 25);
    assert_eq!(f.files(), &vec!["/x".to_string(), "/y".to_string()]);
    assert_eq!(f.get(PreprocessSection::Interface).len(), 2);
    assert!(f.get(PreprocessSection::NoSection).is_empty());
    f.sort();
    let starts: Vec<u32> = f.get(PreprocessSection::Interface).iter().map(|m| m.src_line).collect();
    assert_eq!(starts, vec![5, 20]);
    assert_eq!(f.check(), Ok(()));
    f.push(mapping(PreprocessSection::Interface, 22, 30, "/z", 0));
    f.sort();
    assert_eq!(f.check(), Err((PreprocessSection::Interface, 1)));
}

#[test]
fn file_mappings_from_list() {
    let f = FileLineMappings::from_mappings(vec![
        mapping(PreprocessSection::NoSection, 3, 4, "/p", 0),
        mapping(PreprocessSection::NoSection, 1, 2, "/p", 9),
    ]);
    assert_eq!(f.length(), 4);
    assert_eq!(f.files().len(), 1);
    assert_eq!(f.get(PreprocessSection::NoSection).len(), 2);
}

#[test]
fn line_mappings_insert_and_push() {
    let mut t = LineMappings::new();
    assert!(t.get("/a").is_none());
    t.push_under(&"/a".to_string(), mapping(PreprocessSection::NoSection, 1, 3, "/b", 0));
    t.push_under(&"/a".to_string(), mapping(PreprocessSection::NoSection, 5, 6, "/b", 9));
    assert_eq!(t.get("/a").unwrap().get(PreprocessSection::NoSection).len(), 2);
    t.insert("/a".to_string(), FileLineMappings::new());
    assert!(t.get("/a").unwrap().get(PreprocessSection::NoSection).is_empty());
    assert_eq!(t.check(), Ok(()));
}

#[test]
fn add_file_in_both_directions() {
    let mut sm = FiascoSourceMapping::new();
    sm.add_file("/b/auto/x.cpp", vec![mapping(PreprocessSection::Implementation, 3, 5, "/s/x.cpp", 40)]);
    sm.sort();
    let to = sm.map(MapDirection::ToPreprocess, "/s/x.cpp", 41, 2).unwrap();
    assert_eq!((to.path.as_str(), to.line), ("/b/auto/x.cpp", 4));
    assert!(try_extract_line_mappings_for_file("/b/auto/y.cpp", "y.cpp", &lines(&["#line 3 \"/s/y.cpp\"", "y"]), &mut sm));
    assert!(!try_extract_line_mappings_for_file("/b/auto/z.cpp", "z.cpp", &lines(&["#line 0 \"/s/z.cpp\"", "z"]), &mut sm));
    assert!(sm.map_files(MapDirection::FromPreprocess, "/b/auto/z.cpp").is_empty());
}

#[test]
fn preprocessed_lines_map_back_to_themselves() {
    let sm = loaded();
    let mut mapped = 0;
    for line in 0..20u32 {
        if let Some(src) = sm.map(MapDirection::FromPreprocess, "/b/auto/foo.cpp", line, 4) {
            mapped += 1;
            let back = sm.map(MapDirection::ToPreprocess, &src.path, src.line, src.character).unwrap();
            assert_eq!((back.path.as_str(), back.line, back.character), ("/b/auto/foo.cpp", line, 4));
        }
    }
    assert_eq!(mapped, 3);
}

#[test]
fn overlaps_are_reported_first_section_first() {
    let mut f = FileLineMappings::new();
    f.push(mapping(PreprocessSection::Implementation, 1, 10, "/x", 0));
    f.push(mapping(PreprocessSection::Implementation, 4, 6, "/x", 20));
    f.push(mapping(PreprocessSection::NoSection, 1, 3, "/x", 40));
    f.push(mapping(PreprocessSection::NoSection, 3, 5, "/x", 50));
    f.push(mapping(PreprocessSection::NoSection, 4, 8, "/x", 60));
    f.sort();
    assert_eq!(f.check(), Err((PreprocessSection::NoSection, 1)));
}

#[test]
fn overlap_names_file_and_direction() {
    let mut t = LineMappings::new();
    t.push_under(&"/a".to_string(), mapping(PreprocessSection::NoSection, 1, 3, "/b", 0));
    t.push_under(&"/c".to_string(), mapping(PreprocessSection::Interface, 1, 5, "/b", 10));
    t.push_under(&"/c".to_string(), mapping(PreprocessSection::Interface, 2, 3, "/b", 20));
    t.sort();
    assert_eq!(t.check(), Err(("/c".to_string(), PreprocessSection::Interface, 0)));

    let mut sm = FiascoSourceMapping::new();
    sm.add_file("/b/auto/x.cpp", vec![
        mapping(PreprocessSection::Implementation, 3, 9, "/s/x.cpp", 40),
        mapping(PreprocessSection::Implementation, 5, 6, "/s/x.cpp", 60),
    ]);
    sm.sort();
    assert_eq!(
        sm.check(),
        Err((MapDirection::FromPreprocess, "/b/auto/x.cpp".to_string(), PreprocessSection::Implementation, 0))
    );
}

fn fresh_scan() -> LineScan {
    LineScan { section: PreprocessSection::NoSection, mappings: Vec::new(), ln: 0, offset: 0, stopped: false }
}

#[test]
fn scan_steps_take_the_directive_captures() {
    let mut scan = fresh_scan();
    let captures = Some(("12".to_string(), "src/x.cpp".to_string()));
    assert!(scan_text_line(&mut scan, 3, "#line 12 \"src/x.cpp\"", captures, "#endif // X_CPP"));
    assert_eq!(summary(&scan.mappings), vec![(PreprocessSection::NoSection, 4, 0, "src/x.cpp".to_string(), 11)]);
    assert_eq!((scan.ln, scan.offset, scan.stopped), (3, 0, false));
    assert!(scan_text_line(&mut scan, 8, "// INTERFACE", None, "#endif // X_CPP"));
    assert_eq!((scan.section, scan.ln, scan.offset), (PreprocessSection::Interface, 8, 5));
    assert_eq!(scan.mappings[0].src_end_line, 8);
    assert!(scan_text_line(&mut scan, 9, "int x;", None, "#endif // X_CPP"));
    assert_eq!(scan.ln, 9);
    assert!(scan_text_line(&mut scan, 10, "#endif // X_CPP", None, "#endif // X_CPP"));
    assert_eq!((scan.ln, scan.stopped), (9, true));
}

#[test]
fn scan_step_refuses_line_zero_directive_number() {
    let mut scan = fresh_scan();
    let captures = Some(("0".to_string(), "a.cpp".to_string()));
    assert!(!scan_text_line(&mut scan, 2, "#line 0 \"a.cpp\"", captures, "#endif // A"));
    assert!(scan.mappings.is_empty());
    assert_eq!(scan.ln, 0);
    assert!(!scan_text_line(&mut scan, 0, "#endif // A", None, "#endif // A"));
}

#[test]
fn modules_are_inserted_from_captures() {
    let mut table: Vec<(String, Vec<String>)> = Vec::new();
    insert_module(&mut table, Some(("kernel".to_string(), " a.cpp  b.cpp".to_string())));
    insert_module(&mut table, None);
    insert_module(&mut table, Some(("boot".to_string(), "c.cpp".to_string())));
    insert_module(&mut table, Some(("kernel".to_string(), "d.cpp".to_string())));
    assert_eq!(
        table,
        vec![
            ("kernel".to_string(), vec!["d.cpp".to_string()]),
            ("boot".to_string(), vec!["c.cpp".to_string()]),
        ]
    );
    let mut t2: Vec<(String, Vec<String>)> = Vec::new();
    insert_module(&mut t2, Some(("m".to_string(), " a.cpp  b.cpp".to_string())));
    assert_eq!(t2, vec![("m".to_string(), vec!["a.cpp".to_string(), "b.cpp".to_string()])]);
}

#[test]
fn mapped_files_are_listed() {
    let mut sm = FiascoSourceMapping::new();
    sm.add_file("/b/auto/x.cpp", vec![
        mapping(PreprocessSection::Interface, 3, 5, "/s/x.cpp", 40),
        mapping(PreprocessSection::Implementation, 8, 12, "/s/y.cpp", 0),
        mapping(PreprocessSection::Implementation, 14, 15, "/s/x.cpp", 70),
    ]);
    sm.sort();
    let files = sm.map_files(MapDirection::FromPreprocess, "/b/auto/x.cpp").to_vec();
    for line in 0..20u32 {
        if let Some(loc) = sm.map(MapDirection::FromPreprocess, "/b/auto/x.cpp", line, 0) {
            assert!(files.contains(&loc.path), "line {line}");
        }
    }
    for (start, end) in [(0, 20), (4, 9), (13, 14), (16, 30)] {
        for f in sm.map_files_with_range(MapDirection::FromPreprocess, "/b/auto/x.cpp", start, end) {
            assert!(files.contains(&f));
        }
    }
    assert_eq!(
        sm.map_files_with_range(MapDirection::FromPreprocess, "/b/auto/x.cpp", 4, 9),
        vec!["/s/y.cpp".to_string(), "/s/x.cpp".to_string()]
    );
}
