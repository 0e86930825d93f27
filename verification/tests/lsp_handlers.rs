use fiasco_lsp_proxy::handler::{
    client_route, handle_req_source_location, server_route, ClientRoute, ServerRoute,
    handle_req_code_action, handle_res_code_action, handle_res_goto, handle_res_references,
    handle_res_workspace_symbol, handle_server_req_workspace_edit, keep_mapped_locations,
    ApplyWorkspaceEditParams, CodeAction, CodeActionOrCommand, CodeActionParams, Diagnostic,
    GotoDefinitionResponse, LocationLink, SymbolInformation, SymbolLocation, TextEdit,
    WorkspaceEdit, WorkspaceSymbol, WorkspaceSymbolResponse,
};
use fiasco_lsp_proxy::lsp::{Location, Position, Range};
use fiasco_lsp_proxy::source_mapping::{FiascoSourceMapping, LineMapping, MapDirection, PreprocessSection};

fn block(src: u32, end: u32, file: &str, dst: u32) -> LineMapping {
    LineMapping {
        section: PreprocessSection::Implementation,
        src_line: src,
        src_end_line: end,
        dst_file: file.to_string(),
        dst_line: dst,
    }
}

/// Lines 10..=19 of /p/a.cpp come from lines 100..=109 of /s/a.cpp, lines
/// 30..=39 from lines 0..=9 of /s/b.cpp.
fn mapping() -> FiascoSourceMapping {
    let mut sm = FiascoSourceMapping::new();
    sm.add_file("/p/a.cpp", vec![block(10, 19, "/s/a.cpp", 100), block(30, 39, "/s/b.cpp", 0)]);
    sm.sort();
    sm
}

fn pos(line: u32, character: u32) -> Position {
    Position { line, character }
}

fn range(a: u32, b: u32) -> Range {
    Range { start: pos(a, 1), end: pos(b, 2) }
}

fn loc(path: &str, a: u32, b: u32) -> Location {
    Location { path: path.to_string(), range: range(a, b) }
}

#[test]
fn position_is_mapped_or_left_alone() {
    let sm = mapping();
    let mut path = "/p/a.cpp".to_string();
    let mut p = pos(12, 7);
    sm.map_position(MapDirection::FromPreprocess, &mut path, &mut p);
    assert_eq!((path.as_str(), p), ("/s/a.cpp", pos(102, 7)));
    let mut path = "/p/a.cpp".to_string();
    let mut p = pos(25, 7);
    sm.map_position(MapDirection::FromPreprocess, &mut path, &mut p);
    assert_eq!((path.as_str(), p), ("/p/a.cpp", pos(25, 7)));
}

#[test]
fn range_maps_within_one_file() {
    let sm = mapping();
    let mut path = "/p/a.cpp".to_string();
    let mut r = range(11, 13);
    assert_eq!(sm.map_range(MapDirection::FromPreprocess, &mut path, &mut r), Ok(()));
    assert_eq!((path.as_str(), r), ("/s/a.cpp", range(101, 103)));
}

#[test]
fn range_across_files_is_refused() {
    let sm = mapping();
    let mut path = "/p/a.cpp".to_string();
    let mut r = range(11, 31);
    assert_eq!(sm.map_range(MapDirection::FromPreprocess, &mut path, &mut r), Err(()));
    assert_eq!((path.as_str(), r), ("/p/a.cpp", range(11, 31)));
    let mut r = range(11, 25);
    assert_eq!(sm.map_range(MapDirection::FromPreprocess, &mut path, &mut r), Err(()));
}

#[test]
fn location_and_file_range() {
    let sm = mapping();
    let mut l = loc("/s/b.cpp", 2, 3);
    assert_eq!(sm.map_location(MapDirection::ToPreprocess, &mut l), Ok(()));
    assert_eq!((l.path.as_str(), l.range), ("/p/a.cpp", range(32, 33)));
    assert_eq!(sm.map_file_range(MapDirection::FromPreprocess, "/p/a.cpp", &range(0, 40)), vec!["/s/a.cpp", "/s/b.cpp"]);
    assert_eq!(sm.map_file_range(MapDirection::FromPreprocess, "/p/a.cpp", &range(20, 29)), Vec::<String>::new());
}

#[test]
fn references_keep_what_maps() {
    let sm = mapping();
    let out = handle_res_references(&sm, Some(vec![loc("/p/a.cpp", 10, 11), loc("/p/a.cpp", 20, 21), loc("/p/a.cpp", 35, 36)])).unwrap();
    let got: Vec<(String, Range)> = out.into_iter().map(|l| (l.path, l.range)).collect();
    assert_eq!(got, vec![("/s/a.cpp".to_string(), range(100, 101)), ("/s/b.cpp".to_string(), range(5, 6))]);
    assert!(handle_res_references(&sm, None).is_none());
    assert!(keep_mapped_locations(&sm, MapDirection::ToPreprocess, vec![loc("/s/none.cpp", 1, 1)]).is_empty());
}

#[test]
fn goto_without_context_passes_unchanged() {
    let sm = mapping();
    let res = handle_res_goto(&sm, None, Some(GotoDefinitionResponse::Scalar(loc("/p/a.cpp", 10, 10))));
    match res {
        Some(GotoDefinitionResponse::Scalar(l)) => assert_eq!((l.path.as_str(), l.range), ("/p/a.cpp", range(10, 10))),
        _ => panic!("unexpected response"),
    }
}

#[test]
fn goto_scalar_and_array() {
    let sm = mapping();
    let ctx = Some(("/s/a.cpp".to_string(), "/p/a.cpp".to_string()));
    match handle_res_goto(&sm, ctx.clone(), Some(GotoDefinitionResponse::Scalar(loc("/p/a.cpp", 25, 25)))) {
        Some(GotoDefinitionResponse::Scalar(l)) => assert_eq!((l.path.as_str(), l.range), ("/p/a.cpp", range(25, 25))),
        _ => panic!("unexpected response"),
    }
    match handle_res_goto(&sm, ctx.clone(), Some(GotoDefinitionResponse::Array(vec![loc("/p/a.cpp", 25, 25), loc("/p/a.cpp", 12, 12)]))) {
        Some(GotoDefinitionResponse::Array(v)) => {
            assert_eq!(v.len(), 1);
            assert_eq!((v[0].path.as_str(), v[0].range), ("/s/a.cpp", range(102, 102)));
        }
        _ => panic!("unexpected response"),
    }
    assert!(handle_res_goto(&sm, ctx, None).is_none());
}

#[test]
fn goto_links() {
    let sm = mapping();
    let ctx = Some(("/s/a.cpp".to_string(), "/p/a.cpp".to_string()));
    let good = LocationLink {
        origin_selection_range: Some(range(14, 14)),
        target_path: "/p/a.cpp".to_string(),
        target_range: range(30, 32),
        target_selection_range: range(31, 31),
    };
    let split = LocationLink {
        origin_selection_range: None,
        target_path: "/p/a.cpp".to_string(),
        target_range: range(10, 11),
        target_selection_range: range(31, 31),
    };
    let unmapped = LocationLink {
        origin_selection_range: None,
        target_path: "/p/a.cpp".to_string(),
        target_range: range(22, 23),
        target_selection_range: range(22, 22),
    };
    match handle_res_goto(&sm, ctx, Some(GotoDefinitionResponse::Link(vec![good, split, unmapped]))) {
        Some(GotoDefinitionResponse::Link(v)) => {
            assert_eq!(v.len(), 1);
            assert_eq!(v[0].origin_selection_range, Some(range(104, 104)));
            assert_eq!(v[0].target_path, "/s/b.cpp");
            assert_eq!(v[0].target_range, range(0, 2));
            assert_eq!(v[0].target_selection_range, range(1, 1));
        }
        _ => panic!("unexpected response"),
    }
}

#[test]
fn workspace_symbols_flat_and_nested() {
    let sm = mapping();
    let flat = WorkspaceSymbolResponse::<&str, &str>::Flat(vec![
        SymbolInformation { rest: "kept", location: loc("/p/a.cpp", 15, 15) },
        SymbolInformation { rest: "dropped", location: loc("/p/a.cpp", 50, 50) },
    ]);
    match handle_res_workspace_symbol(&sm, Some(flat)) {
        Some(WorkspaceSymbolResponse::Flat(v)) => {
            assert_eq!(v.len(), 1);
            assert_eq!((v[0].rest, v[0].location.path.as_str(), v[0].location.range), ("kept", "/s/a.cpp", range(105, 105)));
        }
        _ => panic!("unexpected response"),
    }
    let nested = WorkspaceSymbolResponse::<&str, &str>::Nested(vec![
        WorkspaceSymbol { rest: "other scheme", location: SymbolLocation::Workspace { scheme: "untitled".to_string(), path: "x".to_string() } },
        WorkspaceSymbol { rest: "two files", location: SymbolLocation::Workspace { scheme: "file".to_string(), path: "/p/a.cpp".to_string() } },
        WorkspaceSymbol { rest: "full", location: SymbolLocation::Location(loc("/p/a.cpp", 30, 30)) },
    ]);
    match handle_res_workspace_symbol(&sm, Some(nested)) {
        Some(WorkspaceSymbolResponse::Nested(v)) => {
            let names: Vec<&str> = v.iter().map(|s| s.rest).collect();
            assert_eq!(names, vec!["other scheme", "full"]);
            match &v[1].location {
                SymbolLocation::Location(l) => assert_eq!((l.path.as_str(), l.range), ("/s/b.cpp", range(0, 0))),
                _ => panic!("unexpected location"),
            }
        }
        _ => panic!("unexpected response"),
    }
}

#[test]
fn workspace_symbol_in_a_single_file() {
    let mut sm = FiascoSourceMapping::new();
    sm.add_file("/p/c.cpp", vec![block(0, 5, "/s/c.cpp", 10)]);
    sm.sort();
    let nested = WorkspaceSymbolResponse::<(), u8>::Nested(vec![WorkspaceSymbol {
        rest: 7,
        location: SymbolLocation::Workspace { scheme: "file".to_string(), path: "/p/c.cpp".to_string() },
    }]);
    match handle_res_workspace_symbol(&sm, Some(nested)) {
        Some(WorkspaceSymbolResponse::Nested(v)) => match &v[0].location {
            SymbolLocation::Workspace { path, .. } => assert_eq!(path, "/s/c.cpp"),
            _ => panic!("unexpected location"),
        },
        _ => panic!("unexpected response"),
    }
}

fn params(scheme: &str, path: &str, r: Range, diags: Vec<Diagnostic<u8>>) -> CodeActionParams<(), u8> {
    CodeActionParams { rest: (), scheme: scheme.to_string(), path: path.to_string(), range: r, diagnostics: diags }
}

#[test]
fn code_action_request_is_mapped() {
    let sm = mapping();
    let (p, ctx) = handle_req_code_action(
        &sm,
        params(
            "file",
            "/s/a.cpp",
            range(101, 102),
            vec![
                Diagnostic { rest: 1, range: range(103, 103) },
                Diagnostic { rest: 2, range: range(300, 300) },
            ],
        ),
    );
    assert_eq!(ctx, Some(("/s/a.cpp".to_string(), "/p/a.cpp".to_string())));
    assert_eq!((p.path.as_str(), p.range), ("/p/a.cpp", range(11, 12)));
    assert_eq!(p.diagnostics.len(), 1);
    assert_eq!((p.diagnostics[0].rest, p.diagnostics[0].range), (1, range(13, 13)));
}

#[test]
fn code_action_request_passes_unchanged() {
    let sm = mapping();
    let (p, ctx) = handle_req_code_action(&sm, params("untitled", "/s/a.cpp", range(101, 102), vec![]));
    assert!(ctx.is_none());
    assert_eq!((p.path.as_str(), p.range), ("/s/a.cpp", range(101, 102)));
    let (p, ctx) = handle_req_code_action(&sm, params("file", "/s/unknown.cpp", range(1, 2), vec![]));
    assert!(ctx.is_none());
    assert_eq!(p.path, "/s/unknown.cpp");
    let (p, ctx) = handle_req_code_action(&sm, params("file", "/s/a.cpp", range(1, 2), vec![]));
    assert!(ctx.is_none());
    assert_eq!(p.range, range(1, 2));
}

fn edit(a: u32, b: u32, text: &str) -> TextEdit {
    TextEdit { range: range(a, b), new_text: text.to_string() }
}

#[test]
fn workspace_edits_are_regrouped() {
    let sm = mapping();
    let params = ApplyWorkspaceEditParams {
        rest: "label",
        edit: WorkspaceEdit {
            rest: (),
            changes: Some(vec![(
                "/p/a.cpp".to_string(),
                vec![edit(31, 31, "x"), edit(12, 12, "y"), edit(25, 25, "z"), edit(33, 34, "w")],
            )]),
        },
    };
    let out = handle_server_req_workspace_edit(&sm, params);
    assert_eq!(out.rest, "label");
    let changes = out.edit.changes.unwrap();
    let got: Vec<(String, Vec<(Range, String)>)> = changes
        .into_iter()
        .map(|(p, es)| (p, es.into_iter().map(|e| (e.range, e.new_text)).collect()))
        .collect();
    assert_eq!(
        got,
        vec![
            ("/s/b.cpp".to_string(), vec![(range(1, 1), "x".to_string()), (range(3, 4), "w".to_string())]),
            ("/s/a.cpp".to_string(), vec![(range(102, 102), "y".to_string())]),
        ]
    );
}

#[test]
fn code_action_response_is_mapped() {
    let sm = mapping();
    let ctx = Some(("/s/a.cpp".to_string(), "/p/a.cpp".to_string()));
    let action = CodeAction {
        rest: "fix",
        diagnostics: Some(vec![Diagnostic { rest: 1u8, range: range(12, 12) }, Diagnostic { rest: 2u8, range: range(31, 31) }]),
        edit: Some(WorkspaceEdit { rest: (), changes: Some(vec![("/p/a.cpp".to_string(), vec![edit(13, 13, "t")])]) }),
    };
    let res: Vec<CodeActionOrCommand<&str, &str, u8, ()>> = vec![CodeActionOrCommand::Command("cmd"), CodeActionOrCommand::CodeAction(action)];
    let out = handle_res_code_action(&sm, ctx, Some(res)).unwrap();
    assert_eq!(out.len(), 2);
    match &out[0] {
        CodeActionOrCommand::Command(c) => assert_eq!(*c, "cmd"),
        _ => panic!("unexpected item"),
    }
    match &out[1] {
        CodeActionOrCommand::CodeAction(a) => {
            let d = a.diagnostics.as_ref().unwrap();
            assert_eq!(d.len(), 1);
            assert_eq!((d[0].rest, d[0].range), (1, range(102, 102)));
            let ch = a.edit.as_ref().unwrap().changes.as_ref().unwrap();
            assert_eq!(ch.len(), 1);
            assert_eq!(ch[0].0, "/s/a.cpp");
            assert_eq!(ch[0].1[0].range, range(103, 103));
        }
        _ => panic!("unexpected item"),
    }
    assert!(handle_res_code_action::<(), (), (), ()>(&sm, None, None).is_none());
}

#[test]
fn source_position_is_mapped_into_the_preprocessed_file() {
    let sm = mapping();
    let (path, p, ctx) = handle_req_source_location(&sm, "/s/a.cpp".to_string(), pos(102, 4));
    assert_eq!((path.as_str(), p), ("/p/a.cpp", pos(12, 4)));
    assert_eq!(ctx, Some(("/s/a.cpp".to_string(), "/p/a.cpp".to_string())));
    let (path, p, ctx) = handle_req_source_location(&sm, "/s/b.cpp".to_string(), pos(9, 0));
    assert_eq!((path.as_str(), p, ctx), ("/p/a.cpp", pos(39, 0), Some(("/s/b.cpp".to_string(), "/p/a.cpp".to_string()))));
}

#[test]
fn unmapped_source_position_passes_unchanged() {
    let sm = mapping();
    let (path, p, ctx) = handle_req_source_location(&sm, "/s/a.cpp".to_string(), pos(50, 4));
    assert_eq!((path.as_str(), p, ctx), ("/s/a.cpp", pos(50, 4), None));
    let (path, p, ctx) = handle_req_source_location(&sm, "/elsewhere.cpp".to_string(), pos(1, 1));
    assert_eq!((path.as_str(), p, ctx), ("/elsewhere.cpp", pos(1, 1), None));
}

#[test]
fn goto_request_and_response_round_trip() {
    let sm = mapping();
    let (path, p, ctx) = handle_req_source_location(&sm, "/s/a.cpp".to_string(), pos(105, 3));
    assert_eq!((path.as_str(), p), ("/p/a.cpp", pos(15, 3)));
    let answer = Location { path, range: Range { start: pos(13, 0), end: pos(13, 8) } };
    match handle_res_goto(&sm, ctx, Some(GotoDefinitionResponse::Scalar(answer))) {
        Some(GotoDefinitionResponse::Scalar(l)) => {
            assert_eq!((l.path.as_str(), l.range), ("/s/a.cpp", Range { start: pos(103, 0), end: pos(103, 8) }))
        }
        _ => panic!("unexpected response"),
    }
}

#[test]
fn client_requests_are_routed_by_method() {
    for m in [
        "textDocument/completion",
        "textDocument/hover",
        "textDocument/signatureHelp",
        "textDocument/declaration",
        "textDocument/definition",
        "textDocument/references",
        "textDocument/documentHighlight",
        "textDocument/onTypeFormatting",
        "textDocument/rename",
        "textDocument/implementation",
        "textDocument/typeDefinition",
        "textDocument/moniker",
        "textDocument/linkedEditingRange",
        "textDocument/prepareCallHierarchy",
        "textDocument/prepareTypeHierarchy",
    ] {
        assert_eq!(client_route(m), ClientRoute::SourcePosition, "{m}");
    }
    assert_eq!(client_route("textDocument/codeAction"), ClientRoute::CodeAction);
    assert_eq!(client_route("textDocument/documentSymbol"), ClientRoute::DocumentSymbol);
    assert_eq!(client_route("textDocument/inlayHint"), ClientRoute::InlayHint);
    assert_eq!(client_route("textDocument/formatting"), ClientRoute::Forward);
    assert_eq!(client_route("initialize"), ClientRoute::Forward);
    assert_eq!(client_route("textDocument/definitionX"), ClientRoute::Forward);
}

#[test]
fn server_responses_are_routed_by_method() {
    for m in ["textDocument/declaration", "textDocument/definition", "textDocument/implementation", "textDocument/typeDefinition"] {
        assert_eq!(server_route(m), ServerRoute::Goto, "{m}");
    }
    assert_eq!(server_route("textDocument/references"), ServerRoute::References);
    assert_eq!(server_route("workspace/symbol"), ServerRoute::WorkspaceSymbol);
    assert_eq!(server_route("textDocument/codeAction"), ServerRoute::CodeAction);
    assert_eq!(server_route("textDocument/documentHighlight"), ServerRoute::DocumentHighlight);
    assert_eq!(server_route("textDocument/documentSymbol"), ServerRoute::DocumentSymbol);
    assert_eq!(server_route("textDocument/inlayHint"), ServerRoute::InlayHint);
    assert_eq!(server_route("textDocument/hover"), ServerRoute::Forward);
    assert_eq!(server_route("textDocument/completion"), ServerRoute::Forward);
}

#[test]
fn code_action_keeps_the_url_path_of_the_mapped_file() {
    let mut sm = FiascoSourceMapping::new();
    sm.add_file("/p/x y.cpp", vec![block(10, 19, "/s/x.cpp", 100)]);
    sm.add_file("/p/plain.cpp", vec![block(10, 19, "/s/z.cpp", 100)]);
    sm.sort();
    let (p, ctx) = handle_req_code_action(
        &sm,
        params("file", "/s/x.cpp", range(101, 102), vec![Diagnostic { rest: 7, range: range(103, 103) }]),
    );
    assert_eq!(ctx, Some(("/s/x.cpp".to_string(), "/p/x%20y.cpp".to_string())));
    assert_eq!((p.path.as_str(), p.range), ("/p/x%20y.cpp", range(11, 12)));
    // The diagnostic maps to "/p/x y.cpp", which differs from the URL path.
    assert!(p.diagnostics.is_empty());
    let (p, ctx) = handle_req_code_action(
        &sm,
        params("file", "/s/z.cpp", range(101, 102), vec![Diagnostic { rest: 7, range: range(103, 103) }]),
    );
    assert_eq!(ctx, Some(("/s/z.cpp".to_string(), "/p/plain.cpp".to_string())));
    assert_eq!(p.diagnostics.len(), 1);
}

#[test]
fn workspace_edits_are_grouped_by_file_url() {
    let mut sm = FiascoSourceMapping::new();
    sm.add_file("/p/a.cpp", vec![block(10, 19, "/s/a b.cpp", 100), block(30, 39, "/s//a b.cpp", 0)]);
    sm.sort();
    let params = ApplyWorkspaceEditParams {
        rest: (),
        edit: WorkspaceEdit {
            rest: (),
            changes: Some(vec![("/p/a.cpp".to_string(), vec![edit(12, 12, "y"), edit(31, 31, "x")])]),
        },
    };
    let out = handle_server_req_workspace_edit(&sm, params);
    let got: Vec<(String, Vec<(Range, String)>)> = out
        .edit
        .changes
        .unwrap()
        .into_iter()
        .map(|(p, es)| (p, es.into_iter().map(|e| (e.range, e.new_text)).collect()))
        .collect();
    // Both paths have the URL file:///s/a%20b.cpp.
    assert_eq!(
        got,
        vec![("/s/a b.cpp".to_string(), vec![(range(102, 102), "y".to_string()), (range(1, 1), "x".to_string())])]
    );
}

#[test]
fn goto_link_targets_compare_by_file_url() {
    let mut sm = FiascoSourceMapping::new();
    sm.add_file("/p/a.cpp", vec![block(10, 19, "/s/a b.cpp", 100), block(30, 39, "/s/./a b.cpp", 0), block(50, 59, "/s/a%20b.cpp", 0)]);
    sm.sort();
    let ctx = Some(("/s/a b.cpp".to_string(), "/p/a.cpp".to_string()));
    let link = |a: u32, b: u32| LocationLink {
        origin_selection_range: None,
        target_path: "/p/a.cpp".to_string(),
        target_range: range(a, a),
        target_selection_range: range(b, b),
    };
    match handle_res_goto(&sm, ctx, Some(GotoDefinitionResponse::Link(vec![link(12, 31), link(12, 51)]))) {
        Some(GotoDefinitionResponse::Link(v)) => {
            assert_eq!(v.len(), 1);
            assert_eq!((v[0].target_path.as_str(), v[0].target_range, v[0].target_selection_range), ("/s/./a b.cpp", range(102, 102), range(1, 1)));
        }
        _ => panic!("unexpected response"),
    }
}
