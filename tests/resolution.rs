use scip_locals::classify::{classify, collect_captures, CaptureClass, RawCapture};
use scip_locals::locals::resolve_locals;
use scip_locals::model::{ByteRange, Captures, LocalsError, Occurrence, Span};
use scip_locals::names::source_text;

fn span_of(start: usize, end: usize) -> Span {
    Span { start_line: 0, start_column: start, end_line: 0, end_column: end }
}

fn raw(name: &str, hoist: Option<&str>, start: usize, end: usize) -> RawCapture {
    RawCapture {
        name: name.to_string(),
        hoist: hoist.map(|h| h.to_string()),
        range: ByteRange { start, end },
        span: span_of(start, end),
    }
}

/// The capture of the `nth` occurrence (from 0) of `word` in `src`.
fn at(src: &str, word: &str, nth: usize) -> (usize, usize) {
    let mut from = 0;
    let mut found = 0;
    loop {
        let i = src[from..].find(word).unwrap() + from;
        if found == nth {
            return (i, i + word.len());
        }
        found += 1;
        from = i + 1;
    }
}

fn resolve(src: &str, captures: Vec<RawCapture>) -> Result<Vec<Occurrence>, LocalsError> {
    let c: Captures = collect_captures(&captures);
    resolve_locals(src.as_bytes(), &c)
}

fn def(start: usize, end: usize, id: usize) -> Occurrence {
    Occurrence { range: ByteRange { start, end }, span: span_of(start, end), id, is_definition: true }
}

fn reference(start: usize, end: usize, id: usize) -> Occurrence {
    Occurrence { range: ByteRange { start, end }, span: span_of(start, end), id, is_definition: false }
}

#[test]
fn nested_blocks_bind_outer_and_inner() {
    let src = "func f() { x := 1; { y := x; use(y) } }";
    let (fs, fe) = (0, src.len());
    let (bs, be) = (at(src, "{", 1).0, src.len() - 1);
    let x_def = at(src, "x", 0);
    let y_def = at(src, "y", 0);
    let x_ref = at(src, "x", 1);
    let use_ref = at(src, "use", 0);
    let y_ref = at(src, "y", 1);
    let caps = vec![
        raw("scope.function", None, fs, fe),
        raw("scope.block", None, bs, be),
        raw("definition.var", None, x_def.0, x_def.1),
        raw("definition.var", None, y_def.0, y_def.1),
        raw("reference", None, x_ref.0, x_ref.1),
        raw("reference", None, use_ref.0, use_ref.1),
        raw("reference", None, y_ref.0, y_ref.1),
    ];
    let occs = resolve(src, caps).unwrap();
    assert_eq!(
        occs,
        vec![
            def(x_def.0, x_def.1, 1),
            def(y_def.0, y_def.1, 2),
            reference(x_ref.0, x_ref.1, 1),
            reference(y_ref.0, y_ref.1, 2),
        ]
    );
}

#[test]
fn hoisted_definition_is_visible_before_it() {
    let src = "function f() { g(); { var g = 1; } }";
    let g_ref = at(src, "g", 0);
    let g_def = at(src, "g", 1);
    let (bs, be) = (at(src, "{", 1).0, src.len() - 2);
    let caps = vec![
        raw("scope.function", None, 0, src.len()),
        raw("scope.block", None, bs, be),
        raw("definition.var", Some("function"), g_def.0, g_def.1),
        raw("reference", None, g_ref.0, g_ref.1),
    ];
    let occs = resolve(src, caps).unwrap();
    assert_eq!(occs, vec![def(g_def.0, g_def.1, 1), reference(g_ref.0, g_ref.1, 1)]);
}

#[test]
fn unhoisted_definition_is_not_visible_before_it() {
    let src = "function f() { g(); { var g = 1; } }";
    let g_ref = at(src, "g", 0);
    let g_def = at(src, "g", 1);
    let (bs, be) = (at(src, "{", 1).0, src.len() - 2);
    let caps = vec![
        raw("scope.function", None, 0, src.len()),
        raw("scope.block", None, bs, be),
        raw("definition.var", None, g_def.0, g_def.1),
        raw("reference", None, g_ref.0, g_ref.1),
    ];
    let occs = resolve(src, caps).unwrap();
    assert_eq!(occs, vec![def(g_def.0, g_def.1, 1)]);
}

#[test]
fn inner_definition_shadows_outer() {
    let src = "{ x; { x; x } x }";
    let outer = at(src, "x", 0);
    let inner = at(src, "x", 1);
    let inner_use = at(src, "x", 2);
    let outer_use = at(src, "x", 3);
    let caps = vec![
        raw("scope.block", None, 0, src.len()),
        raw("scope.block", None, at(src, "{", 1).0, at(src, "}", 0).1),
        raw("reference", None, inner_use.0, inner_use.1),
        raw("reference", None, outer_use.0, outer_use.1),
        raw("definition", None, inner.0, inner.1),
        raw("definition", None, outer.0, outer.1),
    ];
    let occs = resolve(src, caps).unwrap();
    assert_eq!(
        occs,
        vec![
            def(outer.0, outer.1, 1),
            def(inner.0, inner.1, 2),
            reference(outer_use.0, outer_use.1, 1),
            reference(inner_use.0, inner_use.1, 2),
        ]
    );
}

#[test]
fn forward_reference_stays_unbound() {
    let src = "{ x; x }";
    let use_x = at(src, "x", 0);
    let def_x = at(src, "x", 1);
    let caps = vec![
        raw("scope.block", None, 0, src.len()),
        raw("reference", None, use_x.0, use_x.1),
        raw("definition", None, def_x.0, def_x.1),
    ];
    let occs = resolve(src, caps).unwrap();
    assert_eq!(occs, vec![def(def_x.0, def_x.1, 1)]);
}

#[test]
fn forward_reference_falls_back_to_outer_definition() {
    let src = "x { x; x }";
    let outer = at(src, "x", 0);
    let use_x = at(src, "x", 1);
    let inner = at(src, "x", 2);
    let caps = vec![
        raw("definition", None, outer.0, outer.1),
        raw("scope.block", None, at(src, "{", 0).0, src.len()),
        raw("reference", None, use_x.0, use_x.1),
        raw("definition", None, inner.0, inner.1),
    ];
    let occs = resolve(src, caps).unwrap();
    assert_eq!(
        occs,
        vec![def(outer.0, outer.1, 1), def(inner.0, inner.1, 2), reference(use_x.0, use_x.1, 1)]
    );
}

#[test]
fn definition_captured_as_reference_does_not_bind_itself() {
    let src = "{ x }";
    let x = at(src, "x", 0);
    let caps = vec![
        raw("scope.block", None, 0, src.len()),
        raw("definition", None, x.0, x.1),
        raw("reference", None, x.0, x.1),
    ];
    let occs = resolve(src, caps).unwrap();
    assert_eq!(occs, vec![def(x.0, x.1, 1)]);
}

#[test]
fn resolving_twice_gives_the_same_occurrences() {
    let src = "func f() { x := 1; { y := x; use(y) } }";
    let build = || {
        vec![
            raw("reference", None, at(src, "y", 1).0, at(src, "y", 1).1),
            raw("scope.block", None, at(src, "{", 1).0, src.len() - 1),
            raw("definition", None, at(src, "y", 0).0, at(src, "y", 0).1),
            raw("scope.function", None, 0, src.len()),
            raw("definition", None, at(src, "x", 0).0, at(src, "x", 0).1),
            raw("reference", None, at(src, "x", 1).0, at(src, "x", 1).1),
        ]
    };
    let first = resolve(src, build()).unwrap();
    let second = resolve(src, build()).unwrap();
    assert_eq!(first, second);
    assert_eq!(first.len(), 4);
}

#[test]
fn every_definition_gets_one_distinct_id() {
    let src = "a b c a b c";
    let mut caps = vec![raw("scope.file", None, 0, src.len())];
    for i in (0..src.len()).step_by(2).rev() {
        caps.push(raw("definition", None, i, i + 1));
    }
    let occs = resolve(src, caps).unwrap();
    assert_eq!(occs.len(), 6);
    for (k, o) in occs.iter().enumerate() {
        assert!(o.is_definition);
        assert_eq!(o.id, k + 1);
        assert_eq!(o.range.start, 2 * k);
    }
}

#[test]
fn definitions_in_sibling_scopes_do_not_leak() {
    let src = "{ { a } { a } }";
    let a_def = at(src, "a", 0);
    let a_use = at(src, "a", 1);
    let caps = vec![
        raw("scope", None, 0, src.len()),
        raw("scope", None, 2, 7),
        raw("scope", None, 8, 13),
        raw("definition", None, a_def.0, a_def.1),
        raw("reference", None, a_use.0, a_use.1),
    ];
    let occs = resolve(src, caps).unwrap();
    assert_eq!(occs, vec![def(a_def.0, a_def.1, 1)]);
}

#[test]
fn hoisting_without_matching_scope_lands_in_root() {
    let src = "h { { h } }";
    let h_use = at(src, "h", 0);
    let h_def = at(src, "h", 1);
    let caps = vec![
        raw("scope.block", None, 2, src.len()),
        raw("scope.block", None, 4, 9),
        raw("definition", Some("function"), h_def.0, h_def.1),
        raw("reference", None, h_use.0, h_use.1),
    ];
    let occs = resolve(src, caps).unwrap();
    assert_eq!(occs, vec![def(h_def.0, h_def.1, 1), reference(h_use.0, h_use.1, 1)]);
}

#[test]
fn hoisting_stops_at_nearest_matching_scope() {
    let src = "{ q { q { q } } }";
    let outer_use = at(src, "q", 0);
    let mid_use = at(src, "q", 1);
    let def_q = at(src, "q", 2);
    let caps = vec![
        raw("scope.function", None, 0, src.len()),
        raw("scope.function", None, 4, 15),
        raw("scope.block", None, 8, 13),
        raw("definition", Some("function"), def_q.0, def_q.1),
        raw("reference", None, outer_use.0, outer_use.1),
        raw("reference", None, mid_use.0, mid_use.1),
    ];
    let occs = resolve(src, caps).unwrap();
    assert_eq!(occs, vec![def(def_q.0, def_q.1, 1), reference(mid_use.0, mid_use.1, 1)]);
}

#[test]
fn equal_range_scopes_nest_in_capture_order() {
    let src = "{ v; w }";
    let v = at(src, "v", 0);
    let w = at(src, "w", 0);
    let caps = vec![
        raw("scope.outer", None, 0, src.len()),
        raw("scope.inner", None, 0, src.len()),
        raw("definition", Some("outer"), w.0, w.1),
        raw("reference", None, v.0, v.1),
        raw("reference", None, w.0, w.1),
    ];
    // The reference at the definition's own position is skipped; `v` is
    // another name and stays unbound.
    let occs = resolve(src, caps).unwrap();
    assert_eq!(occs, vec![def(w.0, w.1, 1)]);
}

#[test]
fn names_are_compared_by_text() {
    let src = "{ ab; ab; ba }";
    let d = at(src, "ab", 0);
    let same = at(src, "ab", 1);
    let other = at(src, "ba", 0);
    let caps = vec![
        raw("scope", None, 0, src.len()),
        raw("definition", None, d.0, d.1),
        raw("reference", None, same.0, same.1),
        raw("reference", None, other.0, other.1),
    ];
    let occs = resolve(src, caps).unwrap();
    assert_eq!(occs, vec![def(d.0, d.1, 1), reference(same.0, same.1, 1)]);
}

#[test]
fn invalid_utf8_fails_the_file() {
    let bytes: Vec<u8> = vec![b'{', b' ', 0xff, 0xfe, b' ', b'}'];
    let caps = vec![raw("scope", None, 0, 6), raw("definition", None, 2, 4)];
    let c = collect_captures(&caps);
    assert_eq!(resolve_locals(&bytes, &c), Err(LocalsError::InvalidUtf8 { start: 2, end: 4 }));
}

#[test]
fn invalid_utf8_in_reference_fails_the_file() {
    let bytes: Vec<u8> = vec![b'a', b' ', 0xc3];
    let caps = vec![raw("definition", None, 0, 1), raw("reference", None, 2, 3)];
    let c = collect_captures(&caps);
    assert_eq!(resolve_locals(&bytes, &c), Err(LocalsError::InvalidUtf8 { start: 2, end: 3 }));
}

#[test]
fn empty_capture_set_gives_no_occurrences() {
    let occs = resolve("", vec![]).unwrap();
    assert!(occs.is_empty());
}

#[test]
fn classify_capture_names() {
    assert_eq!(classify("scope.function"), Some((CaptureClass::Scope, "function".to_string())));
    assert_eq!(classify("scope"), Some((CaptureClass::Scope, "scope".to_string())));
    assert_eq!(classify("scopes"), Some((CaptureClass::Scope, "scopes".to_string())));
    assert_eq!(
        classify("definition.var"),
        Some((CaptureClass::Definition, "var".to_string()))
    );
    assert_eq!(
        classify("reference.call"),
        Some((CaptureClass::Reference, "call".to_string()))
    );
    assert_eq!(classify("local.scope"), None);
    assert_eq!(classify(""), None);
}

#[test]
fn discarded_captures_are_dropped() {
    let caps = vec![
        raw("scope.block", None, 0, 3),
        raw("comment", None, 0, 1),
        raw("definition.var", Some("function"), 1, 2),
        raw("reference", Some("function"), 2, 3),
    ];
    let c = collect_captures(&caps);
    assert_eq!(c.scopes.len(), 1);
    assert_eq!(c.scopes[0].kind, "block");
    assert_eq!(c.definitions.len(), 1);
    assert_eq!(c.definitions[0].hoist, Some("function".to_string()));
    assert_eq!(c.definitions[0].kind, "var");
    assert_eq!(c.references.len(), 1);
    assert_eq!(c.references[0].range, ByteRange { start: 2, end: 3 });
}

#[test]
fn source_text_decodes_a_slice() {
    let src = "héllo wörld".as_bytes();
    assert_eq!(source_text(src, 0, 6), Some("héllo".to_string()));
    assert_eq!(source_text(src, 0, 2), None);
}

#[test]
fn hoisting_starts_above_the_owning_scope() {
    let src = "{ z { z } }";
    let outer_use = at(src, "z", 0);
    let def_z = at(src, "z", 1);
    let caps = vec![
        raw("scope.function", None, 0, src.len()),
        raw("scope.function", None, 4, 9),
        raw("definition", Some("function"), def_z.0, def_z.1),
        raw("reference", None, outer_use.0, outer_use.1),
    ];
    let occs = resolve(src, caps).unwrap();
    assert_eq!(occs, vec![def(def_z.0, def_z.1, 1), reference(outer_use.0, outer_use.1, 1)]);
}

#[test]
fn definition_at_end_of_file_is_an_internal_error() {
    let src = "{ a }";
    let caps = vec![raw("scope", None, 0, src.len()), raw("definition", None, src.len(), src.len())];
    assert_eq!(resolve(src, caps), Err(LocalsError::UnconsumedDefinition { start: 5 }));
}

#[test]
fn reference_at_end_of_file_is_dropped() {
    let src = "a";
    let caps = vec![raw("definition", None, 0, 1), raw("reference", None, 1, 1)];
    assert_eq!(resolve(src, caps).unwrap(), vec![def(0, 1, 1)]);
}
