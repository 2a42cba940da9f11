use red_crescent::template::{
    compile, generate, io_to_template_error, parse, Segment, Stamp, TemplateCache, TemplateError,
    PROLOGUE,
};

fn html(text: &str, line: u32) -> Segment {
    Segment::Html { text: text.to_string(), line }
}

fn code(code_: &str, line: u32) -> Segment {
    Segment::Code { code: code_.to_string(), line }
}

fn expr(code_: &str, line: u32) -> Segment {
    Segment::Expr { code: code_.to_string(), line }
}

fn raw(code_: &str, line: u32) -> Segment {
    Segment::RawExpr { code: code_.to_string(), line }
}

#[test]
fn parses_basic_blocks() {
    let segs = parse("a<?lua x() ?>b").unwrap();
    assert_eq!(segs, vec![html("a", 1), code(" x() ", 1), html("b", 1)]);
}

#[test]
fn parses_expr_blocks() {
    let segs = parse("<?lua= 1 + 1 ?>").unwrap();
    assert_eq!(segs, vec![expr(" 1 + 1 ", 1)]);
}

#[test]
fn close_marker_inside_short_string_is_ignored() {
    let segs = parse(r#"<?lua local s = "?>" ?>ok"#).unwrap();
    assert_eq!(segs, vec![code(r#" local s = "?>" "#, 1), html("ok", 1)]);
}

#[test]
fn close_marker_inside_long_bracket_is_ignored() {
    let segs = parse("<?lua local s = [==[?>]==] ?>ok").unwrap();
    assert_eq!(segs, vec![code(" local s = [==[?>]==] ", 1), html("ok", 1)]);
}

#[test]
fn close_marker_inside_line_comment_is_ignored() {
    let segs = parse("<?lua -- not here ?>\nprint(1) ?>x").unwrap();
    assert_eq!(segs, vec![code(" -- not here ?>\nprint(1) ", 1), html("x", 2)]);
}

#[test]
fn close_marker_inside_block_comment_is_ignored() {
    let segs = parse("<?lua --[[ ?> ]] print(1) ?>x").unwrap();
    assert_eq!(segs, vec![code(" --[[ ?> ]] print(1) ", 1), html("x", 1)]);
}

#[test]
fn unterminated_block_is_an_error() {
    let err = parse("line one\n<?lua print(").unwrap_err();
    match err {
        TemplateError::Parse { line, .. } => assert_eq!(line, 2),
        other => panic!("expected parse error, got {other:?}"),
    }
}

#[test]
fn lookalike_tag_stays_html() {
    let segs = parse("<?luax ?>").unwrap();
    assert_eq!(segs, vec![html("<?luax ?>", 1)]);
}

#[test]
fn a_question_mark_opens_no_block_on_its_own() {
    for src in ["<?lua?x", "<?lua?", "<?lua? ?>", "<?lua"] {
        assert_eq!(parse(src).unwrap(), vec![html(src, 1)]);
    }
    assert_eq!(parse("<?lua?>").unwrap(), vec![code("", 1)]);
    assert_eq!(parse("<?lua?<?lua?>").unwrap(), vec![html("<?lua?", 1), code("", 1)]);
}

#[test]
fn empty_block_parses() {
    let segs = parse("a<?lua?>b").unwrap();
    assert_eq!(segs, vec![html("a", 1), code("", 1), html("b", 1)]);
}

#[test]
fn tracks_lines_across_segments() {
    let src = "line1\nline2\n<?lua\n  local x = 1\n?>\n<?lua= x ?>";
    let segs = parse(src).unwrap();
    assert_eq!(
        segs,
        vec![
            html("line1\nline2\n", 1),
            code("\n  local x = 1\n", 3),
            html("\n", 5),
            expr(" x ", 6),
        ]
    );
}

#[test]
fn generated_chunk_lines_match_source_lines() {
    let src = "<p>one</p>\n<p>two</p>\n<?lua\n  local x = 1\n  error(\"boom\")\n?>";
    let generated = generate(&parse(src).unwrap());
    let lines: Vec<&str> = generated.lines().collect();
    assert!(lines[4].contains("error(\"boom\")"), "generated:\n{generated}");
}

#[test]
fn html_containing_quotes_and_newlines_round_trips() {
    let src = "say \"hi\"\\\nnext";
    let generated = generate(&parse(src).unwrap());
    assert_eq!(generated, "_out(\"say \\\"hi\\\"\\\\\\nnext\"); ");
}

#[test]
fn same_line_mix_generates_valid_statement_sequence() {
    let src = "<?lua if x then ?><b>y</b><?lua end ?>";
    let generated = generate(&parse(src).unwrap());
    assert_eq!(generated, " if x then  _out(\"<b>y</b>\");  end  ");
}

#[test]
fn raw_expressions_have_a_form_of_their_own() {
    let segs = parse("<?lua== x ?>").unwrap();
    assert_eq!(segs, vec![raw(" x ", 1)]);
    assert_eq!(generate(&segs), "_out_raw( x ); ");
    assert_eq!(generate(&parse("<?lua= x ?>").unwrap()), "_out_expr( x ); ");
}

#[test]
fn an_escaped_newline_in_a_string_still_counts() {
    let segs = parse("<?lua x = \"a\\\nb\" ?>\n<?lua= y ?>").unwrap();
    assert_eq!(
        segs,
        vec![code(" x = \"a\\\nb\" ", 1), html("\n", 2), expr(" y ", 3)]
    );
}

#[test]
fn control_characters_are_written_as_escapes() {
    assert_eq!(generate(&[html("\u{1}\u{1f}\r\t", 1)]), "_out(\"\\x01\\x1F\\r\\t\"); ");
}

#[test]
fn segments_spell_the_template() {
    let src = "a\n<?lua x() ?>b<?lua= y ?><?lua== z ?>\nend";
    let mut back = String::new();
    for seg in parse(src).unwrap() {
        match seg {
            Segment::Html { text, .. } => back.push_str(&text),
            Segment::Code { code, .. } => back.push_str(&format!("<?lua{code}?>")),
            Segment::Expr { code, .. } => back.push_str(&format!("<?lua={code}?>")),
            Segment::RawExpr { code, .. } => back.push_str(&format!("<?lua=={code}?>")),
        }
    }
    assert_eq!(back, src);
}

fn stamp(mtime: i128, len: u64) -> Stamp {
    Stamp { mtime: Some(mtime), len }
}

#[test]
fn compiled_templates_are_named_after_their_file() {
    let c = compile("a/b.lhtml", "hi", stamp(1, 2)).unwrap();
    assert_eq!(c.chunk_name, "@a/b.lhtml");
    assert_eq!(c.lua_source, format!("{PROLOGUE}_out(\"hi\"); "));
    assert!(!PROLOGUE.contains('\n'));
    assert!(PROLOGUE.starts_with("local _out,_out_expr,_out_raw="));
}

#[test]
fn the_cache_hits_only_for_the_same_file() {
    let mut cache = TemplateCache::new(true);
    assert!(cache.lookup(b"/s/a.lhtml", stamp(1, 2)).is_none());
    cache.load(b"/s/a.lhtml", "a.lhtml", stamp(1, 2), "v1").unwrap();
    cache.load(b"/s/b.lhtml", "b.lhtml", stamp(1, 2), "other").unwrap();
    let hit = cache.lookup(b"/s/a.lhtml", stamp(1, 2)).unwrap();
    assert_eq!(hit.lua_source, format!("{PROLOGUE}_out(\"v1\"); "));
    assert!(cache.lookup(b"/s/a.lhtml", stamp(2, 2)).is_none(), "newer");
    assert!(cache.lookup(b"/s/a.lhtml", stamp(1, 11)).is_none(), "longer");
    cache.load(b"/s/a.lhtml", "a.lhtml", stamp(2, 11), "version-two").unwrap();
    let hit = cache.lookup(b"/s/a.lhtml", stamp(2, 11)).unwrap();
    assert_eq!(hit.lua_source, format!("{PROLOGUE}_out(\"version-two\"); "));
    assert!(cache.lookup(b"/s/a.lhtml", stamp(1, 2)).is_none(), "stale");
}

#[test]
fn a_disabled_cache_never_hits() {
    let mut cache = TemplateCache::new(false);
    let c = cache.load(b"/s/a.lhtml", "a.lhtml", stamp(1, 2), "v1").unwrap();
    assert_eq!(c.chunk_name, "@a.lhtml");
    assert!(cache.lookup(b"/s/a.lhtml", stamp(1, 2)).is_none());
}

#[test]
fn a_broken_template_is_not_cached() {
    let mut cache = TemplateCache::new(true);
    let err = cache.load(b"/s/a.lhtml", "a.lhtml", stamp(1, 2), "<?lua x").err().unwrap();
    assert_eq!(
        err.message(),
        "parse error on line 1: unterminated <?lua block (missing '?>'; note that a '?>' inside a \
         comment does not close the block)"
    );
    assert!(cache.lookup(b"/s/a.lhtml", stamp(1, 2)).is_none());
}

#[test]
fn modules_are_their_own_chunk() {
    let mut cache = TemplateCache::new(true);
    let m = cache.load_module(b"/s/m.lua", "m.lua", stamp(1, 9), "return 1\n");
    assert_eq!(m.chunk_name, "@m.lua");
    assert_eq!(m.lua_source, "return 1\n");
    assert_eq!(cache.lookup(b"/s/m.lua", stamp(1, 9)).unwrap().lua_source, "return 1\n");
}

#[test]
fn read_failures_are_told_apart() {
    assert_eq!(io_to_template_error(true, "x".to_string()).message(), "template not found");
    assert_eq!(
        io_to_template_error(false, "permission denied".to_string()).message(),
        "failed to read template: permission denied"
    );
}
