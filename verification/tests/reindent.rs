use petal::lint::reindent::reindent;


#[test]
fn reindents_fn_if_for_to_two_spaces() {
    let src = "fn f(a)\nif a > 1 then\nreturn a\nend\nfor i in [1, 2] do\nprint(i)\nend\nend\n";
    let out = reindent(src).unwrap();
    assert_eq!(
        out,
        "fn f(a)\n  if a > 1 then\n    return a\n  end\n  for i in [1, 2] do\n    print(i)\n  end\nend\n"
    );
}

#[test]
fn reindents_else_elsif_at_block_level() {
    let src = "if a then\n      x\n   elsif b then\n y\nelse\n  z\n      end\n";
    let out = reindent(src).unwrap();
    assert_eq!(out, "if a then\n  x\nelsif b then\n  y\nelse\n  z\nend\n");
}

#[test]
fn reindents_match_with_do_arms_house_style() {
    // `when` at match+1, do-arm bodies one deeper, arm `end` back at `when`.
    let src = "let r = match e\nwhen Add(t) do\nitems = append(items, t)\ntrue\nend\nwhen None() -> false\nend\n";
    let out = reindent(src).unwrap();
    assert_eq!(
        out,
        "let r = match e\n  when Add(t) do\n    items = append(items, t)\n    true\n  end\n  when None() -> false\nend\n"
    );
}

#[test]
fn when_guard_if_is_not_an_opener() {
    let src = "match s\nwhen Red if t >= 5 do\nx = 1\nend\nend\n";
    let out = reindent(src).unwrap();
    assert_eq!(
        out,
        "match s\n  when Red if t >= 5 do\n    x = 1\n  end\nend\n"
    );
}

#[test]
fn multiline_collections_indent_one_level() {
    let src = "let xs = [\n1,\n2\n]\nlet r = {\na: 1\nb: 2\n}\n";
    let out = reindent(src).unwrap();
    assert_eq!(
        out,
        "let xs = [\n  1,\n  2\n]\nlet r = {\n  a: 1\n  b: 2\n}\n"
    );
}

#[test]
fn leading_closer_run_dedents_by_run_length() {
    let src = "layout(\ncolumn([\neditor()\n])\n)\n";
    let out = reindent(src).unwrap();
    assert_eq!(out, "layout(\n  column([\n    editor()\n  ])\n)\n");
}

#[test]
fn arrow_lambda_does_not_open_a_block() {
    let src = "let ys = map(xs, fn(x) -> x * 2)\nlet z = 1\n";
    assert_eq!(reindent(src).unwrap(), src);
}

#[test]
fn block_lambda_opens_and_end_closes() {
    let src = "let f = fn(x)\nx * 2\nend\n";
    let out = reindent(src).unwrap();
    assert_eq!(out, "let f = fn(x)\n  x * 2\nend\n");
}

#[test]
fn enum_variants_indent() {
    let src = "enum Event\nNone()\nAdd(text)\nend\n";
    assert_eq!(
        reindent(src).unwrap(),
        "enum Event\n  None()\n  Add(text)\nend\n"
    );
}

#[test]
fn jsx_children_indent_and_close_tag_dedents() {
    let src = "let e = <div class=\"x\">\n<p>hi</p>\n<br/>\n</div>\n";
    let out = reindent(src).unwrap();
    assert_eq!(
        out,
        "let e = <div class=\"x\">\n  <p>hi</p>\n  <br/>\n</div>\n"
    );
}

#[test]
fn gt_inside_jsx_attr_brace_is_not_a_tag_end() {
    let src = "let e = <div a={x > 1}>\n<p>y</p>\n</div>\n";
    let out = reindent(src).unwrap();
    assert_eq!(out, "let e = <div a={x > 1}>\n  <p>y</p>\n</div>\n");
}

#[test]
fn raw_string_interior_lines_are_untouched() {
    // Lines inside a multi-line raw string are content, not layout.
    let src = "if a then\nlet s = \"\"\"\n   keep   me\n\"\"\"\nend\n";
    let out = reindent(src).unwrap();
    assert_eq!(
        out,
        "if a then\n  let s = \"\"\"\n   keep   me\n\"\"\"\nend\n"
    );
}

#[test]
fn comments_reindent_with_their_block() {
    let src = "fn f()\n// leading\nlet x = 1 // trailing\nend\n";
    let out = reindent(src).unwrap();
    assert_eq!(out, "fn f()\n  // leading\n  let x = 1 // trailing\nend\n");
}

#[test]
fn trims_trailing_whitespace_and_ensures_single_final_newline() {
    let src = "let x = 1   \n\n\nlet y = 2\t\n\n\n";
    let out = reindent(src).unwrap();
    assert_eq!(out, "let x = 1\n\n\nlet y = 2\n");
}

#[test]
fn adds_missing_final_newline() {
    assert_eq!(reindent("let x = 1").unwrap(), "let x = 1\n");
}

#[test]
fn empty_source_stays_empty() {
    assert_eq!(reindent("").unwrap(), "");
}

#[test]
fn inline_if_and_string_interp_are_neutral() {
    let src = "let x = if c then 1 else 2 end\nprint(\"sum = {2 + (3)} done\")\nlet y = 1\n";
    assert_eq!(reindent(src).unwrap(), src);
}

#[test]
fn reindent_is_layout_over_the_token_stream() {
    let src = "fn f()\n        if x then\n  y\n   end\nend\n\n\n";
    let lexed = petal::lexer::tokenize(src).unwrap();
    let out = petal::lint::reindent::reindent_tokens(src, &lexed.tokens, &lexed.spans);
    assert_eq!(out, reindent(src).unwrap());
    assert_eq!(out, "fn f()\n  if x then\n    y\n  end\nend\n");
}
