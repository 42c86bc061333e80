use ll2cfg::model::{BasicBlock, Function};
use ll2cfg::parse::{is_stage_boundary, parse_ll_file};
use ll2cfg::render::{dump_cfg, render_filtered};

fn lines(text: &[&str]) -> Vec<String> {
    text.iter().map(|s| s.to_string()).collect()
}

fn names(v: &[String]) -> Vec<&str> {
    v.iter().map(|s| s.as_str()).collect()
}

#[test]
fn two_block_function_scenario() {
    let input = lines(&[
        "define void @f() {",
        "entry:",
        "  br label %next",
        "next:                                            ; preds = %entry",
        "  ret void",
        "}",
    ]);
    let funcs = parse_ll_file(&input);
    assert_eq!(funcs.len(), 1);
    let f = &funcs[0];
    assert_eq!(f.name, "f");
    assert_eq!(f.define, "define void @f() {");
    assert_eq!(f.blocks.len(), 2);
    assert_eq!(f.blocks[0].name, "entry");
    assert_eq!(names(&f.blocks[0].successors), vec!["%next"]);
    assert!(f.blocks[0].predecessors.is_empty());
    assert_eq!(f.blocks[1].name, "next");
    assert_eq!(names(&f.blocks[1].predecessors), vec!["%entry"]);
    assert!(f.blocks[1].successors.is_empty());

    let out = dump_cfg(f, false);
    let expected = "```mermaid\nflowchart TD\n%% function f\n%entry[\"  br label %next\"]\n\t%entry -->|%next| %next\n%next[\"  ret void\"]\nstyle %next stroke:#0f0\n```\n";
    assert_eq!(out, expected);
}

#[test]
fn header_count_ignores_lines_inside_bodies() {
    let input = lines(&[
        "; a comment at the top level",
        "define i32 @a() {",
        "  define-looking text inside a body",
        "define i32 @not_counted() {",
        "}",
        "stray text",
        "define i32 @b(i32 %x) {",
        "  ret i32 %x",
        "}",
    ]);
    // the second header-shaped line sits inside @a's body and is consumed
    // there, so only @a and @b are extracted
    let funcs = parse_ll_file(&input);
    assert_eq!(funcs.len(), 2);
    assert_eq!(funcs[0].name, "a");
    assert_eq!(funcs[1].name, "b");
}

#[test]
fn blank_lines_never_recorded() {
    let input = lines(&[
        "define void @g() {",
        "",
        "start:",
        "   ",
        "  %v = add i32 1, 2",
        "\t",
        "  ret void",
        "",
        "}",
    ]);
    let funcs = parse_ll_file(&input);
    assert_eq!(funcs.len(), 1);
    for b in &funcs[0].blocks {
        for inst in &b.instructions {
            assert!(!inst.trim().is_empty());
        }
    }
    // the leading blank line opens the implicit entry block, which
    // records nothing; the named block holds the instructions
    assert_eq!(funcs[0].blocks[0].name, "");
    assert!(funcs[0].blocks[0].instructions.is_empty());
    assert_eq!(funcs[0].blocks[1].name, "start");
    assert_eq!(
        names(&funcs[0].blocks[1].instructions),
        vec!["  %v = add i32 1, 2", "  ret void"]
    );
}

#[test]
fn unconditional_branch_single_successor() {
    let input = lines(&[
        "define void @g() {",
        "top:",
        "  br label %X",
        "}",
    ]);
    let funcs = parse_ll_file(&input);
    assert_eq!(names(&funcs[0].blocks[0].successors), vec!["%X"]);
}

#[test]
fn conditional_branch_two_successors_in_order() {
    let input = lines(&[
        "define void @g() {",
        "top:",
        "  br i1 %c, label %X, label %Y",
        "}",
    ]);
    let funcs = parse_ll_file(&input);
    assert_eq!(names(&funcs[0].blocks[0].successors), vec!["%X", "%Y"]);
}

#[test]
fn multiway_branch_one_successor_per_labeled_arm() {
    let input = lines(&[
        "define void @g() {",
        "top:",
        "  br i32 %sel, label %a, label %b, label %c",
        "}",
    ]);
    let funcs = parse_ll_file(&input);
    assert_eq!(names(&funcs[0].blocks[0].successors), vec!["%a", "%b", "%c"]);
}

#[test]
fn duplicate_targets_kept() {
    let input = lines(&[
        "define void @g() {",
        "top:",
        "  br i1 %c, label %same, label %same",
        "}",
    ]);
    let funcs = parse_ll_file(&input);
    assert_eq!(names(&funcs[0].blocks[0].successors), vec!["%same", "%same"]);
}

#[test]
fn rendering_is_idempotent() {
    let input = lines(&[
        "define void @f() {",
        "entry:",
        "  br i1 %c, label %t, label %e",
        "t:                                               ; preds = %entry",
        "  ret void",
        "e:                                               ; preds = %entry",
        "  unreachable",
        "}",
    ]);
    let funcs = parse_ll_file(&input);
    let once = dump_cfg(&funcs[0], false);
    let twice = dump_cfg(&funcs[0], false);
    assert_eq!(once, twice);
    let abbr_once = dump_cfg(&funcs[0], true);
    let abbr_twice = dump_cfg(&funcs[0], true);
    assert_eq!(abbr_once, abbr_twice);
}

#[test]
fn blocks_render_in_source_order() {
    let input = lines(&[
        "define void @f() {",
        "alpha:",
        "  br label %beta",
        "beta:                                            ; preds = %alpha",
        "  ret void",
        "}",
    ]);
    let funcs = parse_ll_file(&input);
    let out = dump_cfg(&funcs[0], false);
    let pos_a = out.find("%alpha[\"").unwrap();
    let pos_b = out.find("%beta[\"").unwrap();
    assert!(pos_a < pos_b);
}

#[test]
fn two_declared_predecessors_two_edges_in_order() {
    let input = lines(&[
        "define void @f() {",
        "a:",
        "  br label %c",
        "b:",
        "  br label %c",
        "c:                                               ; preds = %a, %b",
        "  ret void",
        "}",
    ]);
    let funcs = parse_ll_file(&input);
    assert_eq!(names(&funcs[0].blocks[2].predecessors), vec!["%a", "%b"]);
    let out = dump_cfg(&funcs[0], true);
    let edge_lines: Vec<&str> = out.lines().filter(|l| l.contains(" -->|")).collect();
    assert_eq!(
        edge_lines,
        vec!["\t%a -->|%c| %c", "\t%b -->|%c| %c"]
    );
}

#[test]
fn filter_without_match_yields_no_diagram() {
    let input = lines(&[
        "define void @f() {",
        "entry:",
        "  ret void",
        "}",
    ]);
    let funcs = parse_ll_file(&input);
    let wanted = "no_such_function".to_string();
    let out = render_filtered(&funcs, Some(&wanted), false);
    assert_eq!(out, "");
    assert_eq!(out.matches("```mermaid").count(), 0);
}

#[test]
fn filter_selects_only_the_named_function() {
    let input = lines(&[
        "define void @one() {",
        "  ret void",
        "}",
        "define void @two() {",
        "  ret void",
        "}",
    ]);
    let funcs = parse_ll_file(&input);
    let wanted = "two".to_string();
    let out = render_filtered(&funcs, Some(&wanted), false);
    assert_eq!(out.matches("```mermaid").count(), 1);
    assert!(out.contains("%% function two"));
    assert!(!out.contains("%% function one"));
    let all = render_filtered(&funcs, None, false);
    assert_eq!(all.matches("```mermaid").count(), 2);
}

#[test]
fn truncated_body_still_yields_function() {
    let input = lines(&[
        "define void @cut() {",
        "start:",
        "  %v = add i32 1, 2",
        "  br label %next",
    ]);
    let funcs = parse_ll_file(&input);
    assert_eq!(funcs.len(), 1);
    assert_eq!(funcs[0].name, "cut");
    assert_eq!(funcs[0].blocks.len(), 1);
    assert_eq!(funcs[0].blocks[0].name, "start");
    assert_eq!(names(&funcs[0].blocks[0].successors), vec!["%next"]);
}

#[test]
fn implicit_entry_block_displays_as_percent_one() {
    let input = lines(&[
        "define void @f() {",
        "  ret void",
        "}",
    ]);
    let funcs = parse_ll_file(&input);
    assert_eq!(funcs[0].blocks.len(), 1);
    assert_eq!(funcs[0].blocks[0].name, "");
    let out = dump_cfg(&funcs[0], false);
    assert!(out.contains("%1[\"  ret void\"]"));
    assert!(out.contains("style %1 stroke:#0f0"));
}

#[test]
fn abbreviated_rendering_omits_node_bodies() {
    let input = lines(&[
        "define void @f() {",
        "entry:",
        "  ret void",
        "}",
    ]);
    let funcs = parse_ll_file(&input);
    let out = dump_cfg(&funcs[0], true);
    let expected = "```mermaid\nflowchart TD\n%% function f\nstyle %entry stroke:#0f0\n```\n";
    assert_eq!(out, expected);
}

#[test]
fn unreachable_block_gets_failure_style() {
    let input = lines(&[
        "define void @f() {",
        "dead:",
        "  unreachable",
        "}",
    ]);
    let funcs = parse_ll_file(&input);
    let out = dump_cfg(&funcs[0], false);
    assert!(out.contains("style %dead stroke:#f00"));
    assert!(!out.contains("stroke:#0f0"));
}

#[test]
fn malformed_annotation_makes_line_an_instruction() {
    let input = lines(&[
        "define void @f() {",
        "good:",
        "bad: this is not a predecessor annotation",
        "  ret void",
        "}",
    ]);
    let funcs = parse_ll_file(&input);
    assert_eq!(funcs[0].blocks.len(), 1);
    assert_eq!(funcs[0].blocks[0].name, "good");
    assert_eq!(
        names(&funcs[0].blocks[0].instructions),
        vec!["bad: this is not a predecessor annotation", "  ret void"]
    );
}

#[test]
fn empty_annotation_value_keeps_split_semantics() {
    let input = lines(&[
        "define void @f() {",
        "b:  ; preds = ",
        "  ret void",
        "}",
    ]);
    let funcs = parse_ll_file(&input);
    assert_eq!(funcs[0].blocks[0].name, "b");
    assert_eq!(names(&funcs[0].blocks[0].predecessors), vec![""]);
}

#[test]
fn no_headers_no_functions() {
    let input = lines(&["; nothing here", "just text", "}"]);
    let funcs = parse_ll_file(&input);
    assert!(funcs.is_empty());
    let out = render_filtered(&funcs, None, false);
    assert_eq!(out, "");
}

#[test]
fn dotted_names_are_recognized() {
    let input = lines(&[
        "define void @my.func.1() {",
        "bb.1:",
        "  br label %bb.2",
        "bb.2:                                            ; preds = %bb.1",
        "  ret void",
        "}",
    ]);
    let funcs = parse_ll_file(&input);
    assert_eq!(funcs[0].name, "my.func.1");
    assert_eq!(funcs[0].blocks[0].name, "bb.1");
    assert_eq!(names(&funcs[0].blocks[0].successors), vec!["%bb.2"]);
}

#[test]
fn function_text_dump_format() {
    let input = lines(&[
        "define void @f() {",
        "entry:",
        "  br label %next",
        "next:                                            ; preds = %entry",
        "  ret void",
        "}",
    ]);
    let funcs = parse_ll_file(&input);
    let text = funcs[0].to_string();
    let expected = "Function: f\n\tBlock: entry\t; preds = \n\t\t    br label %next\n\t; successors = %next\n\tBlock: next\t; preds = %entry\n\t\t    ret void\n\t; successors = \n";
    assert_eq!(text, expected);
}

#[test]
fn stage_boundary_marker_detection() {
    assert!(is_stage_boundary("; *** IR Dump After Early CSE ***"));
    assert!(!is_stage_boundary("define void @f() {"));
    assert!(!is_stage_boundary("Dump After"));
}

#[test]
fn block_construction_direct() {
    let b = BasicBlock {
        name: "x".to_string(),
        instructions: vec!["  ret void".to_string()],
        predecessors: vec!["%a".to_string()],
        successors: vec![],
    };
    let f = Function {
        name: "direct".to_string(),
        define: "define void @direct() {".to_string(),
        blocks: vec![b],
    };
    let out = dump_cfg(&f, false);
    assert!(out.starts_with("```mermaid\nflowchart TD\n%% function direct\n"));
    assert!(out.contains("\t%a -->|%x| %x\n"));
    assert!(out.ends_with("```\n"));
}
