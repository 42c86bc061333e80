//! General properties of the parser and the renderer, stated over the
//! same spec functions that the executable contracts use, and proved
//! from them.

use vstd::prelude::*;
use crate::model::{BlockModel, FunctionModel};
use crate::parse::{
    SegState, body_blocks, body_end, close_line, fresh_block, header_name, label_marker,
    label_parts, line_successors, parse_program, preds_of_tail, seg_finish, seg_init, seg_run,
    seg_step, seg_targets, lemma_body_end_bounds,
};
use crate::render::{
    block_tail, display_of, edge_line, edges_of, name_selected, render_block, render_blocks,
    render_function, render_selected,
};
use crate::text::{
    contains_sub, has_non_ws, is_ident_char, is_space, last_token, lemma_ident_run_end,
    lemma_last_token_after_space, lemma_split_char_first, lemma_split_char_nosep,
    lemma_split_comma_space_first, lemma_split_comma_space_nosep, skip_ws, split_char,
    split_comma_space,
};

verus! {

/// The number of top-level header lines at or after line `i`: a linear
/// scan that, inside a body, only watches for the closing brace and
/// never counts a header.
pub open spec fn header_count_from(ls: Seq<Seq<char>>, i: int, in_body: bool) -> nat
    decreases ls.len() - i,
{
    if i < 0 || i >= ls.len() {
        0
    } else if in_body {
        if ls[i] == close_line() {
            header_count_from(ls, i + 1, false)
        } else {
            header_count_from(ls, i + 1, true)
        }
    } else {
        if header_name(ls[i]) is Some {
            1 + header_count_from(ls, i + 1, true)
        } else {
            header_count_from(ls, i + 1, false)
        }
    }
}

/// Scanning a body counts nothing and resumes at the line after its
/// closing brace.
proof fn lemma_count_body(ls: Seq<Seq<char>>, i: int)
    requires
        0 <= i,
    ensures
        header_count_from(ls, i, true) == header_count_from(
            ls,
            if body_end(ls, i) < ls.len() {
                body_end(ls, i) + 1
            } else {
                ls.len() as int
            },
            false,
        ),
    decreases ls.len() - i,
{
    if i >= ls.len() {
    } else if ls[i] == close_line() {
        assert(body_end(ls, i) == i);
    } else {
        lemma_count_body(ls, i + 1);
        assert(body_end(ls, i) == body_end(ls, i + 1));
    }
}

/// The number of functions extracted from line `i` on equals the number
/// of top-level header lines from `i` on.
proof fn lemma_function_count_from(ls: Seq<Seq<char>>, i: int)
    requires
        0 <= i,
    ensures
        parse_program(ls, i).len() == header_count_from(ls, i, false),
    decreases ls.len() - i,
{
    if i >= ls.len() {
    } else if header_name(ls[i]) is Some {
        lemma_body_end_bounds(ls, i + 1);
        let e = body_end(ls, i + 1);
        let nxt: int = if e < ls.len() { e + 1 } else { e };
        lemma_function_count_from(ls, nxt);
        lemma_count_body(ls, i + 1);
    } else {
        lemma_function_count_from(ls, i + 1);
    }
}

/// The number of extracted function records equals the number of lines
/// matching the header pattern at the top level; lines inside a body
/// are never counted as headers.
pub proof fn lemma_function_count(ls: Seq<Seq<char>>)
    ensures
        parse_program(ls, 0).len() == header_count_from(ls, 0, false),
{
    lemma_function_count_from(ls, 0);
}

/// No recorded instruction of a block is blank.
pub open spec fn block_nonblank(b: BlockModel) -> bool {
    forall|k: int| 0 <= k < b.instructions.len() ==> has_non_ws(#[trigger] b.instructions[k])
}

/// Every block of a function has only non-blank instructions.
pub open spec fn function_nonblank(f: FunctionModel) -> bool {
    forall|bi: int| 0 <= bi < f.blocks.len() ==> block_nonblank(#[trigger] f.blocks[bi])
}

/// Segmenter-state version of the invariant.
pub open spec fn state_nonblank(st: SegState) -> bool {
    (forall|j: int| 0 <= j < st.blocks.len() ==> block_nonblank(#[trigger] st.blocks[j]))
        && match st.open_block {
        Some(b) => block_nonblank(b),
        None => true,
    }
}

/// One segmenter step preserves the invariant: a blank line is never
/// recorded.
proof fn lemma_seg_step_nonblank(st: SegState, line: Seq<char>)
    requires
        state_nonblank(st),
    ensures
        state_nonblank(seg_step(st, line)),
{
    let st2 = seg_step(st, line);
    if label_parts(line) is Some {
        match st.open_block {
            Some(b) => {
                assert(forall|j: int| 0 <= j < st2.blocks.len() ==> block_nonblank(
                    #[trigger] st2.blocks[j],
                )) by {
                    assert(forall|j: int| 0 <= j < st.blocks.len() ==> st2.blocks[j]
                        == st.blocks[j]);
                    assert(st2.blocks[st.blocks.len() as int] == b);
                }
            },
            None => {},
        }
    } else {
        let cur = match st.open_block {
            Some(b) => b,
            None => fresh_block(Seq::<char>::empty(), Seq::<Seq<char>>::empty()),
        };
        assert(block_nonblank(cur));
        let b2 = st2.open_block->0;
        if has_non_ws(line) {
            assert(forall|k: int| 0 <= k < b2.instructions.len() ==> has_non_ws(
                #[trigger] b2.instructions[k],
            )) by {
                assert(forall|k: int| 0 <= k < cur.instructions.len() ==> b2.instructions[k]
                    == cur.instructions[k]);
                assert(b2.instructions[cur.instructions.len() as int] == line);
            }
        } else {
            assert(b2.instructions == cur.instructions);
        }
    }
}

/// A segmenter run preserves the invariant.
proof fn lemma_seg_run_nonblank(st: SegState, ls: Seq<Seq<char>>)
    requires
        state_nonblank(st),
    ensures
        state_nonblank(seg_run(st, ls)),
    decreases ls.len(),
{
    if ls.len() > 0 {
        lemma_seg_step_nonblank(st, ls[0]);
        lemma_seg_run_nonblank(seg_step(st, ls[0]), ls.drop_first());
    }
}

/// The blocks of any parsed body have only non-blank instructions.
proof fn lemma_body_blocks_nonblank(ls: Seq<Seq<char>>, start: int)
    ensures
        forall|bi: int| 0 <= bi < body_blocks(ls, start).len() ==> block_nonblank(
            #[trigger] body_blocks(ls, start)[bi],
        ),
{
    let st = seg_run(seg_init(), ls.subrange(start, body_end(ls, start)));
    lemma_seg_run_nonblank(seg_init(), ls.subrange(start, body_end(ls, start)));
    match st.open_block {
        Some(b) => {
            assert(forall|bi: int| 0 <= bi < st.blocks.len() ==> seg_finish(st)[bi]
                == st.blocks[bi]);
            assert(seg_finish(st)[st.blocks.len() as int] == b);
        },
        None => {},
    }
}

/// Helper for the instruction property, from line `i` on.
proof fn lemma_nonblank_from(ls: Seq<Seq<char>>, i: int)
    requires
        0 <= i,
    ensures
        forall|fi: int| 0 <= fi < parse_program(ls, i).len() ==> function_nonblank(
            #[trigger] parse_program(ls, i)[fi],
        ),
    decreases ls.len() - i,
{
    if i >= ls.len() {
    } else if header_name(ls[i]) is Some {
        lemma_body_end_bounds(ls, i + 1);
        let e = body_end(ls, i + 1);
        let nxt: int = if e < ls.len() { e + 1 } else { e };
        lemma_nonblank_from(ls, nxt);
        lemma_body_blocks_nonblank(ls, i + 1);
        let f = FunctionModel {
            name: header_name(ls[i])->0,
            define: ls[i],
            blocks: body_blocks(ls, i + 1),
        };
        let p = parse_program(ls, i);
        let rest = parse_program(ls, nxt);
        assert(p == seq![f] + rest);
        assert(function_nonblank(f)) by {
            assert(forall|bi: int| 0 <= bi < f.blocks.len() ==> block_nonblank(
                #[trigger] f.blocks[bi],
            )) by {
                assert(forall|bi: int| 0 <= bi < f.blocks.len() ==> f.blocks[bi]
                    == body_blocks(ls, i + 1)[bi]);
            }
        }
        assert forall|fi: int| 0 <= fi < p.len() implies function_nonblank(#[trigger] p[fi]) by {
            if fi == 0 {
                assert(p[0] == f);
            } else {
                assert(p[fi] == rest[fi - 1]);
            }
        }
    } else {
        lemma_nonblank_from(ls, i + 1);
        assert(parse_program(ls, i) == parse_program(ls, i + 1));
        assert forall|fi: int| 0 <= fi < parse_program(ls, i).len() implies function_nonblank(
            #[trigger] parse_program(ls, i)[fi],
        ) by {
            assert(parse_program(ls, i)[fi] == parse_program(ls, i + 1)[fi]);
        }
    }
}

/// No extracted block ever records an empty or whitespace-only
/// instruction line.
pub proof fn lemma_no_blank_instructions(ls: Seq<Seq<char>>)
    ensures
        forall|fi: int| 0 <= fi < parse_program(ls, 0).len() ==> function_nonblank(
            #[trigger] parse_program(ls, 0)[fi],
        ),
{
    lemma_nonblank_from(ls, 0);
}

/// A block declaring exactly the predecessors `[p1, p2]` renders as
/// exactly two edge lines, one from `p1` and one from `p2`, in that
/// order, before the rest of its section.
pub proof fn lemma_two_predecessor_edges(b: BlockModel, p1: Seq<char>, p2: Seq<char>, abbr: bool)
    requires
        b.predecessors == seq![p1, p2],
    ensures
        render_block(b, abbr) == edge_line(p1, display_of(b.name))
            + edge_line(p2, display_of(b.name)) + block_tail(b, abbr),
{
    let d = display_of(b.name);
    assert(seq![p1, p2].drop_first() =~= seq![p2]);
    assert(seq![p2].drop_first() =~= Seq::<Seq<char>>::empty());
    assert(edges_of(Seq::<Seq<char>>::empty(), d) == Seq::<char>::empty());
    assert(edges_of(seq![p2], d) == edge_line(p2, d) + Seq::<char>::empty());
    assert(edges_of(seq![p1, p2], d) == edge_line(p1, d) + edges_of(seq![p2], d));
    assert(render_block(b, abbr) =~= edge_line(p1, d) + edge_line(p2, d) + block_tail(b, abbr));
}

/// A label line whose annotation declares exactly the two predecessors
/// `a` and `b` opens a block carrying exactly the predecessor list
/// `[a, b]`, in that order.
pub proof fn lemma_label_declares_predecessors(name: Seq<char>, a: Seq<char>, b: Seq<char>)
    requires
        name.len() > 0,
        forall|j: int| 0 <= j < name.len() ==> is_ident_char(#[trigger] name[j]),
        a.len() > 0,
        !is_space(a[0]),
        a.last() != ',',
        forall|j: int| 0 <= j < a.len() - 1 ==> !(#[trigger] a[j] == ',' && a[j + 1] == ' '),
        forall|j: int| 0 <= j < b.len() - 1 ==> !(#[trigger] b[j] == ',' && b[j + 1] == ' '),
    ensures
        label_parts(name + ": ; preds = "@ + a + ", "@ + b) == Some((name, seq![a, b])),
{
    reveal_strlit(": ; preds = ");
    reveal_strlit(", ");
    let line = name + ": ; preds = "@ + a + ", "@ + b;
    let k = name.len() as int;
    assert(forall|j: int| 0 <= j < k ==> is_ident_char(#[trigger] line[j]));
    assert(line[k] == ':');
    assert(!is_ident_char(':'));
    lemma_ident_run_end(line, 0, k);
    assert(line.take(k) =~= name);
    let ann = seq![' ', ';', ' ', 'p', 'r', 'e', 'd', 's', ' ', '=', ' '];
    let cap = a + seq![',', ' '] + b;
    let t = line.skip(k + 1);
    assert(t =~= ann + cap);
    assert(t.len() > 0);
    assert(skip_ws(t, 1) == 1);
    assert(skip_ws(t, 0) == 1);
    assert(t[1] == ';');
    assert(skip_ws(t, 3) == 3);
    assert(skip_ws(t, 2) == 3);
    assert(t[3] == 'p' && t[4] == 'r' && t[5] == 'e' && t[6] == 'd' && t[7] == 's');
    assert(skip_ws(t, 9) == 9);
    assert(skip_ws(t, 8) == 9);
    assert(t[9] == '=');
    assert(t[11] == a[0]);
    assert(skip_ws(t, 11) == 11);
    assert(skip_ws(t, 10) == 11);
    assert(t.skip(11) =~= cap);
    lemma_split_comma_space_first(a, b);
    lemma_split_comma_space_nosep(b);
    assert(split_comma_space(cap) =~~= seq![a, b]);
    assert(preds_of_tail(t) == Some(split_comma_space(t.skip(11))));
    assert(label_parts(line) == Some((name, split_comma_space(cap))));
}

/// A branch line is never a label line, and it extends the open block's
/// successor list by exactly its named targets.
pub proof fn lemma_step_extends_successors(st: SegState, line: Seq<char>)
    requires
        label_parts(line) is None,
    ensures
        seg_step(st, line).open_block is Some,
        seg_step(st, line).open_block->0.successors == (match st.open_block {
            Some(b) => b,
            None => fresh_block(Seq::<char>::empty(), Seq::<Seq<char>>::empty()),
        }).successors + line_successors(line),
{
}

/// An unconditional branch line `br label %X` names exactly the one
/// successor `%X`.
pub proof fn lemma_unconditional_branch(x: Seq<char>)
    requires
        x.len() > 0,
        forall|j: int| 0 <= j < x.len() ==> !is_space(#[trigger] x[j]) && x[j] != ',',
    ensures
        line_successors("br label %"@ + x) == seq!["%"@ + x],
{
    reveal_strlit("br label %");
    reveal_strlit("%");
    let line = "br label %"@ + x;
    assert(line.len() == 10 + x.len());
    assert(skip_ws(line, 0) == 0);
    assert(is_space(line[2]));
    let cap = line.skip(3);
    assert(skip_ws(line, 3) == 3);
    let t = "%"@ + x;
    assert(t.len() == 1 + x.len());
    assert(forall|j: int| 0 <= j < t.len() ==> !is_space(#[trigger] t[j]) && t[j] != ',');
    assert(cap =~= seq!['l', 'a', 'b', 'e', 'l'] + seq![' '] + t);
    lemma_last_token_after_space(seq!['l', 'a', 'b', 'e', 'l'], t);
    assert(forall|j: int| 0 <= j < cap.len() ==> #[trigger] cap[j] != ',');
    lemma_split_char_nosep(cap, ',');
    assert(contains_sub(cap, label_marker())) by {
        assert(cap.subrange(0, 0 + label_marker().len() as int) =~= label_marker());
    }
    assert(seq![cap].drop_first() =~= Seq::<Seq<char>>::empty());
    assert(seg_targets(Seq::<Seq<char>>::empty()) == Seq::<Seq<char>>::empty());
    assert(seg_targets(seq![cap]) =~~= seq![last_token(cap)]);
    assert(line_successors(line) =~~= seq![t]);
}

/// A two-target conditional branch line `br i1 %C, label %X, label %Y`
/// names exactly the successors `%X` then `%Y`, in declaration order.
pub proof fn lemma_conditional_branch(c: Seq<char>, x: Seq<char>, y: Seq<char>)
    requires
        c.len() > 0,
        x.len() > 0,
        y.len() > 0,
        forall|j: int| 0 <= j < c.len() ==> !is_space(#[trigger] c[j]) && c[j] != ',',
        forall|j: int| 0 <= j < x.len() ==> !is_space(#[trigger] x[j]) && x[j] != ',',
        forall|j: int| 0 <= j < y.len() ==> !is_space(#[trigger] y[j]) && y[j] != ',',
    ensures
        line_successors("br i1 %"@ + c + ", label %"@ + x + ", label %"@ + y) == seq![
            "%"@ + x,
            "%"@ + y,
        ],
{
    reveal_strlit("br i1 %");
    reveal_strlit(", label %");
    reveal_strlit("%");
    let line = "br i1 %"@ + c + ", label %"@ + x + ", label %"@ + y;
    assert(line.len() == 25 + c.len() + x.len() + y.len());
    assert(line[0] == 'b' && line[1] == 'r' && line[2] == ' ');
    assert(skip_ws(line, 0) == 0);
    assert(skip_ws(line, 3) == 3);
    let cap = line.skip(3);
    let sa = seq!['i', '1', ' ', '%'] + c;
    let sb = seq![' ', 'l', 'a', 'b', 'e', 'l', ' ', '%'] + x;
    let sc = seq![' ', 'l', 'a', 'b', 'e', 'l', ' ', '%'] + y;
    let rest1 = sb + seq![','] + sc;
    assert(cap =~= sa + seq![','] + rest1);
    assert(forall|j: int| 0 <= j < sa.len() ==> #[trigger] sa[j] != ',');
    assert(forall|j: int| 0 <= j < sb.len() ==> #[trigger] sb[j] != ',');
    assert(forall|j: int| 0 <= j < sc.len() ==> #[trigger] sc[j] != ',');
    lemma_split_char_first(sa, rest1, ',');
    lemma_split_char_first(sb, sc, ',');
    lemma_split_char_nosep(sc, ',');
    let segs = split_char(cap, ',');
    assert(segs =~~= seq![sa, sb, sc]);
    assert(!contains_sub(sa, label_marker())) by {
        if contains_sub(sa, label_marker()) {
            let i0 = choose|i: int|
                0 <= i && i + label_marker().len() <= sa.len() && #[trigger] sa.subrange(
                    i,
                    i + label_marker().len(),
                ) == label_marker();
            assert(sa.subrange(i0, i0 + 6)[5] == sa[i0 + 5]);
            assert(sa[i0 + 5] == c[i0 + 1]);
            assert(label_marker()[5] == ' ');
        }
    }
    assert(contains_sub(sb, label_marker())) by {
        assert(sb.subrange(1, 1 + label_marker().len() as int) =~= label_marker());
    }
    assert(contains_sub(sc, label_marker())) by {
        assert(sc.subrange(1, 1 + label_marker().len() as int) =~= label_marker());
    }
    let tx = "%"@ + x;
    let ty = "%"@ + y;
    assert(forall|j: int| 0 <= j < tx.len() ==> !is_space(#[trigger] tx[j]));
    assert(forall|j: int| 0 <= j < ty.len() ==> !is_space(#[trigger] ty[j]));
    assert(sb =~= seq![' ', 'l', 'a', 'b', 'e', 'l'] + seq![' '] + tx);
    assert(sc =~= seq![' ', 'l', 'a', 'b', 'e', 'l'] + seq![' '] + ty);
    lemma_last_token_after_space(seq![' ', 'l', 'a', 'b', 'e', 'l'], tx);
    lemma_last_token_after_space(seq![' ', 'l', 'a', 'b', 'e', 'l'], ty);
    assert(seq![sa, sb, sc].drop_first() =~= seq![sb, sc]);
    assert(seq![sb, sc].drop_first() =~= seq![sc]);
    assert(seq![sc].drop_first() =~= Seq::<Seq<char>>::empty());
    assert(seg_targets(Seq::<Seq<char>>::empty()) == Seq::<Seq<char>>::empty());
    assert(seg_targets(seq![sc]) =~~= seq![last_token(sc)]);
    assert(seg_targets(seq![sb, sc]) =~~= seq![last_token(sb), last_token(sc)]);
    assert(seg_targets(seq![sa, sb, sc]) =~~= seq![last_token(sb), last_token(sc)]);
    assert(line_successors(line) =~~= seq![tx, ty]);
}

/// Rendered block sections appear in list order: the rendering of any
/// prefix of the blocks is a prefix of the whole rendering, so a block
/// earlier in the list renders strictly before a later one.
pub proof fn lemma_render_order(bs: Seq<BlockModel>, abbr: bool, i: int)
    requires
        0 <= i <= bs.len(),
    ensures
        render_blocks(bs, abbr) == render_blocks(bs.take(i), abbr) + render_blocks(
            bs.skip(i),
            abbr,
        ),
    decreases i,
{
    if i == 0 {
        assert(bs.take(0) =~= Seq::<BlockModel>::empty());
        assert(bs.skip(0) =~= bs);
        assert(render_blocks(Seq::<BlockModel>::empty(), abbr) == Seq::<char>::empty());
        assert(Seq::<char>::empty() + render_blocks(bs, abbr) =~= render_blocks(bs, abbr));
    } else {
        lemma_render_order(bs.drop_first(), abbr, i - 1);
        assert(bs.take(i)[0] == bs[0]);
        assert(bs.take(i).drop_first() =~= bs.drop_first().take(i - 1));
        assert(bs.skip(i) =~= bs.drop_first().skip(i - 1));
        assert(render_blocks(bs.take(i), abbr) == render_block(bs[0], abbr) + render_blocks(
            bs.drop_first().take(i - 1),
            abbr,
        ));
        assert(render_blocks(bs, abbr) == render_block(bs[0], abbr) + render_blocks(
            bs.drop_first(),
            abbr,
        ));
        assert(render_block(bs[0], abbr) + (render_blocks(bs.drop_first().take(i - 1), abbr)
            + render_blocks(bs.drop_first().skip(i - 1), abbr)) =~= (render_block(bs[0], abbr)
            + render_blocks(bs.drop_first().take(i - 1), abbr)) + render_blocks(
            bs.drop_first().skip(i - 1),
            abbr,
        ));
    }
}

/// Block order is kept by the whole diagram as well: the fenced output
/// of a function splits, at any block boundary, into the rendering of
/// the earlier blocks followed by the rendering of the later ones.
pub proof fn lemma_function_render_order(f: FunctionModel, abbr: bool, i: int)
    requires
        0 <= i <= f.blocks.len(),
    ensures
        render_function(f, abbr) == ("```mermaid\n"@ + "flowchart TD\n"@ + "%% function "@
            + f.name + "\n"@ + render_blocks(f.blocks.take(i), abbr)) + (render_blocks(
            f.blocks.skip(i),
            abbr,
        ) + "```\n"@),
{
    lemma_render_order(f.blocks, abbr, i);
    assert(render_function(f, abbr) =~= ("```mermaid\n"@ + "flowchart TD\n"@ + "%% function "@
        + f.name + "\n"@ + render_blocks(f.blocks.take(i), abbr)) + (render_blocks(
        f.blocks.skip(i),
        abbr,
    ) + "```\n"@));
}

/// A name filter that matches no function yields empty output.
pub proof fn lemma_filter_without_match(fs: Seq<FunctionModel>, w: Seq<char>, abbr: bool)
    requires
        forall|k: int| 0 <= k < fs.len() ==> (#[trigger] fs[k]).name != w,
    ensures
        render_selected(fs, Some(w), abbr) == Seq::<char>::empty(),
    decreases fs.len(),
{
    if fs.len() > 0 {
        assert(fs[0].name != w);
        assert(!name_selected(fs[0].name, Some(w)));
        assert(forall|k: int| 0 <= k < fs.drop_first().len() ==> (#[trigger] fs.drop_first()[k]).name
            != w) by {
            assert(forall|k: int| 0 <= k < fs.drop_first().len() ==> fs.drop_first()[k] == fs[k
                + 1]);
        }
        lemma_filter_without_match(fs.drop_first(), w, abbr);
        assert(render_selected(fs, Some(w), abbr) =~= Seq::<char>::empty());
    }
}

} // verus!
