//! Diagram rendering: deterministic flowchart text for one function,
//! and the plain-text dump kept for diagnostics.

use vstd::prelude::*;
use crate::model::{BasicBlock, BlockModel, Function, FunctionModel};
use crate::text::{join, join_str, trimmed, trimmed_str};

verus! {

/// The display name of a block: `%` before the name, except the
/// empty-named implicit entry block, which displays as `%1`.
pub open spec fn display_of(name: Seq<char>) -> Seq<char> {
    if name.len() == 0 {
        "%1"@
    } else {
        "%"@ + name
    }
}

/// One directed-edge line from a declared predecessor into a block,
/// labelled with the block's display name.
pub open spec fn edge_line(pred: Seq<char>, disp: Seq<char>) -> Seq<char> {
    "\t"@ + pred + " -->|"@ + disp + "| "@ + disp + "\n"@
}

/// The edge lines of one block, one per declared predecessor, in
/// declaration order.
pub open spec fn edges_of(preds: Seq<Seq<char>>, disp: Seq<char>) -> Seq<char>
    decreases preds.len(),
{
    if preds.len() == 0 {
        Seq::<char>::empty()
    } else {
        edge_line(preds[0], disp) + edges_of(preds.drop_first(), disp)
    }
}

/// Whether `pre` is a prefix of `s`.
pub open spec fn starts_with(s: Seq<char>, pre: Seq<char>) -> bool {
    pre.len() <= s.len() && s.subrange(0, pre.len() as int) == pre
}

/// Whether the block's last instruction, after trimming, is a return.
pub open spec fn block_is_ret(b: BlockModel) -> bool {
    b.instructions.len() > 0 && starts_with(trimmed(b.instructions.last()), "ret "@)
}

/// Whether the block's last instruction, after trimming, is unreachable.
pub open spec fn block_is_unreachable(b: BlockModel) -> bool {
    b.instructions.len() > 0 && starts_with(trimmed(b.instructions.last()), "unreachable"@)
}

/// What follows a block's edge lines: its node definition (unless
/// abbreviated) and its style directives.
pub open spec fn block_tail(b: BlockModel, abbr: bool) -> Seq<char> {
    (if !abbr {
        display_of(b.name) + "[\""@ + join(b.instructions, "\n"@) + "\"]\n"@
    } else {
        Seq::<char>::empty()
    }) + (if block_is_ret(b) {
        "style "@ + display_of(b.name) + " stroke:#0f0\n"@
    } else {
        Seq::<char>::empty()
    }) + (if block_is_unreachable(b) {
        "style "@ + display_of(b.name) + " stroke:#f00\n"@
    } else {
        Seq::<char>::empty()
    })
}

/// The rendered section of one block: its edges, then its tail.
pub open spec fn render_block(b: BlockModel, abbr: bool) -> Seq<char> {
    edges_of(b.predecessors, display_of(b.name)) + block_tail(b, abbr)
}

/// The rendered sections of a sequence of blocks, in order.
pub open spec fn render_blocks(bs: Seq<BlockModel>, abbr: bool) -> Seq<char>
    decreases bs.len(),
{
    if bs.len() == 0 {
        Seq::<char>::empty()
    } else {
        render_block(bs[0], abbr) + render_blocks(bs.drop_first(), abbr)
    }
}

/// The full fenced diagram of one function.
pub open spec fn render_function(f: FunctionModel, abbr: bool) -> Seq<char> {
    "```mermaid\n"@ + "flowchart TD\n"@ + "%% function "@ + f.name + "\n"@
        + render_blocks(f.blocks, abbr) + "```\n"@
}

/// Whether a function name passes the optional name filter.
pub open spec fn name_selected(name: Seq<char>, filter: Option<Seq<char>>) -> bool {
    match filter {
        Some(w) => name == w,
        None => true,
    }
}

/// The concatenated diagrams of the functions that pass the filter, in
/// source order.
pub open spec fn render_selected(fs: Seq<FunctionModel>, filter: Option<Seq<char>>, abbr: bool) -> Seq<char>
    decreases fs.len(),
{
    if fs.len() == 0 {
        Seq::<char>::empty()
    } else {
        (if name_selected(fs[0].name, filter) {
            render_function(fs[0], abbr)
        } else {
            Seq::<char>::empty()
        }) + render_selected(fs.drop_first(), filter, abbr)
    }
}

/// One instruction line of the plain-text dump.
pub open spec fn instr_lines(ins: Seq<Seq<char>>) -> Seq<char>
    decreases ins.len(),
{
    if ins.len() == 0 {
        Seq::<char>::empty()
    } else {
        "\t\t  "@ + ins[0] + "\n"@ + instr_lines(ins.drop_first())
    }
}

/// The plain-text dump of one block.
pub open spec fn text_block(b: BlockModel) -> Seq<char> {
    "\tBlock: "@ + b.name + "\t; preds = "@ + join(b.predecessors, ", "@) + "\n"@
        + instr_lines(b.instructions) + "\t; successors = "@ + join(b.successors, ", "@) + "\n"@
}

/// The plain-text dumps of a sequence of blocks, in order.
pub open spec fn text_blocks(bs: Seq<BlockModel>) -> Seq<char>
    decreases bs.len(),
{
    if bs.len() == 0 {
        Seq::<char>::empty()
    } else {
        text_block(bs[0]) + text_blocks(bs.drop_first())
    }
}

/// The plain-text dump of one function.
pub open spec fn function_text(f: FunctionModel) -> Seq<char> {
    "Function: "@ + f.name + "\n"@ + text_blocks(f.blocks)
}

/// One more predecessor extends the edge lines on the right.
pub proof fn lemma_edges_of_push(preds: Seq<Seq<char>>, x: Seq<char>, disp: Seq<char>)
    ensures
        edges_of(preds.push(x), disp) == edges_of(preds, disp) + edge_line(x, disp),
    decreases preds.len(),
{
    if preds.len() == 0 {
        assert(preds.push(x)[0] == x);
        assert(preds.push(x).drop_first() =~= Seq::<Seq<char>>::empty());
        assert(edges_of(Seq::<Seq<char>>::empty(), disp) == Seq::<char>::empty());
        assert(edges_of(preds.push(x), disp) =~= edges_of(preds, disp) + edge_line(x, disp));
    } else {
        lemma_edges_of_push(preds.drop_first(), x, disp);
        assert(preds.push(x)[0] == preds[0]);
        assert(preds.push(x).drop_first() =~= preds.drop_first().push(x));
        assert(edges_of(preds.push(x), disp) == edge_line(preds[0], disp)
            + edges_of(preds.drop_first().push(x), disp));
        assert(edges_of(preds, disp) == edge_line(preds[0], disp)
            + edges_of(preds.drop_first(), disp));
        assert(edge_line(preds[0], disp) + (edges_of(preds.drop_first(), disp) + edge_line(x, disp))
            =~= (edge_line(preds[0], disp) + edges_of(preds.drop_first(), disp)) + edge_line(x, disp));
    }
}

/// One more block extends the rendered sections on the right.
pub proof fn lemma_render_blocks_push(bs: Seq<BlockModel>, b: BlockModel, abbr: bool)
    ensures
        render_blocks(bs.push(b), abbr) == render_blocks(bs, abbr) + render_block(b, abbr),
    decreases bs.len(),
{
    if bs.len() == 0 {
        assert(bs.push(b)[0] == b);
        assert(bs.push(b).drop_first() =~= Seq::<BlockModel>::empty());
        assert(render_blocks(Seq::<BlockModel>::empty(), abbr) == Seq::<char>::empty());
        assert(render_blocks(bs.push(b), abbr) =~= render_blocks(bs, abbr) + render_block(b, abbr));
    } else {
        lemma_render_blocks_push(bs.drop_first(), b, abbr);
        assert(bs.push(b)[0] == bs[0]);
        assert(bs.push(b).drop_first() =~= bs.drop_first().push(b));
        assert(render_blocks(bs.push(b), abbr) == render_block(bs[0], abbr)
            + render_blocks(bs.drop_first().push(b), abbr));
        assert(render_blocks(bs, abbr) == render_block(bs[0], abbr)
            + render_blocks(bs.drop_first(), abbr));
        assert(render_block(bs[0], abbr) + (render_blocks(bs.drop_first(), abbr) + render_block(b, abbr))
            =~= (render_block(bs[0], abbr) + render_blocks(bs.drop_first(), abbr)) + render_block(b, abbr));
    }
}

/// One more instruction extends the dump lines on the right.
pub proof fn lemma_instr_lines_push(ins: Seq<Seq<char>>, x: Seq<char>)
    ensures
        instr_lines(ins.push(x)) == instr_lines(ins) + ("\t\t  "@ + x + "\n"@),
    decreases ins.len(),
{
    if ins.len() == 0 {
        assert(ins.push(x)[0] == x);
        assert(ins.push(x).drop_first() =~= Seq::<Seq<char>>::empty());
        assert(instr_lines(Seq::<Seq<char>>::empty()) == Seq::<char>::empty());
        assert(instr_lines(ins.push(x)) =~= instr_lines(ins) + ("\t\t  "@ + x + "\n"@));
    } else {
        lemma_instr_lines_push(ins.drop_first(), x);
        assert(ins.push(x)[0] == ins[0]);
        assert(ins.push(x).drop_first() =~= ins.drop_first().push(x));
        assert(instr_lines(ins.push(x)) == "\t\t  "@ + ins[0] + "\n"@
            + instr_lines(ins.drop_first().push(x)));
        assert(instr_lines(ins) == "\t\t  "@ + ins[0] + "\n"@ + instr_lines(ins.drop_first()));
        assert(instr_lines(ins.push(x)) =~= instr_lines(ins) + ("\t\t  "@ + x + "\n"@));
    }
}

/// One more block extends the dump on the right.
pub proof fn lemma_text_blocks_push(bs: Seq<BlockModel>, b: BlockModel)
    ensures
        text_blocks(bs.push(b)) == text_blocks(bs) + text_block(b),
    decreases bs.len(),
{
    if bs.len() == 0 {
        assert(bs.push(b)[0] == b);
        assert(bs.push(b).drop_first() =~= Seq::<BlockModel>::empty());
        assert(text_blocks(Seq::<BlockModel>::empty()) == Seq::<char>::empty());
        assert(text_blocks(bs.push(b)) =~= text_blocks(bs) + text_block(b));
    } else {
        lemma_text_blocks_push(bs.drop_first(), b);
        assert(bs.push(b)[0] == bs[0]);
        assert(bs.push(b).drop_first() =~= bs.drop_first().push(b));
        assert(text_blocks(bs.push(b)) == text_block(bs[0]) + text_blocks(bs.drop_first().push(b)));
        assert(text_blocks(bs) == text_block(bs[0]) + text_blocks(bs.drop_first()));
        assert(text_blocks(bs.push(b)) =~= text_blocks(bs) + text_block(b));
    }
}

/// One more function extends the filtered rendering on the right.
pub proof fn lemma_render_selected_push(
    fs: Seq<FunctionModel>,
    f: FunctionModel,
    filter: Option<Seq<char>>,
    abbr: bool,
)
    ensures
        render_selected(fs.push(f), filter, abbr) == render_selected(fs, filter, abbr)
            + (if name_selected(f.name, filter) {
                render_function(f, abbr)
            } else {
                Seq::<char>::empty()
            }),
    decreases fs.len(),
{
    let extra: Seq<char> = if name_selected(f.name, filter) {
        render_function(f, abbr)
    } else {
        Seq::<char>::empty()
    };
    if fs.len() == 0 {
        assert(fs.push(f)[0] == f);
        assert(fs.push(f).drop_first() =~= Seq::<FunctionModel>::empty());
        assert(render_selected(Seq::<FunctionModel>::empty(), filter, abbr) == Seq::<char>::empty());
        assert(render_selected(fs.push(f), filter, abbr) =~= render_selected(fs, filter, abbr) + extra);
    } else {
        lemma_render_selected_push(fs.drop_first(), f, filter, abbr);
        assert(fs.push(f)[0] == fs[0]);
        assert(fs.push(f).drop_first() =~= fs.drop_first().push(f));
        let head: Seq<char> = if name_selected(fs[0].name, filter) {
            render_function(fs[0], abbr)
        } else {
            Seq::<char>::empty()
        };
        assert(render_selected(fs.push(f), filter, abbr) == head
            + render_selected(fs.drop_first().push(f), filter, abbr));
        assert(render_selected(fs, filter, abbr) == head + render_selected(fs.drop_first(), filter, abbr));
        assert(render_selected(fs.push(f), filter, abbr) =~= render_selected(fs, filter, abbr) + extra);
    }
}

/// Executable display name of a block.
pub fn display_name(name: &String) -> (r: String)
    ensures
        r@ == display_of(name@),
{
    if name.unicode_len() == 0 {
        let r = "%1".to_owned();
        r
    } else {
        let mut r = "%".to_owned();
        r.append(name.as_str());
        r
    }
}

/// Executable prefix test.
pub fn starts_with_str(s: &str, pre: &str) -> (r: bool)
    ensures
        r == starts_with(s@, pre@),
{
    let n = s.unicode_len();
    let m = pre.unicode_len();
    if m > n {
        return false;
    }
    let mut j: usize = 0;
    while j < m
        invariant
            j <= m,
            m <= n,
            n == s@.len(),
            m == pre@.len(),
            forall|k: int| 0 <= k < j ==> s@[k] == pre@[k],
        decreases m - j,
    {
        if s.get_char(j) != pre.get_char(j) {
            proof {
                assert(s@.subrange(0, pre@.len() as int)[j as int] == s@[j as int]);
            }
            return false;
        }
        j += 1;
    }
    proof {
        assert(s@.subrange(0, pre@.len() as int) =~= pre@);
    }
    true
}

/// Append one block's section to the output.
#[verifier::rlimit(100)]
fn append_block(out: &mut String, b: &BasicBlock, abbr: bool)
    ensures
        final(out)@ == old(out)@ + render_block(b@, abbr),
{
    let ghost base = out@;
    let disp = display_name(&b.name);
    let mut j: usize = 0;
    while j < b.predecessors.len()
        invariant
            j <= b.predecessors@.len(),
            disp@ == display_of(b@.name),
            out@ == base + edges_of(b@.predecessors.take(j as int), disp@),
        decreases b.predecessors@.len() - j,
    {
        let ghost before = out@;
        out.append("\t");
        out.append(b.predecessors[j].as_str());
        out.append(" -->|");
        out.append(disp.as_str());
        out.append("| ");
        out.append(disp.as_str());
        out.append("\n");
        proof {
            let pv = b@.predecessors;
            assert(pv.take(j + 1) =~= pv.take(j as int).push(pv[j as int]));
            lemma_edges_of_push(pv.take(j as int), pv[j as int], disp@);
            assert(pv[j as int] == b.predecessors@[j as int]@);
            assert(out@ =~= base + edges_of(pv.take(j + 1), disp@));
        }
        j += 1;
    }
    proof {
        assert(b@.predecessors.take(b.predecessors@.len() as int) =~= b@.predecessors);
    }
    let ghost mid = out@;
    if !abbr {
        let body = join_str(&b.instructions, "\n");
        out.append(disp.as_str());
        out.append("[\"");
        out.append(body.as_str());
        out.append("\"]\n");
        proof {
            assert(b.instructions.deep_view() == b@.instructions);
            assert(out@ =~= mid + (display_of(b@.name) + "[\""@ + join(b@.instructions, "\n"@)
                + "\"]\n"@));
        }
    }
    let is_ret = if b.instructions.len() > 0 {
        let t = trimmed_str(b.instructions[b.instructions.len() - 1].as_str());
        starts_with_str(t.as_str(), "ret ")
    } else {
        false
    };
    let is_unreach = if b.instructions.len() > 0 {
        let t = trimmed_str(b.instructions[b.instructions.len() - 1].as_str());
        starts_with_str(t.as_str(), "unreachable")
    } else {
        false
    };
    proof {
        if b.instructions@.len() > 0 {
            assert(b@.instructions.last() == b.instructions@.last()@);
        }
        assert(is_ret == block_is_ret(b@));
        assert(is_unreach == block_is_unreachable(b@));
    }
    let ghost node_part: Seq<char> = if !abbr {
        display_of(b@.name) + "[\""@ + join(b@.instructions, "\n"@) + "\"]\n"@
    } else {
        Seq::<char>::empty()
    };
    proof {
        assert(out@ =~= mid + node_part);
    }
    if is_ret {
        out.append("style ");
        out.append(disp.as_str());
        out.append(" stroke:#0f0\n");
    }
    let ghost ret_part: Seq<char> = if block_is_ret(b@) {
        "style "@ + display_of(b@.name) + " stroke:#0f0\n"@
    } else {
        Seq::<char>::empty()
    };
    proof {
        assert(out@ =~= mid + node_part + ret_part);
    }
    if is_unreach {
        out.append("style ");
        out.append(disp.as_str());
        out.append(" stroke:#f00\n");
    }
    let ghost unreach_part: Seq<char> = if block_is_unreachable(b@) {
        "style "@ + display_of(b@.name) + " stroke:#f00\n"@
    } else {
        Seq::<char>::empty()
    };
    proof {
        assert(out@ =~= mid + node_part + ret_part + unreach_part);
        assert(block_tail(b@, abbr) == node_part + ret_part + unreach_part);
        assert(mid == old(out)@ + edges_of(b@.predecessors, display_of(b@.name)));
        assert(final(out)@ =~= old(out)@ + render_block(b@, abbr));
    }
}

/// Render one function as a fenced flowchart diagram.  With `abbr` set,
/// node bodies (instruction text) are suppressed.  The output depends
/// only on the function's view and the flag, so rendering the same
/// function twice yields byte-identical text.
pub fn dump_cfg(function: &Function, abbr: bool) -> (r: String)
    ensures
        r@ == render_function(function@, abbr),
{
    let mut out = String::new();
    out.append("```mermaid\n");
    out.append("flowchart TD\n");
    out.append("%% function ");
    out.append(function.name.as_str());
    out.append("\n");
    let ghost base = out@;
    let ghost bv = function@.blocks;
    let mut i: usize = 0;
    while i < function.blocks.len()
        invariant
            i <= function.blocks@.len(),
            bv == function@.blocks,
            out@ == base + render_blocks(bv.take(i as int), abbr),
        decreases function.blocks@.len() - i,
    {
        append_block(&mut out, &function.blocks[i], abbr);
        proof {
            assert(bv.take(i + 1) =~= bv.take(i as int).push(bv[i as int]));
            lemma_render_blocks_push(bv.take(i as int), bv[i as int], abbr);
            assert(bv[i as int] == function.blocks@[i as int]@);
            assert(out@ =~= base + render_blocks(bv.take(i + 1), abbr));
        }
        i += 1;
    }
    proof {
        assert(bv.take(function.blocks@.len() as int) =~= bv);
    }
    out.append("```\n");
    proof {
        assert(out@ =~= render_function(function@, abbr));
    }
    out
}

/// The view of the optional name filter.
pub open spec fn filter_view(filter: Option<&String>) -> Option<Seq<char>> {
    match filter {
        Some(w) => Some(w@),
        None => None,
    }
}

/// Render the functions that pass the optional name filter, in source
/// order, as consecutive fenced diagrams.  A filter that matches no
/// function yields empty output.
pub fn render_filtered(functions: &Vec<Function>, filter: Option<&String>, abbr: bool) -> (r: String)
    ensures
        r@ == render_selected(
            functions@.map_values(|f: Function| f@),
            filter_view(filter),
            abbr,
        ),
{
    let ghost fv = functions@.map_values(|f: Function| f@);
    let ghost fl = filter_view(filter);
    let mut out = String::new();
    let mut i: usize = 0;
    while i < functions.len()
        invariant
            i <= functions@.len(),
            fv == functions@.map_values(|f: Function| f@),
            fl == filter_view(filter),
            out@ == render_selected(fv.take(i as int), fl, abbr),
        decreases functions@.len() - i,
    {
        let selected = match filter {
            Some(w) => functions[i].name.eq(w),
            None => true,
        };
        proof {
            assert(fv[i as int] == functions@[i as int]@);
            assert(selected == name_selected(fv[i as int].name, fl));
        }
        if selected {
            let piece = dump_cfg(&functions[i], abbr);
            out.append(piece.as_str());
        }
        proof {
            assert(fv.take(i + 1) =~= fv.take(i as int).push(fv[i as int]));
            lemma_render_selected_push(fv.take(i as int), fv[i as int], fl, abbr);
            assert(out@ =~= render_selected(fv.take(i + 1), fl, abbr));
        }
        i += 1;
    }
    proof {
        assert(fv.take(functions@.len() as int) =~= fv);
    }
    out
}

impl Function {
    /// Plain-text dump of the function and its blocks, kept for
    /// diagnostics.
    pub fn to_string(&self) -> (r: String)
        ensures
            r@ == function_text(self@),
    {
        let mut out = String::new();
        out.append("Function: ");
        out.append(self.name.as_str());
        out.append("\n");
        let ghost base = out@;
        let ghost bv = self@.blocks;
        let mut i: usize = 0;
        while i < self.blocks.len()
            invariant
                i <= self.blocks@.len(),
                bv == self@.blocks,
                out@ == base + text_blocks(bv.take(i as int)),
            decreases self.blocks@.len() - i,
        {
            append_text_block(&mut out, &self.blocks[i]);
            proof {
                assert(bv.take(i + 1) =~= bv.take(i as int).push(bv[i as int]));
                lemma_text_blocks_push(bv.take(i as int), bv[i as int]);
                assert(bv[i as int] == self.blocks@[i as int]@);
                assert(out@ =~= base + text_blocks(bv.take(i + 1)));
            }
            i += 1;
        }
        proof {
            assert(bv.take(self.blocks@.len() as int) =~= bv);
            assert(out@ =~= function_text(self@));
        }
        out
    }
}

/// Append one block's plain-text dump to the output.
fn append_text_block(out: &mut String, b: &BasicBlock)
    ensures
        final(out)@ == old(out)@ + text_block(b@),
{
    let ghost base = out@;
    out.append("\tBlock: ");
    out.append(b.name.as_str());
    out.append("\t; preds = ");
    let preds = join_str(&b.predecessors, ", ");
    out.append(preds.as_str());
    out.append("\n");
    let ghost base2 = out@;
    let ghost iv = b@.instructions;
    let mut j: usize = 0;
    while j < b.instructions.len()
        invariant
            j <= b.instructions@.len(),
            iv == b@.instructions,
            out@ == base2 + instr_lines(iv.take(j as int)),
        decreases b.instructions@.len() - j,
    {
        out.append("\t\t  ");
        out.append(b.instructions[j].as_str());
        out.append("\n");
        proof {
            assert(iv.take(j + 1) =~= iv.take(j as int).push(iv[j as int]));
            lemma_instr_lines_push(iv.take(j as int), iv[j as int]);
            assert(iv[j as int] == b.instructions@[j as int]@);
            assert(out@ =~= base2 + instr_lines(iv.take(j + 1)));
        }
        j += 1;
    }
    proof {
        assert(iv.take(b.instructions@.len() as int) =~= iv);
    }
    out.append("\t; successors = ");
    let succs = join_str(&b.successors, ", ");
    out.append(succs.as_str());
    out.append("\n");
    proof {
        assert(final(out)@ =~= old(out)@ + text_block(b@));
    }
}

} // verus!
