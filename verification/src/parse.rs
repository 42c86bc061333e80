//! Function extraction and basic-block segmentation.
//!
//! The line grammar is stated by spec functions; the executable scanner
//! is proved to return exactly what those functions describe.  Per-line
//! classification follows a fixed priority: block label first, then the
//! closing brace, then plain instruction text.

use vstd::prelude::*;
use crate::model::{BasicBlock, BlockModel, Function, FunctionModel, functions_view};
use crate::text::{
    contains_sub, contains_sub_str, has_non_ws, has_non_ws_str, ident_run_end,
    ident_run_end_str, is_space, is_space_char, last_token, last_token_str, skip_ws,
    skip_ws_str, split_char, split_char_str, split_comma_space, split_comma_space_str,
};

verus! {

/// The line that closes a function body.
pub open spec fn close_line() -> Seq<char> {
    seq!['}']
}

/// The marker that a branch operand must carry to name a target.
pub open spec fn label_marker() -> Seq<char> {
    seq!['l', 'a', 'b', 'e', 'l', ' ']
}

/// Parse of the optional predecessor annotation that may follow a
/// label's colon: whitespace, `;`, whitespace, `preds`, whitespace, `=`,
/// whitespace, then comma-separated names.  `None` when the tail has any
/// other shape.
pub open spec fn preds_of_tail(t: Seq<char>) -> Option<Seq<Seq<char>>> {
    let i1 = skip_ws(t, 0);
    if i1 < t.len() && t[i1] == ';' {
        let i2 = skip_ws(t, i1 + 1);
        if i2 + 5 <= t.len() && t[i2] == 'p' && t[i2 + 1] == 'r' && t[i2 + 2] == 'e'
            && t[i2 + 3] == 'd' && t[i2 + 4] == 's' {
            let i3 = skip_ws(t, i2 + 5);
            if i3 < t.len() && t[i3] == '=' {
                let i4 = skip_ws(t, i3 + 1);
                Some(split_comma_space(t.skip(i4)))
            } else {
                None
            }
        } else {
            None
        }
    } else {
        None
    }
}

/// Recognition of a block-label line: a nonempty run of identifier
/// characters, a colon, then either nothing or a predecessor annotation.
/// Yields the block name and its declared predecessors.
pub open spec fn label_parts(line: Seq<char>) -> Option<(Seq<char>, Seq<Seq<char>>)> {
    let k = ident_run_end(line, 0);
    if 0 < k && k < line.len() && line[k] == ':' {
        let name = line.take(k);
        let tail = line.skip(k + 1);
        if tail.len() == 0 {
            Some((name, Seq::<Seq<char>>::empty()))
        } else {
            match preds_of_tail(tail) {
                Some(preds) => Some((name, preds)),
                None => None,
            }
        }
    } else {
        None
    }
}

/// Recognition of a branch instruction: optional leading whitespace,
/// `br`, at least one whitespace character, then the argument text with
/// its own leading whitespace removed.
pub open spec fn branch_capture(line: Seq<char>) -> Option<Seq<char>> {
    let i1 = skip_ws(line, 0);
    if i1 + 2 < line.len() && line[i1] == 'b' && line[i1 + 1] == 'r' && is_space(line[i1 + 2]) {
        Some(line.skip(skip_ws(line, i1 + 3)))
    } else {
        None
    }
}

/// Targets named by the comma segments of a branch's argument text: one
/// target per segment carrying the label marker, in left-to-right order,
/// each the segment's last whitespace-delimited token.
pub open spec fn seg_targets(segs: Seq<Seq<char>>) -> Seq<Seq<char>>
    decreases segs.len(),
{
    if segs.len() == 0 {
        Seq::<Seq<char>>::empty()
    } else {
        (if contains_sub(segs[0], label_marker()) {
            seq![last_token(segs[0])]
        } else {
            Seq::<Seq<char>>::empty()
        }) + seg_targets(segs.drop_first())
    }
}

/// The successors that one line adds: empty unless the line is a
/// branch instruction.
pub open spec fn line_successors(line: Seq<char>) -> Seq<Seq<char>> {
    match branch_capture(line) {
        Some(cap) => seg_targets(split_char(cap, ',')),
        None => Seq::<Seq<char>>::empty(),
    }
}

/// Whether position `i` of a candidate header line starts an
/// `@`-prefixed identifier that is followed (after optional whitespace)
/// by an opening parenthesis with a closing parenthesis somewhere before
/// the final brace.
pub open spec fn at_viable(line: Seq<char>, i: int) -> bool {
    let r = ident_run_end(line, i + 1);
    let k = skip_ws(line, r);
    line[i] == '@' && r > i + 1 && k < line.len() && line[k] == '('
        && (exists|p: int| k < p <= line.len() - 2 && #[trigger] line[p] == ')')
}

/// The rightmost viable `@` position at or below `i` (never inside the
/// leading `define` keyword), if any.
pub open spec fn find_at(line: Seq<char>, i: int) -> Option<int>
    decreases i,
{
    if i < 7 {
        None
    } else if at_viable(line, i) {
        Some(i)
    } else {
        find_at(line, i - 1)
    }
}

/// Recognition of a function-header line: the `define` keyword, then
/// whitespace, an `@`-prefixed identifier followed by a parenthesized
/// parameter list, and a final opening brace.  Yields the identifier.
pub open spec fn header_name(line: Seq<char>) -> Option<Seq<char>> {
    if line.len() >= 8 && line[0] == 'd' && line[1] == 'e' && line[2] == 'f' && line[3] == 'i'
        && line[4] == 'n' && line[5] == 'e' && is_space(line[6]) && line.last() == '{' {
        match find_at(line, line.len() - 2) {
            Some(i) => Some(line.subrange(i + 1, ident_run_end(line, i + 1))),
            None => None,
        }
    } else {
        None
    }
}

/// Scan state of the block segmenter: finished blocks, and the block
/// still accumulating lines, if one is open.
#[verifier::ext_equal]
pub struct SegState {
    /// Blocks already finalized, in source order.
    pub blocks: Seq<BlockModel>,
    /// The currently open block, if any.
    pub open_block: Option<BlockModel>,
}

/// Initial segmenter state: nothing finalized, no block open.
pub open spec fn seg_init() -> SegState {
    SegState { blocks: Seq::<BlockModel>::empty(), open_block: None }
}

/// A freshly opened block with no instructions and no successors.
pub open spec fn fresh_block(name: Seq<char>, preds: Seq<Seq<char>>) -> BlockModel {
    BlockModel {
        name: name,
        instructions: Seq::<Seq<char>>::empty(),
        predecessors: preds,
        successors: Seq::<Seq<char>>::empty(),
    }
}

/// One step of the segmenter on a body line that is not the closing
/// brace: a label line finalizes the open block and opens a named one;
/// any other line goes to the open block (opened implicitly with the
/// empty name if needed), is recorded unless blank, and adds its
/// branch targets.
pub open spec fn seg_step(st: SegState, line: Seq<char>) -> SegState {
    match label_parts(line) {
        Some(parts) => SegState {
            blocks: match st.open_block {
                Some(b) => st.blocks.push(b),
                None => st.blocks,
            },
            open_block: Some(fresh_block(parts.0, parts.1)),
        },
        None => {
            let cur = match st.open_block {
                Some(b) => b,
                None => fresh_block(Seq::<char>::empty(), Seq::<Seq<char>>::empty()),
            };
            let cur1 = BlockModel {
                instructions: if has_non_ws(line) {
                    cur.instructions.push(line)
                } else {
                    cur.instructions
                },
                ..cur
            };
            let cur2 = BlockModel { successors: cur1.successors + line_successors(line), ..cur1 };
            SegState { blocks: st.blocks, open_block: Some(cur2) }
        },
    }
}

/// The segmenter folded over a sequence of body lines.
pub open spec fn seg_run(st: SegState, ls: Seq<Seq<char>>) -> SegState
    decreases ls.len(),
{
    if ls.len() == 0 {
        st
    } else {
        seg_run(seg_step(st, ls[0]), ls.drop_first())
    }
}

/// Finalization at the end of a body: the open block, if any, is
/// appended to the finished blocks.
pub open spec fn seg_finish(st: SegState) -> Seq<BlockModel> {
    match st.open_block {
        Some(b) => st.blocks.push(b),
        None => st.blocks,
    }
}

/// Index of the first closing-brace line at or after `start`, or the
/// number of lines when none follows.
pub open spec fn body_end(ls: Seq<Seq<char>>, start: int) -> int
    decreases ls.len() - start,
{
    if start < 0 || start >= ls.len() {
        ls.len() as int
    } else if ls[start] == close_line() {
        start
    } else {
        body_end(ls, start + 1)
    }
}

/// The blocks of the body that starts at `start`: the segmenter run over
/// the lines up to (not including) the closing brace, then finalized.
pub open spec fn body_blocks(ls: Seq<Seq<char>>, start: int) -> Seq<BlockModel> {
    seg_finish(seg_run(seg_init(), ls.subrange(start, body_end(ls, start))))
}

/// `body_end` never passes the end of the input, and never lies before
/// `start` when `start` is in range.
pub proof fn lemma_body_end_bounds(ls: Seq<Seq<char>>, start: int)
    ensures
        body_end(ls, start) <= ls.len(),
        start <= ls.len() ==> start <= body_end(ls, start),
    decreases ls.len() - start,
{
    if 0 <= start < ls.len() && ls[start] != close_line() {
        lemma_body_end_bounds(ls, start + 1);
    }
}

/// The functions extracted from `ls` beginning at line `i`: a matching
/// header line yields a record whose blocks come from the following
/// body; every other line is skipped.
pub open spec fn parse_program(ls: Seq<Seq<char>>, i: int) -> Seq<FunctionModel>
    decreases ls.len() - i,
    via parse_program_decreases
{
    if i < 0 || i >= ls.len() {
        Seq::<FunctionModel>::empty()
    } else {
        match header_name(ls[i]) {
            Some(name) => {
                let e = body_end(ls, i + 1);
                let f = FunctionModel { name: name, define: ls[i], blocks: body_blocks(ls, i + 1) };
                seq![f] + parse_program(ls, if e < ls.len() { e + 1 } else { e })
            },
            None => parse_program(ls, i + 1),
        }
    }
}

#[via_fn]
proof fn parse_program_decreases(ls: Seq<Seq<char>>, i: int) {
    if 0 <= i < ls.len() {
        lemma_body_end_bounds(ls, i + 1);
    }
}

/// Folding the segmenter commutes with appending one line.
pub proof fn lemma_seg_run_push(st: SegState, ls: Seq<Seq<char>>, x: Seq<char>)
    ensures
        seg_run(st, ls.push(x)) == seg_step(seg_run(st, ls), x),
    decreases ls.len(),
{
    if ls.len() == 0 {
        assert(ls.push(x)[0] == x);
        assert(ls.push(x).drop_first() =~= Seq::<Seq<char>>::empty());
        assert(seg_run(st, ls.push(x)) == seg_run(seg_step(st, x), ls.push(x).drop_first()));
        assert(seg_run(seg_step(st, x), Seq::<Seq<char>>::empty()) == seg_step(st, x));
        assert(seg_run(st, ls) == st);
    } else {
        lemma_seg_run_push(seg_step(st, ls[0]), ls.drop_first(), x);
        assert(ls.push(x)[0] == ls[0]);
        assert(ls.push(x).drop_first() =~= ls.drop_first().push(x));
        assert(seg_run(st, ls.push(x)) == seg_run(seg_step(st, ls[0]), ls.drop_first().push(x)));
        assert(seg_run(st, ls) == seg_run(seg_step(st, ls[0]), ls.drop_first()));
    }
}

/// The targets named by one more comma segment extend the target list
/// on the right.
pub proof fn lemma_seg_targets_push(segs: Seq<Seq<char>>, x: Seq<char>)
    ensures
        seg_targets(segs.push(x)) == seg_targets(segs) + (if contains_sub(x, label_marker()) {
            seq![last_token(x)]
        } else {
            Seq::<Seq<char>>::empty()
        }),
    decreases segs.len(),
{
    let extra: Seq<Seq<char>> = if contains_sub(x, label_marker()) {
        seq![last_token(x)]
    } else {
        Seq::<Seq<char>>::empty()
    };
    if segs.len() == 0 {
        assert(segs.push(x)[0] == x);
        assert(segs.push(x).drop_first() =~= Seq::<Seq<char>>::empty());
        assert(seg_targets(Seq::<Seq<char>>::empty()) == Seq::<Seq<char>>::empty());
        assert(seg_targets(segs.push(x)) == extra + seg_targets(Seq::<Seq<char>>::empty()));
        assert(seg_targets(segs.push(x)) =~~= seg_targets(segs) + extra);
    } else {
        lemma_seg_targets_push(segs.drop_first(), x);
        assert(segs.push(x)[0] == segs[0]);
        assert(segs.push(x).drop_first() =~= segs.drop_first().push(x));
        let head: Seq<Seq<char>> = if contains_sub(segs[0], label_marker()) {
            seq![last_token(segs[0])]
        } else {
            Seq::<Seq<char>>::empty()
        };
        assert(seg_targets(segs.push(x)) == head + seg_targets(segs.drop_first().push(x)));
        assert(seg_targets(segs.drop_first().push(x)) == seg_targets(segs.drop_first()) + extra);
        assert(seg_targets(segs) == head + seg_targets(segs.drop_first()));
        assert(head + (seg_targets(segs.drop_first()) + extra)
            =~~= (head + seg_targets(segs.drop_first())) + extra);
    }
}

/// Executable recognizer of a block-label line.
pub fn match_label(line: &str) -> (r: Option<(String, Vec<String>)>)
    ensures
        match r {
            Some(p) => label_parts(line@) == Some((p.0@, p.1.deep_view())),
            None => label_parts(line@) is None,
        },
{
    let n = line.unicode_len();
    let k = ident_run_end_str(line, 0);
    if k == 0 || k == n {
        return None;
    }
    if line.get_char(k) != ':' {
        return None;
    }
    let name = line.substring_char(0, k).to_owned();
    proof {
        assert(line@.subrange(0, k as int) =~= line@.take(k as int));
    }
    if k + 1 == n {
        let preds: Vec<String> = Vec::new();
        proof {
            assert(line@.skip(k + 1).len() == 0);
            assert(preds.deep_view() =~~= Seq::<Seq<char>>::empty());
        }
        return Some((name, preds));
    }
    let tail = line.substring_char(k + 1, n);
    proof {
        assert(tail@ =~= line@.skip(k + 1));
    }
    match match_preds_tail(tail) {
        Some(preds) => Some((name, preds)),
        None => None,
    }
}

/// Executable recognizer of the predecessor annotation.
fn match_preds_tail(t: &str) -> (r: Option<Vec<String>>)
    ensures
        match r {
            Some(v) => preds_of_tail(t@) == Some(v.deep_view()),
            None => preds_of_tail(t@) is None,
        },
{
    let n = t.unicode_len();
    let i1 = skip_ws_str(t, 0);
    if i1 == n || t.get_char(i1) != ';' {
        return None;
    }
    let i2 = skip_ws_str(t, i1 + 1);
    if n - i2 < 5 {
        return None;
    }
    if t.get_char(i2) != 'p' || t.get_char(i2 + 1) != 'r' || t.get_char(i2 + 2) != 'e'
        || t.get_char(i2 + 3) != 'd' || t.get_char(i2 + 4) != 's' {
        return None;
    }
    let i3 = skip_ws_str(t, i2 + 5);
    if i3 == n || t.get_char(i3) != '=' {
        return None;
    }
    let i4 = skip_ws_str(t, i3 + 1);
    let cap = t.substring_char(i4, n);
    proof {
        assert(cap@ =~= t@.skip(i4 as int));
    }
    Some(split_comma_space_str(cap))
}

/// Executable recognizer of a branch instruction.
pub fn match_branch(line: &str) -> (r: Option<String>)
    ensures
        match r {
            Some(c) => branch_capture(line@) == Some(c@),
            None => branch_capture(line@) is None,
        },
{
    let n = line.unicode_len();
    let i1 = skip_ws_str(line, 0);
    if n - i1 < 3 {
        return None;
    }
    if line.get_char(i1) != 'b' || line.get_char(i1 + 1) != 'r'
        || !is_space_char(line.get_char(i1 + 2)) {
        return None;
    }
    let i2 = skip_ws_str(line, i1 + 3);
    let cap = line.substring_char(i2, n).to_owned();
    proof {
        assert(cap@ =~= line@.skip(skip_ws(line@, i1 + 3)));
    }
    Some(cap)
}

/// Executable successor extraction for one line.
pub fn line_succs(line: &str) -> (r: Vec<String>)
    ensures
        r.deep_view() == line_successors(line@),
{
    match match_branch(line) {
        None => {
            let r: Vec<String> = Vec::new();
            proof {
                assert(r.deep_view() =~~= line_successors(line@));
            }
            r
        },
        Some(cap) => {
            let segs = split_char_str(cap.as_str(), ',');
            let ghost sv = segs.deep_view();
            let mut out: Vec<String> = Vec::new();
            let mut i: usize = 0;
            while i < segs.len()
                invariant
                    i <= segs@.len(),
                    sv == segs.deep_view(),
                    sv == split_char(cap@, ','),
                    out.deep_view() == seg_targets(sv.take(i as int)),
                decreases segs@.len() - i,
            {
                proof {
                    reveal_strlit("label ");
                    assert("label "@ =~= label_marker());
                }
                if contains_sub_str(segs[i].as_str(), "label ") {
                    out.push(last_token_str(segs[i].as_str()));
                }
                proof {
                    assert(sv.take(i + 1) =~= sv.take(i as int).push(sv[i as int]));
                    lemma_seg_targets_push(sv.take(i as int), sv[i as int]);
                    assert(sv[i as int] == segs@[i as int]@);
                    assert(out.deep_view() =~~= seg_targets(sv.take(i + 1)));
                }
                i += 1;
            }
            proof {
                assert(sv.take(segs@.len() as int) =~= sv);
            }
            out
        },
    }
}

/// Executable test for the closing-brace line.
pub fn is_close_line(line: &str) -> (r: bool)
    ensures
        r == (line@ == close_line()),
{
    let n = line.unicode_len();
    if n == 1 {
        let r = line.get_char(0) == '}';
        proof {
            if r {
                assert(line@ =~= close_line());
            } else {
                assert(line@ != close_line()) by {
                    if line@ == close_line() {
                        assert(line@[0] == '}');
                    }
                }
            }
        }
        r
    } else {
        proof {
            assert(line@ != close_line()) by {
                if line@ == close_line() {
                    assert(line@.len() == 1);
                }
            }
        }
        false
    }
}

/// Executable search for a closing parenthesis strictly between `k` and
/// the final brace.
fn has_close_paren(line: &str, k: usize) -> (r: bool)
    requires
        k < line@.len(),
    ensures
        r == (exists|p: int| k < p <= line@.len() - 2 && #[trigger] line@[p] == ')'),
{
    let n = line.unicode_len();
    let mut p: usize = k + 1;
    while p < n - 1
        invariant
            k + 1 <= p,
            k < n,
            n == line@.len(),
            forall|q: int| k < q < p ==> line@[q] != ')',
        decreases n - p,
    {
        if line.get_char(p) == ')' {
            return true;
        }
        p += 1;
    }
    false
}

/// Executable viability test for an `@` position.
fn at_viable_exec(line: &str, i: usize) -> (r: bool)
    requires
        i < line@.len(),
    ensures
        r == at_viable(line@, i as int),
{
    if line.get_char(i) != '@' {
        return false;
    }
    let n = line.unicode_len();
    let rr = ident_run_end_str(line, i + 1);
    if rr == i + 1 {
        return false;
    }
    let k = skip_ws_str(line, rr);
    if k == n {
        return false;
    }
    if line.get_char(k) != '(' {
        return false;
    }
    has_close_paren(line, k)
}

/// Executable counterpart of [`find_at`].
fn find_at_str(line: &str, i: usize) -> (r: Option<usize>)
    requires
        i < line@.len(),
    ensures
        match r {
            Some(j) => find_at(line@, i as int) == Some(j as int) && j < line@.len(),
            None => find_at(line@, i as int) is None,
        },
    decreases i,
{
    if i < 7 {
        return None;
    }
    if at_viable_exec(line, i) {
        return Some(i);
    }
    find_at_str(line, i - 1)
}

/// Executable recognizer of a function-header line.
pub fn match_header(line: &str) -> (r: Option<String>)
    ensures
        match r {
            Some(name) => header_name(line@) == Some(name@),
            None => header_name(line@) is None,
        },
{
    let n = line.unicode_len();
    if n < 8 {
        return None;
    }
    if line.get_char(0) != 'd' || line.get_char(1) != 'e' || line.get_char(2) != 'f'
        || line.get_char(3) != 'i' || line.get_char(4) != 'n' || line.get_char(5) != 'e'
        || !is_space_char(line.get_char(6)) || line.get_char(n - 1) != '{' {
        proof {
            assert(line@.last() == line@[n - 1]);
        }
        return None;
    }
    proof {
        assert(line@.last() == line@[n - 1]);
    }
    match find_at_str(line, n - 2) {
        Some(j) => {
            let rr = ident_run_end_str(line, j + 1);
            let name = line.substring_char(j + 1, rr).to_owned();
            proof {
                assert(find_at(line@, line@.len() - 2) == Some(j as int));
            }
            Some(name)
        },
        None => None,
    }
}

/// The marker on a pass-dump line that begins a new stage snapshot.
pub open spec fn stage_marker() -> Seq<char> {
    seq![' ', 'D', 'u', 'm', 'p', ' ', 'A', 'f', 't', 'e', 'r', ' ']
}

/// Whether a pass-dump line starts a new stage snapshot: it carries the
/// stage-boundary marker somewhere in its text.
pub fn is_stage_boundary(line: &str) -> (r: bool)
    ensures
        r == contains_sub(line@, stage_marker()),
{
    let r = contains_sub_str(line, " Dump After ");
    proof {
        reveal_strlit(" Dump After ");
        assert(" Dump After "@ =~= stage_marker());
    }
    r
}

/// The view of an optional open block.
pub open spec fn opt_block_view(c: Option<BasicBlock>) -> Option<BlockModel> {
    match c {
        Some(b) => Some(b@),
        None => None,
    }
}

/// The views of a vector of blocks.
pub open spec fn blocks_view(bs: Seq<BasicBlock>) -> Seq<BlockModel> {
    bs.map_values(|b: BasicBlock| b@)
}

/// Consume the body lines of one function, starting at `*old(i)`, up to
/// and including the closing brace (or to the end of the input), and
/// return its basic blocks.
pub fn parse_function(lines: &Vec<String>, i: &mut usize) -> (blocks: Vec<BasicBlock>)
    requires
        *old(i) <= lines@.len(),
    ensures
        ({
            let ls = lines.deep_view();
            let e = body_end(ls, *old(i) as int);
            &&& *final(i) as int == (if e < ls.len() { e + 1 } else { e })
            &&& blocks_view(blocks@) == body_blocks(ls, *old(i) as int)
        }),
{
    let ghost ls = lines.deep_view();
    let ghost s0 = *i as int;
    let mut idx: usize = *i;
    let mut blocks: Vec<BasicBlock> = Vec::new();
    let mut current: Option<BasicBlock> = None;
    proof {
        assert(ls.subrange(s0, s0) =~= Seq::<Seq<char>>::empty());
        assert(SegState { blocks: blocks_view(blocks@), open_block: opt_block_view(current) }
            =~~= seg_init());
    }
    while idx < lines.len()
        invariant
            s0 == *old(i) as int,
            0 <= s0 <= idx as int <= ls.len(),
            ls == lines.deep_view(),
            body_end(ls, s0) == body_end(ls, idx as int),
            (SegState { blocks: blocks_view(blocks@), open_block: opt_block_view(current) })
                == seg_run(seg_init(), ls.subrange(s0, idx as int)),
        decreases ls.len() - idx,
    {
        let line: &String = &lines[idx];
        proof {
            assert(ls[idx as int] == lines@[idx as int]@);
        }
        let ghost st_before = seg_run(seg_init(), ls.subrange(s0, idx as int));
        proof {
            assert(ls.subrange(s0, idx + 1) =~= ls.subrange(s0, idx as int).push(ls[idx as int]));
            lemma_seg_run_push(seg_init(), ls.subrange(s0, idx as int), ls[idx as int]);
        }
        match match_label(line.as_str()) {
            Some(parts) => {
                let (name, preds) = parts;
                match current {
                    Some(b) => blocks.push(b),
                    None => {},
                }
                current = Some(BasicBlock {
                    name: name,
                    instructions: Vec::new(),
                    predecessors: preds,
                    successors: Vec::new(),
                });
                proof {
                    assert(SegState {
                        blocks: blocks_view(blocks@),
                        open_block: opt_block_view(current),
                    } =~~= seg_step(st_before, ls[idx as int]));
                }
            },
            None => {
                if is_close_line(line.as_str()) {
                    proof {
                        assert(body_end(ls, idx as int) == idx as int);
                    }
                    *i = idx + 1;
                    match current {
                        Some(b) => blocks.push(b),
                        None => {},
                    }
                    proof {
                        assert(blocks_view(blocks@) =~~= seg_finish(st_before));
                        assert(ls.subrange(s0, body_end(ls, s0)) =~= ls.subrange(s0, idx as int));
                    }
                    return blocks;
                }
                let mut blk = match current {
                    Some(b) => b,
                    None => BasicBlock {
                        name: String::new(),
                        instructions: Vec::new(),
                        predecessors: Vec::new(),
                        successors: Vec::new(),
                    },
                };
                if has_non_ws_str(line.as_str()) {
                    blk.instructions.push(line.clone());
                }
                let mut succs = line_succs(line.as_str());
                blk.successors.append(&mut succs);
                current = Some(blk);
                proof {
                    assert(SegState {
                        blocks: blocks_view(blocks@),
                        open_block: opt_block_view(current),
                    } =~~= seg_step(st_before, ls[idx as int]));
                }
            },
        }
        idx += 1;
    }
    *i = idx;
    match current {
        Some(b) => blocks.push(b),
        None => {},
    }
    proof {
        assert(body_end(ls, idx as int) == ls.len());
        let st = seg_run(seg_init(), ls.subrange(s0, idx as int));
        assert(blocks_view(blocks@) =~~= seg_finish(st));
        assert(ls.subrange(s0, body_end(ls, s0)) =~= ls.subrange(s0, idx as int));
    }
    blocks
}

/// Extract every function of the input, in source order.  Lines outside
/// any matched header-to-close span are skipped; zero matches yield an
/// empty result; a body missing its closing brace is finalized with
/// whatever was accumulated.
pub fn parse_ll_file(lines: &Vec<String>) -> (r: Vec<Function>)
    ensures
        functions_view(r@) == parse_program(lines.deep_view(), 0),
{
    let ghost ls = lines.deep_view();
    let mut funcs: Vec<Function> = Vec::new();
    let mut i: usize = 0;
    proof {
        assert(functions_view(funcs@) + parse_program(ls, 0) =~~= parse_program(ls, 0));
    }
    while i < lines.len()
        invariant
            i as int <= ls.len(),
            ls == lines.deep_view(),
            parse_program(ls, 0) == functions_view(funcs@) + parse_program(ls, i as int),
        decreases ls.len() - i,
    {
        let line: &String = &lines[i];
        proof {
            assert(ls[i as int] == lines@[i as int]@);
        }
        match match_header(line.as_str()) {
            Some(name) => {
                let define = line.clone();
                let mut j: usize = i + 1;
                let blocks = parse_function(lines, &mut j);
                let f = Function { name: name, define: define, blocks: blocks };
                let ghost fv = f@;
                let ghost old_funcs = funcs@;
                funcs.push(f);
                proof {
                    lemma_body_end_bounds(ls, i + 1);
                    let e = body_end(ls, i + 1);
                    let nxt: int = if e < ls.len() { e + 1 } else { e };
                    assert(fv =~~= FunctionModel {
                        name: header_name(ls[i as int])->0,
                        define: ls[i as int],
                        blocks: body_blocks(ls, i + 1),
                    });
                    assert(parse_program(ls, i as int) == seq![fv] + parse_program(ls, nxt));
                    assert(functions_view(funcs@) =~~= functions_view(old_funcs).push(fv));
                    assert(functions_view(old_funcs) + (seq![fv] + parse_program(ls, nxt))
                        =~~= functions_view(old_funcs).push(fv) + parse_program(ls, nxt));
                }
                i = j;
            },
            None => {
                proof {
                    assert(parse_program(ls, i as int) == parse_program(ls, i + 1));
                }
                i += 1;
            },
        }
    }
    proof {
        assert(parse_program(ls, ls.len() as int) =~~= Seq::<FunctionModel>::empty());
        assert(functions_view(funcs@) + Seq::<FunctionModel>::empty() =~~= functions_view(funcs@));
    }
    funcs
}

} // verus!
