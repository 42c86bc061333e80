//! Graph model: `Function` and `BasicBlock` records, with their
//! mathematical views.

use vstd::prelude::*;

verus! {

/// Mathematical view of a basic block: every field is modelled as a
/// sequence of characters or a sequence of such sequences.
#[verifier::ext_equal]
pub struct BlockModel {
    /// Block label; the empty sequence denotes the implicit entry block.
    pub name: Seq<char>,
    /// Raw instruction lines, in insertion order.
    pub instructions: Seq<Seq<char>>,
    /// Predecessor names exactly as declared by the label annotation.
    pub predecessors: Seq<Seq<char>>,
    /// Successor names derived from branch instructions, duplicates kept.
    pub successors: Seq<Seq<char>>,
}

/// Mathematical view of a function record.
#[verifier::ext_equal]
pub struct FunctionModel {
    /// Identifier captured from the header line.
    pub name: Seq<char>,
    /// The raw header line, kept verbatim.
    pub define: Seq<char>,
    /// Basic blocks in source order.
    pub blocks: Seq<BlockModel>,
}

/// A maximal straight-line region of one function body.
pub struct BasicBlock {
    /// Block label; the empty string denotes the implicit entry block.
    pub name: String,
    /// Raw instruction lines, in insertion order.
    pub instructions: Vec<String>,
    /// Predecessor names exactly as declared by the label annotation.
    pub predecessors: Vec<String>,
    /// Successor names derived from branch instructions, duplicates kept.
    pub successors: Vec<String>,
}

impl View for BasicBlock {
    type V = BlockModel;

    open spec fn view(&self) -> BlockModel {
        BlockModel {
            name: self.name@,
            instructions: self.instructions.deep_view(),
            predecessors: self.predecessors.deep_view(),
            successors: self.successors.deep_view(),
        }
    }
}

/// One extracted function: its name, its raw header line, and its blocks.
pub struct Function {
    /// Identifier captured from the header line.
    pub name: String,
    /// The raw header line, kept for diagnostics.
    pub define: String,
    /// Basic blocks in source order.
    pub blocks: Vec<BasicBlock>,
}

impl View for Function {
    type V = FunctionModel;

    open spec fn view(&self) -> FunctionModel {
        FunctionModel {
            name: self.name@,
            define: self.define@,
            blocks: self.blocks@.map_values(|b: BasicBlock| b@),
        }
    }
}

/// The views of a sequence of function records.
pub open spec fn functions_view(fs: Seq<Function>) -> Seq<FunctionModel> {
    fs.map_values(|f: Function| f@)
}

} // verus!
