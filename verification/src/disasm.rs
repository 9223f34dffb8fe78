use crate::chunk::Chunk;
use crate::chunk::ChunkView;
use crate::opcode::OpCode;
use crate::pool::Constants;
use crate::text::dec_string;
use crate::text::dec_text;
use crate::text::padded_string;
use crate::text::padded_text;
use vstd::prelude::*;

verus! {

/// The header row: seven `=`, the chunk's name set off by one space on
/// each side, eight `=`, a newline.
pub open spec fn header_text(name: Seq<char>) -> Seq<char> {
    seq!['=', '=', '=', '=', '=', '=', '=', ' ']
        + name
        + seq![' ', '=', '=', '=', '=', '=', '=', '=', '=']
        + seq!['\n']
}

/// The decoded instruction of one row: for `Return` the bare mnemonic;
/// for `Const` the mnemonic, the key, and the text of the value the pool
/// holds under that key.
pub open spec fn op_text(op: OpCode, entries: Map<usize, (u64, Seq<char>)>) -> Seq<char> {
    match op {
        OpCode::Return => seq!['R', 'e', 't', 'u', 'r', 'n'],
        OpCode::Const(key) => seq!['C', 'o', 'n', 's', 't', 'a', 'n', 't', ' ']
            + dec_text(key as nat)
            + seq![' ']
            + entries[key].1,
    }
}

/// The line column of row `i`: the owning source line, zero-padded to
/// four digits, when it differs from the previous row's line; a
/// placeholder bar when it repeats it.
pub open spec fn line_col(i: int, lines: Seq<usize>) -> Seq<char> {
    if i == 0 || lines[i] != lines[i - 1] {
        seq![' '] + padded_text(lines[i] as nat, 4) + seq![' ']
    } else {
        seq![' ', ' ', ' ', ' ', '|', ' ']
    }
}

/// Row `i` of the disassembly: the zero-padded instruction position, the
/// line column, the decoded instruction, a newline.
pub open spec fn row_text(
    i: int,
    ops: Seq<OpCode>,
    lines: Seq<usize>,
    entries: Map<usize, (u64, Seq<char>)>,
) -> Seq<char> {
    padded_text(i as nat, 5) + line_col(i, lines) + op_text(ops[i], entries) + seq!['\n']
}

/// The first `n` rows of the disassembly, in stream order.
pub open spec fn rows_text(
    n: int,
    ops: Seq<OpCode>,
    lines: Seq<usize>,
    entries: Map<usize, (u64, Seq<char>)>,
) -> Seq<char>
    decreases n,
{
    if n <= 0 {
        Seq::empty()
    } else {
        rows_text(n - 1, ops, lines, entries) + row_text(n - 1, ops, lines, entries)
    }
}

/// The whole disassembly of a chunk: one header row, then one row per
/// instruction. A function of the chunk and the pool entries alone, so
/// disassembling an unchanged chunk twice gives the same text.
pub open spec fn disasm_text(chunk: ChunkView, entries: Map<usize, (u64, Seq<char>)>) -> Seq<
    char,
> {
    header_text(chunk.name) + rows_text(chunk.ops.len() as int, chunk.ops, chunk.lines, entries)
}

/// Every `Const` key embedded in the stream has an entry in the pool.
pub open spec fn keys_resolvable(ops: Seq<OpCode>, pool: Constants) -> bool {
    forall|i: int|
        0 <= i < ops.len() ==> match #[trigger] ops[i] {
            OpCode::Return => true,
            OpCode::Const(key) => pool.entries().dom().contains(key),
        }
}

/// Law: the disassembly is deterministic. Two runs over the same chunk
/// and pool produce one and the same text, since each is pinned to
/// `disasm_text` of the chunk and the pool entries.
pub proof fn lemma_disasm_deterministic(
    chunk: ChunkView,
    entries: Map<usize, (u64, Seq<char>)>,
    r1: Seq<char>,
    r2: Seq<char>,
)
    requires
        r1 == disasm_text(chunk, entries),
        r2 == disasm_text(chunk, entries),
    ensures
        r1 == r2,
{
}

impl Chunk {
    /// Renders the chunk as deterministic, human-readable text: a header
    /// naming the chunk, then one row per instruction, resolving each
    /// `Const` key through the pool.
    #[verifier::rlimit(100)]
    pub fn disassemble(&self, pool: &Constants) -> (r: String)
        requires
            self.wf(),
            keys_resolvable(self@.ops, *pool),
        ensures
            r@ == disasm_text(self@, pool.entries()),
    {
        proof {
            self.lemma_lines_len();
            reveal_strlit("======= ");
            reveal_strlit(" ========");
            reveal_strlit("\n");
        }
        let mut out = String::from_str("======= ");
        out.append(self.name_str());
        out.append(" ========");
        out.append("\n");
        proof {
            assert(out@ =~= header_text(self@.name));
        }
        let n = self.len();
        let mut prev_line: usize = 0;
        let mut i: usize = 0;
        while i < n
            invariant
                self.wf(),
                keys_resolvable(self@.ops, *pool),
                n == self@.ops.len(),
                self@.lines.len() == n,
                i <= n,
                i > 0 ==> prev_line == self@.lines[i - 1],
                out@ == header_text(self@.name) + rows_text(
                    i as int,
                    self@.ops,
                    self@.lines,
                    pool.entries(),
                ),
            decreases n - i,
        {
            proof {
                reveal_strlit(" ");
                reveal_strlit("    | ");
                reveal_strlit("Return");
                reveal_strlit("Constant ");
                reveal_strlit("\n");
            }
            let line = self.search_line(i).unwrap();
            let idx_text = padded_string(i as u64, 5);
            out.append(idx_text.as_str());
            if i == 0 || line != prev_line {
                out.append(" ");
                let line_text = padded_string(line as u64, 4);
                out.append(line_text.as_str());
                out.append(" ");
            } else {
                out.append("    | ");
            }
            match self.op_at(i) {
                OpCode::Return => {
                    out.append("Return");
                },
                OpCode::Const(key) => {
                    out.append("Constant ");
                    let key_text = dec_string(key as u64);
                    out.append(key_text.as_str());
                    out.append(" ");
                    proof {
                        assert(self@.ops[i as int] == OpCode::Const(key));
                        assert(pool.entries().dom().contains(key));
                    }
                    let value = pool.get(key).unwrap();
                    out.append(value.text.as_str());
                },
            }
            out.append("\n");
            proof {
                assert(out@ =~= header_text(self@.name) + rows_text(
                    i + 1,
                    self@.ops,
                    self@.lines,
                    pool.entries(),
                ));
            }
            prev_line = line;
            i = i + 1;
        }
        out
    }
}

} // verus!
