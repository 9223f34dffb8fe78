use crate::opcode::OpCode;
use crate::pool::Constants;
use crate::pool::PoolError;
use crate::pool::extends;
use crate::pool::issued;
use crate::value::Value;
use vstd::prelude::*;

verus! {

/// One run of the line index: `len` consecutive instructions, the first
/// at position `start`, all originating from source line `line`.
#[derive(Debug, Clone, Copy, PartialEq, Eq, Structural)]
pub struct Run {
    pub start: usize,
    pub len: usize,
    pub line: usize,
}

/// What a chunk holds, seen abstractly: its display name, its
/// instructions in append order, and for every instruction the source
/// line it was appended with.
pub struct ChunkView {
    pub name: Seq<char>,
    pub ops: Seq<OpCode>,
    pub lines: Seq<usize>,
}

/// The runs are non-empty, contiguous, and cover positions
/// `[0, lines.len())` exactly once, each run owning the positions whose
/// source line it records.
pub open spec fn runs_cover(runs: Seq<Run>, lines: Seq<usize>) -> bool {
    &&& forall|j: int| 0 <= j < runs.len() ==> (#[trigger] runs[j]).len >= 1
    &&& forall|j: int| 0 <= j < runs.len() ==> (#[trigger] runs[j]).start + runs[j].len <= lines.len()
    &&& (runs.len() == 0 ==> lines.len() == 0)
    &&& (runs.len() > 0 ==> runs[0].start == 0 && runs.last().start + runs.last().len == lines.len())
    &&& forall|j: int| 1 <= j < runs.len() ==> (#[trigger] runs[j]).start == runs[j - 1].start + runs[j - 1].len
    &&& forall|j: int, i: int|
        0 <= j < runs.len() && (#[trigger] runs[j]).start <= i < runs[j].start + runs[j].len
            ==> #[trigger] lines[i] == runs[j].line
}

/// A named, ordered instruction stream together with its line index: the
/// unit of compiled output. Built by appends; read-only afterwards.
pub struct Chunk {
    name: String,
    code: Vec<OpCode>,
    lines: Vec<Run>,
    line_view: Ghost<Seq<usize>>,
}

impl View for Chunk {
    type V = ChunkView;

    closed spec fn view(&self) -> ChunkView {
        ChunkView { name: self.name@, ops: self.code@, lines: self.line_view@ }
    }
}

/// In two runs of a covering index, the earlier one ends before the
/// later one starts.
proof fn lemma_run_order(runs: Seq<Run>, lines: Seq<usize>, j1: int, j2: int)
    requires
        runs_cover(runs, lines),
        0 <= j1 < j2 < runs.len(),
    ensures
        runs[j1].start + runs[j1].len <= runs[j2].start,
    decreases j2 - j1,
{
    if j1 + 1 < j2 {
        lemma_run_order(runs, lines, j1, j2 - 1);
    }
}

/// Every position of a covering index lies in some run at or after `j`,
/// given that run `j` starts at or before the position.
proof fn lemma_run_exists(runs: Seq<Run>, lines: Seq<usize>, idx: int, j: int)
    requires
        runs_cover(runs, lines),
        0 <= idx < lines.len(),
        0 <= j < runs.len(),
        runs[j].start <= idx,
    ensures
        exists|k: int|
            j <= k < runs.len() && (#[trigger] runs[k]).start <= idx < runs[k].start + runs[k].len,
    decreases runs.len() - j,
{
    if idx < runs[j].start + runs[j].len {
        assert(runs[j].start <= idx < runs[j].start + runs[j].len);
    } else {
        assert(j + 1 < runs.len()) by {
            if j == runs.len() - 1 {
                assert(runs.last() == runs[j]);
            }
        }
        lemma_run_exists(runs, lines, idx, j + 1);
    }
}

/// Law: appends never disturb recorded lines. The line supplied with an
/// append is recorded at the new last position, and every earlier
/// position keeps the line it was appended with; `search_line` returns
/// exactly the recorded line, so a lookup at any valid position yields
/// the line supplied when that instruction was appended.
pub proof fn lemma_append_keeps_lines(lines: Seq<usize>, line: usize, i: int)
    requires
        0 <= i < lines.len(),
    ensures
        lines.push(line)[i] == lines[i],
        lines.push(line)[lines.len() as int] == line,
{
}

/// Positions at or after run `pivot` lie past `idx` when `idx` falls
/// short of that run's start.
proof fn lemma_all_later_past(runs: Seq<Run>, lines: Seq<usize>, pivot: int, idx: int)
    requires
        runs_cover(runs, lines),
        0 <= pivot < runs.len(),
        idx < runs[pivot].start,
    ensures
        forall|j: int| pivot <= j < runs.len() ==> idx < (#[trigger] runs[j]).start,
{
    assert forall|j: int| pivot <= j < runs.len() implies idx < (#[trigger] runs[j]).start by {
        if pivot < j {
            lemma_run_order(runs, lines, pivot, j);
        }
    }
}

/// Runs up to and including `pivot` end at or before `idx` when that
/// run ends at or before it.
proof fn lemma_all_earlier_ended(runs: Seq<Run>, lines: Seq<usize>, pivot: int, idx: int)
    requires
        runs_cover(runs, lines),
        0 <= pivot < runs.len(),
        runs[pivot].start + runs[pivot].len <= idx,
    ensures
        forall|j: int| 0 <= j <= pivot ==> (#[trigger] runs[j]).start + runs[j].len <= idx,
{
    assert forall|j: int| 0 <= j <= pivot implies (#[trigger] runs[j]).start + runs[j].len
        <= idx by {
        if j < pivot {
            lemma_run_order(runs, lines, j, pivot);
        }
    }
}

impl Chunk {
    /// The chunk's line index is well formed: it records one source line
    /// for each instruction, in runs that cover the stream exactly.
    pub closed spec fn wf(&self) -> bool {
        &&& self.line_view@.len() == self.code@.len()
        &&& runs_cover(self.lines@, self.line_view@)
    }

    /// Returns an empty chunk tagged with `name` for display.
    pub fn new(name: &'static str) -> (c: Chunk)
        ensures
            c.wf(),
            c@.name == name@,
            c@.ops == Seq::<OpCode>::empty(),
            c@.lines == Seq::<usize>::empty(),
    {
        Chunk {
            name: String::from_str(name),
            code: Vec::new(),
            lines: Vec::new(),
            line_view: Ghost(Seq::empty()),
        }
    }

    /// Appends `op`, attributed to source line `line`: extends the open
    /// run when the line is unchanged, else opens a new run.
    pub fn add_chunk(&mut self, op: OpCode, line: usize)
        requires
            old(self).wf(),
        ensures
            final(self).wf(),
            final(self)@.name == old(self)@.name,
            final(self)@.ops == old(self)@.ops.push(op),
            final(self)@.lines == old(self)@.lines.push(line),
    {
        self.code.push(op);
        proof {
            self.line_view@ = self.line_view@.push(line);
        }
        let ghost prev_runs = old(self).lines@;
        let ghost prev_lines = old(self).line_view@;
        let n = self.lines.len();
        if n > 0 && self.lines[n - 1].line == line {
            let mut run = self.lines[n - 1];
            let clen = self.code.len();
            proof {
                assert(prev_runs.last() == run);
                assert(run.start + run.len == prev_lines.len());
                assert(run.len < clen);
            }
            run.len = run.len + 1;
            self.lines.set(n - 1, run);
            proof {
                let runs = self.lines@;
                assert(runs.last() == run);
                assert forall|j: int, i: int|
                    0 <= j < runs.len() && (#[trigger] runs[j]).start <= i < runs[j].start
                        + runs[j].len implies #[trigger] self.line_view@[i] == runs[j].line by {
                    if j == runs.len() - 1 {
                        assert(prev_runs[j].start + prev_runs[j].len == prev_lines.len());
                        if i < prev_lines.len() {
                            assert(prev_lines[i] == prev_runs[j].line);
                        }
                    } else {
                        assert(prev_runs[j] == runs[j]);
                        assert(prev_runs[j].start + prev_runs[j].len <= prev_lines.len());
                        assert(prev_lines[i] == prev_runs[j].line);
                    }
                }
            }
        } else {
            let start = self.code.len() - 1;
            self.lines.push(Run { start, len: 1, line });
            proof {
                let runs = self.lines@;
                assert(runs.last() == Run { start, len: 1, line });
                if prev_runs.len() > 0 {
                    assert(prev_runs.last().start + prev_runs.last().len == prev_lines.len());
                }
                assert forall|j: int, i: int|
                    0 <= j < runs.len() && (#[trigger] runs[j]).start <= i < runs[j].start
                        + runs[j].len implies #[trigger] self.line_view@[i] == runs[j].line by {
                    if j < runs.len() - 1 {
                        assert(prev_runs[j] == runs[j]);
                        assert(prev_runs[j].start + prev_runs[j].len <= prev_lines.len());
                        assert(prev_lines[i] == prev_runs[j].line);
                    } else {
                        assert(i == prev_lines.len());
                    }
                }
            }
        }
    }

    /// Appends a `Return` instruction attributed to `line`.
    pub fn add_return(&mut self, line: usize)
        requires
            old(self).wf(),
        ensures
            final(self).wf(),
            final(self)@.name == old(self)@.name,
            final(self)@.ops == old(self)@.ops.push(OpCode::Return),
            final(self)@.lines == old(self)@.lines.push(line),
    {
        self.add_chunk(OpCode::Return, line);
    }

    /// Interns `value` in `pool`, then appends a `Const` instruction
    /// carrying the key the pool issued, attributed to `line`. Fails with
    /// `PoolExhausted`, changing nothing, when the pool cannot allocate.
    pub fn add_constant(&mut self, pool: &mut Constants, value: Value, line: usize) -> (r: Result<
        usize,
        PoolError,
    >)
        requires
            old(self).wf(),
            old(pool).is_init(),
        ensures
            final(self).wf(),
            final(pool).is_init(),
            match r {
                Ok(key) => {
                    &&& issued(*old(pool), *final(pool), key, (value.bits, value.text@))
                    &&& final(self)@.name == old(self)@.name
                    &&& final(self)@.ops == old(self)@.ops.push(OpCode::Const(key))
                    &&& final(self)@.lines == old(self)@.lines.push(line)
                },
                Err(e) => {
                    &&& e == PoolError::PoolExhausted
                    &&& final(self)@ == old(self)@
                    &&& final(pool).entries() == old(pool).entries()
                },
            },
            extends(*old(pool), *final(pool)),
    {
        match pool.set(value) {
            Some(key) => {
                self.add_chunk(OpCode::Const(key), line);
                Ok(key)
            },
            None => Err(PoolError::PoolExhausted),
        }
    }

    /// A well-formed chunk records exactly one source line per
    /// instruction.
    pub proof fn lemma_lines_len(&self)
        requires
            self.wf(),
        ensures
            self@.lines.len() == self@.ops.len(),
    {
    }

    /// The chunk's display name.
    pub fn name_str(&self) -> (r: &str)
        ensures
            r@ == self@.name,
    {
        self.name.as_str()
    }

    /// The number of instructions appended so far.
    pub fn len(&self) -> (n: usize)
        ensures
            n == self@.ops.len(),
    {
        self.code.len()
    }

    /// The instruction at position `idx`.
    pub fn op_at(&self, idx: usize) -> (op: OpCode)
        requires
            idx < self@.ops.len(),
        ensures
            op == self@.ops[idx as int],
    {
        self.code[idx]
    }

    /// The source line owning instruction `idx`, found by binary search
    /// over the runs of the line index; nothing when `idx` is past the
    /// end of the stream.
    pub fn search_line(&self, idx: usize) -> (r: Option<usize>)
        requires
            self.wf(),
        ensures
            r == if idx < self@.lines.len() {
                Some(self@.lines[idx as int])
            } else {
                None::<usize>
            },
    {
        let mut first: usize = 0;
        let mut last: usize = self.lines.len();
        while first < last
            invariant
                self.wf(),
                first <= last <= self.lines@.len(),
                forall|j: int|
                    0 <= j < first ==> (#[trigger] self.lines@[j]).start + self.lines@[j].len
                        <= idx,
                forall|j: int| last <= j < self.lines@.len() ==> idx < (#[trigger] self.lines@[j]).start,
            decreases last - first,
        {
            let pivot = first + (last - first) / 2;
            let run = self.lines[pivot];
            if run.start <= idx && idx - run.start < run.len {
                proof {
                    assert(self.line_view@[idx as int] == self.lines@[pivot as int].line);
                }
                return Some(run.line);
            } else if idx < run.start {
                proof {
                    lemma_all_later_past(self.lines@, self.line_view@, pivot as int, idx as int);
                }
                last = pivot;
            } else {
                proof {
                    lemma_all_earlier_ended(self.lines@, self.line_view@, pivot as int, idx as int);
                }
                first = pivot + 1;
            }
        }
        proof {
            if idx < self.line_view@.len() {
                let runs = self.lines@;
                assert(runs.len() > 0);
                lemma_run_exists(runs, self.line_view@, idx as int, 0);
                let k = choose|k: int|
                    0 <= k < runs.len() && (#[trigger] runs[k]).start <= idx < runs[k].start
                        + runs[k].len;
                if k < first as int {
                    assert(runs[k].start + runs[k].len <= idx);
                } else {
                    assert(idx < runs[k].start);
                }
                assert(false);
            }
        }
        None
    }
}

} // verus!
