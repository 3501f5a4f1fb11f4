//! Issuing launches, or recording them for a pass that replays them.

use std::collections::HashMap;

use vstd::prelude::*;

verus! {

broadcast use vstd::std_specs::hash::group_hash_axioms;

/// Where an operand is, and its extents.
#[derive(Clone, Copy, PartialEq, Eq, Structural, Debug)]
pub struct Descriptor {
    pub ptr: u64,
    pub rows: i64,
    pub cols: i64,
}

#[derive(Clone, Copy, PartialEq, Eq, Structural, Debug)]
pub struct Grid {
    pub x: u32,
    pub y: u32,
    pub z: u32,
}

/// A launch: the kernel's handle, its grid, the shared memory and threads of a
/// block, and its operands.
pub struct Launch {
    pub func: u64,
    pub grid: Grid,
    pub shared: u32,
    pub threads: u32,
    pub operands: Vec<Descriptor>,
}

/// A launch, as a value.
#[verifier::ext_equal]
pub ghost struct Issued {
    pub func: u64,
    pub grid: Grid,
    pub shared: u32,
    pub threads: u32,
    pub operands: Seq<Descriptor>,
}

impl View for Launch {
    type V = Issued;

    open spec fn view(&self) -> Issued {
        Issued {
            func: self.func,
            grid: self.grid,
            shared: self.shared,
            threads: self.threads,
            operands: self.operands@,
        }
    }
}

/// A line of a pass's report.
pub struct PassOp {
    pub name: String,
    pub func: u64,
    pub blocks: u32,
    pub threads: u32,
    pub shared: u32,
}

/// What a launch is: everything the caller names of it.
pub struct Call<'a> {
    pub name: &'a str,
    pub func: u64,
    pub grid: Grid,
    pub shared: u32,
    pub threads: u32,
    pub operands: &'a [Descriptor],
}

impl<'a> Call<'a> {
    pub open spec fn issued(self) -> Issued {
        Issued {
            func: self.func,
            grid: self.grid,
            shared: self.shared,
            threads: self.threads,
            operands: self.operands@,
        }
    }

    /// Blocks of the grid.
    pub open spec fn blocks(self) -> int {
        self.grid.x * self.grid.y * self.grid.z
    }
}

/// A backend's recording. A launch recorded earlier than this pass keeps its
/// place, to be written over.
pub struct Recorder {
    pub recording: bool,
    pub reporting: bool,
    pub pending: Vec<Launch>,
    pub recorded: usize,
    pub report: Vec<PassOp>,
}

pub open spec fn launches(list: Seq<Launch>) -> Seq<Issued> {
    Seq::new(list.len(), |i: int| list[i]@)
}

impl Recorder {
    pub open spec fn wf(self) -> bool {
        self.recorded <= self.pending@.len()
    }

    /// This pass's launches so far.
    pub open spec fn pass(self) -> Seq<Issued> {
        launches(self.pending@.take(self.recorded as int))
    }

    pub fn new() -> (r: Recorder)
        ensures
            r.wf(),
            !r.recording,
            !r.reporting,
            r.pass() == Seq::<Issued>::empty(),
            r.report@.len() == 0,
    {
        let r = Recorder {
            recording: false,
            reporting: false,
            pending: Vec::new(),
            recorded: 0,
            report: Vec::new(),
        };
        assert(r.pass() =~= Seq::empty());
        r
    }

    /// Takes a launch: one more of the pass where it is recorded, or one to
    /// issue now, which is then handed back.
    pub fn launch(&mut self, call: Call) -> (now: Option<Launch>)
        requires
            old(self).wf(),
            old(self).recording && old(self).reporting ==> call.blocks() <= u32::MAX,
        ensures
            final(self).wf(),
            final(self).recording == old(self).recording,
            final(self).reporting == old(self).reporting,
            old(self).recording ==> {
                &&& now is None
                &&& final(self).pass() == old(self).pass().push(call.issued())
                &&& forall|i: int|
                    old(self).recorded < i < old(self).pending@.len()
                        ==> #[trigger] final(self).pending@[i] == old(self).pending@[i]
                &&& final(self).pending@.len() >= old(self).pending@.len()
            },
            !old(self).recording ==> {
                &&& now is Some
                &&& now->Some_0@ == call.issued()
                &&& final(self).pending@ == old(self).pending@
                &&& final(self).recorded == old(self).recorded
            },
            !(old(self).recording && old(self).reporting)
                ==> final(self).report@ == old(self).report@,
            old(self).recording && old(self).reporting ==> {
                &&& final(self).report@.len() == old(self).report@.len() + 1
                &&& final(self).report@.drop_last() == old(self).report@
                &&& final(self).report@.last().name@ == call.name@
                &&& final(self).report@.last().func == call.func
                &&& final(self).report@.last().blocks == call.blocks()
                &&& final(self).report@.last().threads == call.threads
                &&& final(self).report@.last().shared == call.shared
            },
    {
        let launch = Launch {
            func: call.func,
            grid: call.grid,
            shared: call.shared,
            threads: call.threads,
            operands: copied(call.operands),
        };
        if !self.recording {
            return Some(launch);
        }
        let at: usize = self.recorded;
        let room: usize = self.pending.len();
        let ghost before = self.pending@;
        let ghost issued = launch@;
        if at == self.pending.len() {
            self.pending.push(launch);
            let grown: usize = self.pending.len();
            assert(grown == at + 1);
        } else {
            self.pending.set(at, launch);
        }
        self.recorded = at + 1;
        assert(self.pending@[at as int]@ == issued);
        assert(forall|i: int| 0 <= i < at ==> self.pending@[i] == before[i]);
        assert(self.pass() =~= old(self).pass().push(call.issued()));
        if self.reporting {
            let ghost lines = self.report@;
            let blocks: u32 = blocks_of(call.grid);
            self.report.push(
                PassOp {
                    name: call.name.to_owned(),
                    func: call.func,
                    blocks,
                    threads: call.threads,
                    shared: call.shared,
                },
            );
            assert(self.report@.drop_last() =~= lines);
        }
        None
    }
}

fn copied(list: &[Descriptor]) -> (out: Vec<Descriptor>)
    ensures
        out@ == list@,
{
    let mut out: Vec<Descriptor> = Vec::new();
    let mut i: usize = 0;
    while i < list.len()
        invariant
            i <= list@.len(),
            out@ == list@.take(i as int),
        decreases list@.len() - i,
    {
        out.push(list[i]);
        i = i + 1;
        assert(out@ =~= list@.take(i as int));
    }
    assert(list@.take(i as int) =~= list@);
    out
}

fn blocks_of(grid: Grid) -> (n: u32)
    requires
        grid.x * grid.y * grid.z <= u32::MAX,
    ensures
        n == grid.x * grid.y * grid.z,
{
    if grid.z == 0 {
        assert(grid.x * grid.y * grid.z == 0) by (nonlinear_arith)
            requires
                grid.z == 0,
        ;
        return 0;
    }
    assert(grid.x * grid.y <= grid.x * grid.y * grid.z) by (nonlinear_arith)
        requires
            grid.z >= 1,
    ;
    grid.x * grid.y * grid.z
}

/// What is known of the kernels compiled so far: the dynamic shared memory each
/// needs, and the threads of its block.
pub struct Kernels {
    pub shared: HashMap<u64, u32>,
    pub threads: HashMap<u64, u32>,
}

impl Kernels {
    pub fn new() -> (k: Kernels)
        ensures
            k.shared@ == Map::<u64, u32>::empty(),
            k.threads@ == Map::<u64, u32>::empty(),
    {
        Kernels { shared: HashMap::new(), threads: HashMap::new() }
    }

    /// A kernel's dynamic shared memory, zero unless it was noted to need some.
    pub fn shared_of(&self, func: u64) -> (bytes: u32)
        ensures
            bytes == (if self.shared@.dom().contains(func) {
                self.shared@[func]
            } else {
                0
            }),
    {
        match self.shared.get(&func) {
            Some(bytes) => *bytes,
            None => 0,
        }
    }

    /// Notes what a kernel just compiled needs, and says whether its ceiling
    /// has to be raised: `limit` is what a kernel has without asking.
    pub fn note_shared(&mut self, func: u64, bytes: u32, limit: u32) -> (raise: bool)
        ensures
            raise == (bytes > limit),
            final(self).shared@ == old(self).shared@.insert(func, bytes),
            final(self).threads@ == old(self).threads@,
    {
        self.shared.insert(func, bytes);
        bytes > limit
    }

    /// The threads of a kernel's block, where the driver was asked before.
    pub fn threads_of(&self, func: u64) -> (threads: Option<u32>)
        ensures
            threads is Some == self.threads@.dom().contains(func),
            threads is Some ==> threads->Some_0 == self.threads@[func],
    {
        match self.threads.get(&func) {
            Some(threads) => Some(*threads),
            None => None,
        }
    }

    /// Notes what the driver says of a kernel's block: no more than a block can
    /// have.
    pub fn note_threads(&mut self, func: u64, asked: u32, most: u32) -> (threads: u32)
        ensures
            threads == (if asked < most {
                asked
            } else {
                most
            }),
            final(self).threads@ == old(self).threads@.insert(func, threads),
            final(self).shared@ == old(self).shared@,
    {
        let threads: u32 = if asked < most {
            asked
        } else {
            most
        };
        self.threads.insert(func, threads);
        threads
    }
}

} // verus!
