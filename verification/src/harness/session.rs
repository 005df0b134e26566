//! Going through a script step by step.

use vstd::prelude::*;

use crate::arena_compact::act_zipper::ACTZipper;
use crate::arena_compact::tree::Storage;
use crate::harness::dec::Dec;
use crate::harness::op::{decode_op, op_at, Op, MAX_STEPS};
use crate::harness::reply::{outcome_text, show_outcome, Facts, Reply};
use crate::harness::trace::{closing_lines, closing_text, trace_line, trace_text};
use crate::trie_walk::kids_of;
use crate::utils::bits::rank;

verus! {

/// A script that is being gone through: what is left of it, how many steps were taken, and what was
/// told of them.
///
/// Whoever runs it asks for the next operation, carries it out as planned, and records the outcome.
pub struct Session<'a> {
    dec: Dec<'a>,
    step: usize,
    out: String,
}

impl<'a> Session<'a> {
    /// The bytes of the script.
    pub closed spec fn script(&self) -> Seq<u8> {
        self.dec.bytes@
    }

    /// Where the next operation begins.
    pub closed spec fn pos(&self) -> int {
        self.dec.pos as int
    }

    /// How many steps were taken.
    pub closed spec fn steps(&self) -> nat {
        self.step as nat
    }

    /// What was told of them.
    pub closed spec fn told(&self) -> Seq<char> {
        self.out@
    }

    /// Begins with the operations behind what has been read of the script.
    pub fn new(dec: Dec<'a>) -> (r: Self)
        ensures
            r.script() == dec.bytes@,
            r.pos() == dec.pos,
            r.steps() == 0,
            r.told() == Seq::<char>::empty(),
    {
        let out = String::new();
        assert(out@ =~= Seq::<char>::empty());
        Session { dec, step: 0, out }
    }

    /// The next operation, unless there have been enough steps or there is no whole operation left.
    pub fn next_op(&mut self) -> (r: Option<Op>)
        ensures
            final(self).script() == old(self).script(),
            final(self).steps() == old(self).steps(),
            final(self).told() == old(self).told(),
            match r {
                Some(op) => {
                    &&& old(self).steps() < MAX_STEPS
                    &&& op_at(old(self).script(), old(self).pos()) == Some(
                        (op@, final(self).pos()),
                    )
                },
                None => old(self).steps() >= MAX_STEPS || op_at(
                    old(self).script(),
                    old(self).pos(),
                ) is None,
            },
    {
        if self.step >= MAX_STEPS {
            return None;
        }
        decode_op(&mut self.dec)
    }

    /// Tells of a step: the operation, its outcome, and the two zippers after it.
    pub fn record(
        &mut self,
        op: &Op,
        before: Facts,
        after: usize,
        reply: &Option<Reply>,
        w: &str,
        r: &str,
    )
        requires
            old(self).steps() < MAX_STEPS,
        ensures
            final(self).script() == old(self).script(),
            final(self).pos() == old(self).pos(),
            final(self).steps() == old(self).steps() + 1,
            final(self).told() == old(self).told() + trace_text(
                old(self).steps(),
                op.code,
                outcome_text(op@, before, after as nat, *reply),
                w@,
                r@,
            ),
    {
        let outcome = show_outcome(op, before, after, reply);
        let line = trace_line(self.step, op.code, outcome.as_str(), w, r);
        self.out.push_str(line.as_str());
        self.step = self.step + 1;
    }

    /// All that was told, with the two maps and the two roots at the end.
    pub fn finish(self, map0: &str, map1: &str, root0: &[u8], root1: &[u8]) -> (r: String)
        ensures
            r@ == self.told() + closing_text(map0@, map1@, root0@, root1@),
    {
        let mut out = self.out;
        out.push_str(closing_lines(map0, map1, root0, root1).as_str());
        out
    }
}

/// What is told of a script without a whole header.
pub fn empty_trace() -> (r: &'static str)
    ensures
        r@ == "EMPTY\n"@,
{
    "EMPTY\n"
}

/// What has to be known to decide on an operation, where the zipper that reads is over a compact
/// trie. Such a zipper cannot be a source for the other.
pub fn facts_of<'t, S: Storage>(
    z: &ACTZipper<'t, S, u64>,
    write_at_root: bool,
    write_children: usize,
    write_val: bool,
    pruneable: bool,
) -> (r: Facts)
    requires
        z.wf(),
    ensures
        r == (Facts {
            write_at_root,
            read_at_root: z.rel().len() == 0,
            write_children,
            read_children: rank(kids_of(z.here()), 256) as usize,
            write_val,
            pruneable,
            source: false,
        }),
{
    Facts {
        write_at_root,
        read_at_root: z.at_root(),
        write_children,
        read_children: z.child_count(),
        write_val,
        pruneable,
        source: false,
    }
}

} // verus!
