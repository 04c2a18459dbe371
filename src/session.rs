//! The session: which process is attached, with what capability, and what
//! each line of input asks the program to do next.

use vstd::prelude::*;
use vstd::string::StringSliceAdditionalSpecFns;
use crate::command::{command_of, parse_command, Command, CommandView, ParseError};
use crate::directory::{find_index, holds_pid, is_first_match, ProcessRecord};

verus! {

/// The attached process and its capability; identifier 0 and no capability
/// while nothing is attached.
pub struct Session<H> {
    pid: u32,
    capability: Option<H>,
}

impl<H> View for Session<H> {
    type V = (u32, Option<H>);

    closed spec fn view(&self) -> (u32, Option<H>) {
        (self.pid, self.capability)
    }
}

/// What an attach did, with the capabilities that the program must now release.
pub enum AttachOutcome<H> {
    /// The session now holds the process; `unused` are the other records of the
    /// directory, and `superseded` the capability the session held before.
    Attached { unused: Vec<ProcessRecord<H>>, superseded: Option<H> },
    /// No record held the identifier, or the identifier was 0; the session is
    /// as it was.
    NotFound { unused: Vec<ProcessRecord<H>> },
}

impl<H> Session<H> {
    /// Identifier 0 means that nothing is attached: a session holds a
    /// capability exactly when its identifier is not 0.
    pub open spec fn wf(&self) -> bool {
        (self@.0 == 0) == (self@.1 is None)
    }

    /// A session attached to nothing.
    pub fn new() -> (s: Self)
        ensures
            s@ == (0u32, None::<H>),
            s.wf(),
    {
        Session { pid: 0, capability: None }
    }

    /// The attached process's identifier, 0 when none.
    pub fn pid(&self) -> (r: u32)
        ensures
            r == self@.0,
    {
        self.pid
    }

    /// The attached process's capability.
    pub fn capability(&self) -> (r: Option<&H>)
        ensures
            match r {
                Some(h) => self@.1 == Some(*h),
                None => self@.1 is None,
            },
    {
        match &self.capability {
            Some(h) => Some(h),
            None => None,
        }
    }

    /// Attaches to `pid` through a freshly built directory. Where the directory
    /// holds the identifier, the session takes the first such record's
    /// capability; where it does not, or where `pid` is 0, which stands for no
    /// process, the session stays as it was.
    pub fn attach(&mut self, directory: Vec<ProcessRecord<H>>, pid: u32) -> (r: AttachOutcome<H>)
        requires
            old(self).wf(),
        ensures
            final(self).wf(),
            match r {
                AttachOutcome::Attached { unused, superseded } => pid != 0 && exists|k: int|
                    is_first_match(directory@, pid, k) && final(self)@ == (pid, Some(directory@[k].capability))
                        && unused@ == directory@.remove(k) && superseded == old(self)@.1,
                AttachOutcome::NotFound { unused } => (pid == 0 || !holds_pid(directory@, pid)) && final(self)@
                    == old(self)@ && unused@ == directory@,
            },
    {
        if pid == 0 {
            return AttachOutcome::NotFound { unused: directory };
        }
        let mut directory = directory;
        match find_index(&directory, pid) {
            Some(k) => {
                let ghost all = directory@;
                let rec = directory.remove(k);
                let superseded = self.capability.take();
                self.capability = Some(rec.capability);
                self.pid = pid;
                assert(is_first_match(all, pid, k as int));
                AttachOutcome::Attached { unused: directory, superseded }
            },
            None => AttachOutcome::NotFound { unused: directory },
        }
    }
}

/// Whether no two records of a directory share an identifier, as in one
/// snapshot of the running processes.
pub open spec fn unique_pids<H>(list: Seq<ProcessRecord<H>>) -> bool {
    forall|i: int, j: int|
        0 <= i < list.len() && 0 <= j < list.len() && i != j ==> (#[trigger] list[i]).pid != (#[trigger] list[j]).pid
}

/// In a directory whose identifiers are unique, the record that holds `pid`
/// is the one that an attach to `pid` takes: whatever the session held
/// before, it then holds `pid` with that record's capability.
pub proof fn lemma_attach_takes_the_record<H>(directory: Seq<ProcessRecord<H>>, k: int, pid: u32)
    requires
        unique_pids(directory),
        0 <= k < directory.len(),
        directory[k].pid == pid,
    ensures
        holds_pid(directory, pid),
        forall|j: int| is_first_match(directory, pid, j) <==> j == k,
{
    assert forall|j: int| is_first_match(directory, pid, j) <==> j == k by {
        if j == k {
            assert forall|i: int| 0 <= i < k implies (#[trigger] directory[i]).pid != pid by {
                assert(directory[i].pid != directory[k].pid);
            }
        }
        if is_first_match(directory, pid, j) && j != k {
            assert(directory[j].pid != directory[k].pid);
        }
    }
}

/// What the program is to do after one line of input.
pub enum Step {
    /// Enumerate the processes and attach to this identifier.
    Attach(u32),
    /// Read `length` bytes at `address` of process `pid`.
    Read { pid: u32, address: u64, length: usize },
    /// Write `bytes` at `address` through the session's capability.
    Write { address: u64, bytes: Vec<u8> },
    /// The line named no command: ask for the next one.
    Prompt,
    /// The line named a command but could not be decoded.
    Rejected(ParseError),
}

/// Decides what one line of input asks for, in the given session. Reads go to
/// the attached process's identifier; nothing here changes the session.
pub fn get_cmd<H>(session: &Session<H>, line: &str) -> (r: Step)
    ensures
        match command_of(line.spec_bytes()) {
            Ok(CommandView::Attach(p)) => r == Step::Attach(p),
            Ok(CommandView::Read(a, n)) => r == (Step::Read { pid: session@.0, address: a, length: n }),
            Ok(CommandView::Write(a, b)) => r matches Step::Write { address, bytes } && address == a
                && bytes@ == b,
            Err(ParseError::Unrecognized) => r == Step::Prompt,
            Err(e) => r == Step::Rejected(e),
        },
{
    match parse_command(line) {
        Ok(Command::Attach(p)) => Step::Attach(p),
        Ok(Command::Read { address, length }) => Step::Read { pid: session.pid(), address, length },
        Ok(Command::Write { address, bytes }) => Step::Write { address, bytes },
        Err(ParseError::Unrecognized) => Step::Prompt,
        Err(e) => Step::Rejected(e),
    }
}

/// The buffer that a read of `length` bytes fills: `length` zero bytes, which
/// stay zero where the target's memory cannot be read.
pub fn zeroed_buffer(length: usize) -> (r: Vec<u8>)
    ensures
        r@ == Seq::new(length as nat, |i: int| 0u8),
{
    let mut v: Vec<u8> = Vec::new();
    let mut i: usize = 0;
    while i < length
        invariant
            i <= length,
            v@ == Seq::new(i as nat, |j: int| 0u8),
        decreases length - i,
    {
        v.push(0u8);
        i = i + 1;
        assert(v@ =~= Seq::new(i as nat, |j: int| 0u8));
    }
    v
}

} // verus!
