//! The process directory: the processes of one enumeration that could be
//! opened, each with the capability that opening it gave.

use vstd::prelude::*;

verus! {

/// What one enumeration step saw of a process: its name, its identifier, and
/// the capability that opening it gave, if it could be opened.
pub struct Probe<H> {
    pub name: String,
    pub pid: u32,
    pub capability: Option<H>,
}

/// A process that could be opened, with its capability.
pub struct ProcessRecord<H> {
    pub name: String,
    pub pid: u32,
    pub capability: H,
}

/// The records of the probes that came with a capability, in order.
pub open spec fn usable<H>(p: Seq<Probe<H>>) -> Seq<ProcessRecord<H>>
    decreases p.len(),
{
    if p.len() == 0 {
        Seq::empty()
    } else {
        let rest = usable(p.drop_first());
        match p[0].capability {
            Some(c) => seq![ProcessRecord { name: p[0].name, pid: p[0].pid, capability: c }] + rest,
            None => rest,
        }
    }
}

/// Builds the directory from one enumeration: every process that could be
/// opened, in the order seen; those that could not are left out.
pub fn get_proc_list<H>(probes: Vec<Probe<H>>) -> (r: Vec<ProcessRecord<H>>)
    ensures
        r@ == usable(probes@),
{
    let ghost all = probes@;
    let mut probes = probes;
    let mut out: Vec<ProcessRecord<H>> = Vec::new();
    assert(out@ + usable(probes@) =~= usable(all));
    while probes.len() > 0
        invariant
            out@ + usable(probes@) == usable(all),
        decreases probes@.len(),
    {
        let ghost before = probes@;
        let first = probes.remove(0);
        assert(probes@ =~= before.drop_first());
        let Probe { name, pid, capability } = first;
        match capability {
            Some(c) => {
                let ghost prev = out@;
                let rec = ProcessRecord { name, pid, capability: c };
                out.push(rec);
                assert(prev + (seq![rec] + usable(probes@)) =~= out@ + usable(probes@));
            },
            None => {},
        }
    }
    assert(out@ + usable(probes@) =~= out@);
    out
}

/// Every record of a directory comes from a probe that gave a capability.
pub proof fn lemma_directory_only_opened<H>(p: Seq<Probe<H>>)
    ensures
        forall|i: int|
            0 <= i < usable(p).len() ==> exists|j: int|
                0 <= j < p.len() && p[j].pid == (#[trigger] usable(p)[i]).pid && p[j].capability
                    == Some(usable(p)[i].capability) && p[j].name == usable(p)[i].name,
    decreases p.len(),
{
    if p.len() > 0 {
        let q = p.drop_first();
        lemma_directory_only_opened(q);
        let u = usable(p);
        let w = usable(q);
        assert forall|i: int| 0 <= i < u.len() implies exists|j: int|
            0 <= j < p.len() && p[j].pid == (#[trigger] u[i]).pid && p[j].capability == Some(u[i].capability)
                && p[j].name == u[i].name by {
            match p[0].capability {
                Some(c) => {
                    if i == 0 {
                        assert(p[0].pid == u[0].pid);
                    } else {
                        assert(u[i] == w[i - 1]);
                        let j = choose|j: int|
                            0 <= j < q.len() && q[j].pid == (#[trigger] w[i - 1]).pid && q[j].capability
                                == Some(w[i - 1].capability) && q[j].name == w[i - 1].name;
                        assert(p[j + 1] == q[j]);
                    }
                },
                None => {
                    assert(u[i] == w[i]);
                    let j = choose|j: int|
                        0 <= j < q.len() && q[j].pid == (#[trigger] w[i]).pid && q[j].capability == Some(
                            w[i].capability,
                        ) && q[j].name == w[i].name;
                    assert(p[j + 1] == q[j]);
                },
            }
        }
    }
}

/// Whether `k` is the first position in `list` that holds `pid`.
pub open spec fn is_first_match<H>(list: Seq<ProcessRecord<H>>, pid: u32, k: int) -> bool {
    0 <= k < list.len() && list[k].pid == pid && forall|j: int| 0 <= j < k ==> (#[trigger] list[j]).pid != pid
}

pub open spec fn holds_pid<H>(list: Seq<ProcessRecord<H>>, pid: u32) -> bool {
    exists|k: int| 0 <= k < list.len() && (#[trigger] list[k]).pid == pid
}

/// The position of the first record for `pid`.
pub fn find_index<H>(list: &Vec<ProcessRecord<H>>, pid: u32) -> (r: Option<usize>)
    ensures
        match r {
            Some(k) => is_first_match(list@, pid, k as int),
            None => !holds_pid(list@, pid),
        },
{
    let mut i: usize = 0;
    while i < list.len()
        invariant
            i <= list@.len(),
            forall|j: int| 0 <= j < i ==> (#[trigger] list@[j]).pid != pid,
        decreases list@.len() - i,
    {
        if list[i].pid == pid {
            return Some(i);
        }
        i = i + 1;
    }
    None
}

/// The first record for `pid`, if the directory holds one.
pub fn get_tuple<H>(list: &Vec<ProcessRecord<H>>, pid: u32) -> (r: Option<&ProcessRecord<H>>)
    ensures
        match r {
            Some(rec) => exists|k: int| is_first_match(list@, pid, k) && *rec == list@[k],
            None => !holds_pid(list@, pid),
        },
{
    match find_index(list, pid) {
        Some(k) => Some(&list[k]),
        None => None,
    }
}

/// The length of a NUL-terminated name held in a fixed-size buffer: the
/// position of the first NUL, or the whole buffer where none occurs.
pub fn exe_name_len(raw: &[u8]) -> (r: usize)
    ensures
        r <= raw@.len(),
        forall|i: int| 0 <= i < r ==> raw@[i] != 0,
        r < raw@.len() ==> raw@[r as int] == 0,
{
    let mut i: usize = 0;
    while i < raw.len() && raw[i] != 0
        invariant
            i <= raw@.len(),
            forall|j: int| 0 <= j < i ==> raw@[j] != 0,
        decreases raw@.len() - i,
    {
        i = i + 1;
    }
    i
}

} // verus!
