//! Processes found by the Windows helper, as plain values.

use vstd::prelude::*;

verus! {

/// A process: its id, its executable name and the handle it was opened with.
#[derive(Debug, Clone, PartialEq, Eq)]
pub struct Process {
    pid: u32,
    name: String,
    handle: usize,
}

/// The mathematical value of a [`Process`].
pub struct ProcessView {
    pub pid: u32,
    pub name: Seq<char>,
    pub handle: usize,
}

impl View for Process {
    type V = ProcessView;

    closed spec fn view(&self) -> ProcessView {
        ProcessView { pid: self.pid, name: self.name@, handle: self.handle }
    }
}

impl Process {
    pub fn pid(&self) -> (r: u32)
        ensures
            r == self@.pid,
    {
        self.pid
    }

    /// The handle the process was opened with.
    pub fn handle(&self) -> (r: usize)
        ensures
            r == self@.handle,
    {
        self.handle
    }

    /// The executable name of the process.
    pub fn name(&self) -> (r: &str)
        ensures
            r@ == self@.name,
    {
        self.name.as_str()
    }

    pub fn new(handle: usize, pid: u32, name: &str) -> (res: Self)
        ensures
            res@ == (ProcessView { pid, name: name@, handle }),
    {
        Self { pid: pid, name: name.to_owned(), handle }
    }
}

/// Whether `needle` occurs in `hay` as a run of consecutive characters.
pub open spec fn contains_text(hay: Seq<char>, needle: Seq<char>) -> bool {
    exists|i: int| 0 <= i && i + needle.len() <= hay.len() && #[trigger] hay.subrange(i, i + needle.len()) == needle
}

fn occurs_at(hay: &str, needle: &str, i: usize, hn: usize, nn: usize) -> (r: bool)
    requires
        hn == hay@.len(),
        nn == needle@.len(),
        i + nn <= hn,
    ensures
        r == (hay@.subrange(i as int, i + nn) == needle@),
{
    let mut k: usize = 0;
    while k < nn
        invariant
            hn == hay@.len(),
            nn == needle@.len(),
            i + nn <= hn,
            k <= nn,
            forall|j: int| 0 <= j < k ==> hay@[i + j] == needle@[j],
        decreases nn - k,
    {
        if hay.get_char(i + k) != needle.get_char(k) {
            assert(hay@.subrange(i as int, i + nn)[k as int] != needle@[k as int]);
            return false;
        }
        k = k + 1;
    }
    assert(hay@.subrange(i as int, i + nn) =~= needle@);
    true
}

/// Whether `needle` occurs in `hay` as a run of consecutive characters.
pub fn contains(hay: &str, needle: &str) -> (r: bool)
    ensures
        r == contains_text(hay@, needle@),
{
    let nn = needle.unicode_len();
    let hn = hay.unicode_len();
    if nn == 0 {
        assert(hay@.subrange(0int, 0int + needle@.len()) =~= needle@);
        return true;
    }
    if nn > hn {
        return false;
    }
    let mut i: usize = 0;
    while i <= hn - nn
        invariant
            hn == hay@.len(),
            nn == needle@.len(),
            1 <= nn <= hn,
            i <= hn - nn + 1,
            forall|j: int| 0 <= j < i ==> #[trigger] hay@.subrange(j, j + nn) != needle@,
        decreases hn + 1 - i,
    {
        if occurs_at(hay, needle, i, hn, nn) {
            return true;
        }
        i = i + 1;
    }
    false
}

/// Whether a process named `exe_name` is one that `filter` asks for: every
/// process when the filter is empty, else one whose name contains it.
pub fn name_matches(filter: &str, exe_name: &str) -> (r: bool)
    ensures
        r == (filter@.len() == 0 || contains_text(exe_name@, filter@)),
{
    filter.unicode_len() == 0 || contains(exe_name, filter)
}

/// The processes in reverse order of discovery, so that the newest comes first.
pub fn newest_first(found: Vec<Process>) -> (res: Vec<Process>)
    ensures
        res@ == found@.reverse(),
{
    let ghost all = found@;
    let mut rest = found;
    let mut out: Vec<Process> = Vec::new();
    while rest.len() > 0
        invariant
            rest@.len() <= all.len(),
            rest@ == all.subrange(0, rest@.len() as int),
            out@ == all.subrange(rest@.len() as int, all.len() as int).reverse(),
        decreases rest@.len(),
    {
        let ghost k = rest@.len();
        let p = rest.pop().unwrap();
        out.push(p);
        assert(out@ =~= all.subrange(k - 1, all.len() as int).reverse());
    }
    assert(all.subrange(0, all.len() as int) =~= all);
    out
}

} // verus!
