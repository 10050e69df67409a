//! System handles found by the Windows helper, and the sizing of the buffer
//! that the system handle query fills.

use vstd::prelude::*;
use vstd::string::*;

use crate::process::{contains, contains_text};
use crate::text::{hex_lower, push_hex};

verus! {

/// An open handle of some process.
#[derive(Debug, Clone, PartialEq, Eq)]
pub struct Handle {
    pub pid: u32,
    pub handle: usize,
    pub type_index: u32,
    pub type_label: String,
    pub name: String,
}

impl Handle {
    pub fn new(handle: usize, pid: u32, type_index: u32, type_label: String, name: String) -> (res:
        Self)
        ensures
            res.handle == handle,
            res.pid == pid,
            res.type_index == type_index,
            res.type_label == type_label,
            res.name == name,
    {
        Self { handle, pid, type_index, type_label, name }
    }
}

/// The name that WeChat gives the mutex that keeps it to one instance.
pub const INSTANCE_MUTEX_NAME: &'static str = "_WeChat_App_Instance_Identity_Mutex_Name";

impl Handle {
    /// Whether this handle is WeChat's single-instance mutex: a mutant whose
    /// name contains [`INSTANCE_MUTEX_NAME`].
    pub fn is_instance_mutex(&self) -> (r: bool)
        ensures
            r == (self.type_label@ == "Mutant"@ && contains_text(
                self.name@,
                INSTANCE_MUTEX_NAME@,
            )),
    {
        self.type_label == String::from_str("Mutant") && contains(
            self.name.as_str(),
            INSTANCE_MUTEX_NAME,
        )
    }
}

/// The status that asks for a larger buffer (`STATUS_INFO_LENGTH_MISMATCH`).
pub const STATUS_INFO_LENGTH_MISMATCH: i32 = -1073741820;

/// The first buffer size to try: 512 KiB.
pub const INITIAL_BUFFER_SIZE: usize = 524288;

/// What to do after querying the system handles with a buffer.
pub enum QueryStep {
    /// The query succeeded.
    Done,
    /// Try again with a buffer of this size.
    Grow(usize),
    /// Give up with this message.
    Fail(String),
}

/// The 32 bits of an `NTSTATUS`, as `{:x}` shows it.
pub open spec fn status_bits(status: i32) -> nat {
    if status < 0 {
        (status + 0x1_0000_0000) as nat
    } else {
        status as nat
    }
}

/// Decide the next step of the system handle query from its status: success
/// (a non-negative status) ends it, a length mismatch doubles the buffer,
/// any other status is an error naming it.
pub fn next_query_step(status: i32, buffer_size: usize) -> (r: QueryStep)
    requires
        status == STATUS_INFO_LENGTH_MISMATCH ==> buffer_size * 2 <= usize::MAX,
    ensures
        status >= 0 ==> r is Done,
        status == STATUS_INFO_LENGTH_MISMATCH ==> r == QueryStep::Grow((buffer_size * 2) as usize),
        status < 0 && status != STATUS_INFO_LENGTH_MISMATCH ==> (r matches QueryStep::Fail(m) && m@
            == "[0x"@ + hex_lower(status_bits(status)) + "] oh no!"@),
{
    if status >= 0 {
        return QueryStep::Done;
    }
    if status != STATUS_INFO_LENGTH_MISMATCH {
        let bits: u64 = (status as i64 + 0x1_0000_0000) as u64;
        let mut m = String::from_str("[0x");
        push_hex(&mut m, bits);
        m.append("] oh no!");
        return QueryStep::Fail(m);
    }
    QueryStep::Grow(buffer_size * 2)
}

} // verus!
