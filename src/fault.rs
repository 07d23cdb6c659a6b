use vstd::prelude::*;

use crate::group::{add_to_set, into_items, new_set, set_items};

verus! {

pub open spec fn walk_fault(detail: Seq<char>) -> Seq<char> {
    "Error walking directory: "@ + detail
}

pub open spec fn decode_fault(path: Seq<char>, detail: Seq<char>) -> Seq<char> {
    "Error opening image "@ + path + ": "@ + detail
}

pub open spec fn panic_fault(path: Seq<char>) -> Seq<char> {
    "Panic opening image "@ + path
}

pub open spec fn open_fault(path: Seq<char>, detail: Seq<char>) -> Seq<char> {
    "Error opening "@ + path + ": "@ + detail
}

pub open spec fn read_fault(path: Seq<char>, detail: Seq<char>) -> Seq<char> {
    "Error reading "@ + path + ": "@ + detail
}

fn join3(a: &str, b: &str, c: &str) -> (r: String)
    ensures
        r@ == a@ + b@ + c@,
{
    let mut s = String::from_str(a);
    s.append(b);
    s.append(c);
    s
}

pub fn walk_fault_text(detail: &str) -> (r: String)
    ensures
        r@ == walk_fault(detail@),
{
    let mut s = String::from_str("Error walking directory: ");
    s.append(detail);
    s
}

pub fn decode_fault_text(path: &str, detail: &str) -> (r: String)
    ensures
        r@ == decode_fault(path@, detail@),
{
    let mut s = join3("Error opening image ", path, ": ");
    s.append(detail);
    s
}

pub fn panic_fault_text(path: &str) -> (r: String)
    ensures
        r@ == panic_fault(path@),
{
    let mut s = String::from_str("Panic opening image ");
    s.append(path);
    s
}

pub fn open_fault_text(path: &str, detail: &str) -> (r: String)
    ensures
        r@ == open_fault(path@, detail@),
{
    let mut s = join3("Error opening ", path, ": ");
    s.append(detail);
    s
}

pub fn read_fault_text(path: &str, detail: &str) -> (r: String)
    ensures
        r@ == read_fault(path@, detail@),
{
    let mut s = join3("Error reading ", path, ": ");
    s.append(detail);
    s
}

/// The fault records of one scan, each text kept once.
pub struct FaultLog {
    records: dashmap::DashSet<String>,
}

impl FaultLog {
    pub closed spec fn wf(&self) -> bool {
        true
    }

    pub closed spec fn view(&self) -> Set<Seq<char>> {
        set_items(self.records)
    }

    pub fn new() -> (r: FaultLog)
        ensures
            r.wf(),
            r@ == Set::<Seq<char>>::empty(),
    {
        FaultLog { records: new_set() }
    }

    pub fn record(&mut self, msg: String)
        requires
            old(self).wf(),
        ensures
            final(self).wf(),
            final(self)@ == old(self)@.insert(msg@),
    {
        add_to_set(&mut self.records, msg);
    }

    /// The records, each once, in no particular order.
    pub fn into_vec(self) -> (r: Vec<String>)
        requires
            self.wf(),
        ensures
            r@.map_values(|s: String| s@).to_set() == self@,
            r@.map_values(|s: String| s@).no_duplicates(),
    {
        into_items(self.records)
    }
}

} // verus!
