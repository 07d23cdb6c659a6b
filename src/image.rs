use vstd::prelude::*;

verus! {

/// A file of a duplicate group, loaded in full.
#[derive(Clone)]
pub struct Image {
    pub path: String,
    pub buffer: Vec<u8>,
    /// In bytes.
    pub file_size: usize,
    /// Width by height, where the bytes decode.
    pub dimm: Option<(u32, u32)>,
}

impl Image {
    pub fn new(path: String, buffer: Vec<u8>, dimm: Option<(u32, u32)>) -> (r: Image)
        ensures
            r.path == path,
            r.buffer@ == buffer@,
            r.file_size == buffer@.len(),
            r.dimm == dimm,
    {
        let file_size = buffer.len();
        Image { path, buffer, file_size, dimm }
    }
}

} // verus!
