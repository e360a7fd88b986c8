//! Start markers in a stream: the first window of `N` bytes that are all
//! different.

use crate::algorithm::has_only_unique;
use crate::window_iter::make_window_iter;
use vstd::prelude::*;

verus! {

/// The stream holds no marker.
#[derive(Debug, Clone, Copy)]
pub struct NoStart;

impl NoStart {
    /// The message shown to a user.
    pub fn to_text(&self) -> (text: String)
        ensures
            text@ == "Could not find start marker!"@,
    {
        "Could not find start marker!".to_owned()
    }
}

/// The window of `N` bytes that starts at `k`.
pub open spec fn window_at(data: Seq<u8>, k: int, width: int) -> Seq<u8> {
    data.subrange(k, k + width)
}

/// Finds the first window whose bytes are all different, and says where it
/// starts.
pub fn find_first_unique<const N: usize>(data: Vec<u8>) -> (r: Result<(usize, [u8; N]), NoStart>)
    requires
        N > 0,
    ensures
        match r {
            Ok((pos, marker)) => {
                &&& pos + N <= data.len()
                &&& marker@ == window_at(data@, pos as int, N as int)
                &&& marker@.no_duplicates()
                &&& forall|k: int| 0 <= k < pos ==> !(#[trigger] window_at(data@, k, N as int)).no_duplicates()
            },
            Err(_) => forall|k: int|
                0 <= k && k + N <= data.len() ==> !(#[trigger] window_at(data@, k, N as int)).no_duplicates(),
        },
{
    let ghost bytes = data@;
    assert(data.len() <= usize::MAX);
    let mut iter = make_window_iter::<N>(data);
    let mut pos: usize = 0;
    loop
        invariant
            N > 0,
            bytes == data@,
            bytes.len() <= usize::MAX,
            iter.wf(),
            iter.source() == bytes,
            iter.position() == pos,
            pos <= bytes.len(),
            forall|k: int| 0 <= k < pos ==> !(#[trigger] window_at(bytes, k, N as int)).no_duplicates(),
        decreases bytes.len() - pos,
    {
        match iter.next() {
            Some(window) => {
                let bytes_of_window = window.as_slice();
                if has_only_unique(bytes_of_window) {
                    return Ok((pos, window));
                }
                pos += 1;
            },
            None => {
                return Err(NoStart);
            },
        }
    }
}

} // verus!
