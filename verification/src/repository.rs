use vstd::prelude::*;

use crate::text::{split_on, split_pieces, str_eq, string_views};

verus! {

/// A message sent to the importer over its socket.
#[derive(Debug)]
pub enum HMessage {
    /// Start importing the events of the named host group(s).
    Group(String),
}

/// Whether a requested group is not yet among the `known` ones, so that its
/// import is to start.
pub fn group_is_new(known: &Vec<String>, name: &str) -> (r: bool)
    ensures
        r == !string_views(known@).contains(name@),
{
    let n = known.len();
    let mut i: usize = 0;
    while i < n
        invariant
            i <= n,
            n == known@.len(),
            forall|j: int| 0 <= j < i ==> known@[j]@ != name@,
        decreases n - i,
    {
        if str_eq(known[i].as_str(), name) {
            assert(string_views(known@)[i as int] == name@);
            return false;
        }
        i = i + 1;
    }
    assert(!string_views(known@).contains(name@)) by {
        if string_views(known@).contains(name@) {
            let j = choose|j: int| 0 <= j < string_views(known@).len() && string_views(known@)[j] == name@;
            assert(known@[j]@ == name@);
        }
    }
    true
}

/// The group names that one request names: the text split at every comma.
pub fn group_names(group: &str) -> (r: Vec<String>)
    ensures
        string_views(r@) == split_pieces(group@, ','),
{
    split_on(group, ',')
}

/// The number that four bytes write, most significant first.
pub open spec fn big_endian_u32(b: [u8; 4]) -> int {
    b[0] * 16777216 + b[1] * 65536 + b[2] * 256 + b[3]
}

/// The length that the four-byte header of a socket message announces
/// (`u32::from_be_bytes`).
pub fn frame_length(header: [u8; 4]) -> (r: u32)
    ensures
        r == big_endian_u32(header),
{
    (header[0] as u32) * 16777216 + (header[1] as u32) * 65536 + (header[2] as u32) * 256
        + (header[3] as u32)
}

} // verus!
