//! The shared input buffer that callers fill before asking for a scan.
use vstd::prelude::*;

verus! {

/// Grows `buf` with zero bytes to at least `len` bytes; a buffer that is
/// already long enough is left as it is.
pub fn grow_buffer(buf: &mut Vec<u8>, len: usize)
    ensures
        old(buf)@.len() >= len ==> final(buf)@ == old(buf)@,
        old(buf)@.len() < len ==> final(buf)@ == old(buf)@ + Seq::new(
            (len - old(buf)@.len()) as nat,
            |i: int| 0u8,
        ),
{
    let ghost b0 = old(buf)@;
    if buf.len() < len {
        buf.resize(len, 0u8);
        proof {
            assert forall|i: int| b0.len() <= i < len implies buf@[i] == 0u8 by {
                assert(cloned::<u8>(0u8, buf@[i]));
            }
            assert(buf@ =~= b0 + Seq::new((len - b0.len()) as nat, |i: int| 0u8)) by {
                assert forall|i: int| 0 <= i < b0.len() implies buf@[i] == b0[i] by {
                    assert(buf@.subrange(0, b0.len() as int)[i] == b0[i]);
                }
            }
        }
    }
}

} // verus!
