//! Small byte-buffer helpers shared by the framing code.
use vstd::prelude::*;

verus! {

/// Appends all of `src` to `out`.
pub fn append_bytes(out: &mut Vec<u8>, src: &[u8])
    ensures
        final(out)@ == old(out)@ + src@,
{
    let ghost start = out@;
    let mut i: usize = 0;
    while i < src.len()
        invariant
            i <= src@.len(),
            out@ == start + src@.take(i as int),
        decreases src@.len() - i,
    {
        out.push(src[i]);
        assert(start + src@.take(i + 1) =~= start + src@.take(i as int) + seq![src@[i as int]]);
        i = i + 1;
    }
    assert(src@.take(src@.len() as int) =~= src@);
}

/// Copies the bytes `src[start..end]` into a new vector.
pub fn copy_range(src: &[u8], start: usize, end: usize) -> (r: Vec<u8>)
    requires
        start <= end <= src@.len(),
    ensures
        r@ == src@.subrange(start as int, end as int),
{
    let mut out: Vec<u8> = Vec::new();
    let mut i: usize = start;
    while i < end
        invariant
            start <= i <= end,
            end <= src@.len(),
            out@ == src@.subrange(start as int, i as int),
        decreases end - i,
    {
        out.push(src[i]);
        assert(src@.subrange(start as int, i + 1) =~= src@.subrange(start as int, i as int).push(
            src@[i as int],
        ));
        i = i + 1;
    }
    out
}

} // verus!
