//! Moving bytes into and out of the byte queues of a connection.

use std::collections::VecDeque;
use vstd::prelude::*;

verus! {

/// Copies the bytes of `q` from position `from` up to `to`.
pub fn copy_range(q: &VecDeque<u8>, from: usize, to: usize) -> (out: Vec<u8>)
    requires
        from <= to <= q@.len(),
    ensures
        out@ == q@.subrange(from as int, to as int),
{
    let mut out: Vec<u8> = Vec::new();
    let mut i: usize = from;
    while i < to
        invariant
            from <= i <= to <= q@.len(),
            out@ == q@.subrange(from as int, i as int),
        decreases to - i,
    {
        out.push(q[i]);
        i += 1;
        assert(out@ =~= q@.subrange(from as int, i as int));
    }
    out
}

/// Appends the bytes of `data` from position `from` up to `to` to the back
/// of `q`.
pub fn append_range(q: &mut VecDeque<u8>, data: &[u8], from: usize, to: usize)
    requires
        from <= to <= data@.len(),
    ensures
        final(q)@ == old(q)@ + data@.subrange(from as int, to as int),
{
    let mut i: usize = from;
    assert(q@ =~= old(q)@ + data@.subrange(from as int, i as int));
    while i < to
        invariant
            from <= i <= to <= data@.len(),
            q@ == old(q)@ + data@.subrange(from as int, i as int),
        decreases to - i,
    {
        q.push_back(data[i]);
        i += 1;
        assert(q@ =~= old(q)@ + data@.subrange(from as int, i as int));
    }
}

/// Takes the first `n` bytes off the front of `q`.
pub fn drop_front(q: &mut VecDeque<u8>, n: usize)
    requires
        n <= old(q)@.len(),
    ensures
        final(q)@ == old(q)@.skip(n as int),
{
    let mut i: usize = 0;
    assert(q@ =~= old(q)@.skip(0));
    while i < n
        invariant
            i <= n <= old(q)@.len(),
            q@ == old(q)@.skip(i as int),
        decreases n - i,
    {
        q.pop_front();
        i += 1;
        assert(q@ =~= old(q)@.skip(i as int));
    }
}

/// Takes the first `n` bytes off the front of `q` and hands them back.
pub fn take_front(q: &mut VecDeque<u8>, n: usize) -> (out: Vec<u8>)
    requires
        n <= old(q)@.len(),
    ensures
        out@ == old(q)@.take(n as int),
        final(q)@ == old(q)@.skip(n as int),
{
    let mut out: Vec<u8> = Vec::new();
    let mut i: usize = 0;
    assert(q@ =~= old(q)@.skip(0));
    assert(out@ =~= old(q)@.take(0));
    while i < n
        invariant
            i <= n <= old(q)@.len(),
            out@ == old(q)@.take(i as int),
            q@ == old(q)@.skip(i as int),
        decreases n - i,
    {
        match q.pop_front() {
            Some(b) => {
                out.push(b);
            },
            None => {},
        }
        i += 1;
        assert(q@ =~= old(q)@.skip(i as int));
        assert(out@ =~= old(q)@.take(i as int));
    }
    out
}

} // verus!
