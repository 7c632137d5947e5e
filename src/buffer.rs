//! Splitting a user buffer at page boundaries, so that data written to it
//! goes through one contiguous physical chunk per page.
use vstd::prelude::*;
use crate::memory::PAGE_SIZE;

verus! {

/// A piece of a user buffer that lies within one page.
#[derive(Clone, Copy, Debug, PartialEq, Eq, Structural)]
pub struct Chunk {
    pub start: usize,
    pub len: usize,
}

/// The length of the first chunk of a buffer at `va` with `len` bytes: up
/// to the end of `va`'s page, or the whole buffer if it ends sooner.
pub open spec fn first_chunk_len(va: int, len: int) -> int {
    let room = PAGE_SIZE - va % (PAGE_SIZE as int);
    if len < room { len } else { room }
}

/// `c` splits `[va, va + len)` into consecutive non-empty pieces, each
/// running to the end of its page or to the end of the buffer.
pub open spec fn splits_at_pages(c: Seq<Chunk>, va: int, len: int) -> bool
    decreases len, c.len(),
{
    if len <= 0 {
        c.len() == 0
    } else {
        &&& c.len() > 0
        &&& c[0].start == va
        &&& c[0].len == first_chunk_len(va, len)
        &&& splits_at_pages(c.drop_first(), va + first_chunk_len(va, len), len - first_chunk_len(va, len))
    }
}

/// The chunks of the user buffer `[va, va + len)`, in address order: the
/// first ends at `va`'s page boundary (or the buffer's end), each later one
/// covers a whole page but the last.
pub fn page_chunks(va: usize, len: usize) -> (r: Vec<Chunk>)
    requires
        va + len <= usize::MAX,
    ensures
        splits_at_pages(r@, va as int, len as int),
{
    let mut out: Vec<Chunk> = Vec::new();
    let mut cur = va;
    let mut left = len;
    while left > 0
        invariant
            cur + left == va + len,
            va + len <= usize::MAX,
            forall|tail: Seq<Chunk>|
                #[trigger] splits_at_pages(tail, cur as int, left as int) ==> splits_at_pages(
                    out@ + tail,
                    va as int,
                    len as int,
                ),
        decreases left,
    {
        let room = PAGE_SIZE - cur % PAGE_SIZE;
        let n = if left < room { left } else { room };
        let piece = Chunk { start: cur, len: n };
        let ghost prev = out@;
        out.push(piece);
        proof {
            assert forall|tail: Seq<Chunk>|
                #[trigger] splits_at_pages(tail, (cur + n) as int, (left - n) as int) implies splits_at_pages(
                out@ + tail,
                va as int,
                len as int,
            ) by {
                let whole = seq![piece] + tail;
                assert(whole.drop_first() =~= tail);
                assert(splits_at_pages(whole, cur as int, left as int));
                assert(prev + whole =~= out@ + tail);
            }
        }
        cur = cur + n;
        left = left - n;
    }
    proof {
        assert(splits_at_pages(Seq::<Chunk>::empty(), cur as int, 0));
        assert(out@ + Seq::<Chunk>::empty() =~= out@);
    }
    out
}

} // verus!
