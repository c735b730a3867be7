//! Cuts the input into chunks of whole lines, one per worker.
use crate::input::{find_byte, lemma_find_byte, lemma_find_byte_at, NEWLINE};
use vstd::prelude::*;

verus! {

/// The chunks one after the other.
pub open spec fn concat_chunks(cs: Seq<Seq<u8>>) -> Seq<u8>
    decreases cs.len(),
{
    if cs.len() == 0 {
        Seq::empty()
    } else {
        concat_chunks(cs.drop_last()) + cs.last()
    }
}

/// The byte views of a sequence of slices.
pub open spec fn chunk_views(cs: Seq<&[u8]>) -> Seq<Seq<u8>> {
    cs.map_values(|c: &[u8]| c@)
}

/// `len / n`, rounded up.
pub open spec fn ceil_div(len: int, n: int) -> int {
    if len % n == 0 {
        len / n
    } else {
        len / n + 1
    }
}

/// Where a chunk of `b` that starts at `start` ends: after the first newline
/// at or after `start + min(size, b.len() - start) - 1`.
pub open spec fn chunk_end(b: Seq<u8>, size: int, start: int) -> int {
    let left = b.len() - start;
    let step = if size <= left {
        size
    } else {
        left
    };
    let search_from = start + step - 1;
    search_from + find_byte(b.skip(search_from), NEWLINE) + 1
}

/// The offset at which chunk `i` of `cs` starts.
pub open spec fn chunk_start(cs: Seq<Seq<u8>>, i: int) -> int {
    concat_chunks(cs.take(i)).len() as int
}

/// Iterates the input in `n` chunks, but with respect to line endings.
/// This helps us to distribute the workload evenly between multiple
/// threads.
pub struct ChunkIter<'a> {
    bytes_per_chunk: usize,
    file_bytes: &'a [u8],
    /// This variable is mutated and keeps track of the progress.
    consumed_bytes: usize,
}

impl<'a> ChunkIter<'a> {
    pub closed spec fn bytes(&self) -> Seq<u8> {
        self.file_bytes@
    }

    /// How many bytes the chunks handed out so far hold.
    pub closed spec fn consumed(&self) -> int {
        self.consumed_bytes as int
    }

    /// The least length of a chunk that is not the last.
    pub closed spec fn chunk_size(&self) -> int {
        self.bytes_per_chunk as int
    }

    /// The iterator has handed out whole lines, and has a chunk size where
    /// there is anything to cut.
    pub open spec fn wf(&self) -> bool {
        &&& 0 <= self.consumed() <= self.bytes().len()
        &&& self.consumed() == 0 || self.bytes()[self.consumed() - 1] == NEWLINE
        &&& self.bytes().len() > 0 ==> self.chunk_size() >= 1
    }

    /// Where the chunk that starts at the current position ends.
    pub open spec fn next_end(&self) -> int {
        chunk_end(self.bytes(), self.chunk_size(), self.consumed())
    }

    pub fn new(file_bytes: &'a [u8], chunk_count: usize) -> (r: Self)
        requires
            chunk_count >= 1,
        ensures
            r.wf(),
            r.bytes() == file_bytes@,
            r.consumed() == 0,
            r.chunk_size() == ceil_div(file_bytes@.len() as int, chunk_count as int),
    {
        let len = file_bytes.len();
        proof {
            if len % chunk_count != 0 {
                assert(len % 1 == 0);
                assert(len >= 1) by {
                    if len == 0 {
                        assert(0int % (chunk_count as int) == 0);
                    }
                }
                assert(len / chunk_count < len) by (nonlinear_arith)
                    requires
                        chunk_count >= 2,
                        len >= 1,
                ;
            }
        }
        let bytes_per_chunk = if len % chunk_count == 0 {
            len / chunk_count
        } else {
            len / chunk_count + 1
        };
        proof {
            if len > 0 && len % chunk_count == 0 {
                assert(len / chunk_count >= 1) by (nonlinear_arith)
                    requires
                        len > 0,
                        chunk_count >= 1,
                        len % chunk_count == 0,
                ;
            }
        }
        Self { file_bytes, bytes_per_chunk, consumed_bytes: 0 }
    }

    pub fn bytes_per_chunk(&self) -> (r: usize)
        ensures
            r == self.chunk_size(),
    {
        self.bytes_per_chunk
    }

    /// The next chunk: from the current position to the first newline at or
    /// after `chunk_size() - 1` bytes further (the last chunk runs to the
    /// end), newline included.
    pub fn next(&mut self) -> (r: Option<&'a [u8]>)
        requires
            old(self).wf(),
            old(self).bytes().len() == 0 || old(self).bytes().last() == NEWLINE,
        ensures
            final(self).wf(),
            final(self).bytes() == old(self).bytes(),
            final(self).chunk_size() == old(self).chunk_size(),
            match r {
                None => {
                    &&& old(self).consumed() == old(self).bytes().len()
                    &&& final(self).consumed() == old(self).consumed()
                },
                Some(chunk) => {
                    &&& old(self).consumed() < old(self).bytes().len()
                    &&& final(self).consumed() == old(self).next_end()
                    &&& old(self).consumed() < final(self).consumed()
                    &&& chunk@ == old(self).bytes().subrange(
                        old(self).consumed(),
                        final(self).consumed(),
                    )
                    &&& chunk@.last() == NEWLINE
                    &&& (final(self).consumed() < old(self).bytes().len() ==> chunk@.len()
                        >= old(self).chunk_size())
                },
            },
    {
        let bytes_left = self.file_bytes.len() - self.consumed_bytes;
        if bytes_left == 0 {
            return None;
        }
        let ghost b = self.file_bytes@;
        let i_begin = self.consumed_bytes;
        let step = if self.bytes_per_chunk <= bytes_left {
            self.bytes_per_chunk
        } else {
            bytes_left
        };
        // -1: because the given byte might already be a newline
        let i_end_min = i_begin + step - 1;

        let search_slice = &self.file_bytes[i_end_min..self.file_bytes.len()];
        proof {
            assert(search_slice@ =~= b.skip(i_end_min as int));
            assert(search_slice@[b.len() - 1 - i_end_min] == b.last());
            lemma_find_byte(search_slice@, NEWLINE);
        }
        let found = memchr::memchr(NEWLINE, search_slice).unwrap();
        proof {
            lemma_find_byte_at(search_slice@, NEWLINE, found as int);
        }
        let i_end_actual = found + i_end_min;

        // include final newline here
        let chunk = &self.file_bytes[i_begin..i_end_actual + 1];

        self.consumed_bytes += chunk.len();

        Some(chunk)
    }
}

/// Cuts `file_bytes` into at most `chunk_count` chunks of whole lines, in
/// order, as `ChunkIter` hands them out: each chunk ends where `chunk_end`
/// puts it, with the chunk size `ChunkIter::new` computes.
pub fn split_chunks<'a>(file_bytes: &'a [u8], chunk_count: usize) -> (r: Vec<&'a [u8]>)
    requires
        chunk_count >= 1,
        file_bytes@.len() == 0 || file_bytes@.last() == NEWLINE,
    ensures
        concat_chunks(chunk_views(r@)) == file_bytes@,
        r@.len() <= chunk_count,
        forall|i: int|
            0 <= i < r@.len() ==> (#[trigger] r@[i])@.len() > 0 && r@[i]@.last() == NEWLINE,
        forall|i: int|
            0 < i < r@.len() ==> file_bytes@[#[trigger] concat_chunks(chunk_views(r@).take(i)).len()
                - 1] == NEWLINE,
        forall|i: int|
            0 <= i < r@.len() ==> #[trigger] chunk_start(chunk_views(r@), i + 1) == chunk_end(
                file_bytes@,
                ceil_div(file_bytes@.len() as int, chunk_count as int),
                chunk_start(chunk_views(r@), i),
            ),
{
    let mut iter = ChunkIter::new(file_bytes, chunk_count);
    let ghost len = file_bytes@.len() as int;
    let ghost size = iter.chunk_size();
    let mut chunks: Vec<&'a [u8]> = Vec::new();
    proof {
        assert(chunk_views(chunks@) =~= Seq::<Seq<u8>>::empty());
    }
    loop
        invariant_except_break
            iter.wf(),
            len == file_bytes@.len(),
            chunk_count >= 1,
            size == ceil_div(len, chunk_count as int),
            chunks@.len() <= chunk_count,
            iter.bytes() == file_bytes@,
            iter.chunk_size() == size,
            file_bytes@.len() == 0 || file_bytes@.last() == NEWLINE,
            concat_chunks(chunk_views(chunks@)) == file_bytes@.take(iter.consumed()),
            iter.consumed() < len ==> iter.consumed() >= chunks@.len() * size,
            iter.consumed() < len ==> chunks@.len() < chunk_count,
            forall|i: int|
                0 <= i < chunks@.len() ==> (#[trigger] chunks@[i])@.len() > 0 && chunks@[i]@.last()
                    == NEWLINE,
            forall|i: int|
                0 <= i < chunks@.len() ==> #[trigger] chunk_start(chunk_views(chunks@), i + 1)
                    == chunk_end(file_bytes@, size, chunk_start(chunk_views(chunks@), i)),
        ensures
            concat_chunks(chunk_views(chunks@)) == file_bytes@,
            chunks@.len() <= chunk_count,
            forall|i: int|
                0 <= i < chunks@.len() ==> (#[trigger] chunks@[i])@.len() > 0 && chunks@[i]@.last()
                    == NEWLINE,
            forall|i: int|
                0 <= i < chunks@.len() ==> #[trigger] chunk_start(chunk_views(chunks@), i + 1)
                    == chunk_end(file_bytes@, size, chunk_start(chunk_views(chunks@), i)),
        decreases len - iter.consumed(),
    {
        let ghost before = iter.consumed();
        let ghost iter_before = iter;
        match iter.next() {
            None => {
                assert(file_bytes@.take(len) =~= file_bytes@);
                break ;
            },
            Some(chunk) => {
                let ghost old_chunks = chunks@;
                chunks.push(chunk);
                proof {
                    let after = iter.consumed();
                    assert(after == chunk_end(file_bytes@, size, before)) by {
                        assert(after == iter_before.next_end());
                    }
                    assert(chunk_views(chunks@).drop_last() =~= chunk_views(old_chunks));
                    assert(file_bytes@.take(after) =~= file_bytes@.take(before) + chunk@);
                    assert forall|i: int| 0 <= i < chunks@.len() implies (#[trigger] chunks@[i])@.len()
                        > 0 && chunks@[i]@.last() == NEWLINE by {
                        if i < old_chunks.len() {
                            assert(chunks@[i] == old_chunks[i]);
                        }
                    }
                    let vs = chunk_views(chunks@);
                    let old_vs = chunk_views(old_chunks);
                    assert forall|i: int| 0 <= i < chunks@.len() implies #[trigger] chunk_start(vs, i + 1)
                        == chunk_end(file_bytes@, size, chunk_start(vs, i)) by {
                        if i < old_chunks.len() {
                            assert(vs.take(i) =~= old_vs.take(i));
                            assert(vs.take(i + 1) =~= old_vs.take(i + 1));
                            assert(chunk_start(old_vs, i + 1) == chunk_end(
                                file_bytes@,
                                size,
                                chunk_start(old_vs, i),
                            ));
                        } else {
                            assert(vs.take(i) =~= old_vs);
                            assert(old_vs.take(old_vs.len() as int) =~= old_vs);
                            assert(vs.take(i + 1) =~= vs);
                            assert(chunk_start(vs, i) == before);
                            assert(chunk_start(vs, i + 1) == after);
                        }
                    }
                    if after < len {
                        assert(after >= chunks@.len() * size) by (nonlinear_arith)
                            requires
                                before >= old_chunks.len() * size,
                                after >= before + size,
                                chunks@.len() == old_chunks.len() + 1,
                        ;
                        assert(size * chunk_count >= len) by (nonlinear_arith)
                            requires
                                size == ceil_div(len, chunk_count as int),
                                chunk_count >= 1,
                                len >= 0,
                        ;
                        assert(chunks@.len() < chunk_count) by (nonlinear_arith)
                            requires
                                after >= chunks@.len() * size,
                                size * chunk_count >= len,
                                after < len,
                                size >= 1,
                        ;
                    }
                }
            },
        }
    }
    proof {
        lemma_chunk_starts(file_bytes@, chunk_views(chunks@));
    }
    chunks
}

/// Where each chunk ends with a newline, every chunk but the first starts
/// right after a newline.
proof fn lemma_chunk_starts(b: Seq<u8>, cs: Seq<Seq<u8>>)
    requires
        concat_chunks(cs) == b,
        forall|i: int| 0 <= i < cs.len() ==> (#[trigger] cs[i]).len() > 0 && cs[i].last() == NEWLINE,
    ensures
        forall|i: int|
            0 < i < cs.len() ==> b[#[trigger] concat_chunks(cs.take(i)).len() - 1] == NEWLINE,
    decreases cs.len(),
{
    if cs.len() > 0 {
        let init = cs.drop_last();
        assert forall|i: int| 0 <= i < init.len() implies (#[trigger] init[i]).len() > 0
            && init[i].last() == NEWLINE by {
            assert(init[i] == cs[i]);
        }
        lemma_chunk_starts(concat_chunks(init), init);
        assert forall|i: int| 0 < i < cs.len() implies b[#[trigger] concat_chunks(
            cs.take(i),
        ).len() - 1] == NEWLINE by {
            let p = concat_chunks(cs.take(i));
            if i < cs.len() - 1 {
                assert(cs.take(i) =~= init.take(i));
            } else {
                assert(cs.take(i) =~= init);
                let c = cs[i - 1];
                assert(init.drop_last() =~= init.take(i - 1));
                assert(p == concat_chunks(init.drop_last()) + c);
                assert(p.last() == c.last());
            }
            assert(concat_chunks(init).len() <= b.len());
            assert(b =~= concat_chunks(init) + cs.last());
            if i < cs.len() - 1 {
                assert(p.len() <= concat_chunks(init).len()) by {
                    lemma_concat_prefix_len(init, i);
                }
            }
        }
    }
}

proof fn lemma_concat_prefix_len(cs: Seq<Seq<u8>>, i: int)
    requires
        0 <= i <= cs.len(),
    ensures
        concat_chunks(cs.take(i)).len() <= concat_chunks(cs).len(),
        concat_chunks(cs.take(i)) == concat_chunks(cs).take(concat_chunks(cs.take(i)).len() as int),
    decreases cs.len() - i,
{
    if i < cs.len() {
        lemma_concat_prefix_len(cs, i + 1);
        assert(cs.take(i + 1).drop_last() =~= cs.take(i));
        let a = concat_chunks(cs.take(i));
        let a1 = concat_chunks(cs.take(i + 1));
        assert(a1 == a + cs[i]);
        assert(a =~= a1.take(a.len() as int));
    } else {
        assert(cs.take(i) =~= cs);
        assert(concat_chunks(cs).take(concat_chunks(cs).len() as int) =~= concat_chunks(cs));
    }
}

} // verus!
