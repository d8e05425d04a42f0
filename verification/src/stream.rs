//! Values that are read or written piece by piece.
use crate::bytes::append_bytes;
use crate::table::{TableError, TableResult};
use vstd::prelude::*;

verus! {

/// The size of the pieces in which a stream is read into memory.
pub const CHUNK_SIZE: usize = 8192;

/// A value that is read piece by piece. The specification functions are open to every stream: one
/// whose code is not verified leaves them as they are, and then answers for `read` itself.
pub trait ValueStream {
    /// What is still to be read.
    closed spec fn remaining(&self) -> Seq<u8> {
        arbitrary()
    }

    /// No read of what is still to come fails.
    closed spec fn sound(&self) -> bool {
        arbitrary()
    }

    /// What the last read that failed has reported.
    closed spec fn failure(&self) -> Option<TableError> {
        arbitrary()
    }

    /// Fills the front of `buf` with the next bytes and returns how many there were. None come
    /// only at the end of the value, or where `buf` has no room.
    fn read(&mut self, buf: &mut [u8]) -> (r: TableResult<usize>)
        ensures
            final(buf)@.len() == old(buf)@.len(),
            r matches Ok(n) ==> {
                &&& n <= old(buf)@.len()
                &&& final(buf)@.take(n as int) + final(self).remaining() == old(self).remaining()
                &&& n == 0 && old(buf)@.len() > 0 ==> old(self).remaining().len() == 0
            },
            r matches Err(e) ==> final(self).failure() == Some(e),
            old(self).sound() ==> r is Ok && final(self).sound(),
    ;

    /// How much there is to read by the stream's own account, if it gives one.
    closed spec fn hint(&self) -> Option<u64> {
        arbitrary()
    }

    /// How much there is to read by the stream's own account, if it gives one.
    fn size_hint(&self) -> (r: Option<u64>)
        ensures
            r == self.hint(),
    ;
}

/// A stream over bytes in memory.
pub struct SliceValueStream {
    pub data: Vec<u8>,
    pub position: usize,
}

impl SliceValueStream {
    /// A stream over all of `data`.
    pub fn new(data: Vec<u8>) -> (r: Self)
        ensures
            r.data == data,
            r.position == 0,
            r.remaining() == data@,
    {
        let r = SliceValueStream { data, position: 0 };
        assert(r.remaining() =~= data@);
        r
    }
}

impl ValueStream for SliceValueStream {
    open spec fn remaining(&self) -> Seq<u8> {
        if self.position <= self.data@.len() {
            self.data@.skip(self.position as int)
        } else {
            Seq::empty()
        }
    }

    open spec fn sound(&self) -> bool {
        true
    }

    open spec fn failure(&self) -> Option<TableError> {
        None
    }

    fn read(&mut self, buf: &mut [u8]) -> (r: TableResult<usize>)
        ensures
            r is Ok,
            r->Ok_0 as int == (if old(self).remaining().len() < old(buf)@.len() {
                old(self).remaining().len() as int
            } else {
                old(buf)@.len() as int
            }),
    {
        let ghost all = self.remaining();
        let ghost size = buf@.len();
        let start: usize = self.position;
        if start >= self.data.len() {
            assert(buf@.take(0) + all =~= all);
            return Ok(0);
        }
        let left: usize = self.data.len() - start;
        let n: usize = if left < buf.len() {
            left
        } else {
            buf.len()
        };
        let mut i: usize = 0;
        while i < n
            invariant
                i <= n <= left,
                start + left <= usize::MAX,
                n <= buf@.len() == size,
                left == self.data@.len() - start,
                start == self.position,
                self.data == old(self).data,
                self.position == old(self).position,
                forall|j: int| 0 <= j < i ==> #[trigger] buf@[j] == self.data@[start + j],
            decreases n - i,
        {
            buf[i] = self.data[start + i];
            i += 1;
        }
        self.position = start + n;
        proof {
            assert(buf@.take(n as int) + self.remaining() =~= all);
        }
        Ok(n)
    }

    open spec fn hint(&self) -> Option<u64> {
        Some(self.data@.len() as u64)
    }

    fn size_hint(&self) -> (r: Option<u64>) {
        Some(self.data.len() as u64)
    }
}

/// Reads what is left of a stream into memory. Fails only where the stream does, with its error.
pub fn read_to_end<S: ValueStream>(stream: &mut S) -> (r: TableResult<Vec<u8>>)
    ensures
        r matches Ok(v) ==> v@ == old(stream).remaining() && final(stream).remaining().len() == 0,
        r matches Err(e) ==> final(stream).failure() == Some(e),
        old(stream).sound() ==> r is Ok && final(stream).sound(),
{
    let mut buffer: Vec<u8> = Vec::new();
    let mut chunk: Vec<u8> = Vec::new();
    let mut filled: usize = 0;
    while filled < CHUNK_SIZE
        invariant
            filled <= CHUNK_SIZE,
            chunk@.len() == filled,
        decreases CHUNK_SIZE - filled,
    {
        chunk.push(0);
        filled += 1;
    }
    let ghost all = stream.remaining();
    assert(buffer@ + stream.remaining() =~= all);
    loop
        invariant
            chunk@.len() == CHUNK_SIZE,
            buffer@ + stream.remaining() == all,
            all == old(stream).remaining(),
            old(stream).sound() ==> stream.sound(),
        decreases stream.remaining().len(),
    {
        let ghost before = stream.remaining();
        let n: usize = match stream.read(chunk.as_mut_slice()) {
            Ok(n) => n,
            Err(e) => {
                return Err(e);
            },
        };
        if n == 0 {
            assert(chunk@.take(0) + stream.remaining() =~= stream.remaining());
            assert(buffer@ =~= all);
            return Ok(buffer);
        }
        let ghost so_far = buffer@;
        append_bytes(&mut buffer, vstd::slice::slice_subrange(chunk.as_slice(), 0, n));
        proof {
            assert(chunk@.subrange(0, n as int) =~= chunk@.take(n as int));
            assert(buffer@ + stream.remaining() =~= so_far + (chunk@.take(n as int)
                + stream.remaining()));
        }
    }
}

} // verus!
