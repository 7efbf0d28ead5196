//! An in-memory byte source with a read position, from which the codecs take
//! exact runs of bytes, partial runs and text lines.
use crate::errors::IoFailure;
use vstd::prelude::*;

verus! {

/// A byte buffer that is read front to back.
#[derive(Debug, Default)]
pub struct TextReportReader {
    data: Vec<u8>,
    position: usize,
}

/// Offset of the first line feed at or after `pos`, or the length of `data`.
pub open spec fn line_end(data: Seq<u8>, pos: int) -> int
    decreases data.len() - pos,
{
    if pos < 0 || pos >= data.len() {
        data.len() as int
    } else if data[pos] == 10 {
        pos
    } else {
        line_end(data, pos + 1)
    }
}

/// The line that starts at `pos`: the bytes up to the next line feed, without
/// it and without a carriage return right before it.
pub open spec fn line_at(data: Seq<u8>, pos: int) -> Seq<u8> {
    let end = line_end(data, pos);
    if pos < end < data.len() && data[end - 1] == 13 {
        data.subrange(pos, end - 1)
    } else {
        data.subrange(pos, end)
    }
}

/// Offset at which the line after the one at `pos` starts.
pub open spec fn next_line(data: Seq<u8>, pos: int) -> int {
    let end = line_end(data, pos);
    if end < data.len() {
        end + 1
    } else {
        end
    }
}

/// The line end lies between the position and the end of the data, with no
/// line feed before it.
pub proof fn lemma_line_end(data: Seq<u8>, pos: int)
    requires
        0 <= pos <= data.len(),
    ensures
        pos <= line_end(data, pos) <= data.len(),
        line_end(data, pos) < data.len() ==> data[line_end(data, pos)] == 10,
        forall|j: int| pos <= j < line_end(data, pos) ==> data[j] != 10,
    decreases data.len() - pos,
{
    if pos < data.len() && data[pos] != 10 {
        lemma_line_end(data, pos + 1);
    }
}

/// The line end is the one offset that holds a line feed with none before it.
pub proof fn lemma_line_end_is(data: Seq<u8>, pos: int, end: int)
    requires
        0 <= pos <= end <= data.len(),
        forall|j: int| pos <= j < end ==> data[j] != 10,
        end < data.len() ==> data[end] == 10,
    ensures
        line_end(data, pos) == end,
    decreases end - pos,
{
    if pos < end {
        lemma_line_end_is(data, pos + 1, end);
    }
}

impl TextReportReader {
    #[verifier::type_invariant]
    spec fn in_bounds(&self) -> bool {
        self.position <= self.data.len()
    }

    /// All bytes of the source, read or not.
    pub closed spec fn bytes(&self) -> Seq<u8> {
        self.data@
    }

    /// Number of bytes read so far.
    pub closed spec fn offset(&self) -> int {
        self.position as int
    }

    /// A source over `data`, positioned at its first byte.
    pub fn new(data: Vec<u8>) -> (r: Self)
        ensures
            r.bytes() == data@,
            r.offset() == 0,
    {
        Self { data, position: 0 }
    }

    /// Number of bytes not read yet.
    pub fn remaining(&self) -> (n: usize)
        ensures
            n == self.bytes().len() - self.offset(),
            0 <= self.offset() <= self.bytes().len(),
    {
        proof {
            use_type_invariant(self);
        }
        self.data.len() - self.position
    }

    /// Reads up to `n` bytes: all `n` where that many are left, else the rest.
    pub fn read(&mut self, n: usize) -> (out: Vec<u8>)
        ensures
            final(self).bytes() == old(self).bytes(),
            0 <= old(self).offset() <= final(self).offset() <= old(self).bytes().len(),
            out@.len() == if n <= old(self).bytes().len() - old(self).offset() {
                n as int
            } else {
                old(self).bytes().len() - old(self).offset()
            },
            final(self).offset() == old(self).offset() + out@.len(),
            out@ == old(self).bytes().subrange(old(self).offset(), final(self).offset()),
    {
        proof {
            use_type_invariant(&*self);
        }
        let left = self.data.len() - self.position;
        let take = if n <= left { n } else { left };
        let start = self.position;
        let mut out: Vec<u8> = Vec::new();
        let mut i: usize = 0;
        while i < take
            invariant
                i <= take,
                start + take <= self.data.len(),
                out@ == self.data@.subrange(start as int, start + i),
            decreases take - i,
        {
            out.push(self.data[start + i]);
            i += 1;
            assert(out@ =~= self.data@.subrange(start as int, start + i));
        }
        self.position = start + take;
        out
    }

    /// Reads exactly `n` bytes. Where fewer are left the source is drained and
    /// the read fails.
    pub fn read_exact(&mut self, n: usize) -> (res: Result<Vec<u8>, IoFailure>)
        ensures
            final(self).bytes() == old(self).bytes(),
            0 <= old(self).offset() <= final(self).offset() <= old(self).bytes().len(),
            match res {
                Ok(out) => {
                    &&& old(self).offset() + n <= old(self).bytes().len()
                    &&& final(self).offset() == old(self).offset() + n
                    &&& out@ == old(self).bytes().subrange(old(self).offset(), final(self).offset())
                },
                Err(e) => {
                    &&& old(self).offset() + n > old(self).bytes().len()
                    &&& final(self).offset() == old(self).bytes().len()
                    &&& e == IoFailure::UnexpectedEof
                },
            },
    {
        proof {
            use_type_invariant(&*self);
        }
        if n <= self.data.len() - self.position {
            Ok(self.read(n))
        } else {
            self.position = self.data.len();
            Err(IoFailure::UnexpectedEof)
        }
    }

    /// Reads the next line, without its terminator; `None` at the end of the
    /// source.
    pub fn read_line(&mut self) -> (res: Option<Vec<u8>>)
        ensures
            final(self).bytes() == old(self).bytes(),
            0 <= old(self).offset() <= final(self).offset() <= old(self).bytes().len(),
            res is None <==> old(self).offset() == old(self).bytes().len(),
            res is None ==> final(self).offset() == old(self).offset(),
            res matches Some(line) ==> {
                &&& line@ == line_at(old(self).bytes(), old(self).offset())
                &&& final(self).offset() == next_line(old(self).bytes(), old(self).offset())
                &&& final(self).offset() > old(self).offset()
            },
    {
        proof {
            use_type_invariant(&*self);
        }
        let start = self.position;
        let n = self.data.len();
        if start == n {
            return None;
        }
        let mut end: usize = start;
        while end < n && self.data[end] != 10
            invariant
                start <= end <= n == self.data.len(),
                forall|j: int| start <= j < end ==> self.data@[j] != 10,
            decreases n - end,
        {
            end += 1;
        }
        proof {
            lemma_line_end_is(self.data@, start as int, end as int);
        }
        let stop = if start < end && end < n && self.data[end - 1] == 13 { end - 1 } else { end };
        let mut line: Vec<u8> = Vec::new();
        let mut i: usize = start;
        while i < stop
            invariant
                start <= i <= stop <= self.data.len(),
                line@ == self.data@.subrange(start as int, i as int),
            decreases stop - i,
        {
            line.push(self.data[i]);
            i += 1;
            assert(line@ =~= self.data@.subrange(start as int, i as int));
        }
        self.position = if end < n { end + 1 } else { end };
        Some(line)
    }
}

} // verus!
