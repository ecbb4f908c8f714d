//! Sources that bytes are read from in order.
use crate::bytes::copy_range;
use crate::error::{Error, ErrorView, Fault};
use vstd::prelude::*;

verus! {

/// Something that bytes are read from in order.
pub trait ByteSource {
    /// The bytes that are left to be read.
    spec fn rest(&self) -> Seq<u8>;

    /// Whether decryption fails after the bytes that are left.
    spec fn broken(&self) -> bool;

    /// The source is in a state to be read from.
    spec fn ready(&self) -> bool;

    /// Reads exactly `n` bytes.
    fn read_exact(&mut self, n: usize) -> (out: Result<Vec<u8>, Error>)
        requires
            old(self).ready(),
        ensures
            final(self).ready(),
            match out {
                Ok(bytes) => n <= old(self).rest().len() && bytes@ == old(self).rest().take(
                    n as int,
                ) && final(self).rest() == old(self).rest().skip(n as int) && final(self).broken()
                    == old(self).broken(),
                Err(e) => n > old(self).rest().len() && e@ == read_failure(old(self).broken()),
            },
    ;
}

/// How reading fails at the end of a source.
pub open spec fn read_failure(broken: bool) -> ErrorView {
    if broken {
        Fault::NotAuthentic
    } else {
        Fault::UnexpectedEof
    }
}

/// Bytes in memory as a source.
pub struct SliceSource<'a> {
    data: &'a [u8],
    at: usize,
}

impl<'a> SliceSource<'a> {
    /// The bytes of `data`, from the first one on.
    pub fn new(data: &'a [u8]) -> (out: SliceSource<'a>)
        ensures
            out.rest() == data@,
            !out.broken(),
            out.ready(),
    {
        let out = SliceSource { data, at: 0 };
        assert(out.rest() =~= data@);
        out
    }
}

impl<'a> ByteSource for SliceSource<'a> {
    closed spec fn rest(&self) -> Seq<u8> {
        self.data@.skip(self.at as int)
    }

    open spec fn broken(&self) -> bool {
        false
    }

    closed spec fn ready(&self) -> bool {
        self.at <= self.data@.len()
    }

    fn read_exact(&mut self, n: usize) -> (out: Result<Vec<u8>, Error>) {
        if n > self.data.len() - self.at {
            return Err(Fault::UnexpectedEof);
        }
        let ghost before = self.rest();
        let out: Vec<u8> = copy_range(self.data, self.at, self.at + n);
        assert(out@ =~= before.take(n as int));
        self.at = self.at + n;
        assert(self.rest() =~= before.skip(n as int));
        Ok(out)
    }
}

} // verus!
