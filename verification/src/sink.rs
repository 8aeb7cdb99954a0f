//! The sequential byte sink a file is written to: an append-only buffer that
//! exposes its absolute write position and a durable-sync operation, and that
//! can be made to fail from a chosen position onwards so that callers can
//! exercise every failure path of the writer.
//!
//! Callers that persist files hand the finished buffer to their own I/O layer
//! and perform the real durable sync there.

use vstd::prelude::*;

use crate::TsmError;

verus! {

/// The two kinds of sync a sink offers: `Hard` forces bytes to stable
/// storage before returning; `Soft` merely hands them to the system.
#[derive(Clone, Copy, PartialEq, Eq, Structural, Debug)]
pub enum FileSync {
    Hard,
    Soft,
}

/// An append-only cursor over a byte buffer.  Its position counter only ever
/// grows, and a write either appends the whole slice or fails and changes
/// nothing.
pub struct FileCursor {
    buf: Vec<u8>,
    fail_at: Option<usize>,
    hard_synced: bool,
}

impl FileCursor {
    /// Every byte written so far, in order.
    pub closed spec fn bytes(&self) -> Seq<u8> {
        self.buf@
    }

    /// The position from which writes are made to fail, if any.
    pub closed spec fn spec_fail_at(&self) -> Option<usize> {
        self.fail_at
    }

    /// Whether a hard sync has been performed.
    pub closed spec fn is_synced(&self) -> bool {
        self.hard_synced
    }

    /// A cursor never holds more bytes than its failure position allows;
    /// every constructor establishes this and every write preserves it.
    pub open spec fn wf(&self) -> bool {
        match self.spec_fail_at() {
            Option::None => true,
            Option::Some(f) => self.bytes().len() <= f,
        }
    }

    /// Whether an append of `n` more bytes stays below the failure position.
    pub open spec fn can_write(&self, n: int) -> bool {
        match self.spec_fail_at() {
            Option::None => true,
            Option::Some(f) => self.bytes().len() + n <= f,
        }
    }

    /// A fresh, empty, never-failing cursor.
    pub fn new() -> (r: FileCursor)
        ensures
            r.bytes() == Seq::<u8>::empty(),
            r.spec_fail_at() is None,
            !r.is_synced(),
            r.wf(),
    {
        FileCursor { buf: Vec::new(), fail_at: None, hard_synced: false }
    }

    /// A fresh cursor whose writes fail as soon as they would push the
    /// buffer past `limit` bytes.
    pub fn failing_after(limit: usize) -> (r: FileCursor)
        ensures
            r.bytes() == Seq::<u8>::empty(),
            r.spec_fail_at() == Some(limit),
            !r.is_synced(),
            r.wf(),
    {
        FileCursor { buf: Vec::new(), fail_at: Some(limit), hard_synced: false }
    }

    /// Appends a slice of bytes.  Succeeds, appending the whole slice and
    /// returning its length, exactly when the write stays below the failure
    /// position; a failed write leaves the cursor unchanged.
    pub fn write(&mut self, data: &[u8]) -> (r: Result<usize, TsmError>)
        ensures
            r is Ok <==> old(self).can_write(data@.len() as int),
            r matches Ok(n) ==> n == data@.len() && final(self).bytes() == old(self).bytes()
                + data@,
            r is Err ==> *final(self) == *old(self),
            final(self).spec_fail_at() == old(self).spec_fail_at(),
            final(self).is_synced() == old(self).is_synced(),
            old(self).wf() ==> final(self).wf(),
    {
        let allowed: bool = match self.fail_at {
            None => true,
            Some(f) => self.buf.len() <= f && data.len() <= f - self.buf.len(),
        };
        if allowed {
            let n = data.len();
            self.buf.extend_from_slice(data);
            Ok(n)
        } else {
            Err(TsmError::write_err("file sink write failed"))
        }
    }

    /// The absolute position the next byte would be written at, measured
    /// from the start of the file.
    pub fn pos(&self) -> (p: u64)
        ensures
            p == self.bytes().len(),
    {
        self.buf.len() as u64
    }

    /// The number of bytes written so far.
    pub fn len(&self) -> (n: usize)
        ensures
            n == self.bytes().len(),
    {
        self.buf.len()
    }

    /// Forces buffered bytes towards stable storage.  A hard sync marks the
    /// cursor as durably synced; the buffer itself never changes.
    pub fn sync_all(&mut self, mode: FileSync) -> (r: Result<(), TsmError>)
        ensures
            r is Ok,
            final(self).bytes() == old(self).bytes(),
            final(self).spec_fail_at() == old(self).spec_fail_at(),
            final(self).is_synced() == (old(self).is_synced() || mode == FileSync::Hard),
    {
        if matches!(mode, FileSync::Hard) {
            self.hard_synced = true;
        }
        Ok(())
    }

    /// Whether a hard sync has been performed.
    pub fn synced(&self) -> (r: bool)
        ensures
            r == self.is_synced(),
    {
        self.hard_synced
    }

    /// A view of the bytes written so far.
    pub fn as_bytes(&self) -> (r: &Vec<u8>)
        ensures
            r@ == self.bytes(),
    {
        &self.buf
    }

    /// Consumes the cursor, yielding the finished byte buffer.
    pub fn into_bytes(self) -> (r: Vec<u8>)
        ensures
            r@ == self.bytes(),
    {
        self.buf
    }
}

} // verus!
