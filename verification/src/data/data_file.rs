use vstd::prelude::*;
use crate::data::log_record::{spec_decode, decode_at, LogRecord};
use crate::errors::Errors;

verus! {

/// One log segment: its id and the concatenation of the encoded records
/// appended to it so far. The caller that persists segments mirrors these
/// bytes to storage; reopening hands them back to `Engine::open`.
#[derive(Debug)]
pub struct DataFile {
    file_id: u32,
    contents: Vec<u8>,
}

/// The mathematical content of a segment.
pub struct DataFileView {
    pub file_id: u32,
    pub data: Seq<u8>,
}

impl View for DataFile {
    type V = DataFileView;

    closed spec fn view(&self) -> DataFileView {
        DataFileView { file_id: self.file_id, data: self.contents@ }
    }
}

impl DataFile {
    /// Opens a segment with the given id over the bytes it already holds;
    /// a brand-new segment starts from an empty vector.
    pub fn new(file_id: u32, contents: Vec<u8>) -> (r: DataFile)
        ensures
            r@ == (DataFileView { file_id, data: contents@ }),
    {
        DataFile { file_id, contents }
    }

    /// The segment's id.
    pub fn get_file_id(&self) -> (r: u32)
        ensures
            r == self@.file_id,
    {
        self.file_id
    }

    /// The append offset: the byte length of the segment.
    pub fn get_write_off(&self) -> (r: u64)
        ensures
            r == self@.data.len(),
    {
        self.contents.len() as u64
    }

    /// The raw bytes of the segment, for mirroring to storage.
    pub fn contents(&self) -> (r: &Vec<u8>)
        ensures
            r@ == self@.data,
    {
        &self.contents
    }

    /// Consumes the segment, handing out its raw bytes.
    pub fn into_contents(self) -> (r: Vec<u8>)
        ensures
            r@ == self@.data,
    {
        self.contents
    }

    /// Appends all of `buf` at the tail and reports the bytes written.
    pub fn write(&mut self, buf: &Vec<u8>) -> (r: Result<usize, Errors>)
        ensures
            r == Ok::<usize, Errors>(buf.len()),
            final(self)@.file_id == old(self)@.file_id,
            final(self)@.data == old(self)@.data + buf@,
    {
        self.contents.extend_from_slice(buf.as_slice());
        Ok(buf.len())
    }

    /// Flushes the segment. The in-memory bytes are always current; a caller
    /// that mirrors them to storage performs the durable flush there.
    pub fn sync(&self) -> (r: Result<(), Errors>)
        ensures
            r == Ok::<(), Errors>(()),
    {
        Ok(())
    }

    /// Cuts the segment back to `len` bytes; recovery uses this to drop a
    /// torn tail.
    pub fn truncate(&mut self, len: u64)
        requires
            len <= old(self)@.data.len(),
        ensures
            final(self)@.file_id == old(self)@.file_id,
            final(self)@.data == old(self)@.data.take(len as int),
    {
        self.contents.truncate(len as usize);
    }

    /// Reads and checks the record that starts at `offset`: the record and
    /// its encoded length.
    pub fn read_log_record(&self, offset: u64) -> (r: Result<(LogRecord, usize), Errors>)
        ensures
            r matches Ok((rec, n)) ==> offset + n <= self@.data.len() && spec_decode(
                self@.data.skip(offset as int),
            ) == Some((rec@, n as int)),
            r is Err ==> r == Err::<(LogRecord, usize), Errors>(Errors::Corrupted) && (offset
                > self@.data.len() || spec_decode(self@.data.skip(offset as int)) is None),
    {
        if offset > self.contents.len() as u64 {
            return Err(Errors::Corrupted);
        }
        decode_at(&self.contents, offset as usize)
    }
}

} // verus!
