//! The CBV container: the header, the file table and the blocks of each
//! file.

use vstd::prelude::*;
use vstd::slice::slice_subrange;
use crate::error::{result_view, Error};
use crate::filename::{filename, is_safe_name, name_of, safe_name, NAME_SIZE};
use crate::lzss::{decompress_block, unpacked};
use crate::table::{huffman, huffman_decoded};

verus! {

/// The size of the archive header in bytes.
pub const HEADER_SIZE: usize = 8;

/// The smallest size of a file record: the name and two 32-bit sizes.
pub const RECORD_MIN: usize = 140;

/// File meta-data.
#[derive(Debug)]
pub struct FileMetaData {
    pub compressed_size: i32,
    pub decompressed_size: i32,
    pub filename: String,
}

/// What a file record says: the name as text and the two sizes.
pub struct FileEntry {
    pub filename: Seq<char>,
    pub compressed_size: int,
    pub decompressed_size: int,
}

impl View for FileMetaData {
    type V = FileEntry;

    open spec fn view(&self) -> FileEntry {
        FileEntry {
            filename: self.filename@,
            compressed_size: self.compressed_size as int,
            decompressed_size: self.decompressed_size as int,
        }
    }
}

impl FileMetaData {
    /// Creates the meta-data of a file.
    pub fn new(filename: String, compressed_size: i32, decompressed_size: i32) -> (f:
        FileMetaData)
        ensures
            f.filename == filename,
            f.compressed_size == compressed_size,
            f.decompressed_size == decompressed_size,
    {
        FileMetaData { compressed_size, decompressed_size, filename }
    }
}

/// CBV archive header.
#[derive(Debug)]
pub struct Header {
    file_count: usize,
    filename_len: u8,
}

impl Header {
    #[verifier::type_invariant]
    spec fn bounded(&self) -> bool {
        self.file_count <= u16::MAX
    }

    /// The number of files in the archive.
    pub closed spec fn count(&self) -> nat {
        self.file_count as nat
    }

    /// The size of each record of the file table in bytes.
    pub closed spec fn record_len(&self) -> nat {
        self.filename_len as nat
    }

    /// Creates a header.
    pub fn new(file_count: u16, filename_len: u8) -> (h: Header)
        ensures
            h.count() == file_count,
            h.record_len() == filename_len,
    {
        Header { file_count: file_count as usize, filename_len }
    }

    /// The number of files in the archive.
    pub fn file_count(&self) -> (n: usize)
        ensures
            n == self.count(),
            n <= u16::MAX,
    {
        proof {
            use_type_invariant(self);
        }
        self.file_count
    }

    /// The size of each record of the file table in bytes.
    pub fn filename_len(&self) -> (n: u8)
        ensures
            n == self.record_len(),
    {
        self.filename_len
    }

    /// Get the total size of the file list in the header.
    pub fn total_size(&self) -> (n: usize)
        ensures
            n == self.count() * self.record_len(),
    {
        proof {
            use_type_invariant(self);
            assert(self.file_count * self.filename_len <= 65535 * 255) by (nonlinear_arith)
                requires
                    self.file_count <= 65535,
                    self.filename_len <= 255,
            ;
        }
        self.file_count * (self.filename_len as usize)
    }
}

/// The unsigned 16-bit number stored little-endian at `at`.
pub open spec fn le_u16(bytes: Seq<u8>, at: int) -> int {
    bytes[at] as int + 256 * (bytes[at + 1] as int)
}

/// The signed 32-bit number stored little-endian at `at`.
pub open spec fn le_i32(bytes: Seq<u8>, at: int) -> int {
    let u = bytes[at] as int + 256 * (bytes[at + 1] as int) + 65536 * (bytes[at + 2] as int)
        + 16777216 * (bytes[at + 3] as int);
    if u >= 0x8000_0000 {
        u - 0x1_0000_0000
    } else {
        u
    }
}

/// Whether the input starts with the magic number of the format.
pub open spec fn has_magic(bytes: Seq<u8>) -> bool {
    bytes.len() >= 2 && bytes[0] == 0x08 && bytes[1] == 0x00
}

/// Whether the input starts with a complete header.
pub open spec fn header_ok(bytes: Seq<u8>) -> bool {
    bytes.len() >= HEADER_SIZE && has_magic(bytes)
}

/// Convert a slice to a vector.
pub fn slice_to_vec<T: Copy>(slice: &[T]) -> (v: Vec<T>)
    ensures
        v@ == slice@,
{
    let mut v: Vec<T> = Vec::new();
    let mut i: usize = 0;
    while i < slice.len()
        invariant
            i <= slice@.len(),
            v@ == slice@.subrange(0, i as int),
        decreases slice@.len() - i,
    {
        v.push(slice[i]);
        assert(v@ =~= slice@.subrange(0, i + 1));
        i = i + 1;
    }
    assert(slice@.subrange(0, slice@.len() as int) =~= slice@);
    v
}

/// Reads the signed 32-bit little-endian number at `at`.
fn read_le_i32(input: &[u8], at: usize) -> (r: i32)
    requires
        at + 4 <= input@.len(),
    ensures
        r == le_i32(input@, at as int),
{
    let u: i64 = input[at] as i64 + 256 * (input[at + 1] as i64) + 65536 * (input[at + 2] as i64)
        + 16777216 * (input[at + 3] as i64);
    if u >= 0x8000_0000 {
        (u - 0x1_0000_0000) as i32
    } else {
        u as i32
    }
}

/// Parses the archive header and returns it with the rest of the input.
///
/// Fails where the input is shorter than a header or does not start with
/// the magic number.
pub fn header(input: &[u8]) -> (r: Result<(&[u8], Header), Error>)
    ensures
        match r {
            Ok((rest, h)) => {
                &&& header_ok(input@)
                &&& rest@ == input@.skip(HEADER_SIZE as int)
                &&& h.count() == le_u16(input@, 2)
                &&& h.record_len() == input@[4]
            },
            Err(e) => e == Error::MalformedContainer && !header_ok(input@),
        },
{
    if input.len() < HEADER_SIZE {
        return Err(Error::MalformedContainer);
    }
    if input[0] != 0x08 || input[1] != 0x00 {
        return Err(Error::MalformedContainer);
    }
    let file_count: u16 = input[2] as u16 + 256 * (input[3] as u16);
    let filename_len = input[4];
    let rest = slice_subrange(input, HEADER_SIZE, input.len());
    assert(rest@ =~= input@.skip(HEADER_SIZE as int));
    Ok((rest, Header::new(file_count, filename_len)))
}

/// The views of a list of files.
pub open spec fn entries(files: Seq<FileMetaData>) -> Seq<FileEntry> {
    Seq::new(files.len(), |i: int| files[i]@)
}

/// What a file record of at least 140 bytes says, or `None` where its name
/// is no text.
pub open spec fn entry_of(record: Seq<u8>) -> Option<FileEntry> {
    match name_of(record.subrange(0, NAME_SIZE as int)) {
        Some(name) => Some(
            FileEntry {
                filename: name,
                compressed_size: le_i32(record, NAME_SIZE as int),
                decompressed_size: le_i32(record, NAME_SIZE + 4),
            },
        ),
        None => None,
    }
}

/// Record `k` of a file table whose records are `width` bytes wide.
pub open spec fn record_at(table: Seq<u8>, width: int, k: int) -> Seq<u8> {
    table.subrange(k * width, (k + 1) * width)
}

/// What the first `n` records of a file table say, or `None` where one of
/// them has a name that is no text.
pub open spec fn entries_upto(table: Seq<u8>, width: int, n: nat) -> Option<Seq<FileEntry>>
    decreases n,
{
    if n == 0 {
        Some(Seq::empty())
    } else {
        match entries_upto(table, width, (n - 1) as nat) {
            None => None,
            Some(before) => match entry_of(record_at(table, width, n - 1)) {
                None => None,
                Some(entry) => Some(before.push(entry)),
            },
        }
    }
}

/// What a file table of `count` records of `width` bytes says, or `None`
/// where the input is shorter than the table, a record is too narrow for
/// a name and two sizes, or a name is no text.
pub open spec fn file_table(input: Seq<u8>, count: nat, width: nat) -> Option<Seq<FileEntry>> {
    if input.len() < count * width || (count > 0 && width < RECORD_MIN) {
        None
    } else {
        entries_upto(input, width as int, count)
    }
}

/// The files that an archive lists, or `None` where its header or its
/// file table is malformed.
pub open spec fn listing(input: Seq<u8>) -> Option<Seq<FileEntry>> {
    if !header_ok(input) {
        None
    } else {
        file_table(input.skip(HEADER_SIZE as int), le_u16(input, 2) as nat, input[4] as nat)
    }
}

/// The number of bytes of an archive before the first file: the header
/// and the file table.
pub open spec fn data_start(input: Seq<u8>) -> int {
    HEADER_SIZE + le_u16(input, 2) * (input[4] as int)
}

/// A file table with an unreadable record is unreadable as a whole.
pub proof fn lemma_entries_none(table: Seq<u8>, width: int, k: nat, n: nat)
    requires
        k <= n,
        entries_upto(table, width, k) is None,
    ensures
        entries_upto(table, width, n) is None,
    decreases n,
{
    if k < n {
        lemma_entries_none(table, width, k, (n - 1) as nat);
    }
}

/// A readable file table has one entry for each record, and each entry
/// is what its record says.
pub proof fn lemma_entries(table: Seq<u8>, width: int, n: nat)
    requires
        entries_upto(table, width, n) is Some,
    ensures
        entries_upto(table, width, n).unwrap().len() == n,
        forall|i: int|
            0 <= i < n ==> entry_of(record_at(table, width, i)) == Some(
                #[trigger] entries_upto(table, width, n).unwrap()[i],
            ),
    decreases n,
{
    if n > 0 {
        lemma_entries(table, width, (n - 1) as nat);
    }
}

/// Parse the file metadata (name and sizes).
///
/// Reads a name field and two signed 32-bit little-endian sizes, and
/// returns them with the rest of the input.
pub fn file_metadata(input: &[u8]) -> (r: Result<(&[u8], FileMetaData), Error>)
    ensures
        match r {
            Ok((rest, file)) => {
                &&& input@.len() >= RECORD_MIN
                &&& rest@ == input@.skip(RECORD_MIN as int)
                &&& entry_of(input@) == Some(file@)
            },
            Err(e) => e == Error::MalformedContainer && (input@.len() < RECORD_MIN || entry_of(
                input@,
            ) is None),
        },
{
    if input.len() < RECORD_MIN {
        return Err(Error::MalformedContainer);
    }
    match filename(input) {
        Err(e) => Err(e),
        Ok((_, name)) => {
            let compressed_size = read_le_i32(input, NAME_SIZE);
            let decompressed_size = read_le_i32(input, NAME_SIZE + 4);
            let rest = slice_subrange(input, RECORD_MIN, input.len());
            assert(rest@ =~= input@.skip(RECORD_MIN as int));
            Ok((rest, FileMetaData::new(name, compressed_size, decompressed_size)))
        },
    }
}

/// Parse the file list.
///
/// Reads as many records as the header counts, each as wide as the header
/// says, and returns them with the rest of the input. Bytes of a record
/// after the sizes are skipped.
pub fn file_list(input: &[u8], header: Header) -> (r: Result<(&[u8], Vec<FileMetaData>), Error>)
    ensures
        match r {
            Ok((rest, files)) => {
                &&& file_table(input@, header.count(), header.record_len()) == Some(
                    entries(files@),
                )
                &&& rest@ == input@.skip((header.count() * header.record_len()) as int)
            },
            Err(e) => e == Error::MalformedContainer && file_table(
                input@,
                header.count(),
                header.record_len(),
            ) is None,
        },
{
    let count = header.file_count();
    let width = header.filename_len() as usize;
    let total = header.total_size();
    if input.len() < total {
        return Err(Error::MalformedContainer);
    }
    if count > 0 && width < RECORD_MIN {
        return Err(Error::MalformedContainer);
    }
    let mut files: Vec<FileMetaData> = Vec::new();
    let mut k: usize = 0;
    let mut offset: usize = 0;
    while k < count
        invariant
            k <= count,
            count == header.count(),
            width == header.record_len(),
            total == count * width,
            total <= input@.len(),
            count > 0 ==> width >= RECORD_MIN,
            offset == k * width,
            entries_upto(input@, width as int, k as nat) == Some(entries(files@)),
        decreases count - k,
    {
        proof {
            assert((k + 1) * width == k * width + width) by (nonlinear_arith);
            assert((k + 1) * width <= count * width) by (nonlinear_arith)
                requires
                    k + 1 <= count,
                    width >= 0,
            ;
        }
        let record = slice_subrange(input, offset, offset + width);
        assert(record@ == record_at(input@, width as int, k as int));
        match file_metadata(record) {
            Err(e) => {
                proof {
                    lemma_entries_none(input@, width as int, (k + 1) as nat, count as nat);
                }
                return Err(e);
            },
            Ok((_, file)) => {
                let ghost before = entries(files@);
                files.push(file);
                assert(entries(files@) =~= before.push(file@));
            },
        }
        offset = offset + width;
        k = k + 1;
    }
    let rest = slice_subrange(input, total, input.len());
    assert(rest@ =~= input@.skip(total as int));
    Ok((rest, files))
}

/// Parse only the filenames from the archive.
///
/// Reads the header and the file table, and returns the files with the
/// rest of the input, where the first file begins.
pub fn extract_file_list(input: &[u8]) -> (r: Result<(&[u8], Vec<FileMetaData>), Error>)
    ensures
        match r {
            Ok((rest, files)) => {
                &&& listing(input@) == Some(entries(files@))
                &&& data_start(input@) <= input@.len()
                &&& rest@ == input@.skip(data_start(input@))
            },
            Err(e) => e == Error::MalformedContainer && listing(input@) is None,
        },
{
    match header(input) {
        Err(e) => Err(e),
        Ok((after_header, h)) => match file_list(after_header, h) {
            Err(e) => Err(e),
            Ok((rest, files)) => {
                assert(rest@ =~= input@.skip(data_start(input@)));
                Ok((rest, files))
            },
        },
    }
}

/// The size of a block header in bytes: the payload size and two bytes
/// that are skipped.
pub const BLOCK_HEADER_SIZE: usize = 4;

/// Block compression flags.
#[derive(Clone, Copy, Debug)]
pub struct CompressionFlags {
    pub compressed: bool,
    pub huffman_encoded: bool,
}

/// The flags that a flag byte stands for: bit 0 for compression, bit 1
/// for Huffman coding. `None` for a byte above 3.
pub open spec fn flags_of(byte: u8) -> Option<CompressionFlags> {
    if byte > 3 {
        None
    } else {
        Some(CompressionFlags { compressed: byte % 2 == 1, huffman_encoded: byte >= 2 })
    }
}

/// The bytes that the payload of a block stands for.
pub open spec fn block_decoded(payload: Seq<u8>) -> Result<Seq<u8>, Error> {
    if payload.len() == 0 {
        Err(Error::UnexpectedEof)
    } else {
        match flags_of(payload[0]) {
            None => Err(Error::MalformedContainer),
            Some(flags) => {
                let body = payload.skip(1);
                let decoded = if flags.huffman_encoded {
                    huffman_decoded(body)
                } else {
                    Ok(body)
                };
                match decoded {
                    Err(e) => Err(e),
                    Ok(data) => if flags.compressed {
                        unpacked(data)
                    } else {
                        Ok(data)
                    },
                }
            },
        }
    }
}

/// A block whose flag byte is zero stands for its body as it is.
pub proof fn lemma_stored_block(body: Seq<u8>)
    ensures
        block_decoded(seq![0u8] + body) == Ok::<Seq<u8>, Error>(body),
{
    let payload = seq![0u8] + body;
    assert(payload.skip(1) =~= body);
    assert(payload[0] == 0);
}

/// The blocks of a file are decoded in their order, each after what the
/// blocks before it gave.
pub proof fn lemma_blocks_append(region: Seq<u8>, pos: int, out: Seq<u8>)
    requires
        blocks_decoded(region, pos, out) is Ok,
    ensures
        out.len() <= blocks_decoded(region, pos, out).unwrap().len(),
        blocks_decoded(region, pos, out).unwrap().subrange(0, out.len() as int) == out,
    decreases region.len() - pos,
{
    if pos < 0 || pos >= region.len() {
        assert(out.subrange(0, out.len() as int) =~= out);
    } else {
        let end = pos + BLOCK_HEADER_SIZE + block_size(region, pos);
        let data = block_decoded(region.subrange(pos + BLOCK_HEADER_SIZE, end)).unwrap();
        lemma_blocks_append(region, end, out + data);
        let all = blocks_decoded(region, end, out + data).unwrap();
        assert(all.subrange(0, out.len() as int) =~= all.subrange(
            0,
            (out + data).len() as int,
        ).subrange(0, out.len() as int));
        assert((out + data).subrange(0, out.len() as int) =~= out);
    }
}

/// A file is decoded only to the size that the file table declares.
pub proof fn lemma_file_size(region: Seq<u8>, decompressed_size: int)
    requires
        file_decoded(region, decompressed_size) is Ok,
    ensures
        file_decoded(region, decompressed_size).unwrap().len() == decompressed_size,
{
}

/// The payload size that the block header at `pos` declares.
pub open spec fn block_size(region: Seq<u8>, pos: int) -> int {
    le_u16(region, pos)
}

/// The bytes that the blocks of a file region stand for from `pos` on,
/// after `out`.
pub open spec fn blocks_decoded(region: Seq<u8>, pos: int, out: Seq<u8>) -> Result<Seq<u8>, Error>
    decreases region.len() - pos,
{
    if pos < 0 || pos >= region.len() {
        Ok(out)
    } else if pos + BLOCK_HEADER_SIZE > region.len() {
        Err(Error::UnexpectedEof)
    } else {
        let end = pos + BLOCK_HEADER_SIZE + block_size(region, pos);
        if end > region.len() {
            Err(Error::UnexpectedEof)
        } else {
            match block_decoded(region.subrange(pos + BLOCK_HEADER_SIZE, end)) {
                Err(e) => Err(e),
                Ok(data) => blocks_decoded(region, end, out + data),
            }
        }
    }
}

/// The content of a file, given the bytes of its blocks and the size
/// that the file table declares for it.
pub open spec fn file_decoded(region: Seq<u8>, decompressed_size: int) -> Result<Seq<u8>, Error> {
    match blocks_decoded(region, 0, Seq::empty()) {
        Err(e) => Err(e),
        Ok(data) => if data.len() == decompressed_size {
            Ok(data)
        } else {
            Err(Error::SizeMismatch)
        },
    }
}

/// Where the blocks of file `i` begin, counted from the first byte after
/// the file table.
pub open spec fn region_start(files: Seq<FileEntry>, i: int) -> int
    decreases i,
{
    if i <= 0 {
        0
    } else {
        region_start(files, i - 1) + files[i - 1].compressed_size
    }
}

/// Whether the blocks of file `i` lie within `len` bytes of data: no file
/// up to it has a negative size, and it ends within the data.
pub open spec fn located(files: Seq<FileEntry>, len: int, i: int) -> bool
    decreases i + 1,
{
    if i < 0 {
        true
    } else {
        located(files, len, i - 1) && files[i].compressed_size >= 0 && region_start(files, i + 1)
            <= len
    }
}

/// The content of file `i` of an archive whose files begin at `data`.
pub open spec fn outcome(files: Seq<FileEntry>, data: Seq<u8>, i: int) -> Result<Seq<u8>, Error> {
    if !safe_name(files[i].filename) {
        Err(Error::UnsafePath)
    } else if !located(files, data.len() as int, i) {
        Err(Error::UnexpectedEof)
    } else {
        file_decoded(
            data.subrange(region_start(files, i), region_start(files, i + 1)),
            files[i].decompressed_size,
        )
    }
}

/// A file taken from an archive: its name, and its content or the reason
/// why it could not be decoded.
#[derive(Debug)]
pub struct ExtractedFile {
    pub filename: String,
    pub content: Result<Vec<u8>, Error>,
}

/// What an extracted file holds: the name as text, and the bytes of the
/// content or the error.
pub struct Extracted {
    pub filename: Seq<char>,
    pub content: Result<Seq<u8>, Error>,
}

impl View for ExtractedFile {
    type V = Extracted;

    open spec fn view(&self) -> Extracted {
        Extracted { filename: self.filename@, content: result_view(self.content) }
    }
}

/// The views of a list of extracted files.
pub open spec fn extracts(files: Seq<ExtractedFile>) -> Seq<Extracted> {
    Seq::new(files.len(), |i: int| files[i]@)
}

/// The files of a plain archive, in the order of its file table, each
/// with its content or the reason why it cannot be decoded. Fails where
/// the header or the file table is malformed.
pub open spec fn extraction(input: Seq<u8>) -> Result<Seq<Extracted>, Error> {
    match listing(input) {
        None => Err(Error::MalformedContainer),
        Some(files) => Ok(
            Seq::new(
                files.len(),
                |i: int|
                    Extracted {
                        filename: files[i].filename,
                        content: outcome(files, input.skip(data_start(input)), i),
                    },
            ),
        ),
    }
}

/// Parse the compression flag.
///
/// Reads the flag byte at the start of a block payload and returns the
/// flags with the rest of the payload.
pub fn compression_flag(input: &[u8]) -> (r: Result<(&[u8], CompressionFlags), Error>)
    ensures
        match r {
            Ok((rest, flags)) => {
                &&& input@.len() >= 1
                &&& flags_of(input@[0]) == Some(flags)
                &&& rest@ == input@.skip(1)
            },
            Err(e) => if input@.len() == 0 {
                e == Error::UnexpectedEof
            } else {
                e == Error::MalformedContainer && flags_of(input@[0]) is None
            },
        },
{
    if input.len() == 0 {
        return Err(Error::UnexpectedEof);
    }
    let byte = input[0];
    if byte > 3 {
        return Err(Error::MalformedContainer);
    }
    let rest = slice_subrange(input, 1, input.len());
    assert(rest@ =~= input@.skip(1));
    Ok((rest, CompressionFlags { compressed: byte % 2 == 1, huffman_encoded: byte >= 2 }))
}

/// Extract, decode and decompress a block.
///
/// Takes the payload of a block: the flag byte and the body, which is
/// Huffman-decoded and then decompressed as the flags say.
pub fn extract_block(input: &[u8]) -> (r: Result<Vec<u8>, Error>)
    ensures
        result_view(r) == block_decoded(input@),
{
    match compression_flag(input) {
        Err(e) => Err(e),
        Ok((body, flags)) => {
            let decoded = if flags.huffman_encoded {
                huffman(body)
            } else {
                Ok(slice_to_vec(body))
            };
            match decoded {
                Err(e) => Err(e),
                Ok(data) => if flags.compressed {
                    decompress_block(data)
                } else {
                    Ok(data)
                },
            }
        },
    }
}

/// Parse a compressed block.
///
/// Reads a block header and the payload that it declares, and returns the
/// decoded bytes with the rest of the input.
pub fn block(input: &[u8]) -> (r: Result<(&[u8], Vec<u8>), Error>)
    ensures
        match r {
            Ok((rest, data)) => {
                &&& input@.len() >= BLOCK_HEADER_SIZE + block_size(input@, 0)
                &&& rest@ == input@.skip(BLOCK_HEADER_SIZE + block_size(input@, 0))
                &&& block_decoded(
                    input@.subrange(
                        BLOCK_HEADER_SIZE as int,
                        BLOCK_HEADER_SIZE + block_size(input@, 0),
                    ),
                ) == Ok::<Seq<u8>, Error>(data@)
            },
            Err(e) => if input@.len() < BLOCK_HEADER_SIZE || input@.len() < BLOCK_HEADER_SIZE
                + block_size(input@, 0) {
                e == Error::UnexpectedEof
            } else {
                block_decoded(
                    input@.subrange(
                        BLOCK_HEADER_SIZE as int,
                        BLOCK_HEADER_SIZE + block_size(input@, 0),
                    ),
                ) == Err::<Seq<u8>, Error>(e)
            },
        },
{
    if input.len() < BLOCK_HEADER_SIZE {
        return Err(Error::UnexpectedEof);
    }
    let size: usize = input[0] as usize + 256 * (input[1] as usize);
    if input.len() - BLOCK_HEADER_SIZE < size {
        return Err(Error::UnexpectedEof);
    }
    let end = BLOCK_HEADER_SIZE + size;
    let payload = slice_subrange(input, BLOCK_HEADER_SIZE, end);
    match extract_block(payload) {
        Err(e) => Err(e),
        Ok(data) => {
            let rest = slice_subrange(input, end, input.len());
            assert(rest@ =~= input@.skip(end as int));
            Ok((rest, data))
        },
    }
}

/// Extract a file from the archive.
///
/// Takes the bytes of the blocks of the file, decodes one block after the
/// other and checks the length of the result against the size that the
/// file table declares.
pub fn extract_file(input: &[u8], file: &FileMetaData) -> (r: Result<Vec<u8>, Error>)
    ensures
        result_view(r) == file_decoded(input@, file@.decompressed_size),
{
    let mut out: Vec<u8> = Vec::new();
    let mut pos: usize = 0;
    while pos < input.len()
        invariant
            pos <= input@.len(),
            blocks_decoded(input@, pos as int, out@) == blocks_decoded(input@, 0, Seq::empty()),
        decreases input@.len() - pos,
    {
        let rest = slice_subrange(input, pos, input.len());
        proof {
            if rest@.len() >= BLOCK_HEADER_SIZE {
                assert(block_size(rest@, 0) == block_size(input@, pos as int));
                if rest@.len() >= BLOCK_HEADER_SIZE + block_size(rest@, 0) {
                    assert(rest@.subrange(
                        BLOCK_HEADER_SIZE as int,
                        BLOCK_HEADER_SIZE + block_size(rest@, 0),
                    ) =~= input@.subrange(
                        pos + BLOCK_HEADER_SIZE,
                        pos + BLOCK_HEADER_SIZE + block_size(input@, pos as int),
                    ));
                }
            }
        }
        match block(rest) {
            Err(e) => {
                return Err(e);
            },
            Ok((after, data)) => {
                let mut data = data;
                out.append(&mut data);
                pos = input.len() - after.len();
            },
        }
    }
    if file.decompressed_size >= 0 && out.len() == file.decompressed_size as usize {
        Ok(out)
    } else {
        Err(Error::SizeMismatch)
    }
}

/// Extract the files from the archive.
///
/// Reads the header and the file table, then decodes each file in the
/// order of the table. A file that cannot be decoded, or whose name would
/// lead out of the output directory, has its error as content, and the
/// files after it are still decoded. Fails as a whole only where the
/// header or the file table is malformed.
pub fn extract_files(input: &[u8]) -> (r: Result<Vec<ExtractedFile>, Error>)
    ensures
        match r {
            Ok(out) => extraction(input@) == Ok::<Seq<Extracted>, Error>(extracts(out@)),
            Err(e) => extraction(input@) == Err::<Seq<Extracted>, Error>(e),
        },
{
    match extract_file_list(input) {
        Err(e) => Err(e),
        Ok((data, files)) => {
            let ghost list = entries(files@);
            let mut out: Vec<ExtractedFile> = Vec::new();
            let mut offset: usize = 0;
            let mut lost = false;
            let mut k: usize = 0;
            while k < files.len()
                invariant
                    k <= files@.len(),
                    list == entries(files@),
                    out@.len() == k,
                    offset <= data@.len(),
                    lost ==> !located(list, data@.len() as int, k - 1),
                    !lost ==> located(list, data@.len() as int, k - 1) && offset == region_start(
                        list,
                        k as int,
                    ),
                    forall|i: int|
                        0 <= i < k ==> {
                            &&& (#[trigger] out@[i]).filename@ == list[i].filename
                            &&& result_view(out@[i].content) == outcome(list, data@, i)
                        },
                decreases files@.len() - k,
            {
                let file = &files[k];
                assert(file@ == list[k as int]);
                let size = file.compressed_size;
                let mut region: Option<&[u8]> = None;
                if !lost {
                    if size >= 0 && size as usize <= data.len() - offset {
                        region = Some(slice_subrange(data, offset, offset + size as usize));
                        offset = offset + size as usize;
                    } else {
                        lost = true;
                    }
                }
                let content = if !is_safe_name(file.filename.as_str()) {
                    Err(Error::UnsafePath)
                } else {
                    match region {
                        None => Err(Error::UnexpectedEof),
                        Some(bytes) => extract_file(bytes, file),
                    }
                };
                out.push(ExtractedFile { filename: file.filename.clone(), content });
                k = k + 1;
            }
            assert(extraction(input@).unwrap() =~= extracts(out@));
            Ok(out)
        },
    }
}

} // verus!
