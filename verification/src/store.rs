//! The chunked record store: length-prefixed frames, compressed chunks, and
//! an index that records each chunk's sequence range and SHA-256.
use vstd::prelude::*;
use vstd::bytes::{spec_u32_from_le_bytes, spec_u32_to_le_bytes};
use crate::text;

verus! {

/// The bytes of the little-endian length before each record.
pub const LENGTH_PREFIX_BYTES: usize = 4;

/// The zstd compression level of chunks.
pub const ZSTD_LEVEL: i32 = 3;

/// Errors of the store's own logic.
#[derive(Debug)]
pub enum StoreError {
    /// A chunk or record does not have the expected shape.
    Malformed(String),
    /// A chunk's SHA-256 is not the one its index entry records.
    Integrity(String),
    /// A chunk must hold at least one record.
    InvalidChunkSize,
    /// Compressing or decompressing a chunk failed.
    Compression(String),
    /// Every chunk number has been used.
    ChunkNumbersExhausted,
}

/// One entry of the chunk index.
#[derive(Clone, PartialEq, Eq, Debug)]
pub struct ChunkIndexEntry {
    pub name: String,
    pub first_seq: u64,
    pub last_seq: u64,
    pub records: u64,
    pub bytes: u64,
    pub sha256: String,
}

/// An index entry in mathematical terms.
pub ghost struct EntryView {
    pub name: Seq<char>,
    pub first_seq: u64,
    pub last_seq: u64,
    pub records: u64,
    pub bytes: u64,
    pub sha256: Seq<char>,
}

impl View for ChunkIndexEntry {
    type V = EntryView;

    open spec fn view(&self) -> EntryView {
        EntryView {
            name: self.name@,
            first_seq: self.first_seq,
            last_seq: self.last_seq,
            records: self.records,
            bytes: self.bytes,
            sha256: self.sha256@,
        }
    }
}

pub open spec fn entry_views(entries: Seq<ChunkIndexEntry>) -> Seq<EntryView> {
    entries.map_values(|e: ChunkIndexEntry| e@)
}

// ---------------------------------------------------------------- frames

/// A record framed with its four byte little-endian length.
pub open spec fn frame(record: Seq<u8>) -> Seq<u8> {
    spec_u32_to_le_bytes(record.len() as u32) + record
}

/// Records framed one after another.
pub open spec fn frames(records: Seq<Seq<u8>>) -> Seq<u8>
    decreases records.len(),
{
    if records.len() == 0 {
        Seq::empty()
    } else {
        frame(records[0]) + frames(records.drop_first())
    }
}

/// Every record fits the four byte length prefix.
pub open spec fn frameable(records: Seq<Seq<u8>>) -> bool {
    forall|i: int| 0 <= i < records.len() ==> (#[trigger] records[i]).len() <= u32::MAX
}

/// Reads a body of frames back into records; `None` when the body stops
/// inside a length prefix or inside a record.
pub open spec fn unframe(body: Seq<u8>) -> Option<Seq<Seq<u8>>>
    decreases body.len(),
{
    if body.len() == 0 {
        Some(Seq::empty())
    } else if body.len() < 4 {
        None
    } else {
        let n = spec_u32_from_le_bytes(body.take(4)) as int;
        if body.len() - 4 < n {
            None
        } else {
            match unframe(body.skip(4 + n)) {
                Some(rest) => Some(seq![body.subrange(4, 4 + n)] + rest),
                None => None,
            }
        }
    }
}

pub proof fn lemma_frames_push(records: Seq<Seq<u8>>, r: Seq<u8>)
    ensures
        frames(records.push(r)) == frames(records) + frame(r),
    decreases records.len(),
{
    if records.len() == 0 {
        assert(records.push(r).drop_first() =~= Seq::<Seq<u8>>::empty());
        assert(frames(Seq::<Seq<u8>>::empty()) == Seq::<u8>::empty());
        assert(frames(records.push(r)) =~= frame(r) + Seq::<u8>::empty());
    } else {
        assert(records.push(r).drop_first() =~= records.drop_first().push(r));
        lemma_frames_push(records.drop_first(), r);
        assert(frames(records.push(r)) =~= frames(records) + frame(r));
    }
}

/// Framing round-trips: reading framed records gives the records back.
pub proof fn lemma_unframe_frames(records: Seq<Seq<u8>>)
    requires
        frameable(records),
    ensures
        unframe(frames(records)) == Some(records),
    decreases records.len(),
{
    vstd::bytes::lemma_auto_spec_u32_to_from_le_bytes();
    if records.len() > 0 {
        let r = records[0];
        let rest = records.drop_first();
        assert(frameable(rest)) by {
            assert forall|i: int| 0 <= i < rest.len() implies (#[trigger] rest[i]).len()
                <= u32::MAX by {
                assert(rest[i] == records[i + 1]);
            }
        }
        lemma_unframe_frames(rest);
        let body = frames(records);
        let prefix = spec_u32_to_le_bytes(r.len() as u32);
        assert(body =~= prefix + r + frames(rest));
        assert(body.take(4) =~= prefix);
        assert(r.len() <= u32::MAX);
        assert(spec_u32_from_le_bytes(body.take(4)) == r.len());
        assert(body.skip(4 + r.len() as int) =~= frames(rest));
        assert(body.subrange(4, 4 + r.len() as int) =~= r);
        assert(seq![r] + rest =~= records);
    }
}

/// Appends `record` framed with its length; refuses a record longer than the prefix can say.
pub fn push_frame(record: &[u8], out: &mut Vec<u8>) -> (r: Result<(), StoreError>)
    ensures
        record@.len() <= u32::MAX ==> r is Ok && final(out)@ == old(out)@ + frame(record@),
        record@.len() > u32::MAX ==> r is Err && final(out)@ == old(out)@,
{
    if record.len() > 0xffff_ffff {
        return Err(
            StoreError::Malformed(
                text::string_from_chars(&text::chars_of("record exceeds the 4 byte length prefix")),
            ),
        );
    }
    let prefix = vstd::bytes::u32_to_le_bytes(record.len() as u32);
    let mut i: usize = 0;
    let ghost start = out@;
    while i < 4
        invariant
            0 <= i <= 4,
            prefix@.len() == 4,
            out@ == start + prefix@.take(i as int),
        decreases 4 - i,
    {
        out.push(prefix[i]);
        i += 1;
        assert(out@ =~= start + prefix@.take(i as int));
    }
    let ghost mid = out@;
    let mut j: usize = 0;
    while j < record.len()
        invariant
            0 <= j <= record@.len(),
            out@ == mid + record@.take(j as int),
        decreases record.len() - j,
    {
        out.push(record[j]);
        j += 1;
        assert(out@ =~= mid + record@.take(j as int));
    }
    assert(prefix@.take(4) =~= prefix@);
    assert(record@.take(record@.len() as int) =~= record@);
    assert(out@ =~= start + frame(record@));
    Ok(())
}

/// A message about the file at `path`: the path, a colon and the message.
pub open spec fn at_path(path: Seq<char>, message: Seq<char>) -> Seq<char> {
    path + ": "@ + message
}

/// The path of the chunk `name` in `directory`: the name alone when the
/// directory is empty, else the directory, a `/` unless it ends with one, and
/// the name.
pub open spec fn chunk_path(directory: Seq<char>, name: Seq<char>) -> Seq<char> {
    if directory.len() == 0 {
        name
    } else if directory.last() == '/' {
        directory + name
    } else {
        directory + "/"@ + name
    }
}

/// Joins a directory and a chunk name (see `chunk_path`).
pub fn join_path(directory: &str, name: &str) -> (r: String)
    ensures
        r@ == chunk_path(directory@, name@),
{
    let d = text::chars_of(directory);
    let mut out: Vec<char> = Vec::new();
    text::push_str(&mut out, directory);
    if d.len() > 0 && d[d.len() - 1] != '/' {
        text::push_str(&mut out, "/");
    }
    text::push_str(&mut out, name);
    text::string_from_chars(&out)
}

fn message_at(path: &str, message: &str) -> (r: String)
    ensures
        r@ == at_path(path@, message@),
{
    let mut out: Vec<char> = Vec::new();
    text::push_str(&mut out, path);
    text::push_str(&mut out, ": ");
    text::push_str(&mut out, message);
    text::string_from_chars(&out)
}

fn truncated(path: &str) -> (e: StoreError)
    ensures
        e matches StoreError::Malformed(m) && m@ == at_path(path@, "truncated record stream"@),
{
    StoreError::Malformed(message_at(path, "truncated record stream"))
}

/// Reads a body of frames, from the chunk at `path`, back into records (see `unframe`).
pub fn split_frames(body: &[u8], path: &str) -> (r: Result<Vec<Vec<u8>>, StoreError>)
    ensures
        match unframe(body@) {
            Some(records) => r is Ok && r->Ok_0@.map_values(|v: Vec<u8>| v@) == records,
            None => r matches Err(StoreError::Malformed(m)) && m@ == at_path(
                path@,
                "truncated record stream"@,
            ),
        },
{
    let mut records: Vec<Vec<u8>> = Vec::new();
    let mut off: usize = 0;
    assert(body@.skip(0) =~= body@);
    while off < body.len()
        invariant
            0 <= off <= body@.len(),
            unframe(body@) == match unframe(body@.skip(off as int)) {
                Some(rest) => Some(records@.map_values(|v: Vec<u8>| v@) + rest),
                None => None::<Seq<Seq<u8>>>,
            },
        decreases body.len() - off,
    {
        let ghost rest = body@.skip(off as int);
        if body.len() - off < 4 {
            assert(unframe(rest) is None);
            return Err(truncated(path));
        }
        let head = vstd::slice::slice_subrange(body, off, off + 4);
        assert(head@ =~= rest.take(4));
        let n = vstd::bytes::u32_from_le_bytes(head) as usize;
        if body.len() - off - 4 < n {
            assert(unframe(rest) is None);
            return Err(truncated(path));
        }
        let mut record: Vec<u8> = Vec::new();
        let mut i: usize = 0;
        while i < n
            invariant
                0 <= i <= n,
                off + 4 + n <= body@.len(),
                off + 4 + n <= body.len(),
                record@ == body@.subrange(off + 4, off + 4 + i),
            decreases n - i,
        {
            record.push(body[off + 4 + i]);
            i += 1;
            assert(record@ =~= body@.subrange(off + 4, off + 4 + i));
        }
        proof {
            assert(record@ =~= rest.subrange(4, 4 + n as int));
            assert(rest.skip(4 + n as int) =~= body@.skip(off + 4 + n));
            let before = records@.map_values(|v: Vec<u8>| v@);
            match unframe(body@.skip(off + 4 + n)) {
                Some(tail) => {
                    assert(before.push(record@) + tail =~= before + (seq![record@] + tail));
                },
                None => {},
            }
        }
        let ghost before = records@.map_values(|v: Vec<u8>| v@);
        records.push(record);
        assert(records@.map_values(|v: Vec<u8>| v@) =~= before.push(body@.subrange(off + 4, off + 4 + n)));
        off = off + 4 + n;
    }
    assert(body@.skip(off as int) =~= Seq::<u8>::empty());
    assert(records@.map_values(|v: Vec<u8>| v@) + Seq::<Seq<u8>>::empty() =~= records@.map_values(|v: Vec<u8>| v@));
    Ok(records)
}


// ---------------------------------------------------------------- digests and compression

/// The SHA-256 digest of `data` (what `sha2::Sha256::digest` returns).
pub uninterp spec fn sha256(data: Seq<u8>) -> Seq<u8>;

/// Computes SHA-256 with `sha2::Sha256::digest`; its output has 32 bytes.
#[verifier::external_body]
fn sha256_digest(data: &[u8]) -> (d: Vec<u8>)
    ensures
        d@ == sha256(data@),
        d@.len() == 32,
{
    <sha2::Sha256 as sha2::Digest>::digest(data).to_vec()
}

/// The zstd frame `zstd::stream::encode_all` makes of `data` at `level`,
/// `None` where it fails.
pub uninterp spec fn zstd_compressed(data: Seq<u8>, level: i32) -> Option<Seq<u8>>;

/// What `zstd::stream::decode_all` gives back from `data`, `None` where it fails.
pub uninterp spec fn zstd_decompressed(data: Seq<u8>) -> Option<Seq<u8>>;

/// Compresses with `zstd::stream::encode_all`. zstd is lossless: what it
/// makes decompresses to the input. On failure, the error's text.
#[verifier::external_body]
fn compress(data: &[u8], level: i32) -> (r: Result<Vec<u8>, String>)
    ensures
        match r {
            Ok(c) => zstd_compressed(data@, level) == Some(c@) && zstd_decompressed(c@) == Some(
                data@,
            ),
            Err(_) => zstd_compressed(data@, level) is None,
        },
{
    zstd::stream::encode_all(data, level).map_err(|e| e.to_string())
}

/// Decompresses with `zstd::stream::decode_all`. On failure, the error's text.
#[verifier::external_body]
fn decompress(data: &[u8]) -> (r: Result<Vec<u8>, String>)
    ensures
        match r {
            Ok(d) => zstd_decompressed(data@) == Some(d@),
            Err(_) => zstd_decompressed(data@) is None,
        },
{
    zstd::stream::decode_all(data).map_err(|e| e.to_string())
}

/// The lower-case hexadecimal digit for `d` in `0..16`.
pub open spec fn hex_digit(d: int) -> char {
    if d < 10 {
        (d + 48) as char
    } else {
        (d + 87) as char
    }
}

/// Bytes as lower-case hexadecimal, two digits per byte.
pub open spec fn hex_text(bytes: Seq<u8>) -> Seq<char>
    decreases bytes.len(),
{
    if bytes.len() == 0 {
        Seq::empty()
    } else {
        hex_text(bytes.drop_last()).push(hex_digit((bytes.last() / 16) as int)).push(
            hex_digit((bytes.last() % 16) as int),
        )
    }
}

fn hex_digit_char(d: u8) -> (c: char)
    requires
        d < 16,
    ensures
        c == hex_digit(d as int),
{
    if d < 10 {
        (48u8 + d) as char
    } else {
        (87u8 + d) as char
    }
}

/// `bytes` as lower-case hexadecimal.
pub fn hex_string(bytes: &[u8]) -> (s: String)
    ensures
        s@ == hex_text(bytes@),
{
    let mut out: Vec<char> = Vec::new();
    let mut i: usize = 0;
    while i < bytes.len()
        invariant
            0 <= i <= bytes@.len(),
            out@ == hex_text(bytes@.take(i as int)),
        decreases bytes.len() - i,
    {
        let b = bytes[i];
        proof {
            assert(bytes@.take(i + 1).drop_last() =~= bytes@.take(i as int));
        }
        out.push(hex_digit_char(b / 16));
        out.push(hex_digit_char(b % 16));
        i += 1;
    }
    assert(bytes@.take(bytes@.len() as int) =~= bytes@);
    text::string_from_chars(&out)
}

/// The recorded digest of a chunk: SHA-256 of its bytes, in hexadecimal.
pub open spec fn digest_text(data: Seq<u8>) -> Seq<char> {
    hex_text(sha256(data))
}

/// The SHA-256 of `data` in lower-case hexadecimal.
pub fn sha256_hex(data: &[u8]) -> (s: String)
    ensures
        s@ == digest_text(data@),
{
    let d = sha256_digest(data);
    hex_string(d.as_slice())
}

/// Checks the bytes `data` of the chunk at `path` against the hexadecimal
/// SHA-256 an index recorded for it.
pub fn verify_chunk(path: &str, data: &[u8], expected: &str) -> (r: Result<(), StoreError>)
    ensures
        digest_text(data@) == expected@ ==> r is Ok,
        digest_text(data@) != expected@ ==> (r matches Err(StoreError::Integrity(m)) && m@
            == at_path(path@, "expected "@ + expected@ + ", found "@ + digest_text(data@))),
{
    let actual = sha256_hex(data);
    let actual_chars = text::chars_of(actual.as_str());
    if crate::instrument::chars_equal(&actual_chars, expected) {
        Ok(())
    } else {
        let mut msg: Vec<char> = Vec::new();
        text::push_str(&mut msg, path);
        text::push_str(&mut msg, ": ");
        text::push_str(&mut msg, "expected ");
        text::push_str(&mut msg, expected);
        text::push_str(&mut msg, ", found ");
        text::push_str(&mut msg, actual.as_str());
        Err(StoreError::Integrity(text::string_from_chars(&msg)))
    }
}

/// What reading a chunk gives: its records, or why it failed.
#[derive(Clone, Copy, PartialEq, Eq, Structural, Debug)]
pub enum ReadFailure {
    Integrity,
    Malformed,
}

/// Reads a compressed chunk whose index recorded `expected` as its digest:
/// the digest is checked first, then the chunk is decompressed and unframed.
pub open spec fn chunk_read(compressed: Seq<u8>, expected: Seq<char>) -> Result<Seq<Seq<u8>>, ReadFailure> {
    if digest_text(compressed) != expected {
        Err(ReadFailure::Integrity)
    } else {
        match zstd_decompressed(compressed) {
            None => Err(ReadFailure::Malformed),
            Some(body) => match unframe(body) {
                None => Err(ReadFailure::Malformed),
                Some(records) => Ok(records),
            },
        }
    }
}

pub open spec fn failure_of(e: StoreError) -> ReadFailure {
    match e {
        StoreError::Integrity(_) => ReadFailure::Integrity,
        _ => ReadFailure::Malformed,
    }
}

/// Decompresses the chunk at `path` and splits it into its encoded records.
/// A chunk zstd cannot read gives the path and zstd's message.
pub fn read_chunk(path: &str, compressed: &[u8]) -> (r: Result<Vec<Vec<u8>>, StoreError>)
    ensures
        match zstd_decompressed(compressed@) {
            None => r matches Err(StoreError::Malformed(m)) && at_path(path@, Seq::empty()).is_prefix_of(
                m@,
            ),
            Some(body) => match unframe(body) {
                None => r matches Err(StoreError::Malformed(m)) && m@ == at_path(
                    path@,
                    "truncated record stream"@,
                ),
                Some(records) => r is Ok && r->Ok_0@.map_values(|v: Vec<u8>| v@) == records,
            },
        },
{
    let body = match decompress(compressed) {
        Ok(b) => b,
        Err(e) => {
            let m = message_at(path, e.as_str());
            proof {
                reveal_strlit(": ");
            }
            assert(at_path(path@, Seq::empty()) =~= m@.take(path@.len() + 2 as int));
            return Err(StoreError::Malformed(m));
        },
    };
    split_frames(body.as_slice(), path)
}

/// Verifies the chunk at `path` against its recorded digest, then decodes it
/// (see `chunk_read`).
pub fn read_chunk_records(path: &str, compressed: &[u8], expected: &str) -> (r: Result<Vec<Vec<u8>>, StoreError>)
    ensures
        match chunk_read(compressed@, expected@) {
            Ok(records) => r is Ok && r->Ok_0@.map_values(|v: Vec<u8>| v@) == records,
            Err(f) => r is Err && failure_of(r->Err_0) == f,
        },
{
    match verify_chunk(path, compressed, expected) {
        Ok(()) => {},
        Err(e) => {
            return Err(e);
        },
    }
    read_chunk(path, compressed)
}

/// A chunk that decompresses to framed records, read against its own digest,
/// gives exactly those records back.
pub proof fn lemma_chunk_round_trip(records: Seq<Seq<u8>>, compressed: Seq<u8>)
    requires
        frameable(records),
        zstd_decompressed(compressed) == Some(frames(records)),
    ensures
        chunk_read(compressed, digest_text(compressed)) == Ok::<Seq<Seq<u8>>, ReadFailure>(records),
{
    lemma_unframe_frames(records);
}

/// A chunk whose bytes no longer have the recorded digest is refused.
pub proof fn lemma_tampered_chunk_refused(compressed: Seq<u8>, recorded: Seq<char>)
    requires
        digest_text(compressed) != recorded,
    ensures
        chunk_read(compressed, recorded) == Err::<Seq<Seq<u8>>, ReadFailure>(ReadFailure::Integrity),
{
}


// ---------------------------------------------------------------- the writer

/// A number written with at least six digits, zero padded (`{:06}`).
pub open spec fn six_digits(n: nat) -> Seq<char> {
    if n < 1_000_000 {
        text::padded(n, 6)
    } else {
        text::decimal(n)
    }
}

/// The file name of the chunk with sequence number `n`.
pub open spec fn chunk_name(n: nat) -> Seq<char> {
    "chunk-"@ + six_digits(n) + ".zst"@
}

fn chunk_name_string(n: u64) -> (s: String)
    ensures
        s@ == chunk_name(n as nat),
{
    let mut out: Vec<char> = Vec::new();
    text::push_str(&mut out, "chunk-");
    if n < 1_000_000 {
        text::push_padded(&mut out, n as u128, 6);
    } else {
        text::push_decimal(&mut out, n as u128);
    }
    text::push_str(&mut out, ".zst");
    assert(out@ =~= chunk_name(n as nat));
    text::string_from_chars(&out)
}

/// Six or more digits read back as the number they write.
proof fn lemma_six_digits_value(n: nat)
    ensures
        text::digits_value(six_digits(n)) == n,
        six_digits(n).len() >= 6,
{
    assert(text::pow10(6) == 1_000_000) by {
        reveal_with_fuel(text::pow10, 7);
    }
    text::lemma_padded(n, 6);
    text::lemma_decimal(n);
    if n >= 1_000_000 {
        assert(text::decimal(n).len() >= 6) by {
            lemma_decimal_length(n);
        }
    }
}

/// A number of at least a million takes at least seven digits.
proof fn lemma_decimal_length(n: nat)
    ensures
        n >= 1_000_000 ==> text::decimal(n).len() >= 7,
        n >= 100_000 ==> text::decimal(n).len() >= 6,
        n >= 10_000 ==> text::decimal(n).len() >= 5,
        n >= 1_000 ==> text::decimal(n).len() >= 4,
        n >= 100 ==> text::decimal(n).len() >= 3,
        n >= 10 ==> text::decimal(n).len() >= 2,
        text::decimal(n).len() >= 1,
    decreases n,
{
    if n >= 10 {
        lemma_decimal_length(n / 10);
    }
}

/// Every chunk number has a file name of its own, so a writer that continues
/// an index never reuses the name of a chunk the index lists.
pub proof fn lemma_chunk_names_distinct(a: nat, b: nat)
    requires
        a != b,
    ensures
        chunk_name(a) != chunk_name(b),
{
    if chunk_name(a) == chunk_name(b) {
        reveal_strlit("chunk-");
        reveal_strlit(".zst");
        let x = six_digits(a);
        let y = six_digits(b);
        assert("chunk-"@.len() == 6);
        assert(".zst"@.len() == 4);
        assert(chunk_name(a).len() == x.len() + 10);
        assert(chunk_name(b).len() == y.len() + 10);
        assert(x.len() == y.len());
        assert(x =~= chunk_name(a).subrange(6, 6 + x.len() as int));
        assert(y =~= chunk_name(b).subrange(6, 6 + y.len() as int));
        lemma_six_digits_value(a);
        lemma_six_digits_value(b);
    }
}

/// A chunk that was closed: its index entry and its compressed bytes, which
/// the caller stores under the entry's name.
#[derive(Debug)]
pub struct ClosedChunk {
    pub entry: ChunkIndexEntry,
    pub compressed: Vec<u8>,
}

/// The encoded records of a list of `(seq, record)` pairs.
pub open spec fn records_of(pending: Seq<(u64, Seq<u8>)>) -> Seq<Seq<u8>> {
    pending.map_values(|p: (u64, Seq<u8>)| p.1)
}

/// What closing a chunk that held `pending` produced, numbered `n`.
pub open spec fn closed_as(c: ClosedChunk, pending: Seq<(u64, Seq<u8>)>, n: nat) -> bool {
    &&& pending.len() > 0
    &&& frameable(records_of(pending))
    &&& zstd_compressed(frames(records_of(pending)), ZSTD_LEVEL) == Some(c.compressed@)
    &&& zstd_decompressed(c.compressed@) == Some(frames(records_of(pending)))
    &&& c.entry.name@ == chunk_name(n)
    &&& c.entry.first_seq == pending[0].0
    &&& c.entry.last_seq == pending.last().0
    &&& c.entry.records == pending.len()
    &&& c.entry.bytes == c.compressed@.len()
    &&& c.entry.sha256@ == digest_text(c.compressed@)
}

/// Whether the pending records of a writer whose next chunk is numbered `n`
/// can be closed into a chunk: a number is left, and zstd compresses them.
pub open spec fn closable(pending: Seq<(u64, Seq<u8>)>, n: nat) -> bool {
    n < u64::MAX && zstd_compressed(frames(records_of(pending)), ZSTD_LEVEL) is Some
}

/// The error a failed close gives: chunk numbers running out first, else the
/// compression failure.
pub open spec fn close_error(e: StoreError, n: nat) -> bool {
    if n >= u64::MAX {
        e is ChunkNumbersExhausted
    } else {
        e is Compression
    }
}

/// Collects encoded records into chunks of a fixed number of records.
pub struct ChunkWriter {
    records_per_chunk: usize,
    chunk_seq: u64,
    body: Vec<u8>,
    records: usize,
    first_seq: Option<u64>,
    last_seq: u64,
    index: Vec<ChunkIndexEntry>,
    pending: Ghost<Seq<(u64, Seq<u8>)>>,
    written: Ghost<Seq<Seq<u8>>>,
    appended: Ghost<nat>,
    base: Ghost<nat>,
}

/// How many chunks `records` records fill at `capacity` records a chunk, the
/// last one possibly partial.
pub open spec fn chunk_count(records: nat, capacity: nat) -> nat {
    if capacity == 0 {
        0
    } else {
        ((records + capacity - 1) as nat) / capacity
    }
}

/// Closing the partial chunk, if there is one, completes the count.
proof fn lemma_chunk_count(a: nat, k: nat)
    requires
        k > 0,
    ensures
        a % k == 0 ==> chunk_count(a, k) == a / k,
        a % k > 0 ==> chunk_count(a, k) == a / k + 1,
{
    vstd::arithmetic::div_mod::lemma_fundamental_div_mod(a as int, k as int);
    let q: int = (a / k) as int;
    let r: int = (a % k) as int;
    if r == 0 {
        vstd::arithmetic::div_mod::lemma_fundamental_div_mod_converse(
            (a + k - 1) as int,
            k as int,
            q,
            (k - 1) as int,
        );
    } else {
        assert((a + k - 1) as int == (q + 1) * (k as int) + (r - 1)) by (nonlinear_arith)
            requires
                a as int == (k as int) * q + r,
        ;
        vstd::arithmetic::div_mod::lemma_fundamental_div_mod_converse(
            (a + k - 1) as int,
            k as int,
            q + 1,
            r - 1,
        );
    }
}

/// One more record either fills the open chunk, closing it, or joins it.
proof fn lemma_count_step(a: nat, k: nat)
    requires
        k > 0,
    ensures
        a % k + 1 < k ==> (a + 1) % k == a % k + 1 && (a + 1) / k == a / k,
        a % k + 1 == k ==> (a + 1) % k == 0 && (a + 1) / k == a / k + 1,
{
    vstd::arithmetic::div_mod::lemma_fundamental_div_mod(a as int, k as int);
    if a % k + 1 < k {
        vstd::arithmetic::div_mod::lemma_fundamental_div_mod_converse(
            (a + 1) as int,
            k as int,
            (a / k) as int,
            (a % k + 1) as int,
        );
    } else if a % k + 1 == k {
        let q: int = (a / k) as int;
        assert((a + 1) as int == (q + 1) * (k as int)) by (nonlinear_arith)
            requires
                a as int == (k as int) * q + (k as int) - 1,
        ;
        vstd::arithmetic::div_mod::lemma_fundamental_div_mod_converse(
            (a + 1) as int,
            k as int,
            (a / k + 1) as int,
            0,
        );
    }
}

pub proof fn lemma_frames_empty()
    ensures
        frames(records_of(Seq::<(u64, Seq<u8>)>::empty())) == Seq::<u8>::empty(),
{
    assert(records_of(Seq::<(u64, Seq<u8>)>::empty()) =~= Seq::<Seq<u8>>::empty());
}

impl ChunkWriter {
    /// The open chunk's body holds its pending records framed, it never holds
    /// a full chunk, and its first and last sequence numbers are those of the
    /// pending records.
    pub closed spec fn well_formed(&self) -> bool {
        &&& self.layout_ok()
        &&& self.index@.len() == self.base@ + self.appended@ / (self.records_per_chunk as nat)
        &&& self.pending@.len() == self.appended@ % (self.records_per_chunk as nat)
    }

    /// The open chunk's fields agree with its pending records.
    closed spec fn layout_ok(&self) -> bool {
        &&& self.records_per_chunk > 0
        &&& self.chunk_seq == self.index@.len()
        &&& self.records == self.pending@.len()
        &&& self.records < self.records_per_chunk
        &&& self.body@ == frames(records_of(self.pending@))
        &&& frameable(records_of(self.pending@))
        &&& (self.first_seq is Some <==> self.records > 0)
        &&& self.records > 0 ==> self.first_seq == Some(self.pending@[0].0) && self.last_seq
            == self.pending@.last().0
    }

    /// A well-formed writer numbers its next chunk after every chunk its index
    /// lists, and never holds a full chunk open.
    pub proof fn lemma_well_formed_numbering(w: ChunkWriter)
        requires
            w.well_formed(),
        ensures
            w.next_chunk() == w.entries().len(),
            w.pending().len() < w.capacity(),
            w.capacity() > 0,
            w.entries().len() == w.base_chunks() + w.appended() / w.capacity(),
            w.pending().len() == w.appended() % w.capacity(),
    {
    }

    /// How many records have been appended since the writer was opened.
    pub closed spec fn appended(&self) -> nat {
        self.appended@
    }

    /// How many chunks the index listed when the writer was opened.
    pub closed spec fn base_chunks(&self) -> nat {
        self.base@
    }

    /// The records appended since the last chunk closed, with their sequence numbers.
    pub closed spec fn pending(&self) -> Seq<(u64, Seq<u8>)> {
        self.pending@
    }

    /// The records of every chunk this writer has closed, in order.
    pub closed spec fn written(&self) -> Seq<Seq<u8>> {
        self.written@
    }

    /// The number the next chunk will have.
    pub closed spec fn next_chunk(&self) -> nat {
        self.chunk_seq as nat
    }

    pub closed spec fn capacity(&self) -> nat {
        self.records_per_chunk as nat
    }

    pub closed spec fn entries(&self) -> Seq<EntryView> {
        entry_views(self.index@)
    }

    /// A writer that continues an existing index: its first chunk is numbered
    /// after the chunks already listed. A chunk size of zero is refused.
    pub fn open(index: Vec<ChunkIndexEntry>, records_per_chunk: usize) -> (r: Result<ChunkWriter, StoreError>)
        ensures
            records_per_chunk == 0 ==> r matches Err(StoreError::InvalidChunkSize),
            records_per_chunk > 0 ==> r is Ok && r->Ok_0.well_formed() && r->Ok_0.entries() == entry_views(index@)
                && r->Ok_0.next_chunk() == index@.len() && r->Ok_0.capacity() == records_per_chunk
                && r->Ok_0.pending() == Seq::<(u64, Seq<u8>)>::empty() && r->Ok_0.written()
                == Seq::<Seq<u8>>::empty() && r->Ok_0.appended() == 0 && r->Ok_0.base_chunks()
                == index@.len(),
    {
        if records_per_chunk == 0 {
            return Err(StoreError::InvalidChunkSize);
        }
        let chunk_seq = index.len() as u64;
        proof {
            lemma_frames_empty();
            vstd::arithmetic::div_mod::lemma_fundamental_div_mod_converse(
                0,
                records_per_chunk as int,
                0,
                0,
            );
        }
        Ok(ChunkWriter {
            records_per_chunk,
            chunk_seq,
            body: Vec::new(),
            records: 0,
            first_seq: None,
            last_seq: 0,
            index,
            pending: Ghost(Seq::empty()),
            written: Ghost(Seq::empty()),
            appended: Ghost(0),
            base: Ghost(index@.len()),
        })
    }

    /// The index entries of every chunk, those it started with and those it closed.
    pub fn index(&self) -> (r: &Vec<ChunkIndexEntry>)
        ensures
            entry_views(r@) == self.entries(),
    {
        &self.index
    }

    /// Closes the open chunk, if it holds any record: compresses it, names it,
    /// digests it and adds its entry to the index. A failure leaves the
    /// writer as it was.
    fn close_chunk(&mut self) -> (r: Result<Option<ClosedChunk>, StoreError>)
        requires
            old(self).pending@.len() <= old(self).records_per_chunk,
            old(self).records_per_chunk > 0,
            old(self).chunk_seq == old(self).index@.len(),
            old(self).records == old(self).pending@.len(),
            old(self).body@ == frames(records_of(old(self).pending@)),
            frameable(records_of(old(self).pending@)),
            (old(self).first_seq is Some <==> old(self).records > 0),
            old(self).records > 0 ==> old(self).first_seq == Some(old(self).pending@[0].0)
                && old(self).last_seq == old(self).pending@.last().0,
        ensures
            old(self).pending().len() == 0 ==> r == Ok::<Option<ClosedChunk>, StoreError>(None)
                && *final(self) == *old(self),
            old(self).pending().len() > 0 ==> match r {
                Ok(Some(c)) => closed_as(c, old(self).pending(), old(self).next_chunk())
                    && final(self).layout_ok() && final(self).appended() == old(self).appended()
                    && final(self).base_chunks() == old(self).base_chunks()
                    && final(self).index@.len() == old(self).index@.len() + 1
                    && final(self).pending() == Seq::<
                    (u64, Seq<u8>),
                >::empty() && final(self).written() == old(self).written() + records_of(
                    old(self).pending(),
                ) && final(self).next_chunk() == old(self).next_chunk() + 1 && final(self).capacity()
                    == old(self).capacity() && final(self).entries() == old(self).entries().push(
                    c.entry@,
                ),
                Ok(None) => false,
                Err(e) => close_error(e, old(self).next_chunk()) && *final(self) == *old(self),
            },
            old(self).pending().len() > 0 ==> (r is Ok <==> closable(
                old(self).pending(),
                old(self).next_chunk(),
            )),
    {
        if self.records == 0 {
            return Ok(None);
        }
        if self.chunk_seq == u64::MAX {
            return Err(StoreError::ChunkNumbersExhausted);
        }
        let compressed = match compress(self.body.as_slice(), ZSTD_LEVEL) {
            Ok(c) => c,
            Err(e) => {
                return Err(StoreError::Compression(e));
            },
        };
        let first_seq = match self.first_seq {
            Some(s) => s,
            None => 0,
        };
        let name = chunk_name_string(self.chunk_seq);
        let sha256 = sha256_hex(compressed.as_slice());
        let index_entry = ChunkIndexEntry {
            name: name.clone(),
            first_seq,
            last_seq: self.last_seq,
            records: self.records as u64,
            bytes: compressed.len() as u64,
            sha256: sha256.clone(),
        };
        let entry = ChunkIndexEntry {
            name,
            first_seq,
            last_seq: self.last_seq,
            records: self.records as u64,
            bytes: compressed.len() as u64,
            sha256,
        };
        let ghost old_index = self.index@;
        self.index.push(index_entry);
        assert(entry_views(self.index@) =~= entry_views(old_index).push(entry@));
        self.chunk_seq = self.chunk_seq + 1;
        self.body.clear();
        self.records = 0;
        self.first_seq = None;
        let ghost closed = self.pending@;
        self.written = Ghost(self.written@ + records_of(closed));
        self.pending = Ghost(Seq::empty());
        proof {
            lemma_frames_empty();
        }
        Ok(Some(ClosedChunk { entry, compressed }))
    }

    /// Appends one encoded record with its sequence number; closes the chunk
    /// once it holds its size of records. A record longer than the length
    /// prefix allows is refused and leaves the writer as it was.
    pub fn append(&mut self, seq: u64, encoded: &[u8]) -> (r: Result<Option<ClosedChunk>, StoreError>)
        requires
            old(self).well_formed(),
        ensures
            final(self).capacity() == old(self).capacity(),
            encoded@.len() > u32::MAX ==> (r matches Err(StoreError::Malformed(m)) && m@
                == "record exceeds the 4 byte length prefix"@) && *final(self) == *old(self),
            encoded@.len() <= u32::MAX ==> final(self).appended() == old(self).appended() + 1
                && final(self).base_chunks() == old(self).base_chunks(),
            encoded@.len() <= u32::MAX ==> ({
                let pending = old(self).pending().push((seq, encoded@));
                if pending.len() < old(self).capacity() {
                    &&& r == Ok::<Option<ClosedChunk>, StoreError>(None)
                    &&& final(self).well_formed()
                    &&& final(self).pending() == pending
                    &&& final(self).written() == old(self).written()
                    &&& final(self).entries() == old(self).entries()
                    &&& final(self).next_chunk() == old(self).next_chunk()
                } else {
                    &&& match r {
                        Ok(Some(c)) => {
                            &&& closed_as(c, pending, old(self).next_chunk())
                            &&& final(self).well_formed()
                            &&& final(self).pending() == Seq::<(u64, Seq<u8>)>::empty()
                            &&& final(self).written() == old(self).written() + records_of(pending)
                            &&& final(self).entries() == old(self).entries().push(c.entry@)
                            &&& final(self).next_chunk() == old(self).next_chunk() + 1
                        },
                        Ok(None) => false,
                        Err(e) => {
                            &&& close_error(e, old(self).next_chunk())
                            &&& final(self).pending() == pending
                            &&& final(self).written() == old(self).written()
                            &&& final(self).entries() == old(self).entries()
                            &&& final(self).next_chunk() == old(self).next_chunk()
                        },
                    }
                    &&& (r is Ok <==> closable(pending, old(self).next_chunk()))
                }
            }),
    {
        if encoded.len() > 0xffff_ffff {
            return Err(
                StoreError::Malformed(
                    text::string_from_chars(&text::chars_of("record exceeds the 4 byte length prefix")),
                ),
            );
        }
        let ghost old_pending = self.pending@;
        let ghost new_pending = old_pending.push((seq, encoded@));
        let _ = push_frame(encoded, &mut self.body);
        proof {
            lemma_frames_push(records_of(old_pending), encoded@);
            assert(records_of(new_pending) =~= records_of(old_pending).push(encoded@));
            assert(frameable(records_of(new_pending))) by {
                assert forall|i: int| 0 <= i < records_of(new_pending).len() implies (
                #[trigger] records_of(new_pending)[i]).len() <= u32::MAX by {
                    if i < old_pending.len() {
                        assert(records_of(new_pending)[i] == records_of(old_pending)[i]);
                    }
                }
            }
        }
        self.pending = Ghost(new_pending);
        self.appended = Ghost(self.appended@ + 1);
        proof {
            lemma_count_step(old(self).appended@, self.records_per_chunk as nat);
        }
        self.records = self.records + 1;
        if self.first_seq.is_none() {
            self.first_seq = Some(seq);
        }
        self.last_seq = seq;
        if self.records >= self.records_per_chunk {
            return self.close_chunk();
        }
        Ok(None)
    }

    /// Closes the open chunk, if it holds any record, and gives the final
    /// index with it.
    pub fn finish(self) -> (r: Result<(Option<ClosedChunk>, Vec<ChunkIndexEntry>), StoreError>)
        requires
            self.well_formed(),
        ensures
            self.pending().len() == 0 ==> r is Ok && r->Ok_0.0 is None && entry_views(r->Ok_0.1@)
                == self.entries(),
            self.pending().len() > 0 ==> match r {
                Ok((Some(c), index)) => closed_as(c, self.pending(), self.next_chunk())
                    && entry_views(index@) == self.entries().push(c.entry@),
                Ok((None, _)) => false,
                Err(e) => close_error(e, self.next_chunk()),
            },
            self.pending().len() > 0 ==> (r is Ok <==> closable(self.pending(), self.next_chunk())),
            r is Ok ==> r->Ok_0.1@.len() == self.base_chunks() + chunk_count(
                self.appended(),
                self.capacity(),
            ),
    {
        proof {
            lemma_chunk_count(self.appended@, self.records_per_chunk as nat);
        }
        let mut writer = self;
        let closed = writer.close_chunk();
        match closed {
            Ok(c) => Ok((c, writer.index)),
            Err(e) => Err(e),
        }
    }
}

/// Reads every chunk of an index kept in `directory`, in order: each chunk is
/// checked against its recorded digest before it is decoded. `chunks[i]` holds
/// the bytes stored under `index[i].name`; errors name the chunk's path.
pub fn read_all(directory: &str, index: &[ChunkIndexEntry], chunks: &[Vec<u8>]) -> (r: Result<
    Vec<Vec<u8>>,
    StoreError,
>)
    requires
        index@.len() == chunks@.len(),
    ensures
        match read_chunks(index@, chunks@) {
            Ok(records) => r is Ok && r->Ok_0@.map_values(|v: Vec<u8>| v@) == records,
            Err(f) => r is Err && failure_of(r->Err_0) == f,
        },
{
    let mut out: Vec<Vec<u8>> = Vec::new();
    let mut i: usize = 0;
    assert(index@.skip(0) =~= index@);
    assert(chunks@.skip(0) =~= chunks@);
    assert(out@.map_values(|v: Vec<u8>| v@) =~= Seq::<Seq<u8>>::empty());
    proof {
        match read_chunks(index@, chunks@) {
            Ok(rest) => {
                assert(Seq::<Seq<u8>>::empty() + rest =~= rest);
            },
            Err(_) => {},
        }
    }
    while i < index.len()
        invariant
            0 <= i <= index@.len() == chunks@.len(),
            read_chunks(index@, chunks@) == match read_chunks(
                index@.skip(i as int),
                chunks@.skip(i as int),
            ) {
                Ok(rest) => Ok(out@.map_values(|v: Vec<u8>| v@) + rest),
                Err(f) => Err::<Seq<Seq<u8>>, ReadFailure>(f),
            },
        decreases index.len() - i,
    {
        proof {
            assert(index@.skip(i as int).drop_first() =~= index@.skip(i + 1));
            assert(chunks@.skip(i as int).drop_first() =~= chunks@.skip(i + 1));
            assert(index@.skip(i as int)[0] == index@[i as int]);
            assert(chunks@.skip(i as int)[0] == chunks@[i as int]);
        }
        let path = join_path(directory, index[i].name.as_str());
        let records = match read_chunk_records(
            path.as_str(),
            chunks[i].as_slice(),
            index[i].sha256.as_str(),
        ) {
            Ok(rs) => rs,
            Err(e) => {
                return Err(e);
            },
        };
        let ghost before = out@.map_values(|v: Vec<u8>| v@);
        let mut j: usize = 0;
        while j < records.len()
            invariant
                0 <= j <= records@.len(),
                out@.map_values(|v: Vec<u8>| v@) == before + records@.map_values(|v: Vec<u8>| v@).take(
                    j as int,
                ),
            decreases records.len() - j,
        {
            let ghost prev = out@.map_values(|v: Vec<u8>| v@);
            let copy = vec_copy(records[j].as_slice());
            assert(copy@ == records@.map_values(|v: Vec<u8>| v@)[j as int]);
            out.push(copy);
            assert(out@.map_values(|v: Vec<u8>| v@) =~= prev.push(copy@));
            assert(records@.map_values(|v: Vec<u8>| v@).take(j + 1) =~= records@.map_values(
                |v: Vec<u8>| v@,
            ).take(j as int).push(copy@));
            j += 1;
            assert(out@.map_values(|v: Vec<u8>| v@) =~= before + records@.map_values(
                |v: Vec<u8>| v@,
            ).take(j as int));
        }
        proof {
            let rv = records@.map_values(|v: Vec<u8>| v@);
            assert(rv.take(rv.len() as int) =~= rv);
            match read_chunks(index@.skip(i + 1), chunks@.skip(i + 1)) {
                Ok(rest) => {
                    assert(before + (rv + rest) =~= (before + rv) + rest);
                },
                Err(_) => {},
            }
        }
        i += 1;
    }
    assert(index@.skip(i as int) =~= Seq::<ChunkIndexEntry>::empty());
    assert(out@.map_values(|v: Vec<u8>| v@) + Seq::<Seq<u8>>::empty() =~= out@.map_values(
        |v: Vec<u8>| v@,
    ));
    Ok(out)
}

pub(crate) fn vec_copy(v: &[u8]) -> (r: Vec<u8>)
    ensures
        r@ == v@,
{
    let mut r: Vec<u8> = Vec::new();
    let mut i: usize = 0;
    while i < v.len()
        invariant
            0 <= i <= v@.len(),
            r@ == v@.take(i as int),
        decreases v.len() - i,
    {
        r.push(v[i]);
        i += 1;
        assert(r@ =~= v@.take(i as int));
    }
    assert(v@.take(v@.len() as int) =~= v@);
    r
}

/// Reading chunks in order: the records of each, one after another; the
/// first chunk that fails ends the read.
pub open spec fn read_chunks(index: Seq<ChunkIndexEntry>, chunks: Seq<Vec<u8>>) -> Result<Seq<Seq<u8>>, ReadFailure>
    decreases index.len(),
{
    if index.len() == 0 || chunks.len() == 0 {
        Ok(Seq::empty())
    } else {
        match chunk_read(chunks[0]@, index[0].sha256@) {
            Err(f) => Err(f),
            Ok(records) => match read_chunks(index.drop_first(), chunks.drop_first()) {
                Err(f) => Err(f),
                Ok(rest) => Ok(records + rest),
            },
        }
    }
}


/// The store round-trips: chunks as the writer closes them (each decompresses
/// to its records framed, and its entry records its digest) read back as all
/// their records, in order, byte for byte.
pub proof fn lemma_store_round_trip(
    index: Seq<ChunkIndexEntry>,
    chunks: Seq<Vec<u8>>,
    records: Seq<Seq<Seq<u8>>>,
)
    requires
        index.len() == chunks.len(),
        chunks.len() == records.len(),
        forall|i: int|
            0 <= i < records.len() ==> frameable(#[trigger] records[i]) && zstd_decompressed(
                chunks[i]@,
            ) == Some(frames(records[i])) && index[i].sha256@ == digest_text(chunks[i]@),
    ensures
        read_chunks(index, chunks) == Ok::<Seq<Seq<u8>>, ReadFailure>(records.flatten()),
    decreases records.len(),
{
    if records.len() > 0 {
        assert(frameable(records[0]));
        lemma_chunk_round_trip(records[0], chunks[0]@);
        assert forall|i: int| 0 <= i < records.drop_first().len() implies frameable(
            #[trigger] records.drop_first()[i],
        ) && zstd_decompressed(chunks.drop_first()[i]@) == Some(
            frames(records.drop_first()[i]),
        ) && index.drop_first()[i].sha256@ == digest_text(chunks.drop_first()[i]@) by {
            assert(records.drop_first()[i] == records[i + 1]);
            assert(frameable(records[i + 1]));
        }
        lemma_store_round_trip(index.drop_first(), chunks.drop_first(), records.drop_first());
    }
}

/// A writer that resumes an index appends chunks after those already listed,
/// so the read gives the records of the earlier chunks, then those of the new
/// ones; a failing earlier chunk ends the read before any new one is read.
pub proof fn lemma_read_chunks_append(
    earlier_index: Seq<ChunkIndexEntry>,
    earlier_chunks: Seq<Vec<u8>>,
    later_index: Seq<ChunkIndexEntry>,
    later_chunks: Seq<Vec<u8>>,
)
    requires
        earlier_index.len() == earlier_chunks.len(),
    ensures
        read_chunks(earlier_index + later_index, earlier_chunks + later_chunks) == match read_chunks(
            earlier_index,
            earlier_chunks,
        ) {
            Err(f) => Err(f),
            Ok(old_records) => match read_chunks(later_index, later_chunks) {
                Err(f) => Err(f),
                Ok(new_records) => Ok(old_records + new_records),
            },
        },
    decreases earlier_index.len(),
{
    let index = earlier_index + later_index;
    let chunks = earlier_chunks + later_chunks;
    if earlier_index.len() == 0 {
        assert(index =~= later_index);
        assert(chunks =~= later_chunks);
        match read_chunks(later_index, later_chunks) {
            Ok(new_records) => {
                assert(Seq::<Seq<u8>>::empty() + new_records =~= new_records);
            },
            Err(_) => {},
        }
    } else {
        assert(index.drop_first() =~= earlier_index.drop_first() + later_index);
        assert(chunks.drop_first() =~= earlier_chunks.drop_first() + later_chunks);
        assert(index[0] == earlier_index[0]);
        assert(chunks[0] == earlier_chunks[0]);
        lemma_read_chunks_append(
            earlier_index.drop_first(),
            earlier_chunks.drop_first(),
            later_index,
            later_chunks,
        );
        match chunk_read(earlier_chunks[0]@, earlier_index[0].sha256@) {
            Err(_) => {},
            Ok(first) => {
                match read_chunks(earlier_index.drop_first(), earlier_chunks.drop_first()) {
                    Err(_) => {},
                    Ok(rest) => {
                        match read_chunks(later_index, later_chunks) {
                            Err(_) => {},
                            Ok(new_records) => {
                                assert(first + (rest + new_records) =~= (first + rest)
                                    + new_records);
                            },
                        }
                    },
                }
            },
        }
    }
}

/// A chunk closed by the writer meets the conditions of the round trip.
pub proof fn lemma_closed_chunk_reads_back(c: ClosedChunk, pending: Seq<(u64, Seq<u8>)>, n: nat)
    requires
        closed_as(c, pending, n),
    ensures
        chunk_read(c.compressed@, c.entry.sha256@) == Ok::<Seq<Seq<u8>>, ReadFailure>(
            records_of(pending),
        ),
{
    lemma_chunk_round_trip(records_of(pending), c.compressed@);
}

} // verus!
