use vstd::prelude::*;
use vstd::string::{StrSliceExecFns, StringSliceAdditionalSpecFns};

use crate::frames::{
    digit_value, digits_value, is_digit, is_frame_number, number_digits, numbers_distinct, order_frames,
    parse_frame_number, same_entries, strictly_ascending, FrameEntry,
};
use crate::style::{decimal, digit_char, push_decimal, string_from_chars};

verus! {

#[verifier::external_type_specification]
#[verifier::external_body]
pub struct ExIoError(std::io::Error);

/// An archive being written into memory; it holds a `tar::Builder` over a `Vec<u8>`.
#[verifier::external_body]
pub struct ArchiveWriter {
    inner: tar::Builder<Vec<u8>>,
}

/// The entries, as (path, contents), appended so far to an archive being built.
pub uninterp spec fn archive_entries(b: ArchiveWriter) -> Seq<(Seq<char>, Seq<u8>)>;

/// The bytes of a finished archive holding the given entries, in order.
pub uninterp spec fn archive_bytes(entries: Seq<(Seq<char>, Seq<u8>)>) -> Seq<u8>;

/// The entries, as (path, contents), that reading the archive `bytes` yields, in order.
pub uninterp spec fn archive_listing(bytes: Seq<u8>) -> Seq<(Seq<char>, Seq<u8>)>;

/// Whether the archive `bytes` can be read to its end.
pub uninterp spec fn archive_reads(bytes: Seq<u8>) -> bool;

/// Whether `zstd::encode_all` succeeds on `data` at `level`.
pub uninterp spec fn zstd_encodes(data: Seq<u8>, level: i32) -> bool;

/// Whether `data` is a zstd stream that `zstd::decode_all` decodes.
pub uninterp spec fn zstd_decodes(data: Seq<u8>) -> bool;

/// The zstd compression of `data` at `level`.
pub uninterp spec fn zstd_compressed(data: Seq<u8>, level: i32) -> Seq<u8>;

/// The data held by the zstd stream `data`.
pub uninterp spec fn zstd_decompressed(data: Seq<u8>) -> Seq<u8>;

/// Relies on `tar::Builder::new`: a builder over an empty `Vec` holds no entries.
#[verifier::external_body]
fn new_archive() -> (b: ArchiveWriter)
    ensures
        archive_entries(b) == Seq::<(Seq<char>, Seq<u8>)>::empty(),
{
    ArchiveWriter { inner: tar::Builder::new(Vec::new()) }
}

/// Relies on `tar::Builder::append_data` with a GNU header sized to `data`:
/// on success the entry `path` with contents `data` follows those before it.
/// Writing into a `Vec` cannot fail, and a short relative name of one plain
/// component passes the path checks, so such a name is always appended.
#[verifier::external_body]
fn append_entry(b: &mut ArchiveWriter, path: &str, data: &[u8]) -> (r: Result<
    (),
    std::io::Error,
>)
    ensures
        simple_entry_name(path@) ==> r is Ok,
        r is Ok ==> archive_entries(*final(b)) == archive_entries(*old(b)).push((path@, data@)),
{
    let mut header = tar::Header::new_gnu();
    header.set_size(data.len() as u64);
    header.set_cksum();
    b.inner.append_data(&mut header, path, data)
}

/// Relies on `tar::Builder::into_inner`: writes the end-of-archive blocks and
/// hands back the bytes written, which cannot fail on a `Vec`.
#[verifier::external_body]
fn finish_archive(b: ArchiveWriter) -> (r: Result<Vec<u8>, std::io::Error>)
    ensures
        r is Ok,
        r matches Ok(v) ==> v@ == archive_bytes(archive_entries(b)),
{
    b.inner.into_inner()
}

/// Relies on `tar::Archive::entries`, `tar::Entry::path` and reading each
/// entry to its end: the path (lossily as UTF-8) and contents of every entry, in order.
#[verifier::external_body]
fn read_archive(bytes: &[u8]) -> (r: Result<Vec<(String, Vec<u8>)>, std::io::Error>)
    ensures
        r is Ok <==> archive_reads(bytes@),
        r matches Ok(v) ==> listing_view(v@) == archive_listing(bytes@),
{
    tar::Archive::new(bytes).entries()?.map(|entry| {
        let mut entry = entry?;
        let path = entry.path()?.to_string_lossy().into_owned();
        let mut data = Vec::new();
        std::io::Read::read_to_end(&mut entry, &mut data)?;
        Ok((path, data))
    }).collect()
}

/// Relies on `zstd::encode_all` over the bytes of `data`.
#[verifier::external_body]
fn compress(data: &[u8], level: i32) -> (r: Result<Vec<u8>, std::io::Error>)
    ensures
        r is Ok <==> zstd_encodes(data@, level),
        r matches Ok(v) ==> v@ == zstd_compressed(data@, level),
{
    zstd::encode_all(data, level)
}

/// Relies on `zstd::decode_all` over the bytes of `data`.
#[verifier::external_body]
fn decompress(data: &[u8]) -> (r: Result<Vec<u8>, std::io::Error>)
    ensures
        r is Ok <==> zstd_decodes(data@),
        r matches Ok(v) ==> v@ == zstd_decompressed(data@),
{
    zstd::decode_all(data)
}

/// A name tar stores as given: 1 to 99 ASCII letters, digits and dots,
/// not starting with a dot.
pub open spec fn simple_entry_name(p: Seq<char>) -> bool {
    &&& 0 < p.len() < 100
    &&& p[0] != '.'
    &&& forall|i: int|
        0 <= i < p.len() ==> ('a' <= #[trigger] p[i] <= 'z' || 'A' <= p[i] <= 'Z' || '0' <= p[i]
            <= '9' || p[i] == '.')
}

/// A listing as plain values.
pub open spec fn listing_view(v: Seq<(String, Vec<u8>)>) -> Seq<(Seq<char>, Seq<u8>)> {
    v.map_values(|e: (String, Vec<u8>)| (e.0@, e.1@))
}

/// Optional bytes as a plain value.
pub open spec fn bytes_opt_view(o: Option<Vec<u8>>) -> Option<Seq<u8>> {
    match o {
        Some(v) => Some(v@),
        None => None,
    }
}

/// Frames as (number, contents) pairs.
pub open spec fn frames_view(v: Seq<FrameEntry>) -> Seq<(u64, Seq<u8>)> {
    v.map_values(|f: FrameEntry| (f.number, f.data@))
}

/// The zstd level frames are compressed with.
pub const FRAME_LEVEL: i32 = 1;

pub open spec fn frame_extension() -> Seq<char> {
    seq!['.', 'z', 's', 't']
}

pub open spec fn audio_stem() -> Seq<char> {
    seq!['a', 'u', 'd', 'i', 'o']
}

pub open spec fn metadata_stem() -> Seq<char> {
    seq!['m', 'e', 't', 'a', 'd', 'a', 't', 'a']
}

/// The path of the audio entry: `audio.mp3`.
pub open spec fn audio_path() -> Seq<char> {
    audio_stem() + seq!['.', 'm', 'p', '3']
}

/// The path of the metadata entry: `metadata.ron`.
pub open spec fn metadata_path() -> Seq<char> {
    metadata_stem() + seq!['.', 'r', 'o', 'n']
}

/// The path of the entry of frame `n`: its decimal number, then `.zst`.
pub open spec fn frame_path(n: u64) -> Seq<char> {
    decimal(n as nat) + frame_extension()
}

/// The entries of a container, in order: the frames, the audio if any, the metadata.
pub open spec fn container_entries(
    frames: Seq<(u64, Seq<u8>)>,
    audio: Option<Seq<u8>>,
    metadata: Seq<u8>,
) -> Seq<(Seq<char>, Seq<u8>)> {
    frames.map_values(|f: (u64, Seq<u8>)| (frame_path(f.0), f.1)) + match audio {
        Some(a) => seq![(audio_path(), a)],
        None => Seq::empty(),
    } + seq![(metadata_path(), metadata)]
}

/// Index of the last `c` in `s`, or -1.
pub open spec fn last_index_of(s: Seq<char>, c: char) -> int
    decreases s.len(),
{
    if s.len() == 0 {
        -1
    } else if s.last() == c {
        s.len() - 1
    } else {
        last_index_of(s.drop_last(), c)
    }
}

/// The last component of a `/`-separated path.
pub open spec fn file_name_of(path: Seq<char>) -> Seq<char> {
    path.subrange(last_index_of(path, '/') + 1, path.len() as int)
}

/// The stem of a path: its file name up to the last `.`, unless that dot
/// starts the name or there is none, in which case the whole file name.
pub open spec fn file_stem_of(path: Seq<char>) -> Seq<char> {
    let name = file_name_of(path);
    let dot = last_index_of(name, '.');
    if dot > 0 {
        name.subrange(0, dot)
    } else {
        name
    }
}

/// What a container entry holds, by its path.
#[derive(Debug, Clone, Copy, PartialEq, Eq)]
pub enum EntryKind {
    Frame(u64),
    Audio,
    Metadata,
    Invalid,
}

/// The kind of the entry at `path`: `audio` and `metadata` by stem, a frame
/// when the stem is a frame number, anything else invalid.
pub open spec fn kind_of(path: Seq<char>) -> EntryKind {
    let stem = file_stem_of(path);
    if stem == audio_stem() {
        EntryKind::Audio
    } else if stem == metadata_stem() {
        EntryKind::Metadata
    } else if is_frame_number(stem) {
        EntryKind::Frame(digits_value(number_digits(stem)) as u64)
    } else {
        EntryKind::Invalid
    }
}

/// The frame entries of a listing as (number, contents), in listing order.
pub open spec fn listed_frames(l: Seq<(Seq<char>, Seq<u8>)>) -> Seq<(u64, Seq<u8>)>
    decreases l.len(),
{
    if l.len() == 0 {
        Seq::empty()
    } else {
        let prev = listed_frames(l.drop_last());
        match kind_of(l.last().0) {
            EntryKind::Frame(n) => prev.push((n, l.last().1)),
            _ => prev,
        }
    }
}

/// The contents of the last entry of a listing with the given kind.
pub open spec fn last_of_kind(l: Seq<(Seq<char>, Seq<u8>)>, k: EntryKind) -> Option<Seq<u8>>
    decreases l.len(),
{
    if l.len() == 0 {
        None
    } else if kind_of(l.last().0) == k {
        Some(l.last().1)
    } else {
        last_of_kind(l.drop_last(), k)
    }
}

/// Whether some entry of a listing has an invalid name.
pub open spec fn has_invalid(l: Seq<(Seq<char>, Seq<u8>)>) -> bool {
    exists|i: int| 0 <= i < l.len() && kind_of(#[trigger] l[i].0) == EntryKind::Invalid
}

/// Errors of writing or reading a container.
#[derive(Debug)]
pub enum ContainerError {
    /// The archive could not be written or read.
    Archive(std::io::Error),
    /// Two frames carry this sequence number.
    DuplicateFrame(u64),
    /// An entry's name is neither a frame number, `audio` nor `metadata`.
    BadEntryName(String),
    /// The container has no metadata entry.
    MissingMetadata,
    /// A frame could not be compressed or decompressed.
    Codec(u64, std::io::Error),
}

/// A container read back: frames decompressed and in order, audio, metadata.
#[derive(Debug)]
pub struct Container {
    pub frames: Vec<FrameEntry>,
    pub audio: Option<Vec<u8>>,
    pub metadata: Vec<u8>,
}

/// Builds the path of frame `n`'s entry.
pub fn frame_entry_path(n: u64) -> (r: String)
    ensures
        r@ == frame_path(n),
{
    let mut out: Vec<char> = Vec::new();
    push_decimal(&mut out, n);
    out.push('.');
    out.push('z');
    out.push('s');
    out.push('t');
    assert(out@ =~= frame_path(n));
    string_from_chars(&out)
}

/// Compresses a rendered frame's text for storage.
pub fn compress_frame(number: u64, text: &str) -> (r: Result<FrameEntry, ContainerError>)
    ensures
        r matches Ok(f) ==> f.number == number && f.data@ == zstd_compressed(
            text.spec_bytes(),
            FRAME_LEVEL,
        ),
        r is Ok <==> zstd_encodes(text.spec_bytes(), FRAME_LEVEL),
        r matches Err(e) ==> e is Codec,
{
    match compress(text.as_bytes(), FRAME_LEVEL) {
        Ok(data) => Ok(FrameEntry { number, data }),
        Err(e) => Err(ContainerError::Codec(number, e)),
    }
}

/// Writes a container: the frames in ascending order of number, each under
/// its number with `.zst`, then the audio as `audio.mp3` when given, then the
/// metadata as `metadata.ron`. Fails with `DuplicateFrame` exactly when two
/// frames share a number, and succeeds otherwise.
pub fn assemble_container(frames: Vec<FrameEntry>, audio: Option<Vec<u8>>, metadata: &[u8]) -> (r:
    Result<Vec<u8>, ContainerError>)
    ensures
        r is Ok <==> numbers_distinct(frames@),
        r matches Err(e) ==> e is DuplicateFrame,
        r matches Ok(bytes) ==> exists|sorted: Seq<FrameEntry>|
            strictly_ascending(sorted) && sorted.len() == frames@.len() && same_entries(
                sorted,
                frames@,
            ) && bytes@ == archive_bytes(
                container_entries(
                    frames_view(sorted),
                    bytes_opt_view(audio),
                    metadata@,
                ),
            ),
{
    let sorted = match order_frames(frames) {
        Ok(v) => v,
        Err(n) => return Err(ContainerError::DuplicateFrame(n)),
    };
    let ghost audio_view = bytes_opt_view(audio);
    let mut b = new_archive();
    let mut i: usize = 0;
    while i < sorted.len()
        invariant
            i <= sorted@.len(),
            numbers_distinct(frames@),
            strictly_ascending(sorted@),
            sorted@.len() == frames@.len(),
            same_entries(sorted@, frames@),
            archive_entries(b) == frames_view(sorted@).subrange(0, i as int).map_values(
                |f: (u64, Seq<u8>)| (frame_path(f.0), f.1),
            ),
        decreases sorted@.len() - i,
    {
        let path = frame_entry_path(sorted[i].number);
        proof {
            lemma_frame_path_simple(sorted@[i as int].number);
        }
        let ghost before = archive_entries(b);
        match append_entry(&mut b, path.as_str(), sorted[i].data.as_slice()) {
            Ok(()) => {},
            Err(e) => return Err(ContainerError::Archive(e)),
        }
        i = i + 1;
        assert(archive_entries(b) =~= frames_view(sorted@).subrange(0, i as int).map_values(
            |f: (u64, Seq<u8>)| (frame_path(f.0), f.1),
        ));
    }
    let ghost framed = archive_entries(b);
    assert(frames_view(sorted@).subrange(0, sorted@.len() as int) =~= frames_view(sorted@));
    match &audio {
        Some(a) => {
            let p = "audio.mp3";
            proof {
                reveal_strlit("audio.mp3");
                assert(p@ =~= audio_path());
            }
            proof {
                lemma_fixed_names_simple();
            }
            match append_entry(&mut b, p, a.as_slice()) {
                Ok(()) => {},
                Err(e) => return Err(ContainerError::Archive(e)),
            }
        },
        None => {},
    }
    let ghost with_audio = archive_entries(b);
    let m = "metadata.ron";
    proof {
        reveal_strlit("metadata.ron");
        assert(m@ =~= metadata_path());
    }
    proof {
        lemma_fixed_names_simple();
    }
    match append_entry(&mut b, m, metadata) {
        Ok(()) => {},
        Err(e) => return Err(ContainerError::Archive(e)),
    }
    assert(archive_entries(b) =~= container_entries(frames_view(sorted@), audio_view, metadata@));
    match finish_archive(b) {
        Ok(bytes) => Ok(bytes),
        Err(e) => Err(ContainerError::Archive(e)),
    }
}

/// Copies a byte vector.
pub(crate) fn copy_bytes(v: &Vec<u8>) -> (r: Vec<u8>)
    ensures
        r@ == v@,
{
    let mut out: Vec<u8> = Vec::new();
    let mut i: usize = 0;
    while i < v.len()
        invariant
            i <= v@.len(),
            out@ == v@.subrange(0, i as int),
        decreases v@.len() - i,
    {
        out.push(v[i]);
        i = i + 1;
        assert(out@ =~= v@.subrange(0, i as int));
    }
    assert(v@.subrange(0, v@.len() as int) =~= v@);
    out
}

pub(crate) proof fn lemma_last_index_bounds(s: Seq<char>, c: char)
    ensures
        -1 <= last_index_of(s, c) < s.len(),
    decreases s.len(),
{
    if s.len() > 0 {
        lemma_last_index_bounds(s.drop_last(), c);
    }
}

/// Position of the last `c` in `s`.
pub(crate) fn last_index(s: &str, c: char) -> (r: Option<usize>)
    ensures
        r matches Some(i) ==> i as int == last_index_of(s@, c),
        r is None ==> last_index_of(s@, c) == -1,
{
    let mut i: usize = s.unicode_len();
    assert(s@.subrange(0, i as int) =~= s@);
    while i > 0
        invariant
            i <= s@.len(),
            last_index_of(s@, c) == last_index_of(s@.subrange(0, i as int), c),
        decreases i,
    {
        assert(s@.subrange(0, i as int).drop_last() =~= s@.subrange(0, i - 1));
        if s.get_char(i - 1) == c {
            return Some(i - 1);
        }
        i = i - 1;
    }
    None
}

/// Whether two strings hold the same characters.
fn same_chars(a: &str, b: &str) -> (r: bool)
    ensures
        r == (a@ == b@),
{
    let n = a.unicode_len();
    if n != b.unicode_len() {
        return false;
    }
    let mut i: usize = 0;
    while i < n
        invariant
            n == a@.len(),
            n == b@.len(),
            i <= n,
            forall|k: int| 0 <= k < i ==> a@[k] == b@[k],
        decreases n - i,
    {
        if a.get_char(i) != b.get_char(i) {
            return false;
        }
        i = i + 1;
    }
    assert(a@ =~= b@);
    true
}

/// The stem of an entry path (see `file_stem_of`).
pub fn file_stem(path: &str) -> (r: &str)
    ensures
        r@ == file_stem_of(path@),
{
    let len = path.unicode_len();
    proof {
        lemma_last_index_bounds(path@, '/');
    }
    let start: usize = match last_index(path, '/') {
        Some(i) => i + 1,
        None => 0,
    };
    let name = path.substring_char(start, len);
    proof {
        lemma_last_index_bounds(name@, '.');
    }
    match last_index(name, '.') {
        Some(d) => {
            if d > 0 {
                name.substring_char(0, d)
            } else {
                name
            }
        },
        None => name,
    }
}

/// What the entry at `path` holds (see `kind_of`).
pub fn entry_kind(path: &str) -> (k: EntryKind)
    ensures
        k == kind_of(path@),
{
    let stem = file_stem(path);
    let audio = "audio";
    let metadata = "metadata";
    proof {
        reveal_strlit("audio");
        reveal_strlit("metadata");
        assert(audio@ =~= audio_stem());
        assert(metadata@ =~= metadata_stem());
    }
    if same_chars(stem, audio) {
        EntryKind::Audio
    } else if same_chars(stem, metadata) {
        EntryKind::Metadata
    } else {
        match parse_frame_number(stem) {
            Some(n) => EntryKind::Frame(n),
            None => EntryKind::Invalid,
        }
    }
}

/// The parts of a listing: its frame entries in listing order, its audio and
/// its metadata (the last entry of each kind counts). Fails on the first
/// entry with an invalid name, or when there is no metadata entry.
pub fn split_entries(listing: &Vec<(String, Vec<u8>)>) -> (r: Result<
    (Vec<FrameEntry>, Option<Vec<u8>>, Vec<u8>),
    ContainerError,
>)
    ensures
        r matches Err(ContainerError::BadEntryName(_)) <==> has_invalid(listing_view(listing@)),
        r matches Err(ContainerError::MissingMetadata) <==> !has_invalid(listing_view(listing@))
            && last_of_kind(listing_view(listing@), EntryKind::Metadata) is None,
        r matches Err(e) ==> (e is BadEntryName || e is MissingMetadata),
        r matches Ok((frames, audio, metadata)) ==> frames_view(frames@) == listed_frames(
            listing_view(listing@),
        ) && bytes_opt_view(audio) == last_of_kind(listing_view(listing@), EntryKind::Audio)
            && Some(metadata@) == last_of_kind(listing_view(listing@), EntryKind::Metadata),
{
    let ghost l = listing_view(listing@);
    let mut frames: Vec<FrameEntry> = Vec::new();
    let mut audio: Option<Vec<u8>> = None;
    let mut metadata: Option<Vec<u8>> = None;
    let mut i: usize = 0;
    while i < listing.len()
        invariant
            l == listing_view(listing@),
            i <= l.len(),
            !has_invalid(l.subrange(0, i as int)),
            frames_view(frames@) == listed_frames(l.subrange(0, i as int)),
            bytes_opt_view(audio) == last_of_kind(l.subrange(0, i as int), EntryKind::Audio),
            bytes_opt_view(metadata) == last_of_kind(l.subrange(0, i as int), EntryKind::Metadata),
        decreases l.len() - i,
    {
        let ghost pre = l.subrange(0, i as int);
        let ghost cur = l.subrange(0, i + 1);
        assert(cur.drop_last() =~= pre);
        assert(cur.last() == l[i as int]);
        let path = listing[i].0.as_str();
        let kind = entry_kind(path);
        match kind {
            EntryKind::Invalid => {
                assert(kind_of(l[i as int].0) == EntryKind::Invalid);
                return Err(ContainerError::BadEntryName(listing[i].0.clone()));
            },
            EntryKind::Frame(n) => {
                let data = copy_bytes(&listing[i].1);
                frames.push(FrameEntry { number: n, data });
                assert(frames_view(frames@) =~= listed_frames(cur));
            },
            EntryKind::Audio => {
                audio = Some(copy_bytes(&listing[i].1));
                assert(frames_view(frames@) =~= listed_frames(cur));
            },
            EntryKind::Metadata => {
                metadata = Some(copy_bytes(&listing[i].1));
                assert(frames_view(frames@) =~= listed_frames(cur));
            },
        }
        proof {
            assert forall|k: int| 0 <= k < cur.len() implies kind_of(#[trigger] cur[k].0)
                != EntryKind::Invalid by {
                if k < i {
                    assert(cur[k] == pre[k]);
                }
            }
        }
        i = i + 1;
    }
    assert(l.subrange(0, l.len() as int) =~= l);
    match metadata {
        Some(m) => Ok((frames, audio, m)),
        None => Err(ContainerError::MissingMetadata),
    }
}

/// Decompresses every frame of `frames`, keeping their order and numbers.
fn decompress_frames(frames: Vec<FrameEntry>) -> (r: Result<Vec<FrameEntry>, ContainerError>)
    ensures
        r matches Ok(v) ==> v@.len() == frames@.len() && forall|i: int|
            0 <= i < v@.len() ==> (#[trigger] v@[i]).number == frames@[i].number && v@[i].data@
                == zstd_decompressed(frames@[i].data@),
        r is Ok <==> forall|i: int| 0 <= i < frames@.len() ==> zstd_decodes(#[trigger] frames@[i].data@),
        r matches Err(e) ==> e is Codec,
        r matches Err(ContainerError::Codec(n, _)) ==> exists|i: int|
            0 <= i < frames@.len() && frames@[i].number == n && !zstd_decodes(frames@[i].data@),
{
    let mut out: Vec<FrameEntry> = Vec::new();
    let mut i: usize = 0;
    while i < frames.len()
        invariant
            i <= frames@.len(),
            out@.len() == i,
            forall|k: int|
                0 <= k < i ==> (#[trigger] out@[k]).number == frames@[k].number && out@[k].data@
                    == zstd_decompressed(frames@[k].data@),
            forall|k: int| 0 <= k < i ==> zstd_decodes(#[trigger] frames@[k].data@),
        decreases frames@.len() - i,
    {
        match decompress(frames[i].data.as_slice()) {
            Ok(data) => out.push(FrameEntry { number: frames[i].number, data }),
            Err(e) => {
                assert(!zstd_decodes(frames@[i as int].data@));
                return Err(ContainerError::Codec(frames[i].number, e));
            },
        }
        i = i + 1;
    }
    Ok(out)
}

/// Each frame of `frames` is the decompression of a listed frame with its
/// number, and each listed frame has such a counterpart in `frames`.
pub open spec fn decompressed_from(frames: Seq<FrameEntry>, listed: Seq<(u64, Seq<u8>)>) -> bool {
    &&& forall|i: int| 0 <= i < frames.len() ==> has_source(#[trigger] frames[i], listed)
    &&& forall|j: int| 0 <= j < listed.len() ==> has_image(#[trigger] listed[j], frames)
}

/// `f` is the decompression of some listed frame with its number.
pub open spec fn has_source(f: FrameEntry, listed: Seq<(u64, Seq<u8>)>) -> bool {
    exists|j: int|
        0 <= j < listed.len() && f.number == listed[j].0 && f.data@ == zstd_decompressed(
            listed[j].1,
        )
}

/// Some frame of `frames` is the decompression of the listed frame `e`, with its number.
pub open spec fn has_image(e: (u64, Seq<u8>), frames: Seq<FrameEntry>) -> bool {
    exists|i: int|
        0 <= i < frames.len() && frames[i].number == e.0 && frames[i].data@ == zstd_decompressed(
            e.1,
        )
}

/// The frames of a listing carry distinct numbers.
pub open spec fn listed_numbers_distinct(lf: Seq<(u64, Seq<u8>)>) -> bool {
    forall|i: int, j: int|
        0 <= i < lf.len() && 0 <= j < lf.len() && i != j ==> lf[i].0 != lf[j].0
}

/// Whether the container `bytes` can be read: the archive reads, every
/// entry name is valid, there is a metadata entry, the frame numbers are
/// distinct and every frame decompresses.
pub open spec fn container_readable(bytes: Seq<u8>) -> bool {
    let l = archive_listing(bytes);
    &&& archive_reads(bytes)
    &&& !has_invalid(l)
    &&& last_of_kind(l, EntryKind::Metadata) is Some
    &&& listed_numbers_distinct(listed_frames(l))
    &&& forall|j: int|
        0 <= j < listed_frames(l).len() ==> zstd_decodes(#[trigger] listed_frames(l)[j].1)
}

/// `c` is what the container `bytes` reads as: its metadata and audio are the
/// last entries of their kind, and its frames are the listed frames
/// decompressed, in ascending order of number.
pub open spec fn reads_as(bytes: Seq<u8>, c: Container) -> bool {
    let l = archive_listing(bytes);
    &&& !has_invalid(l)
    &&& Some(c.metadata@) == last_of_kind(l, EntryKind::Metadata)
    &&& bytes_opt_view(c.audio) == last_of_kind(l, EntryKind::Audio)
    &&& strictly_ascending(c.frames@)
    &&& c.frames@.len() == listed_frames(l).len()
    &&& decompressed_from(c.frames@, listed_frames(l))
}

/// Reads a container: lists the archive, splits its entries by name, puts the
/// frames in ascending order of number and decompresses them. Succeeds
/// exactly when the container is readable (see `container_readable`); fails
/// on an unreadable archive, an invalid entry name, a missing metadata entry,
/// two frames with one number, or a frame that does not decompress.
pub fn read_container(bytes: &[u8]) -> (r: Result<Container, ContainerError>)
    ensures
        r is Ok <==> container_readable(bytes@),
        r matches Ok(c) ==> reads_as(bytes@, c),
        r matches Err(ContainerError::Codec(n, _)) ==> exists|j: int|
            0 <= j < listed_frames(archive_listing(bytes@)).len() && listed_frames(
                archive_listing(bytes@),
            )[j].0 == n && !zstd_decodes(listed_frames(archive_listing(bytes@))[j].1),
        r matches Err(ContainerError::BadEntryName(_)) ==> has_invalid(archive_listing(bytes@)),
        r matches Err(ContainerError::MissingMetadata) ==> !has_invalid(archive_listing(bytes@))
            && last_of_kind(archive_listing(bytes@), EntryKind::Metadata) is None,
        r matches Err(ContainerError::DuplicateFrame(n)) ==> !has_invalid(archive_listing(bytes@))
            && exists|i: int, j: int|
            0 <= i < j < listed_frames(archive_listing(bytes@)).len() && listed_frames(
                archive_listing(bytes@),
            )[i].0 == n && listed_frames(archive_listing(bytes@))[j].0 == n,
{
    let listing = match read_archive(bytes) {
        Ok(v) => v,
        Err(e) => return Err(ContainerError::Archive(e)),
    };
    let (frames, audio, metadata) = match split_entries(&listing) {
        Ok(parts) => parts,
        Err(e) => return Err(e),
    };
    let ghost listed = frames@;
    let sorted = match order_frames(frames) {
        Ok(v) => v,
        Err(n) => {
            proof {
                let l = archive_listing(bytes@);
                let lf = listed_frames(l);
                assert(frames_view(listed) == lf);
                let (i, j) = choose|i: int, j: int|
                    0 <= i < listed.len() && 0 <= j < listed.len() && i != j && listed[i].number
                        == n && listed[j].number == n;
                assert(lf[i].0 == n && lf[j].0 == n);
                if i < j {
                    assert(0 <= i < j < lf.len() && lf[i].0 == n && lf[j].0 == n);
                } else {
                    assert(0 <= j < i < lf.len() && lf[j].0 == n && lf[i].0 == n);
                }
            }
            return Err(ContainerError::DuplicateFrame(n));
        },
    };
    let ghost sorted_view = sorted@;
    proof {
        let lf = listed_frames(archive_listing(bytes@));
        assert(frames_view(listed) == lf);
        assert forall|i: int, j: int|
            0 <= i < lf.len() && 0 <= j < lf.len() && i != j implies lf[i].0 != lf[j].0 by {
            assert(lf[i].0 == listed[i].number && lf[j].0 == listed[j].number);
        }
    }
    let decoded = match decompress_frames(sorted) {
        Ok(v) => v,
        Err(e) => {
            proof {
                let lf = listed_frames(archive_listing(bytes@));
                if let ContainerError::Codec(n, _) = e {
                    let i = choose|i: int|
                        0 <= i < sorted_view.len() && sorted_view[i].number == n && !zstd_decodes(
                            sorted_view[i].data@,
                        );
                    assert(listed.contains(sorted_view[i]));
                    let j = choose|j: int| 0 <= j < listed.len() && listed[j] == sorted_view[i];
                    assert(lf[j] == (listed[j].number, listed[j].data@));
                    assert(0 <= j < lf.len() && lf[j].0 == n && !zstd_decodes(lf[j].1));
                }
            }
            return Err(e);
        },
    };
    proof {
        let l = archive_listing(bytes@);
        assert(frames_view(listed) == listed_frames(l));
        assert(listed_frames(l).len() == listed.len());
        assert(!has_invalid(l));
        assert(Some(metadata@) == last_of_kind(l, EntryKind::Metadata));
        assert(bytes_opt_view(audio) == last_of_kind(l, EntryKind::Audio));
        assert forall|a: int, b: int| 0 <= a < b < decoded@.len() implies decoded@[a].number
            < decoded@[b].number by {
            assert(decoded@[a].number == sorted_view[a].number);
            assert(decoded@[b].number == sorted_view[b].number);
        }
        let lf = listed_frames(l);
        assert forall|i: int| 0 <= i < decoded@.len() implies has_source(
            #[trigger] decoded@[i],
            lf,
        ) by {
            assert(listed.contains(sorted_view[i]));
            let j = choose|j: int| 0 <= j < listed.len() && listed[j] == sorted_view[i];
            assert(frames_view(listed)[j] == (listed[j].number, listed[j].data@));
            assert(0 <= j < lf.len() && decoded@[i].number == lf[j].0 && decoded@[i].data@
                == zstd_decompressed(lf[j].1));
        }
        assert forall|j: int| 0 <= j < lf.len() implies has_image(#[trigger] lf[j], decoded@) by {
            assert(frames_view(listed)[j] == (listed[j].number, listed[j].data@));
            assert(sorted_view.contains(listed[j]));
            let i = choose|i: int| 0 <= i < sorted_view.len() && sorted_view[i] == listed[j];
            assert(decoded@[i].number == sorted_view[i].number);
            assert(0 <= i < decoded@.len() && decoded@[i].number == lf[j].0 && decoded@[i].data@
                == zstd_decompressed(lf[j].1));
        }
        assert(strictly_ascending(decoded@));
        assert(decompressed_from(decoded@, listed_frames(l)));
        assert(decoded@.len() == listed_frames(l).len());
        assert forall|j: int| 0 <= j < lf.len() implies zstd_decodes(#[trigger] lf[j].1) by {
            assert(lf[j] == (listed[j].number, listed[j].data@));
            assert(sorted_view.contains(listed[j]));
            let i = choose|i: int| 0 <= i < sorted_view.len() && sorted_view[i] == listed[j];
            assert(zstd_decodes(sorted_view[i].data@));
        }
    }
    Ok(Container { frames: decoded, audio, metadata })
}

proof fn lemma_digit_char(d: nat)
    requires
        d < 10,
    ensures
        is_digit(digit_char(d)),
        digit_value(digit_char(d)) == d,
        digit_char(d) != '.' && digit_char(d) != '/' && digit_char(d) != '+',
{
}

proof fn lemma_decimal_digits(n: nat)
    ensures
        decimal(n).len() >= 1,
        forall|i: int| 0 <= i < decimal(n).len() ==> is_digit(#[trigger] decimal(n)[i]),
        digits_value(decimal(n)) == n,
    decreases n,
{
    if n < 10 {
        lemma_digit_char(n);
        assert(decimal(n).drop_last() =~= Seq::<char>::empty());
        assert(digits_value(Seq::<char>::empty()) == 0);
        assert(decimal(n).last() == digit_char(n));
        assert(digits_value(decimal(n)) == digits_value(decimal(n).drop_last()) * 10 + digit_value(
            digit_char(n),
        ));
    } else {
        lemma_decimal_digits(n / 10);
        lemma_digit_char(n % 10);
        let s = decimal(n / 10);
        assert(decimal(n).drop_last() =~= s);
        assert(decimal(n).last() == digit_char(n % 10));
        assert(digits_value(decimal(n)) == digits_value(s) * 10 + digit_value(digit_char(n % 10)));
        assert((n / 10) * 10 + n % 10 == n) by (nonlinear_arith);
        assert forall|i: int| 0 <= i < decimal(n).len() implies is_digit(#[trigger] decimal(n)[i]) by {
            if i < s.len() {
                assert(decimal(n)[i] == s[i]);
            }
        }
    }
}

proof fn lemma_no_occurrence(s: Seq<char>, c: char)
    requires
        forall|i: int| 0 <= i < s.len() ==> #[trigger] s[i] != c,
    ensures
        last_index_of(s, c) == -1,
    decreases s.len(),
{
    if s.len() > 0 {
        let t = s.drop_last();
        assert forall|i: int| 0 <= i < t.len() implies #[trigger] t[i] != c by {
            assert(t[i] == s[i]);
        }
        lemma_no_occurrence(t, c);
    }
}

/// The stem of `stem + "." + ext`, where `stem` is non-empty and neither
/// part holds `/` nor `ext` a `.`, is `stem`.
proof fn lemma_stem_of_name(stem: Seq<char>, ext: Seq<char>)
    requires
        stem.len() >= 1,
        forall|i: int| 0 <= i < stem.len() ==> #[trigger] stem[i] != '/',
        forall|i: int| 0 <= i < ext.len() ==> #[trigger] ext[i] != '/' && ext[i] != '.',
    ensures
        file_stem_of(stem + seq!['.'] + ext) == stem,
    decreases ext.len(),
{
    let p = stem + seq!['.'] + ext;
    assert forall|i: int| 0 <= i < p.len() implies #[trigger] p[i] != '/' by {
        if i < stem.len() {
            assert(p[i] == stem[i]);
        } else if i > stem.len() {
            assert(p[i] == ext[i - stem.len() - 1]);
        }
    }
    lemma_no_occurrence(p, '/');
    assert(file_name_of(p) =~= p);
    lemma_dot_is_last(stem, ext);
    assert(p.subrange(0, stem.len() as int) =~= stem);
}

proof fn lemma_dot_is_last(stem: Seq<char>, ext: Seq<char>)
    requires
        forall|i: int| 0 <= i < ext.len() ==> #[trigger] ext[i] != '/' && ext[i] != '.',
    ensures
        last_index_of(stem + seq!['.'] + ext, '.') == stem.len(),
    decreases ext.len(),
{
    let p = stem + seq!['.'] + ext;
    if ext.len() == 0 {
        assert(p.last() == '.');
    } else {
        let e2 = ext.drop_last();
        assert(p.drop_last() =~= stem + seq!['.'] + e2);
        assert(p.last() == ext.last());
        assert forall|i: int| 0 <= i < e2.len() implies #[trigger] e2[i] != '/' && e2[i] != '.' by {
            assert(e2[i] == ext[i]);
        }
        lemma_dot_is_last(stem, e2);
    }
}

/// Entry names round-trip: the entry written for frame `n` reads back as
/// frame `n`, and the audio and metadata entries read back as such.
pub proof fn lemma_entry_names_round_trip(n: u64)
    ensures
        kind_of(frame_path(n)) == EntryKind::Frame(n),
        kind_of(audio_path()) == EntryKind::Audio,
        kind_of(metadata_path()) == EntryKind::Metadata,
{
    let d = decimal(n as nat);
    lemma_decimal_digits(n as nat);
    let zst = seq!['z', 's', 't'];
    assert(frame_path(n) =~= d + seq!['.'] + zst);
    lemma_stem_of_name(d, zst);
    assert(d[0] != '+') by {
        assert(is_digit(d[0]));
    }
    assert(number_digits(d) == d);
    if d == audio_stem() {
        assert(is_digit(d[0]));
    }
    if d == metadata_stem() {
        assert(is_digit(d[0]));
    }
    let mp3 = seq!['m', 'p', '3'];
    assert(audio_path() =~= audio_stem() + seq!['.'] + mp3);
    lemma_stem_of_name(audio_stem(), mp3);
    let ron = seq!['r', 'o', 'n'];
    assert(metadata_path() =~= metadata_stem() + seq!['.'] + ron);
    lemma_stem_of_name(metadata_stem(), ron);
    assert(audio_stem() != metadata_stem()) by {
        assert(audio_stem().len() != metadata_stem().len());
    }
}

/// `10^k`.
pub open spec fn pow10(k: nat) -> nat
    decreases k,
{
    if k == 0 {
        1
    } else {
        10 * pow10((k - 1) as nat)
    }
}

proof fn lemma_decimal_len(n: nat, k: nat)
    requires
        k >= 1,
        n < pow10(k),
    ensures
        decimal(n).len() <= k,
    decreases k,
{
    if n >= 10 {
        let p = pow10((k - 1) as nat);
        assert(k >= 2) by {
            if k == 1 {
                assert(pow10(0) == 1);
            }
        }
        assert(n / 10 < p) by (nonlinear_arith)
            requires n < 10 * p;
        lemma_decimal_len(n / 10, (k - 1) as nat);
    }
}

proof fn lemma_frame_path_simple(n: u64)
    ensures
        simple_entry_name(frame_path(n)),
{
    let d = decimal(n as nat);
    lemma_decimal_digits(n as nat);
    assert(pow10(20) == 100000000000000000000nat) by {
        reveal_with_fuel(pow10, 21);
    }
    lemma_decimal_len(n as nat, 20);
    let p = frame_path(n);
    assert forall|i: int| 0 <= i < p.len() implies ('a' <= #[trigger] p[i] <= 'z' || 'A' <= p[i]
        <= 'Z' || '0' <= p[i] <= '9' || p[i] == '.') by {
        if i < d.len() {
            assert(p[i] == d[i]);
            assert(is_digit(d[i]));
        }
    }
    assert(p[0] == d[0]);
    assert(is_digit(d[0]));
}

proof fn lemma_fixed_names_simple()
    ensures
        simple_entry_name(audio_path()),
        simple_entry_name(metadata_path()),
{
    assert(audio_path() =~= seq!['a', 'u', 'd', 'i', 'o', '.', 'm', 'p', '3']);
    assert(metadata_path() =~= seq!['m', 'e', 't', 'a', 'd', 'a', 't', 'a', '.', 'r', 'o', 'n']);
}

/// Sequence numbers strictly increase along a sequence of (number, contents) pairs.
pub open spec fn pairs_ascending(s: Seq<(u64, Seq<u8>)>) -> bool {
    forall|i: int, j: int| 0 <= i < j < s.len() ==> s[i].0 < s[j].0
}

/// `a` and `b` are rearrangements of each other.
pub open spec fn rearranged(a: Seq<(u64, Seq<u8>)>, b: Seq<(u64, Seq<u8>)>) -> bool {
    &&& a.len() == b.len()
    &&& forall|i: int| 0 <= i < a.len() ==> b.contains(#[trigger] a[i])
    &&& forall|i: int| 0 <= i < b.len() ==> a.contains(#[trigger] b[i])
}

proof fn lemma_pairs_prefix_equal(a: Seq<(u64, Seq<u8>)>, b: Seq<(u64, Seq<u8>)>, i: int)
    requires
        pairs_ascending(a),
        pairs_ascending(b),
        rearranged(a, b),
        0 <= i < a.len(),
    ensures
        a[i] == b[i],
    decreases i,
{
    assert forall|k: int| 0 <= k < i implies a[k] == b[k] by {
        lemma_pairs_prefix_equal(a, b, k);
    }
    assert(b.contains(a[i]));
    let j = choose|j: int| 0 <= j < b.len() && b[j] == a[i];
    assert(a.contains(b[i]));
    let m = choose|m: int| 0 <= m < a.len() && a[m] == b[i];
    if j < i {
        assert(a[j] == b[j]);
        assert(a[j].0 < a[i].0);
    } else if j > i {
        if m < i {
            assert(a[m] == b[m]);
            assert(b[m].0 < b[i].0);
        } else if m == i {
            assert(b[i].0 < b[j].0);
        } else {
            assert(a[i].0 < a[m].0);
            assert(b[i].0 < b[j].0);
        }
    }
}

proof fn lemma_frames_contained(
    ca: Seq<FrameEntry>,
    la: Seq<(u64, Seq<u8>)>,
    cb: Seq<FrameEntry>,
    lb: Seq<(u64, Seq<u8>)>,
)
    requires
        decompressed_from(ca, la),
        decompressed_from(cb, lb),
        forall|j: int| 0 <= j < la.len() ==> lb.contains(#[trigger] la[j]),
    ensures
        forall|i: int|
            0 <= i < ca.len() ==> frames_view(cb).contains(#[trigger] frames_view(ca)[i]),
{
    assert forall|i: int| 0 <= i < ca.len() implies frames_view(cb).contains(
        #[trigger] frames_view(ca)[i],
    ) by {
        assert(has_source(ca[i], la));
        let j = choose|j: int|
            0 <= j < la.len() && ca[i].number == la[j].0 && ca[i].data@ == zstd_decompressed(
                la[j].1,
            );
        assert(lb.contains(la[j]));
        let k = choose|k: int| 0 <= k < lb.len() && lb[k] == la[j];
        assert(has_image(lb[k], cb));
        let m = choose|m: int|
            0 <= m < cb.len() && cb[m].number == lb[k].0 && cb[m].data@ == zstd_decompressed(
                lb[k].1,
            );
        assert(frames_view(cb)[m] == frames_view(ca)[i]);
    }
}

proof fn lemma_unique_served(
    ca: Seq<FrameEntry>,
    la: Seq<(u64, Seq<u8>)>,
    cb: Seq<FrameEntry>,
    lb: Seq<(u64, Seq<u8>)>,
)
    requires
        strictly_ascending(ca),
        strictly_ascending(cb),
        ca.len() == la.len(),
        cb.len() == lb.len(),
        decompressed_from(ca, la),
        decompressed_from(cb, lb),
        rearranged(la, lb),
    ensures
        frames_view(ca) == frames_view(cb),
{
    lemma_frames_contained(ca, la, cb, lb);
    lemma_frames_contained(cb, lb, ca, la);
    lemma_views_equal(ca, cb);
}

proof fn lemma_views_equal(ca: Seq<FrameEntry>, cb: Seq<FrameEntry>)
    requires
        strictly_ascending(ca),
        strictly_ascending(cb),
        ca.len() == cb.len(),
        forall|i: int|
            0 <= i < ca.len() ==> frames_view(cb).contains(#[trigger] frames_view(ca)[i]),
        forall|i: int|
            0 <= i < cb.len() ==> frames_view(ca).contains(#[trigger] frames_view(cb)[i]),
    ensures
        frames_view(ca) == frames_view(cb),
{
    let v1 = frames_view(ca);
    let v2 = frames_view(cb);
    assert forall|i: int, j: int| 0 <= i < j < v1.len() implies v1[i].0 < v1[j].0 by {
        assert(ca[i].number < ca[j].number);
    }
    assert forall|i: int, j: int| 0 <= i < j < v2.len() implies v2[i].0 < v2[j].0 by {
        assert(cb[i].number < cb[j].number);
    }
    assert(rearranged(v1, v2));
    assert forall|i: int| 0 <= i < v1.len() implies v1[i] == v2[i] by {
        lemma_pairs_prefix_equal(v1, v2, i);
    }
    assert(v1 =~= v2);
}

/// The frames served from a container do not depend on where its entries
/// sit in the archive: two containers whose frame entries are the same up to
/// order read back as the same frames, in the same order.
pub proof fn lemma_served_frames_ignore_archive_order(
    b1: Seq<u8>,
    b2: Seq<u8>,
    c1: Container,
    c2: Container,
)
    requires
        reads_as(b1, c1),
        reads_as(b2, c2),
        rearranged(listed_frames(archive_listing(b1)), listed_frames(archive_listing(b2))),
    ensures
        frames_view(c1.frames@) == frames_view(c2.frames@),
{
    lemma_unique_served(
        c1.frames@,
        listed_frames(archive_listing(b1)),
        c2.frames@,
        listed_frames(archive_listing(b2)),
    );
}

} // verus!
