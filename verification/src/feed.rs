//! Turning the bytes of a feed file into feed messages: compressed feeds are
//! decompressed first, and every file of an archive is read on its own.

use crate::decode::{decode_feed, spec_decode_feed};
use crate::model::FeedMessage;
use crate::rows::{concat_map, lemma_concat_map_all, lemma_concat_map_take};
use crate::text::{ends_with, has_suffix};
use crate::wire::{ErrorKind, ParseError};
use std::io::Read;
use vstd::prelude::*;

verus! {

/// What gzip decompression makes of `data`, if it succeeds.
pub uninterp spec fn gzip_decoded(data: Seq<u8>) -> Option<Seq<u8>>;

/// What bzip2 decompression makes of `data`, if it succeeds.
pub uninterp spec fn bzip2_decoded(data: Seq<u8>) -> Option<Seq<u8>>;

/// Decompresses `data` with `flate2::read::GzDecoder`, reading it to the end.
/// The contract claims only that the outcome is a function of `data`: the
/// bytes when it succeeds, and that it fails exactly where the name has no
/// value. The text of the error is left unsaid.
#[verifier::external_body]
fn gunzip(data: &[u8]) -> (res: Result<Vec<u8>, String>)
    ensures
        match res {
            Ok(v) => gzip_decoded(data@) == Some(v@),
            Err(_) => gzip_decoded(data@) is None,
        },
{
    let mut out: Vec<u8> = Vec::new();
    match flate2::read::GzDecoder::new(data).read_to_end(&mut out) {
        Ok(_) => Ok(out),
        Err(e) => Err(e.to_string()),
    }
}

/// Decompresses `data` with `bzip2::read::BzDecoder`, reading it to the end.
/// The contract claims only that the outcome is a function of `data`: the
/// bytes when it succeeds, and that it fails exactly where the name has no
/// value. The text of the error is left unsaid.
#[verifier::external_body]
fn bunzip2(data: &[u8]) -> (res: Result<Vec<u8>, String>)
    ensures
        match res {
            Ok(v) => bzip2_decoded(data@) == Some(v@),
            Err(_) => bzip2_decoded(data@) is None,
        },
{
    let mut out: Vec<u8> = Vec::new();
    match bzip2::read::BzDecoder::new(data).read_to_end(&mut out) {
        Ok(_) => Ok(out),
        Err(e) => Err(e.to_string()),
    }
}

/// Why a feed file could not be read.
pub enum FeedError {
    /// Fewer bytes than any feed file has.
    NotAFeed,
    /// A file shorter than the four bytes its kind is told by.
    Truncated,
    /// The compressed data could not be decompressed; what the decompressor said.
    Decompress(String),
    /// The protocol-buffer data could not be decoded.
    Parse(ParseError),
    /// A zip archive, or one of its members, could not be read; what the zip
    /// reader said.
    Archive(String),
}

/// The text of an error whose text does not come from elsewhere: that of a
/// file too short to be a feed, and that of a file too short to tell its
/// kind by; none for the others, whose text is what the decompressor or the
/// decoder said.
pub fn fixed_error_text(e: &FeedError) -> (r: Option<&'static str>)
    ensures
        e is NotAFeed ==> (r matches Some(s) && s@ == "File is not a GTFS realtime feed"@),
        e is Truncated ==> (r matches Some(s) && s@ == "failed to fill whole buffer"@),
        !(e is NotAFeed) && !(e is Truncated) ==> r is None,
{
    match e {
        FeedError::NotAFeed => Some("File is not a GTFS realtime feed"),
        FeedError::Truncated => Some("failed to fill whole buffer"),
        _ => None,
    }
}

pub open spec fn starts_with3(b: Seq<u8>, x: u8, y: u8, z: u8) -> bool {
    b.len() >= 3 && b[0] == x && b[1] == y && b[2] == z
}

/// bzip2 data starts with "BZh".
pub open spec fn is_bzip2(b: Seq<u8>) -> bool {
    starts_with3(b, 0x42, 0x5a, 0x68)
}

/// gzip data starts with 1f 8b 08.
pub open spec fn is_gzip(b: Seq<u8>) -> bool {
    starts_with3(b, 0x1f, 0x8b, 0x08)
}

/// A zip archive starts with "PK" 03 04.
pub open spec fn is_zip(b: Seq<u8>) -> bool {
    b.len() >= 4 && b[0] == 0x50 && b[1] == 0x4b && b[2] == 0x03 && b[3] == 0x04
}

/// The protocol-buffer bytes that a feed file holds: the file itself, or what
/// it decompresses to when it starts as bzip2 or gzip data does.
pub open spec fn feed_payload(b: Seq<u8>) -> Option<Seq<u8>> {
    if is_bzip2(b) {
        bzip2_decoded(b)
    } else if is_gzip(b) {
        gzip_decoded(b)
    } else {
        Some(b)
    }
}

/// The feed that a feed file holds, if it can be read.
pub open spec fn feed_result(b: Seq<u8>) -> Option<crate::model::SpecFeedMessage> {
    if b.len() < 3 {
        None
    } else {
        match feed_payload(b) {
            None => None,
            Some(p) => match spec_decode_feed(p) {
                Ok(m) => Some(m),
                Err(_) => None,
            },
        }
    }
}

/// Reads one feed file: decompresses bzip2 and gzip data, then decodes the
/// feed message.
pub fn read_one_feed(buf: &[u8]) -> (res: Result<FeedMessage, FeedError>)
    ensures
        buf@.len() < 3 <==> res matches Err(FeedError::NotAFeed),
        buf@.len() >= 3 ==> (feed_payload(buf@) is None <==> res matches Err(
            FeedError::Decompress(_),
        )),
        buf@.len() >= 3 ==> (feed_payload(buf@) matches Some(p) ==> match res {
            Ok(m) => spec_decode_feed(p) == Ok::<_, ErrorKind>(m.deep_view()),
            Err(FeedError::Parse(e)) => spec_decode_feed(p) == Err::<
                crate::model::SpecFeedMessage,
                ErrorKind,
            >(e.kind()),
            _ => false,
        }),
        match res {
            Ok(m) => feed_result(buf@) == Some(m.deep_view()),
            Err(_) => feed_result(buf@) is None,
        },
{
    if buf.len() < 3 {
        return Err(FeedError::NotAFeed);
    }
    let decompressed = if buf[0] == 0x42 && buf[1] == 0x5a && buf[2] == 0x68 {
        match bunzip2(buf) {
            Ok(v) => Some(v),
            Err(msg) => {
                return Err(FeedError::Decompress(msg));
            },
        }
    } else if buf[0] == 0x1f && buf[1] == 0x8b && buf[2] == 0x08 {
        match gunzip(buf) {
            Ok(v) => Some(v),
            Err(msg) => {
                return Err(FeedError::Decompress(msg));
            },
        }
    } else {
        None
    };
    let decoded = match &decompressed {
        Some(v) => decode_feed(v.as_slice()),
        None => decode_feed(buf),
    };
    match decoded {
        Ok(m) => Ok(m),
        Err(e) => Err(FeedError::Parse(e)),
    }
}

/// How a feed file is to be read.
#[derive(Debug, PartialEq, Eq, Structural, Clone, Copy)]
pub enum SourceKind {
    /// A zip archive: each of its files is a feed.
    Zip,
    /// A single feed, compressed or not.
    Single,
}

/// How to read a file that starts with `header` (its first bytes, at least
/// four where the file has them): an archive if it starts as zip archives do.
/// A file shorter than four bytes cannot be read.
pub fn source_kind(header: &[u8]) -> (r: Result<SourceKind, FeedError>)
    ensures
        header@.len() < 4 <==> r matches Err(FeedError::Truncated),
        r matches Ok(k) ==> (k == SourceKind::Zip <==> is_zip(header@)),
        r is Ok || r matches Err(FeedError::Truncated),
{
    if header.len() < 4 {
        Err(FeedError::Truncated)
    } else if header[0] == 0x50 && header[1] == 0x4b && header[2] == 0x03 && header[3] == 0x04 {
        Ok(SourceKind::Zip)
    } else {
        Ok(SourceKind::Single)
    }
}

/// A member of a zip archive: its name, whether it is a file (rather than a
/// directory), and its contents.
pub struct ArchiveEntry {
    pub name: String,
    pub is_file: bool,
    pub contents: Vec<u8>,
}

/// The value of an `ArchiveEntry`.
pub struct SpecArchiveEntry {
    pub name: Seq<char>,
    pub is_file: bool,
    pub contents: Seq<u8>,
}

impl DeepView for ArchiveEntry {
    type V = SpecArchiveEntry;

    open spec fn deep_view(&self) -> SpecArchiveEntry {
        SpecArchiveEntry { name: self.name@, is_file: self.is_file, contents: self.contents@ }
    }
}

/// A file of an archive that could not be read, and why.
pub struct SkippedFile {
    pub name: String,
    pub error: FeedError,
}

/// The file that macOS leaves in archives it makes.
pub open spec fn apple_metadata_suffix() -> Seq<char> {
    ".DS_Store"@
}

pub open spec fn entry_messages() -> spec_fn(SpecArchiveEntry) -> Seq<crate::model::SpecFeedMessage> {
    |e: SpecArchiveEntry|
        match feed_result(e.contents) {
            Some(m) => if e.is_file {
                seq![m]
            } else {
                Seq::empty()
            },
            None => Seq::empty(),
        }
}

pub open spec fn entry_skipped() -> spec_fn(SpecArchiveEntry) -> Seq<Seq<char>> {
    |e: SpecArchiveEntry|
        if e.is_file && feed_result(e.contents) is None && !ends_with(
            e.name,
            apple_metadata_suffix(),
        ) {
            seq![e.name]
        } else {
            Seq::empty()
        }
}

/// Reads the files of an archive in order. A file that cannot be read is
/// skipped, and reported unless it is macOS metadata; directories are passed
/// over.
pub fn read_archive(entries: &Vec<ArchiveEntry>) -> (r: (Vec<FeedMessage>, Vec<SkippedFile>))
    ensures
        r.0.deep_view() == concat_map(entries.deep_view(), entry_messages()),
        r.1@.map_values(|s: SkippedFile| s.name@) == concat_map(entries.deep_view(), entry_skipped()),
{
    let mut messages: Vec<FeedMessage> = Vec::new();
    let mut skipped: Vec<SkippedFile> = Vec::new();
    let ghost fm = entry_messages();
    let ghost fs = entry_skipped();
    let mut i: usize = 0;
    assert(entries.deep_view().take(0) =~= Seq::<SpecArchiveEntry>::empty());
    assert(skipped@.map_values(|s: SkippedFile| s.name@) =~= Seq::<Seq<char>>::empty());
    while i < entries.len()
        invariant
            0 <= i <= entries@.len(),
            fm == entry_messages(),
            fs == entry_skipped(),
            messages.deep_view() == concat_map(entries.deep_view().take(i as int), fm),
            skipped@.map_values(|s: SkippedFile| s.name@) == concat_map(
                entries.deep_view().take(i as int),
                fs,
            ),
        decreases entries@.len() - i,
    {
        proof {
            lemma_concat_map_take(entries.deep_view(), i as int, fm);
            lemma_concat_map_take(entries.deep_view(), i as int, fs);
        }
        let entry = &entries[i];
        let ghost ev = entries.deep_view()[i as int];
        assert(ev == entry.deep_view());
        let ghost m0 = messages.deep_view();
        let ghost s0 = skipped@.map_values(|s: SkippedFile| s.name@);
        if entry.is_file {
            match read_one_feed(entry.contents.as_slice()) {
                Ok(msg) => {
                    let ghost mv = msg.deep_view();
                    messages.push(msg);
                    assert(messages.deep_view() =~= m0.push(mv));
                    assert(fm(ev) =~= seq![mv]);
                    assert(fs(ev) =~= Seq::<Seq<char>>::empty());
                },
                Err(error) => {
                    proof {
                        reveal_strlit(".DS_Store");
                    }
                    if !has_suffix(entry.name.as_str(), ".DS_Store") {
                        let ghost nv = entry.name@;
                        skipped.push(SkippedFile { name: entry.name.clone(), error });
                        assert(skipped@.map_values(|s: SkippedFile| s.name@) =~= s0.push(nv));
                        assert(fs(ev) =~= seq![nv]);
                    } else {
                        assert(fs(ev) =~= Seq::<Seq<char>>::empty());
                    }
                    assert(fm(ev) =~= Seq::<crate::model::SpecFeedMessage>::empty());
                },
            }
        } else {
            assert(fm(ev) =~= Seq::<crate::model::SpecFeedMessage>::empty());
            assert(fs(ev) =~= Seq::<Seq<char>>::empty());
        }
        assert(messages.deep_view() =~= concat_map(entries.deep_view().take(i + 1), fm));
        assert(skipped@.map_values(|s: SkippedFile| s.name@) =~= concat_map(
            entries.deep_view().take(i + 1),
            fs,
        ));
        i += 1;
    }
    proof {
        lemma_concat_map_all(entries.deep_view(), fm);
        lemma_concat_map_all(entries.deep_view(), fs);
    }
    (messages, skipped)
}

/// A member of a zip archive as the zip reader gives it: its name and
/// whether it is a file (none where the member or its name cannot be read),
/// and its contents (none where they cannot be read).
pub type ZipMember = (Option<(Seq<char>, bool)>, Option<Seq<u8>>);

/// The members that `zip::ZipArchive::new` finds in `data`, in archive
/// order; none where it refuses the data.
pub uninterp spec fn zip_opened(data: Seq<u8>) -> Option<Seq<(Option<(Seq<char>, bool)>, Option<Seq<u8>>)>>;

/// The members of an open archive, as its reader gives them.
pub uninterp spec fn zip_members(archive: zip::ZipArchive<std::io::Cursor<Vec<u8>>>) -> Seq<
    (Option<(Seq<char>, bool)>, Option<Seq<u8>>),
>;

#[verifier::external_type_specification]
#[verifier::external_body]
#[verifier::reject_recursive_types(R)]
pub struct ExZipArchive<R>(zip::ZipArchive<R>);

#[verifier::external_type_specification]
#[verifier::external_body]
#[verifier::reject_recursive_types(T)]
pub struct ExCursor<T>(std::io::Cursor<T>);

/// Opens a zip archive over a copy of `data` with `zip::ZipArchive::new`.
/// The contract claims that what it finds is a function of `data`: the
/// archive's members when it succeeds, and failure exactly where the name
/// has no value. The text of the error is left unsaid.
#[verifier::external_body]
fn zip_open(data: &[u8]) -> (r: Result<zip::ZipArchive<std::io::Cursor<Vec<u8>>>, String>)
    ensures
        match r {
            Ok(a) => zip_opened(data@) == Some(zip_members(a)),
            Err(_) => zip_opened(data@) is None,
        },
{
    zip::ZipArchive::new(std::io::Cursor::new(data.to_vec())).map_err(|e| e.to_string())
}

/// `zip::ZipArchive::len`: the number of members.
#[verifier::external_body]
fn zip_len(archive: &zip::ZipArchive<std::io::Cursor<Vec<u8>>>) -> (r: usize)
    ensures
        r == zip_members(*archive).len(),
{
    archive.len()
}

/// Member `i` by `zip::ZipArchive::by_index`, then its `name` and `is_file`.
/// The contract claims that these are what the archive holds for member `i`
/// (failure exactly where it holds none), and that looking does not change
/// what the archive holds. The text of the error is left unsaid.
#[verifier::external_body]
fn zip_member_header(archive: &mut zip::ZipArchive<std::io::Cursor<Vec<u8>>>, i: usize) -> (r: Result<
    (String, bool),
    String,
>)
    requires
        i < zip_members(*old(archive)).len(),
    ensures
        zip_members(*final(archive)) == zip_members(*old(archive)),
        match r {
            Ok((name, is_file)) => zip_members(*old(archive))[i as int].0 == Some((name@, is_file)),
            Err(_) => zip_members(*old(archive))[i as int].0 is None,
        },
{
    let member = archive.by_index(i).map_err(|e| e.to_string())?;
    let name = member.name().map_err(|e| e.to_string())?.into_owned();
    Ok((name, member.is_file()))
}

/// Member `i` by `zip::ZipArchive::by_index`, read to the end. The contract
/// claims that the bytes are what the archive holds for member `i` (failure
/// exactly where it holds none), and that reading does not change what the
/// archive holds. The text of the error is left unsaid.
#[verifier::external_body]
fn zip_member_contents(archive: &mut zip::ZipArchive<std::io::Cursor<Vec<u8>>>, i: usize) -> (r: Result<
    Vec<u8>,
    String,
>)
    requires
        i < zip_members(*old(archive)).len(),
    ensures
        zip_members(*final(archive)) == zip_members(*old(archive)),
        match r {
            Ok(c) => zip_members(*old(archive))[i as int].1 == Some(c@),
            Err(_) => zip_members(*old(archive))[i as int].1 is None,
        },
{
    let mut member = archive.by_index(i).map_err(|e| e.to_string())?;
    let mut contents: Vec<u8> = Vec::new();
    member.read_to_end(&mut contents).map_err(|e| e.to_string())?;
    Ok(contents)
}

/// The entry a member gives: a file with its contents, or a directory (whose
/// contents are not read); none where what is needed cannot be read.
pub open spec fn member_entry(m: ZipMember) -> Option<SpecArchiveEntry> {
    match m.0 {
        None => None,
        Some((name, is_file)) => if is_file {
            match m.1 {
                Some(c) => Some(SpecArchiveEntry { name, is_file: true, contents: c }),
                None => None,
            }
        } else {
            Some(SpecArchiveEntry { name, is_file: false, contents: Seq::empty() })
        },
    }
}

/// The entries of the members, in order; none if any member cannot be read.
pub open spec fn member_entries(ms: Seq<ZipMember>) -> Option<Seq<SpecArchiveEntry>>
    decreases ms.len(),
{
    if ms.len() == 0 {
        Some(Seq::empty())
    } else {
        match (member_entries(ms.drop_last()), member_entry(ms.last())) {
            (Some(es), Some(e)) => Some(es.push(e)),
            _ => None,
        }
    }
}

/// The entries of the zip archive `data`, if it and all its members can be
/// read.
pub open spec fn zip_entries(data: Seq<u8>) -> Option<Seq<SpecArchiveEntry>> {
    match zip_opened(data) {
        None => None,
        Some(ms) => member_entries(ms),
    }
}

proof fn lemma_member_entries_prefix(ms: Seq<ZipMember>, k: int)
    requires
        0 <= k <= ms.len(),
        member_entries(ms.take(k)) is None,
    ensures
        member_entries(ms) is None,
    decreases ms.len() - k,
{
    if k == ms.len() {
        assert(ms.take(k) =~= ms);
    } else {
        assert(ms.take(k + 1).drop_last() =~= ms.take(k));
        lemma_member_entries_prefix(ms, k + 1);
    }
}

/// Reads every member of the zip archive `data`, in order.
fn unzip_entries(data: &[u8]) -> (r: Result<Vec<ArchiveEntry>, String>)
    ensures
        match r {
            Ok(es) => zip_entries(data@) == Some(es.deep_view()),
            Err(_) => zip_entries(data@) is None,
        },
{
    let mut archive = match zip_open(data) {
        Ok(a) => a,
        Err(e) => {
            return Err(e);
        },
    };
    let ghost ms = zip_members(archive);
    let n = zip_len(&archive);
    let mut entries: Vec<ArchiveEntry> = Vec::new();
    let mut i: usize = 0;
    assert(ms.take(0) =~= Seq::<ZipMember>::empty());
    assert(entries.deep_view() =~= Seq::<SpecArchiveEntry>::empty());
    while i < n
        invariant
            0 <= i <= n,
            n == ms.len(),
            zip_members(archive) == ms,
            zip_opened(data@) == Some(ms),
            member_entries(ms.take(i as int)) == Some(entries.deep_view()),
        decreases n - i,
    {
        assert(ms.take(i + 1).drop_last() =~= ms.take(i as int));
        assert(ms.take(i + 1).last() == ms[i as int]);
        let (name, is_file) = match zip_member_header(&mut archive, i) {
            Ok(h) => h,
            Err(e) => {
                proof {
                    lemma_member_entries_prefix(ms, i + 1);
                }
                return Err(e);
            },
        };
        let contents = if is_file {
            match zip_member_contents(&mut archive, i) {
                Ok(c) => c,
                Err(e) => {
                    proof {
                        lemma_member_entries_prefix(ms, i + 1);
                    }
                    return Err(e);
                },
            }
        } else {
            Vec::new()
        };
        let ghost e0 = entries.deep_view();
        let entry = ArchiveEntry { name, is_file, contents };
        assert(member_entry(ms[i as int]) == Some(entry.deep_view()));
        entries.push(entry);
        assert(entries.deep_view() =~= e0.push(entry.deep_view()));
        i += 1;
    }
    assert(ms.take(n as int) =~= ms);
    Ok(entries)
}

/// Reads every feed of the zip archive `data`, as `read_archive` does with
/// its entries. The archive fails as a whole where it, or one of its members,
/// cannot be read.
pub fn read_zip_feeds(data: &[u8]) -> (r: Result<(Vec<FeedMessage>, Vec<SkippedFile>), FeedError>)
    ensures
        match r {
            Ok(x) => zip_entries(data@) matches Some(es) && x.0.deep_view() == concat_map(
                es,
                entry_messages(),
            ) && x.1@.map_values(|s: SkippedFile| s.name@) == concat_map(es, entry_skipped()),
            Err(e) => zip_entries(data@) is None && e is Archive,
        },
{
    match unzip_entries(data) {
        Ok(entries) => Ok(read_archive(&entries)),
        Err(msg) => Err(FeedError::Archive(msg)),
    }
}

/// What a local feed file holds: its feeds, and the names of the archive
/// files that were skipped; none where it cannot be read.
pub open spec fn local_feed_result(b: Seq<u8>) -> Option<
    (Seq<crate::model::SpecFeedMessage>, Seq<Seq<char>>),
> {
    if b.len() < 4 {
        None
    } else if is_zip(b) {
        match zip_entries(b) {
            Some(es) => Some((concat_map(es, entry_messages()), concat_map(es, entry_skipped()))),
            None => None,
        }
    } else {
        match feed_result(b) {
            Some(m) => Some((seq![m], Seq::empty())),
            None => None,
        }
    }
}

/// Reads the bytes of a local feed file: every feed of a zip archive, or the
/// one feed of any other file. A file shorter than four bytes cannot be read.
pub fn read_local_feed(bytes: &[u8]) -> (r: Result<(Vec<FeedMessage>, Vec<SkippedFile>), FeedError>)
    ensures
        bytes@.len() < 4 <==> r matches Err(FeedError::Truncated),
        match r {
            Ok(x) => local_feed_result(bytes@) == Some(
                (x.0.deep_view(), x.1@.map_values(|s: SkippedFile| s.name@)),
            ),
            Err(_) => local_feed_result(bytes@) is None,
        },
{
    match source_kind(bytes) {
        Err(e) => Err(e),
        Ok(SourceKind::Zip) => read_zip_feeds(bytes),
        Ok(SourceKind::Single) => match read_one_feed(bytes) {
            Ok(m) => {
                let ghost mv = m.deep_view();
                let messages = vec![m];
                let skipped: Vec<SkippedFile> = Vec::new();
                assert(messages.deep_view() =~= seq![mv]);
                assert(skipped@.map_values(|s: SkippedFile| s.name@) =~= Seq::<Seq<char>>::empty());
                Ok((messages, skipped))
            },
            Err(e) => Err(e),
        },
    }
}

} // verus!
