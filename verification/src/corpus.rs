//! The corpus side: what a source's text looks like along each encoding axis, how it is made
//! canonical, and which files of a corpus tree hold text at all.

pub mod axis;
pub mod balance;
pub mod canonical;
pub mod chunks;
pub mod rewrite;
pub mod scan;
pub mod settle;
pub mod source;

use vstd::prelude::*;
use vstd::utf8::{decode_utf8, valid_utf8};

use crate::balance::{blake3_digest, blake3_of, hex_lower, hex_lower_char};
use crate::text::{decode, decimal, decimal_string, owned, push_char, push_str, to_chars};
use crate::unicode::{is_control, is_control_char};

verus! {

/// How deep archives may nest inside one another before discovery stops unpacking.
pub const MAX_RECURSION_DEPTH: usize = 16;

/// How many leading bytes of a file decide what kind of file it is.
pub const SNIFF_BYTES: usize = 8192;

/// Where a tar header's `ustar` magic starts.
pub const TAR_MAGIC_OFFSET: usize = 257;

/// The text files found under a corpus root, and the sources that could not be used.
#[derive(Debug, Clone, PartialEq, Eq)]
pub struct DiscoveredCorpus {
    pub root: String,
    pub files: Vec<String>,
    pub issues: Vec<CorpusSourceIssue>,
}

/// A source that was skipped, and why.
#[derive(Debug, Clone, PartialEq, Eq)]
pub struct CorpusSourceIssue {
    pub id: CorpusSourceIssueId,
    pub path: String,
    pub reason: String,
}

/// What kind of problem a skipped source had.
#[derive(Debug, Clone, Copy, PartialEq, Eq, Structural)]
pub enum CorpusSourceIssueId {
    UnsupportedFile,
    ArchiveReadFailed,
    ArchiveDepthExceeded,
    ArchiveCycle,
}

/// What a file's leading bytes say it is.
#[derive(Debug, Clone, PartialEq, Eq)]
pub enum SourceKind {
    Text,
    Zip,
    Tar,
    Gzip,
    Bzip2,
    Xz,
    Unsupported(String),
}

/// The compression of a file that holds one compressed stream.
#[derive(Debug, Clone, Copy, PartialEq, Eq, Structural)]
pub enum Compression {
    Gzip,
    Bzip2,
    Xz,
}

/// The name a decompressed stream is unpacked under.
pub open spec fn compression_label(c: Compression) -> Seq<char> {
    match c {
        Compression::Gzip => "gzip"@,
        Compression::Bzip2 => "bzip2"@,
        Compression::Xz => "xz"@,
    }
}

impl Compression {
    pub fn output_label(self) -> (r: &'static str)
        ensures
            r@ == compression_label(self),
    {
        match self {
            Compression::Gzip => "gzip",
            Compression::Bzip2 => "bzip2",
            Compression::Xz => "xz",
        }
    }
}

/// The MIME type the `infer` crate's matchers give these bytes, if any matches.
pub uninterp spec fn inferred_mime(bytes: Seq<u8>) -> Option<Seq<char>>;

/// `infer::get`: the type of the first of the crate's matchers that accepts these bytes, by its
/// MIME type. Which matcher accepts what is the crate's own table, and is left to the name.
#[verifier::external_body]
fn infer_mime(bytes: &[u8]) -> (r: Option<String>)
    ensures
        match r {
            Some(m) => inferred_mime(bytes@) == Some(m@),
            None => inferred_mime(bytes@) is None,
        },
{
    infer::get(bytes).map(|kind| kind.mime_type().to_string())
}

/// The kind a MIME type names, for the archives and compressed streams discovery unpacks.
pub open spec fn mime_kind(mime: Seq<char>) -> Option<SourceKind> {
    if mime == "application/zip"@ {
        Some(SourceKind::Zip)
    } else if mime == "application/gzip"@ || mime == "application/x-gzip"@ {
        Some(SourceKind::Gzip)
    } else if mime == "application/x-bzip2"@ {
        Some(SourceKind::Bzip2)
    } else if mime == "application/x-xz"@ {
        Some(SourceKind::Xz)
    } else {
        None
    }
}

/// `bytes` begins with `prefix`.
pub open spec fn starts_with(bytes: Seq<u8>, prefix: Seq<u8>) -> bool {
    prefix.len() <= bytes.len() && bytes.take(prefix.len() as int) == prefix
}

/// The archive or compression magic numbers, checked when `infer` recognises nothing.
pub open spec fn magic_kind(bytes: Seq<u8>) -> Option<SourceKind> {
    if starts_with(bytes, seq![0x50u8, 0x4b, 0x03, 0x04]) || starts_with(bytes, seq![0x50u8, 0x4b, 0x05, 0x06]) || starts_with(
        bytes,
        seq![0x50u8, 0x4b, 0x07, 0x08],
    ) {
        Some(SourceKind::Zip)
    } else if starts_with(bytes, seq![0x1fu8, 0x8b]) {
        Some(SourceKind::Gzip)
    } else if starts_with(bytes, seq![0x42u8, 0x5a, 0x68]) {
        Some(SourceKind::Bzip2)
    } else if starts_with(bytes, seq![0xfdu8, 0x37, 0x7a, 0x58, 0x5a, 0x00]) {
        Some(SourceKind::Xz)
    } else {
        None
    }
}

/// A tar archive: `ustar` at the header's magic offset.
pub open spec fn tar_magic(bytes: Seq<u8>) -> bool {
    TAR_MAGIC_OFFSET + 5 <= bytes.len() && bytes.subrange(TAR_MAGIC_OFFSET as int, TAR_MAGIC_OFFSET + 5) == seq![
        0x75u8,
        0x73,
        0x74,
        0x61,
        0x72,
    ]
}

/// Control characters other than newline, carriage return and tab.
pub open spec fn stray_controls(text: Seq<char>) -> nat
    decreases text.len(),
{
    if text.len() == 0 {
        0
    } else {
        stray_controls(text.drop_last()) + if is_control_char(text.last()) && text.last() != '\n' && text.last() != '\r'
            && text.last() != '\t' {
            1nat
        } else {
            0nat
        }
    }
}

/// Text, as far as the leading bytes show: valid UTF-8, no NUL, and at most one character in
/// twenty a stray control character.
pub open spec fn probably_text(bytes: Seq<u8>) -> bool {
    valid_utf8(bytes) && !decode_utf8(bytes).contains('\0') && decode_utf8(bytes).len() > 0 && stray_controls(
        decode_utf8(bytes),
    ) * 20 <= decode_utf8(bytes).len()
}

/// What a file's leading bytes say it is.
pub open spec fn sniffed(bytes: Seq<u8>) -> SourceKind {
    if bytes.len() == 0 {
        SourceKind::Unsupported(arbitrary())
    } else {
        match inferred_mime(bytes) {
            Some(m) if mime_kind(m) is Some => mime_kind(m)->0,
            _ => if magic_kind(bytes) is Some {
                magic_kind(bytes)->0
            } else if tar_magic(bytes) {
                SourceKind::Tar
            } else if probably_text(bytes) {
                SourceKind::Text
            } else {
                SourceKind::Unsupported(arbitrary())
            },
        }
    }
}

/// Archives and compressed streams are told apart by their type first: bytes `infer` calls a
/// zip, gzip, bzip2 or xz stream sniff as exactly that kind. When it names none of those, the
/// magic number decides: `PK`, `1f 8b`, `BZh` and `fd 37 7a 58 5a 00` open a zip, gzip, bzip2
/// and xz stream.
pub proof fn law_sniffing_follows_type_then_magic(bytes: Seq<u8>)
    requires
        bytes.len() > 0,
    ensures
        inferred_mime(bytes) == Some("application/zip"@) ==> sniffed(bytes) == SourceKind::Zip,
        inferred_mime(bytes) == Some("application/gzip"@) ==> sniffed(bytes) == SourceKind::Gzip,
        inferred_mime(bytes) == Some("application/x-gzip"@) ==> sniffed(bytes) == SourceKind::Gzip,
        inferred_mime(bytes) == Some("application/x-bzip2"@) ==> sniffed(bytes) == SourceKind::Bzip2,
        inferred_mime(bytes) == Some("application/x-xz"@) ==> sniffed(bytes) == SourceKind::Xz,
        no_stream_type(bytes) && starts_with(bytes, seq![0x42u8, 0x5a, 0x68]) ==> sniffed(bytes) == SourceKind::Bzip2,
        no_stream_type(bytes) && starts_with(bytes, seq![0x1fu8, 0x8b]) ==> sniffed(bytes) == SourceKind::Gzip,
        no_stream_type(bytes) && starts_with(bytes, seq![0xfdu8, 0x37, 0x7a, 0x58, 0x5a, 0x00]) ==> sniffed(bytes)
            == SourceKind::Xz,
        no_stream_type(bytes) && starts_with(bytes, seq![0x50u8, 0x4b, 0x03, 0x04]) ==> sniffed(bytes) == SourceKind::Zip,
{
    reveal_strlit("application/zip");
    reveal_strlit("application/gzip");
    reveal_strlit("application/x-gzip");
    reveal_strlit("application/x-bzip2");
    reveal_strlit("application/x-xz");
    assert("application/gzip"@.len() != "application/zip"@.len());
    assert("application/x-gzip"@.len() != "application/zip"@.len());
    assert("application/gzip"@ != "application/zip"@);
    assert("application/x-gzip"@ != "application/zip"@);
    assert("application/x-xz"@[12] != "application/gzip"@[12]);
    assert("application/x-xz"@ != "application/gzip"@);
    assert("application/x-xz"@.len() != "application/x-gzip"@.len());
    assert("application/x-xz"@.len() != "application/x-bzip2"@.len());
    assert("application/x-xz"@.len() != "application/zip"@.len());
    let b = seq![0x42u8, 0x5a, 0x68];
    let g = seq![0x1fu8, 0x8b];
    let x = seq![0xfdu8, 0x37, 0x7a, 0x58, 0x5a, 0x00];
    let z1 = seq![0x50u8, 0x4b, 0x03, 0x04];
    let z2 = seq![0x50u8, 0x4b, 0x05, 0x06];
    let z3 = seq![0x50u8, 0x4b, 0x07, 0x08];
    assert(starts_with(bytes, b) ==> bytes[0] == 0x42u8) by {
        if starts_with(bytes, b) {
            assert(bytes.take(3)[0] == b[0]);
        }
    }
    assert(starts_with(bytes, g) ==> bytes[0] == 0x1fu8) by {
        if starts_with(bytes, g) {
            assert(bytes.take(2)[0] == g[0]);
        }
    }
    assert(starts_with(bytes, x) ==> bytes[0] == 0xfdu8) by {
        if starts_with(bytes, x) {
            assert(bytes.take(6)[0] == x[0]);
        }
    }
    assert(starts_with(bytes, z1) ==> bytes[0] == 0x50u8) by {
        if starts_with(bytes, z1) {
            assert(bytes.take(4)[0] == z1[0]);
        }
    }
    assert(starts_with(bytes, z2) ==> bytes[0] == 0x50u8) by {
        if starts_with(bytes, z2) {
            assert(bytes.take(4)[0] == z2[0]);
        }
    }
    assert(starts_with(bytes, z3) ==> bytes[0] == 0x50u8) by {
        if starts_with(bytes, z3) {
            assert(bytes.take(4)[0] == z3[0]);
        }
    }
}

/// `infer` names no archive or compressed stream for these bytes.
pub open spec fn no_stream_type(bytes: Seq<u8>) -> bool {
    match inferred_mime(bytes) {
        Some(m) => m != "application/zip"@ && m != "application/gzip"@ && m != "application/x-gzip"@ && m
            != "application/x-bzip2"@ && m != "application/x-xz"@,
        None => true,
    }
}

/// Why a file whose leading bytes are `bytes` is not used.
pub open spec fn unsupported_reason(bytes: Seq<u8>) -> Seq<char> {
    if bytes.len() == 0 {
        "empty file"@
    } else {
        "not recognized as text, archive, or compressed text"@
    }
}

fn begins_with(bytes: &[u8], prefix: &[u8]) -> (r: bool)
    ensures
        r == starts_with(bytes@, prefix@),
{
    if prefix.len() > bytes.len() {
        return false;
    }
    let mut i: usize = 0;
    while i < prefix.len()
        invariant
            0 <= i <= prefix@.len(),
            prefix@.len() <= bytes@.len(),
            forall|k: int| 0 <= k < i ==> bytes@[k] == prefix@[k],
        decreases prefix@.len() - i,
    {
        if bytes[i] != prefix[i] {
            return false;
        }
        i = i + 1;
    }
    assert(bytes@.take(prefix@.len() as int) =~= prefix@);
    true
}

/// The archive or compression magic numbers at the start of the bytes.
pub fn fallback_magic_kind(bytes: &[u8]) -> (r: Option<SourceKind>)
    ensures
        r == magic_kind(bytes@),
{
    let zip_a: [u8; 4] = [0x50, 0x4b, 0x03, 0x04];
    let zip_b: [u8; 4] = [0x50, 0x4b, 0x05, 0x06];
    let zip_c: [u8; 4] = [0x50, 0x4b, 0x07, 0x08];
    let gzip: [u8; 2] = [0x1f, 0x8b];
    let bzip2: [u8; 3] = [0x42, 0x5a, 0x68];
    let xz: [u8; 6] = [0xfd, 0x37, 0x7a, 0x58, 0x5a, 0x00];
    assert(zip_a@ == seq![0x50u8, 0x4b, 0x03, 0x04]);
    assert(zip_b@ == seq![0x50u8, 0x4b, 0x05, 0x06]);
    assert(zip_c@ == seq![0x50u8, 0x4b, 0x07, 0x08]);
    assert(gzip@ == seq![0x1fu8, 0x8b]);
    assert(bzip2@ == seq![0x42u8, 0x5a, 0x68]);
    assert(xz@ == seq![0xfdu8, 0x37, 0x7a, 0x58, 0x5a, 0x00]);
    if begins_with(bytes, zip_a.as_slice()) || begins_with(bytes, zip_b.as_slice()) || begins_with(bytes, zip_c.as_slice()) {
        return Some(SourceKind::Zip);
    }
    if begins_with(bytes, gzip.as_slice()) {
        return Some(SourceKind::Gzip);
    }
    if begins_with(bytes, bzip2.as_slice()) {
        return Some(SourceKind::Bzip2);
    }
    if begins_with(bytes, xz.as_slice()) {
        return Some(SourceKind::Xz);
    }
    None
}

/// Whether the bytes are a tar archive.
pub fn is_tar(bytes: &[u8]) -> (r: bool)
    ensures
        r == tar_magic(bytes@),
{
    if bytes.len() < TAR_MAGIC_OFFSET + 5 {
        return false;
    }
    let r = bytes[257] == 0x75 && bytes[258] == 0x73 && bytes[259] == 0x74 && bytes[260] == 0x61 && bytes[261] == 0x72;
    proof {
        let m = bytes@.subrange(257, 262);
        if r {
            assert(m =~= seq![0x75u8, 0x73, 0x74, 0x61, 0x72]);
        } else {
            if m == seq![0x75u8, 0x73, 0x74, 0x61, 0x72] {
                assert(m[0] == bytes@[257]);
                assert(m[1] == bytes@[258]);
                assert(m[2] == bytes@[259]);
                assert(m[3] == bytes@[260]);
                assert(m[4] == bytes@[261]);
            }
        }
    }
    r
}

/// Whether the bytes read as text.
pub fn is_probably_utf8_text(bytes: &[u8]) -> (r: bool)
    ensures
        r == probably_text(bytes@),
{
    let text = match decode(bytes) {
        Some(t) => t,
        None => {
            return false;
        },
    };
    proof {
        vstd::utf8::encode_utf8_decode_utf8(text@);
    }
    let chars = to_chars(text);
    let mut controls: usize = 0;
    let mut i: usize = 0;
    proof {
        assert(text@.take(0) =~= Seq::<char>::empty());
    }
    while i < chars.len()
        invariant
            0 <= i <= chars@.len(),
            chars@ == text@,
            controls == stray_controls(text@.take(i as int)),
            controls <= i,
            forall|k: int| 0 <= k < i ==> text@[k] != '\0',
            valid_utf8(bytes@),
            decode_utf8(bytes@) == text@,
        decreases chars@.len() - i,
    {
        let c = chars[i];
        proof {
            assert(text@.take(i + 1).drop_last() == text@.take(i as int));
            assert(text@.take(i + 1).last() == c);
        }
        if c == '\0' {
            proof {
                assert(decode_utf8(bytes@).contains('\0')) by {
                    assert(text@[i as int] == '\0');
                }
            }
            return false;
        }
        if is_control(c) && c != '\n' && c != '\r' && c != '\t' {
            controls = controls + 1;
        }
        i = i + 1;
    }
    proof {
        assert(text@.take(i as int) == text@);
        assert(!text@.contains('\0'));
    }
    if chars.len() == 0 {
        return false;
    }
    proof {
        assert((controls as int) * 20 <= u128::MAX) by (nonlinear_arith)
            requires
                controls <= usize::MAX,
                usize::MAX <= u64::MAX,
        ;
    }
    (controls as u128) * 20 <= chars.len() as u128
}

/// What a file's leading bytes say it is: an archive or compressed stream by its type or magic
/// number, a tar archive, text, or nothing discovery can use, with the reason.
pub fn sniff_bytes(bytes: &[u8]) -> (r: SourceKind)
    ensures
        match r {
            SourceKind::Unsupported(reason) => sniffed(bytes@) is Unsupported && reason@ == unsupported_reason(bytes@),
            _ => r == sniffed(bytes@),
        },
{
    if bytes.len() == 0 {
        return SourceKind::Unsupported(owned("empty file"));
    }
    match infer_mime(bytes) {
        Some(m) => {
            let s = m.as_str();
            if crate::text::str_eq(s, "application/zip") {
                return SourceKind::Zip;
            }
            if crate::text::str_eq(s, "application/gzip") || crate::text::str_eq(s, "application/x-gzip") {
                return SourceKind::Gzip;
            }
            if crate::text::str_eq(s, "application/x-bzip2") {
                return SourceKind::Bzip2;
            }
            if crate::text::str_eq(s, "application/x-xz") {
                return SourceKind::Xz;
            }
        },
        None => {},
    }
    match fallback_magic_kind(bytes) {
        Some(kind) => {
            return kind;
        },
        None => {},
    }
    if is_tar(bytes) {
        return SourceKind::Tar;
    }
    if is_probably_utf8_text(bytes) {
        return SourceKind::Text;
    }
    SourceKind::Unsupported(owned("not recognized as text, archive, or compressed text"))
}

/// The name an archive member is unpacked under: the BLAKE3 digest, in lower-case hexadecimal,
/// of `container:index:member`, so the same member always lands in the same place.
pub open spec fn member_key(container: Seq<char>, index: nat, member: Seq<char>) -> Seq<char> {
    container + ":"@ + decimal(index) + ":"@ + member
}

/// Two lower-case hexadecimal digits per byte.
pub open spec fn hex_text(bytes: Seq<u8>) -> Seq<char>
    decreases bytes.len(),
{
    if bytes.len() == 0 {
        Seq::empty()
    } else {
        hex_text(bytes.drop_last()) + seq![hex_lower((bytes.last() / 16) as nat), hex_lower((bytes.last() % 16) as nat)]
    }
}

/// The file name an archive member is unpacked under.
pub fn member_file_name(container: &str, index: usize, member: &str) -> (r: String)
    ensures
        r@ == hex_text(blake3_of(vstd::utf8::encode_utf8(member_key(container@, index as nat, member@)))),
{
    let mut key = owned(container);
    push_str(&mut key, ":");
    push_str(&mut key, decimal_string(index as u64).as_str());
    push_str(&mut key, ":");
    push_str(&mut key, member);
    let digest = blake3_digest(key.as_str().as_bytes());
    let mut out = String::new();
    let mut i: usize = 0;
    proof {
        assert(digest@.take(0) =~= Seq::<u8>::empty());
    }
    while i < digest.len()
        invariant
            0 <= i <= digest@.len(),
            out@ == hex_text(digest@.take(i as int)),
        decreases digest@.len() - i,
    {
        let b = digest[i];
        push_char(&mut out, hex_lower_char(b / 16));
        push_char(&mut out, hex_lower_char(b % 16));
        proof {
            assert(digest@.take(i + 1).drop_last() == digest@.take(i as int));
            assert(digest@.take(i + 1).last() == b);
        }
        i = i + 1;
    }
    assert(digest@.take(i as int) == digest@);
    out
}

/// Why a file nested too deep is skipped.
pub fn depth_exceeded_reason() -> (r: String)
    ensures
        r@ == "archive nesting exceeded depth limit "@ + decimal(MAX_RECURSION_DEPTH as nat),
{
    let mut r = owned("archive nesting exceeded depth limit ");
    push_str(&mut r, decimal_string(MAX_RECURSION_DEPTH as u64).as_str());
    r
}

/// What discovery does with a file it reaches.
#[derive(Debug, Clone, PartialEq, Eq)]
pub enum DiscoveryStep {
    /// A text file: it joins the corpus.
    Keep,
    UnpackZip,
    UnpackTar,
    Decompress(Compression),
    /// The file is passed over, and the issue is logged.
    Skip { id: CorpusSourceIssueId, reason: String },
}

/// A file nested deeper than `MAX_RECURSION_DEPTH` is passed over before it is read.
pub fn step_at_depth(depth: usize) -> (r: Option<DiscoveryStep>)
    ensures
        depth > MAX_RECURSION_DEPTH ==> (r matches Some(DiscoveryStep::Skip { id, reason }) && id == CorpusSourceIssueId::ArchiveDepthExceeded
            && reason@ == "archive nesting exceeded depth limit "@ + decimal(MAX_RECURSION_DEPTH as nat)),
        depth <= MAX_RECURSION_DEPTH ==> r is None,
{
    if depth > MAX_RECURSION_DEPTH {
        Some(DiscoveryStep::Skip { id: CorpusSourceIssueId::ArchiveDepthExceeded, reason: depth_exceeded_reason() })
    } else {
        None
    }
}

/// What becomes of a file once its leading bytes were sniffed, or reading them failed with
/// this message.
pub open spec fn step_for(sniffed: Result<SourceKind, String>) -> DiscoveryStep {
    match sniffed {
        Err(message) => DiscoveryStep::Skip { id: CorpusSourceIssueId::UnsupportedFile, reason: message },
        Ok(SourceKind::Text) => DiscoveryStep::Keep,
        Ok(SourceKind::Zip) => DiscoveryStep::UnpackZip,
        Ok(SourceKind::Tar) => DiscoveryStep::UnpackTar,
        Ok(SourceKind::Gzip) => DiscoveryStep::Decompress(Compression::Gzip),
        Ok(SourceKind::Bzip2) => DiscoveryStep::Decompress(Compression::Bzip2),
        Ok(SourceKind::Xz) => DiscoveryStep::Decompress(Compression::Xz),
        Ok(SourceKind::Unsupported(reason)) => DiscoveryStep::Skip { id: CorpusSourceIssueId::UnsupportedFile, reason },
    }
}

pub fn step_for_kind(sniffed: Result<SourceKind, String>) -> (r: DiscoveryStep)
    ensures
        r == step_for(sniffed),
{
    match sniffed {
        Err(message) => DiscoveryStep::Skip { id: CorpusSourceIssueId::UnsupportedFile, reason: message },
        Ok(SourceKind::Text) => DiscoveryStep::Keep,
        Ok(SourceKind::Zip) => DiscoveryStep::UnpackZip,
        Ok(SourceKind::Tar) => DiscoveryStep::UnpackTar,
        Ok(SourceKind::Gzip) => DiscoveryStep::Decompress(Compression::Gzip),
        Ok(SourceKind::Bzip2) => DiscoveryStep::Decompress(Compression::Bzip2),
        Ok(SourceKind::Xz) => DiscoveryStep::Decompress(Compression::Xz),
        Ok(SourceKind::Unsupported(reason)) => DiscoveryStep::Skip { id: CorpusSourceIssueId::UnsupportedFile, reason },
    }
}

/// Whether `seen` holds the digest of a container's bytes.
pub open spec fn digest_seen(seen: Seq<Vec<u8>>, bytes: Seq<u8>) -> bool {
    exists|i: int| 0 <= i < seen.len() && (#[trigger] seen[i])@ == blake3_of(bytes)
}

/// Whether two digests are the same bytes.
fn same_digest(a: &Vec<u8>, b: &Vec<u8>) -> (r: bool)
    ensures
        r == (a@ == b@),
{
    if a.len() != b.len() {
        return false;
    }
    let mut i: usize = 0;
    while i < a.len()
        invariant
            a@.len() == b@.len(),
            0 <= i <= a@.len(),
            forall|k: int| 0 <= k < i ==> a@[k] == b@[k],
        decreases a.len() - i,
    {
        if a[i] != b[i] {
            return false;
        }
        i = i + 1;
    }
    assert(a@ =~= b@);
    true
}

/// Note a container's bytes: whether a container with the same content was met before, and
/// its digest remembered when it was not. Content, not names, decides, so an archive holding
/// itself under another name is caught.
pub fn note_container(seen: &mut Vec<Vec<u8>>, bytes: &[u8]) -> (r: bool)
    ensures
        r == digest_seen(old(seen)@, bytes@),
        r ==> final(seen)@ == old(seen)@,
        !r ==> final(seen)@.len() == old(seen)@.len() + 1 && final(seen)@.drop_last() == old(seen)@ && final(seen)@.last()@
            == blake3_of(bytes@),
{
    let digest = blake3_digest(bytes);
    let mut i: usize = 0;
    while i < seen.len()
        invariant
            0 <= i <= seen@.len(),
            digest@ == blake3_of(bytes@),
            forall|k: int| 0 <= k < i ==> (#[trigger] seen@[k])@ != blake3_of(bytes@),
        decreases seen.len() - i,
    {
        if same_digest(&seen[i], &digest) {
            return true;
        }
        i = i + 1;
    }
    let ghost before = seen@;
    seen.push(digest);
    assert(seen@.drop_last() =~= before);
    false
}

/// Why a container met again is passed over.
pub fn cycle_reason(compressed: bool) -> (r: &'static str)
    ensures
        compressed ==> r@ == "compressed content was already seen"@,
        !compressed ==> r@ == "archive content was already seen"@,
{
    if compressed {
        "compressed content was already seen"
    } else {
        "archive content was already seen"
    }
}

} // verus!
