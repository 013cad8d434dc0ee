//! Attachments on the wire: a file is a list of chunks, each addressed by its SHA-256.

use sha2::{Digest, Sha256};
use vstd::prelude::*;
use vstd::string::*;
use vstd::utf8::*;

use crate::limits::MAX_ATTACHMENT_BYTES;
use crate::plain::{duplicate_all, same_all, Plain};
use crate::plain::views;
use crate::text::chars_of;
use crate::text::lemma_encode_utf8_injective;

verus! {

/// The size of the pieces that a file is cut into.
pub const DEFAULT_CHUNK_SIZE: usize = 1_048_576;

/// The most chunks that a manifest lists.
pub const MAX_MANIFEST_CHUNKS: u64 = 1_024;

/// What `Sha256::digest` gives for a byte string.
pub uninterp spec fn sha256(bytes: Seq<u8>) -> Seq<u8>;

/// `Sha256::digest`. The digest is a function of the bytes alone, and is 32 bytes long.
#[verifier::external_body]
pub(crate) fn sha256_digest(bytes: &[u8]) -> (digest: [u8; 32])
    ensures
        digest@ == sha256(bytes@),
{
    Sha256::digest(bytes).into()
}

/// One chunk of a file: its address and its length.
#[derive(Debug, Clone, PartialEq, Eq)]
pub struct ChunkDescriptor {
    pub sha256: String,
    pub size: u64,
}

/// What a chunk descriptor says.
pub struct ChunkView {
    pub sha256: Seq<char>,
    pub size: u64,
}

impl View for ChunkDescriptor {
    type V = ChunkView;

    open spec fn view(&self) -> ChunkView {
        ChunkView { sha256: self.sha256@, size: self.size }
    }
}

impl Plain for ChunkDescriptor {
    fn duplicate(&self) -> (copy: Self) {
        ChunkDescriptor { sha256: self.sha256.duplicate(), size: self.size }
    }

    fn same(&self, other: &Self) -> (equal: bool) {
        self.sha256.same(&other.sha256) && self.size == other.size
    }
}

/// What a file consists of.
#[derive(Debug, Clone, PartialEq, Eq)]
pub struct FileManifest {
    pub schema_version: u8,
    pub file_sha256: String,
    pub size: u64,
    pub chunk_size: u32,
    pub chunks: Vec<ChunkDescriptor>,
}

/// What a manifest says.
pub struct ManifestView {
    pub schema_version: u8,
    pub file_sha256: Seq<char>,
    pub size: u64,
    pub chunk_size: u32,
    pub chunks: Seq<ChunkView>,
}

impl View for FileManifest {
    type V = ManifestView;

    open spec fn view(&self) -> ManifestView {
        ManifestView {
            schema_version: self.schema_version,
            file_sha256: self.file_sha256@,
            size: self.size,
            chunk_size: self.chunk_size,
            chunks: views(self.chunks@),
        }
    }
}

impl Plain for FileManifest {
    fn duplicate(&self) -> (copy: Self) {
        FileManifest {
            schema_version: self.schema_version,
            file_sha256: self.file_sha256.duplicate(),
            size: self.size,
            chunk_size: self.chunk_size,
            chunks: duplicate_all(self.chunks.as_slice()),
        }
    }

    fn same(&self, other: &Self) -> (equal: bool) {
        self.schema_version == other.schema_version && self.file_sha256.same(&other.file_sha256)
            && self.size == other.size && self.chunk_size == other.chunk_size && same_all(
            self.chunks.as_slice(),
            other.chunks.as_slice(),
        )
    }
}

/// The lower-case hexadecimal digit of a number below sixteen.
pub open spec fn hex_digit(nibble: u8) -> char {
    if nibble < 10 {
        (48 + nibble) as char
    } else {
        (87 + nibble) as char
    }
}

/// Two hexadecimal digits for each byte, the high half first.
pub open spec fn hex_of(bytes: Seq<u8>) -> Seq<char> {
    Seq::new(
        2 * bytes.len(),
        |i: int|
            if i % 2 == 0 {
                hex_digit(bytes[i / 2] / 16)
            } else {
                hex_digit(bytes[i / 2] % 16)
            },
    )
}

fn digit(nibble: u8) -> (character: char)
    requires
        nibble < 16,
    ensures
        character == hex_digit(nibble),
{
    if nibble < 10 {
        (48 + nibble) as char
    } else {
        (87 + nibble) as char
    }
}

/// The bytes in lower-case hexadecimal.
pub fn hex(bytes: &[u8]) -> (output: String)
    ensures
        output@ == hex_of(bytes@),
{
    let mut output = String::new();
    let mut i: usize = 0;
    while i < bytes.len()
        invariant
            i <= bytes.len(),
            output@ =~= hex_of(bytes@.take(i as int)),
        decreases bytes.len() - i,
    {
        let byte: u8 = bytes[i];
        output.push(digit(byte / 16));
        output.push(digit(byte % 16));
        i = i + 1;
        assert(output@ =~= hex_of(bytes@.take(i as int)));
    }
    assert(bytes@.take(i as int) =~= bytes@);
    output
}

/// The digest of the bytes, in hexadecimal.
pub fn sha256_hex(bytes: &[u8]) -> (output: String)
    ensures
        output@ == hex_of(sha256(bytes@)),
        hash_text(output@),
{
    let digest = sha256_digest(bytes);
    proof {
        lemma_hex_is_hash(digest@);
    }
    hex(digest.as_slice())
}

/// Whether two byte strings are equal, looking at every byte of both.
pub fn constant_time_eq(left: &[u8], right: &[u8]) -> (equal: bool)
    ensures
        equal == (left@ == right@),
{
    if left.len() != right.len() {
        return false;
    }
    let mut difference: u8 = 0;
    let mut i: usize = 0;
    assert(left@.take(0) =~= right@.take(0));
    while i < left.len()
        invariant
            left.len() == right.len(),
            i <= left.len(),
            difference == 0 <==> left@.take(i as int) == right@.take(i as int),
        decreases left.len() - i,
    {
        let a: u8 = left[i];
        let b: u8 = right[i];
        let before: u8 = difference;
        difference = before | (a ^ b);
        proof {
            assert((before | (a ^ b)) == 0u8 <==> before == 0u8 && a == b) by (bit_vector);
            let n = i as int;
            assert(left@.take(n + 1) =~= left@.take(n).push(a));
            assert(right@.take(n + 1) =~= right@.take(n).push(b));
            if left@.take(n + 1) == right@.take(n + 1) {
                assert(left@.take(n + 1)[n] == a);
                assert(right@.take(n + 1)[n] == b);
                assert(left@.take(n) =~= left@.take(n + 1).take(n));
                assert(right@.take(n) =~= right@.take(n + 1).take(n));
            }
        }
        i = i + 1;
    }
    proof {
        assert(left@.take(i as int) =~= left@);
        assert(right@.take(i as int) =~= right@);
    }
    difference == 0
}

/// Whether the bytes are those that an address names.
pub fn verify_chunk(expected_hash: &str, bytes: &[u8]) -> (verified: bool)
    ensures
        verified == (expected_hash@ == hex_of(sha256(bytes@))),
{
    let actual = sha256_hex(bytes);
    let verified = constant_time_eq(expected_hash.as_bytes(), actual.as_str().as_bytes());
    proof {
        if verified {
            lemma_encode_utf8_injective(expected_hash@, actual@);
        }
    }
    verified
}

/// Whether the bytes are the whole file that a manifest describes.
pub fn verify_reconstructed(manifest: &FileManifest, bytes: &[u8]) -> (verified: bool)
    ensures
        verified == (manifest.size == bytes@.len() && manifest.file_sha256@ == hex_of(
            sha256(bytes@),
        )),
{
    manifest.size == bytes.len() as u64 && verify_chunk(manifest.file_sha256.as_str(), bytes)
}

/// The bytes of all pieces, one after the other.
pub open spec fn joined(pieces: Seq<Seq<u8>>) -> Seq<u8>
    decreases pieces.len(),
{
    if pieces.len() == 0 {
        Seq::empty()
    } else {
        joined(pieces.drop_last()) + pieces.last()
    }
}

/// The pieces before the first empty one.
pub open spec fn until_empty(pieces: Seq<Seq<u8>>) -> Seq<Seq<u8>>
    decreases pieces.len(),
{
    if pieces.len() == 0 || pieces[0].len() == 0 {
        Seq::empty()
    } else {
        seq![pieces[0]] + until_empty(pieces.drop_first())
    }
}

/// The manifest of the file that the given reads return, one chunk for each read.
pub open spec fn manifest_of(pieces: Seq<Seq<u8>>, chunk_size: int) -> ManifestView {
    let whole = joined(pieces);
    ManifestView {
        schema_version: 1,
        file_sha256: hex_of(sha256(whole)),
        size: if whole.len() <= u64::MAX {
            whole.len() as u64
        } else {
            u64::MAX
        },
        chunk_size: chunk_size as u32,
        chunks: pieces.map_values(
            |piece: Seq<u8>|
                ChunkView { sha256: hex_of(sha256(piece)), size: piece.len() as u64 },
        ),
    }
}

proof fn lemma_until_empty(pieces: Seq<Seq<u8>>, n: int)
    requires
        0 <= n <= pieces.len(),
        forall|i: int| 0 <= i < n ==> (#[trigger] pieces[i]).len() > 0,
        n < pieces.len() ==> pieces[n].len() == 0,
    ensures
        until_empty(pieces) == pieces.take(n),
    decreases n,
{
    if n > 0 {
        let rest = pieces.drop_first();
        assert(pieces[0].len() > 0);
        assert forall|i: int| 0 <= i < n - 1 implies (#[trigger] rest[i]).len() > 0 by {
            assert(rest[i] == pieces[i + 1]);
        }
        lemma_until_empty(rest, n - 1);
        assert(seq![pieces[0]] + rest.take(n - 1) =~= pieces.take(n));
    } else {
        assert(pieces.take(0) =~= Seq::empty());
    }
}

/// A lower-case hexadecimal digit.
pub open spec fn is_hex_digit(character: char) -> bool {
    ('0' <= character && character <= '9') || ('a' <= character && character <= 'f')
}

/// A SHA-256 in lower-case hexadecimal: sixty-four digits.
pub open spec fn hash_text(value: Seq<char>) -> bool {
    value.len() == 64 && forall|i: int| 0 <= i < 64 ==> is_hex_digit(#[trigger] value[i])
}

/// Whether a text is a SHA-256 in lower-case hexadecimal.
pub fn is_hash(value: &str) -> (valid: bool)
    ensures
        valid == hash_text(value@),
{
    let characters = chars_of(value);
    if characters.len() != 64 {
        return false;
    }
    let mut i: usize = 0;
    while i < 64
        invariant
            characters@ == value@,
            characters.len() == 64,
            i <= 64,
            forall|j: int| 0 <= j < i ==> is_hex_digit(#[trigger] value@[j]),
        decreases 64 - i,
    {
        let c: char = characters[i];
        if !(('0' <= c && c <= '9') || ('a' <= c && c <= 'f')) {
            assert(!is_hex_digit(value@[i as int]));
            return false;
        }
        i = i + 1;
    }
    true
}

/// The sum of the sizes of the chunks.
pub open spec fn total_size(chunks: Seq<ChunkView>) -> int
    decreases chunks.len(),
{
    if chunks.len() == 0 {
        0
    } else {
        total_size(chunks.drop_last()) + chunks.last().size
    }
}

/// Chunk `i` of `count` is addressed by a hash, is not empty, and fills its place: only the last
/// one may be short.
pub open spec fn chunk_fits(chunk: ChunkView, i: int, count: int, chunk_size: int) -> bool {
    &&& hash_text(chunk.sha256)
    &&& 0 < chunk.size <= chunk_size
    &&& i + 1 < count ==> chunk.size == chunk_size
}

/// A manifest that other devices may rely on.
pub open spec fn manifest_valid(manifest: ManifestView) -> bool {
    &&& manifest.schema_version == 1
    &&& manifest.size <= MAX_ATTACHMENT_BYTES
    &&& 0 < manifest.chunk_size <= DEFAULT_CHUNK_SIZE
    &&& hash_text(manifest.file_sha256)
    &&& manifest.size == 0 ==> manifest.chunks.len() == 0
    &&& manifest.size > 0 ==> {
        let pieces = (manifest.size + manifest.chunk_size - 1) / (manifest.chunk_size as int);
        &&& manifest.chunks.len() == (if pieces <= MAX_MANIFEST_CHUNKS {
            pieces
        } else {
            MAX_MANIFEST_CHUNKS as int
        })
        &&& forall|i: int|
            0 <= i < manifest.chunks.len() ==> chunk_fits(
                #[trigger] manifest.chunks[i],
                i,
                manifest.chunks.len() as int,
                manifest.chunk_size as int,
            )
        &&& total_size(manifest.chunks) == manifest.size
    }
}

proof fn lemma_total_size_prefix(chunks: Seq<ChunkView>, n: int)
    requires
        0 <= n <= chunks.len(),
    ensures
        total_size(chunks.take(n)) <= total_size(chunks),
        total_size(chunks.take(n)) >= 0,
    decreases chunks.len(),
{
    if n == chunks.len() {
        assert(chunks.take(n) =~= chunks);
        if n > 0 {
            lemma_total_size_prefix(chunks.drop_last(), n - 1);
            assert(chunks.drop_last().take(n - 1) =~= chunks.drop_last());
        }
    } else {
        lemma_total_size_prefix(chunks.drop_last(), n);
        assert(chunks.drop_last().take(n) =~= chunks.take(n));
    }
}

/// Pieces of one size, of which only the last may be short, few enough for one manifest.
pub open spec fn cut_evenly(pieces: Seq<Seq<u8>>, chunk_size: int) -> bool {
    &&& 0 < chunk_size <= DEFAULT_CHUNK_SIZE
    &&& pieces.len() <= MAX_MANIFEST_CHUNKS
    &&& joined(pieces).len() <= MAX_ATTACHMENT_BYTES
    &&& forall|i: int|
        0 <= i < pieces.len() ==> 0 < (#[trigger] pieces[i]).len() <= chunk_size && (i + 1
            < pieces.len() ==> pieces[i].len() == chunk_size)
}

proof fn lemma_full_length(pieces: Seq<Seq<u8>>, chunk_size: int)
    requires
        forall|i: int| 0 <= i < pieces.len() ==> (#[trigger] pieces[i]).len() == chunk_size,
    ensures
        joined(pieces).len() == pieces.len() * chunk_size,
    decreases pieces.len(),
{
    if pieces.len() > 0 {
        lemma_full_length(pieces.drop_last(), chunk_size);
        let n = pieces.len() as int;
        assert(n * chunk_size == (n - 1) * chunk_size + chunk_size) by (nonlinear_arith);
    }
}

proof fn lemma_joined_total(pieces: Seq<Seq<u8>>, chunk_size: int)
    requires
        forall|i: int| 0 <= i < pieces.len() ==> (#[trigger] pieces[i]).len() <= u64::MAX,
    ensures
        total_size(manifest_of(pieces, chunk_size).chunks) == joined(pieces).len(),
    decreases pieces.len(),
{
    if pieces.len() > 0 {
        lemma_joined_total(pieces.drop_last(), chunk_size);
        assert(manifest_of(pieces, chunk_size).chunks.drop_last() =~= manifest_of(
            pieces.drop_last(),
            chunk_size,
        ).chunks);
    }
}

proof fn lemma_even_manifest(pieces: Seq<Seq<u8>>, chunk_size: int, made: ManifestView)
    requires
        made == manifest_of(pieces, chunk_size),
        cut_evenly(pieces, chunk_size),
        hash_text(made.file_sha256),
        forall|i: int| 0 <= i < pieces.len() ==> hash_text(#[trigger] made.chunks[i].sha256),
    ensures
        manifest_valid(made),
{
    let n = pieces.len() as int;
    lemma_joined_total(pieces, chunk_size);
    assert forall|i: int| 0 <= i < n implies chunk_fits(
        #[trigger] made.chunks[i],
        i,
        n,
        chunk_size,
    ) by {
        assert(0 < pieces[i].len() <= chunk_size);
        assert(hash_text(made.chunks[i].sha256));
    }
    if n > 0 {
        let last = pieces.last().len() as int;
        lemma_full_length(pieces.drop_last(), chunk_size);
        assert(0 < pieces[n - 1].len() <= chunk_size);
        let size = (n - 1) * chunk_size + last;
        assert(made.size == size);
        assert(0 < size) by (nonlinear_arith)
            requires
                size == (n - 1) * chunk_size + last,
                n >= 1,
                chunk_size > 0,
                last > 0,
        ;
        assert((size + chunk_size - 1) / chunk_size == n) by (nonlinear_arith)
            requires
                size == (n - 1) * chunk_size + last,
                0 < last <= chunk_size,
        ;
    }
}

/// The hexadecimal form of thirty-two bytes is an address.
pub proof fn lemma_hex_is_hash(bytes: Seq<u8>)
    requires
        bytes.len() == 32,
    ensures
        hash_text(hex_of(bytes)),
{
    assert forall|i: int| 0 <= i < 64 implies is_hex_digit(#[trigger] hex_of(bytes)[i]) by {
        let nibble: u8 = if i % 2 == 0 { bytes[i / 2] / 16 } else { bytes[i / 2] % 16 };
        assert(nibble < 16);
        assert(hex_of(bytes)[i] == hex_digit(nibble));
    }
}

/// The manifest of a file, from what successive reads of it return. Reading ends at the first
/// read that returns nothing. There is no manifest for a chunk size of zero or beyond 32 bits.
pub fn manifest(reads: &[Vec<u8>], chunk_size: usize) -> (result: Option<FileManifest>)
    ensures
        result is Some <==> 0 < chunk_size <= u32::MAX,
        result matches Some(made) ==> made@ == manifest_of(
            until_empty(views(reads@)),
            chunk_size as int,
        ),
        result matches Some(made) ==> cut_evenly(until_empty(views(reads@)), chunk_size as int)
            ==> manifest_valid(made@),
{
    if chunk_size == 0 || chunk_size > 0xffff_ffff {
        return None;
    }
    let ghost pieces = views(reads@);
    let mut whole: Vec<u8> = Vec::new();
    let mut chunks: Vec<ChunkDescriptor> = Vec::new();
    let mut i: usize = 0;
    while i < reads.len() && reads[i].len() > 0
        invariant
            pieces == views(reads@),
            i <= reads.len(),
            forall|j: int| 0 <= j < i ==> (#[trigger] pieces[j]).len() > 0,
            whole@ == joined(pieces.take(i as int)),
            views(chunks@) == manifest_of(pieces.take(i as int), chunk_size as int).chunks,
            forall|j: int| 0 <= j < i ==> hash_text(#[trigger] views(chunks@)[j].sha256),
        decreases reads.len() - i,
    {
        let piece = reads[i].as_slice();
        let ghost before = chunks@;
        let ghost old_whole = whole@;
        whole.extend_from_slice(piece);
        let address = sha256_hex(piece);
        let descriptor = ChunkDescriptor { sha256: address, size: piece.len() as u64 };
        chunks.push(descriptor);
        i = i + 1;
        proof {
            let n = i as int;
            assert(pieces[n - 1] == piece@);
            assert(whole@ =~= old_whole + piece@);
            assert(pieces.take(n).drop_last() =~= pieces.take(n - 1));
            assert(pieces.take(n).last() == piece@);
            assert(views(chunks@) =~= views(before).push(descriptor@));
            assert(manifest_of(pieces.take(n), chunk_size as int).chunks =~= manifest_of(
                pieces.take(n - 1),
                chunk_size as int,
            ).chunks.push(descriptor@));
        }
    }
    proof {
        if i < reads.len() {
            assert(pieces[i as int] == reads@[i as int]@);
        }
        lemma_until_empty(pieces, i as int);
    }
    let made = FileManifest {
        schema_version: 1,
        file_sha256: sha256_hex(whole.as_slice()),
        size: whole.len() as u64,
        chunk_size: chunk_size as u32,
        chunks,
    };
    proof {
        if cut_evenly(until_empty(pieces), chunk_size as int) {
            lemma_even_manifest(pieces.take(i as int), chunk_size as int, made@);
        }
    }
    Some(made)
}

/// Whether a manifest is one that other devices may rely on.
pub fn validate_manifest(manifest: &FileManifest) -> (valid: bool)
    ensures
        valid == manifest_valid(manifest@),
{
    if manifest.schema_version != 1 || manifest.size > MAX_ATTACHMENT_BYTES || manifest.chunk_size
        == 0 || manifest.chunk_size as usize > DEFAULT_CHUNK_SIZE || !is_hash(
        manifest.file_sha256.as_str(),
    ) {
        return false;
    }
    if manifest.size == 0 {
        return manifest.chunks.len() == 0;
    }
    let maximum: u64 = manifest.chunk_size as u64;
    let pieces: u64 = (manifest.size + maximum - 1) / maximum;
    let expected: u64 = if pieces < MAX_MANIFEST_CHUNKS {
        pieces
    } else {
        MAX_MANIFEST_CHUNKS
    };
    let ghost chunks = views(manifest.chunks@);
    let count: usize = manifest.chunks.len();
    if count as u64 != expected {
        return false;
    }
    let mut total: u64 = 0;
    let mut i: usize = 0;
    while i < count
        invariant
            chunks == views(manifest.chunks@),
            manifest@.chunks == chunks,
            count == manifest.chunks@.len(),
            manifest.size > 0,
            maximum == manifest.chunk_size,
            i <= count,
            forall|j: int|
                0 <= j < i ==> chunk_fits(
                    #[trigger] chunks[j],
                    j,
                    count as int,
                    manifest.chunk_size as int,
                ),
            total == total_size(chunks.take(i as int)),
        decreases count - i,
    {
        let chunk = &manifest.chunks[i];
        assert(chunks[i as int] == chunk@);
        if !is_hash(chunk.sha256.as_str()) || chunk.size == 0 || chunk.size > maximum || (i + 1
            < count && chunk.size != maximum) {
            assert(!chunk_fits(
                chunks[i as int],
                i as int,
                count as int,
                manifest.chunk_size as int,
            ));
            return false;
        }
        proof {
            assert(chunks.take(i + 1).drop_last() =~= chunks.take(i as int));
            lemma_total_size_prefix(chunks, i + 1);
        }
        match total.checked_add(chunk.size) {
            Some(sum) => {
                total = sum;
            },
            None => {
                assert(total_size(chunks) > u64::MAX);
                return false;
            },
        }
        i = i + 1;
    }
    assert(chunks.take(count as int) =~= chunks);
    total == manifest.size
}

} // verus!
