//! Downloaded fonts: WOFF and WOFF2 resources to raw sfnt bytes.
//!
//! The bytes come from the network. The sizes that a header declares are checked
//! against what the resource holds, and against a bound on the decoded font, before
//! the decompressor sees it. Whatever is not recognized or not decodable yields
//! `None`: the font never resolves.

use vstd::prelude::*;

verus! {

/// Upper bound on a decoded sfnt payload: 64 MiB, well above real fonts.
pub const MAX_DECODED_FONT_SIZE: usize = 67_108_864;

/// The length of a WOFF2 header.
pub const WOFF2_HEADER_SIZE: usize = 48;

/// The length of a WOFF header.
pub const WOFF1_HEADER_SIZE: usize = 44;

/// The length of one entry of a WOFF table directory.
pub const WOFF1_DIR_ENTRY_SIZE: usize = 20;

/// The size from which on the directories of a WOFF2 collection are not read: 16 MiB.
/// A directory lists a table in at most three bytes, and the decoded font spends
/// sixteen on each, so that past this size it is past [`MAX_DECODED_FONT_SIZE`] too.
pub const MAX_COLLECTION_DIRECTORY_SIZE: usize = 16_777_216;

/// The big-endian 32-bit number at `offset`, where `bytes` holds one there.
pub open spec fn be32(bytes: Seq<u8>, offset: int) -> Option<int> {
    if 0 <= offset && offset + 4 <= bytes.len() {
        Some(
            bytes[offset] * 0x100_0000 + bytes[offset + 1] * 0x1_0000 + bytes[offset + 2] * 0x100
                + bytes[offset + 3],
        )
    } else {
        None
    }
}

/// The big-endian 16-bit number at `offset`, where `bytes` holds one there.
pub open spec fn be16(bytes: Seq<u8>, offset: int) -> Option<int> {
    if 0 <= offset && offset + 2 <= bytes.len() {
        Some(bytes[offset] * 0x100 + bytes[offset + 1])
    } else {
        None
    }
}

/// Reads a big-endian `u32` at `offset`, or `None` when the slice is too short.
pub fn be_u32(bytes: &[u8], offset: usize) -> (r: Option<u32>)
    ensures
        match r {
            Some(v) => be32(bytes@, offset as int) == Some(v as int),
            None => be32(bytes@, offset as int) is None,
        },
{
    let n: usize = bytes.len();
    if n < 4 || offset > n - 4 {
        return None;
    }
    Some(
        bytes[offset] as u32 * 0x100_0000 + bytes[offset + 1] as u32 * 0x1_0000 + bytes[offset
            + 2] as u32 * 0x100 + bytes[offset + 3] as u32,
    )
}

/// Reads a big-endian `u16` at `offset`, or `None` when the slice is too short.
pub fn be_u16(bytes: &[u8], offset: usize) -> (r: Option<u16>)
    ensures
        match r {
            Some(v) => be16(bytes@, offset as int) == Some(v as int),
            None => be16(bytes@, offset as int) is None,
        },
{
    let n: usize = bytes.len();
    if n < 2 || offset > n - 2 {
        return None;
    }
    Some(bytes[offset] as u16 * 0x100 + bytes[offset + 1] as u16)
}

/// The `index`th entry of a WOFF table directory lies inside `bytes`, and so does the
/// compressed table that it declares.
pub open spec fn table_fits(bytes: Seq<u8>, index: int) -> bool {
    let entry = WOFF1_HEADER_SIZE + index * WOFF1_DIR_ENTRY_SIZE;
    match (be32(bytes, entry + 4), be32(bytes, entry + 8), be32(bytes, entry + 12)) {
        (Some(offset), Some(length), Some(_)) => offset + length <= bytes.len(),
        _ => false,
    }
}

/// The decoded size that the `index`th entry of a WOFF table directory declares.
pub open spec fn table_size(bytes: Seq<u8>, index: int) -> int {
    match be32(bytes, WOFF1_HEADER_SIZE + index * WOFF1_DIR_ENTRY_SIZE + 12) {
        Some(size) => size,
        None => 0,
    }
}

/// The decoded size that the first `n` entries declare together.
pub open spec fn tables_size(bytes: Seq<u8>, n: nat) -> int
    decreases n,
{
    if n == 0 {
        0
    } else {
        tables_size(bytes, (n - 1) as nat) + table_size(bytes, n - 1)
    }
}

/// Every table of a WOFF lies inside `bytes`, and all of them together decode to no
/// more than the bound.
pub open spec fn tables_within_budget(bytes: Seq<u8>) -> bool {
    match be16(bytes, 12) {
        None => false,
        Some(n) => (forall|i: int| 0 <= i < n ==> #[trigger] table_fits(bytes, i)) && tables_size(
            bytes,
            n as nat,
        ) <= MAX_DECODED_FONT_SIZE,
    }
}

proof fn lemma_tables_size_grows(bytes: Seq<u8>, m: nat, n: nat)
    requires
        m <= n,
    ensures
        0 <= tables_size(bytes, m) <= tables_size(bytes, n),
    decreases n,
{
    if n > 0 {
        if m < n {
            lemma_tables_size_grows(bytes, m, (n - 1) as nat);
        } else {
            lemma_tables_size_grows(bytes, (n - 1) as nat, (n - 1) as nat);
        }
    }
}

/// Checks a WOFF table directory against the decode budget: each table's decoded size
/// is declared on its own, and nothing ties it to the size in the header.
pub fn woff1_tables_within_budget(bytes: &[u8]) -> (r: bool)
    ensures
        r == tables_within_budget(bytes@),
{
    let num_tables: u16 = match be_u16(bytes, 12) {
        Some(n) => n,
        None => {
            return false;
        },
    };
    let mut total: u64 = 0;
    let mut index: u16 = 0;
    while index < num_tables
        invariant
            index <= num_tables,
            be16(bytes@, 12) == Some(num_tables as int),
            forall|i: int| 0 <= i < index ==> #[trigger] table_fits(bytes@, i),
            total == tables_size(bytes@, index as nat),
            total <= MAX_DECODED_FONT_SIZE,
        decreases num_tables - index,
    {
        let entry: usize = WOFF1_HEADER_SIZE + index as usize * WOFF1_DIR_ENTRY_SIZE;
        let offset: Option<u32> = be_u32(bytes, entry + 4);
        let length: Option<u32> = be_u32(bytes, entry + 8);
        let size: Option<u32> = be_u32(bytes, entry + 12);
        match (offset, length, size) {
            (Some(offset), Some(length), Some(size)) => {
                if offset as u64 + length as u64 > bytes.len() as u64 {
                    assert(!table_fits(bytes@, index as int));
                    return false;
                }
                assert(table_fits(bytes@, index as int));
                total = total + size as u64;
                assert(total == tables_size(bytes@, (index + 1) as nat));
                if total > MAX_DECODED_FONT_SIZE as u64 {
                    proof {
                        lemma_tables_size_grows(bytes@, (index + 1) as nat, num_tables as nat);
                    }
                    return false;
                }
            },
            _ => {
                assert(!table_fits(bytes@, index as int));
                return false;
            },
        }
        index = index + 1;
    }
    true
}

/// The sizes that a WOFF2 header declares are plausible: the decoded font is within
/// the bound, and the compressed block fits behind the header.
pub open spec fn woff2_plausible(bytes: Seq<u8>) -> bool {
    match (be32(bytes, 16), be32(bytes, 20)) {
        (Some(sfnt), Some(compressed)) => sfnt <= MAX_DECODED_FONT_SIZE && WOFF2_HEADER_SIZE
            + compressed <= bytes.len(),
        _ => false,
    }
}

/// The sizes that a WOFF header and its table directory declare are plausible: the
/// decoded font is within the bound, the file is complete, and so are its tables.
pub open spec fn woff1_plausible(bytes: Seq<u8>) -> bool {
    match (be32(bytes, 8), be32(bytes, 16)) {
        (Some(length), Some(sfnt)) => sfnt <= MAX_DECODED_FONT_SIZE && bytes.len()
            >= WOFF1_HEADER_SIZE && length <= bytes.len() && tables_within_budget(bytes),
        _ => false,
    }
}

/// A WOFF2 resource that is a font collection.
pub open spec fn is_collection(bytes: Seq<u8>) -> bool {
    bytes.len() >= 8 && bytes.subrange(4, 8) == seq![0x74u8, 0x74u8, 0x63u8, 0x66u8]
}

/// Where the compressed block of a WOFF2 ends, padding included: at the metadata, or
/// else at the private data, or else with the resource. An offset of zero stands for a
/// block that is absent.
pub open spec fn compressed_end(bytes: Seq<u8>) -> int {
    match (be32(bytes, 28), be32(bytes, 40)) {
        (Some(metadata), Some(private)) => if metadata != 0 {
            metadata
        } else if private != 0 {
            private
        } else {
            bytes.len() as int
        },
        _ => bytes.len() as int,
    }
}

/// A WOFF2 collection whose directories, which with the header are all that stands
/// before the compressed block, are larger than those of any font within the bound.
pub open spec fn is_oversized_collection(bytes: Seq<u8>) -> bool {
    is_collection(bytes) && match be32(bytes, 20) {
        Some(compressed) => compressed_end(bytes) - compressed >= MAX_COLLECTION_DIRECTORY_SIZE,
        None => false,
    }
}

/// What `wuff::decompress_woff1` makes of a WOFF: the sfnt, or `None` for an error.
pub uninterp spec fn woff1_sfnt(bytes: Seq<u8>) -> Option<Seq<u8>>;

/// What `wuff::decompress_woff2` makes of a WOFF2: the sfnt, or `None` for an error.
pub uninterp spec fn woff2_sfnt(bytes: Seq<u8>) -> Option<Seq<u8>>;

/// Calls `wuff::decompress_woff1`. Its outcome depends on the bytes alone; an error is
/// `None`. It is called only within the budget, since it reserves each table's
/// declared size up front.
#[verifier::external_body]
fn decompress_woff1(bytes: &[u8]) -> (r: Option<Vec<u8>>)
    requires
        woff1_plausible(bytes@),
    ensures
        match r {
            Some(sfnt) => woff1_sfnt(bytes@) == Some(sfnt@),
            None => woff1_sfnt(bytes@) is None,
        },
{
    wuff::decompress_woff1(bytes).ok()
}

/// Calls `wuff::decompress_woff2`. Its outcome depends on the bytes alone; an error is
/// `None`. It is not called on a collection whose directories are so large that the
/// 32-bit offsets of the table directories it writes could overflow.
#[verifier::external_body]
fn decompress_woff2(bytes: &[u8]) -> (r: Option<Vec<u8>>)
    requires
        woff2_plausible(bytes@),
        !is_oversized_collection(bytes@),
    ensures
        match r {
            Some(sfnt) => woff2_sfnt(bytes@) == Some(sfnt@),
            None => woff2_sfnt(bytes@) is None,
        },
{
    wuff::decompress_woff2(bytes).ok()
}

/// `sfnt` where it is within the bound on a decoded font.
pub open spec fn bounded(sfnt: Option<Seq<u8>>) -> Option<Seq<u8>> {
    match sfnt {
        Some(s) => if s.len() <= MAX_DECODED_FONT_SIZE {
            Some(s)
        } else {
            None
        },
        None => None,
    }
}

/// What a decompressor returned, where it is within the bound on a decoded font.
pub fn accept_decoded(sfnt: Option<Vec<u8>>) -> (r: Option<Vec<u8>>)
    ensures
        match (r, sfnt) {
            (Some(out), Some(given)) => out@ == given@ && given@.len() <= MAX_DECODED_FONT_SIZE,
            (None, Some(given)) => given@.len() > MAX_DECODED_FONT_SIZE,
            (None, None) => true,
            (Some(_), None) => false,
        },
{
    match sfnt {
        Some(s) => if s.len() <= MAX_DECODED_FONT_SIZE {
            Some(s)
        } else {
            None
        },
        None => None,
    }
}

/// How a resource is decoded, by its signature.
#[derive(Clone, Copy, PartialEq, Eq, Debug, Structural)]
pub enum FontFormat {
    /// `wOF2`: a WOFF2.
    Woff2,
    /// `wOFF`: a WOFF.
    Woff1,
    /// TrueType (`0x00010000` or `true`), OpenType (`OTTO`), a collection (`ttcf`):
    /// an sfnt already.
    Sfnt,
}

/// The format that the first four bytes announce.
pub open spec fn format_of(bytes: Seq<u8>) -> Option<FontFormat> {
    if bytes.len() < 4 {
        None
    } else {
        let s = bytes.take(4);
        if s == seq![0x77u8, 0x4fu8, 0x46u8, 0x32u8] {
            Some(FontFormat::Woff2)
        } else if s == seq![0x77u8, 0x4fu8, 0x46u8, 0x46u8] {
            Some(FontFormat::Woff1)
        } else if s == seq![0x4fu8, 0x54u8, 0x54u8, 0x4fu8] || s == seq![0x74u8, 0x72u8, 0x75u8, 0x65u8]
            || s == seq![0x74u8, 0x74u8, 0x63u8, 0x66u8] || s == seq![0u8, 1u8, 0u8, 0u8] {
            Some(FontFormat::Sfnt)
        } else {
            None
        }
    }
}

fn quad_at(bytes: &[u8], at: usize, quad: [u8; 4]) -> (r: bool)
    requires
        at + 4 <= bytes@.len(),
    ensures
        r == (bytes@.subrange(at as int, at + 4) == quad@),
{
    let r = bytes[at] == quad[0] && bytes[at + 1] == quad[1] && bytes[at + 2] == quad[2] && bytes[at
        + 3] == quad[3];
    let ghost s = bytes@.subrange(at as int, at + 4);
    proof {
        if r {
            assert(s =~= quad@);
        } else {
            assert(s[0] != quad@[0] || s[1] != quad@[1] || s[2] != quad@[2] || s[3] != quad@[3]);
        }
    }
    r
}

/// The format that the first four bytes of a resource announce.
pub fn font_format(bytes: &[u8]) -> (r: Option<FontFormat>)
    ensures
        r == format_of(bytes@),
{
    if bytes.len() < 4 {
        return None;
    }
    assert(bytes@.take(4) =~= bytes@.subrange(0, 4));
    proof {
        assert([0x77u8, 0x4fu8, 0x46u8, 0x32u8]@ =~= seq![0x77u8, 0x4fu8, 0x46u8, 0x32u8]);
        assert([0x77u8, 0x4fu8, 0x46u8, 0x46u8]@ =~= seq![0x77u8, 0x4fu8, 0x46u8, 0x46u8]);
        assert([0x4fu8, 0x54u8, 0x54u8, 0x4fu8]@ =~= seq![0x4fu8, 0x54u8, 0x54u8, 0x4fu8]);
        assert([0x74u8, 0x72u8, 0x75u8, 0x65u8]@ =~= seq![0x74u8, 0x72u8, 0x75u8, 0x65u8]);
        assert([0x74u8, 0x74u8, 0x63u8, 0x66u8]@ =~= seq![0x74u8, 0x74u8, 0x63u8, 0x66u8]);
        assert([0u8, 1u8, 0u8, 0u8]@ =~= seq![0u8, 1u8, 0u8, 0u8]);
    }
    if quad_at(bytes, 0, [0x77, 0x4f, 0x46, 0x32]) {
        Some(FontFormat::Woff2)
    } else if quad_at(bytes, 0, [0x77, 0x4f, 0x46, 0x46]) {
        Some(FontFormat::Woff1)
    } else if quad_at(bytes, 0, [0x4f, 0x54, 0x54, 0x4f]) || quad_at(
        bytes,
        0,
        [0x74, 0x72, 0x75, 0x65],
    ) || quad_at(bytes, 0, [0x74, 0x74, 0x63, 0x66]) || quad_at(bytes, 0, [0, 1, 0, 0]) {
        Some(FontFormat::Sfnt)
    } else {
        None
    }
}

/// What a resource decodes to.
pub open spec fn decoded(bytes: Seq<u8>) -> Option<Seq<u8>> {
    match format_of(bytes) {
        Some(FontFormat::Woff2) => if woff2_plausible(bytes) && !is_oversized_collection(bytes) {
            bounded(woff2_sfnt(bytes))
        } else {
            None
        },
        Some(FontFormat::Woff1) => if woff1_plausible(bytes) {
            bounded(woff1_sfnt(bytes))
        } else {
            None
        },
        Some(FontFormat::Sfnt) => Some(bytes),
        None => None,
    }
}

/// Finds where the compressed block of a WOFF2 ends.
fn find_compressed_end(bytes: &[u8]) -> (r: u64)
    ensures
        r == compressed_end(bytes@),
{
    match (be_u32(bytes, 28), be_u32(bytes, 40)) {
        (Some(metadata), Some(private)) => if metadata != 0 {
            metadata as u64
        } else if private != 0 {
            private as u64
        } else {
            bytes.len() as u64
        },
        _ => bytes.len() as u64,
    }
}

/// Decodes a WOFF2, after its declared sizes were found plausible.
fn decode_woff2(bytes: &[u8]) -> (r: Option<Vec<u8>>)
    ensures
        match r {
            Some(sfnt) => woff2_plausible(bytes@) && !is_oversized_collection(bytes@) && bounded(
                woff2_sfnt(bytes@),
            ) == Some(sfnt@),
            None => !woff2_plausible(bytes@) || is_oversized_collection(bytes@) || bounded(
                woff2_sfnt(bytes@),
            ) is None,
        },
{
    let sfnt: Option<u32> = be_u32(bytes, 16);
    let compressed: Option<u32> = be_u32(bytes, 20);
    match (sfnt, compressed) {
        (Some(sfnt), Some(compressed)) => {
            if sfnt as u64 > MAX_DECODED_FONT_SIZE as u64 {
                return None;
            }
            if WOFF2_HEADER_SIZE as u64 + compressed as u64 > bytes.len() as u64 {
                return None;
            }
            if find_compressed_end(bytes) >= compressed as u64
                + MAX_COLLECTION_DIRECTORY_SIZE as u64 {
                assert([0x74u8, 0x74u8, 0x63u8, 0x66u8]@ =~= seq![0x74u8, 0x74u8, 0x63u8, 0x66u8]);
                if quad_at(bytes, 4, [0x74, 0x74, 0x63, 0x66]) {
                    return None;
                }
            }
            accept_decoded(decompress_woff2(bytes))
        },
        _ => None,
    }
}

/// Decodes a WOFF, after its declared sizes were found plausible.
fn decode_woff1(bytes: &[u8]) -> (r: Option<Vec<u8>>)
    ensures
        match r {
            Some(sfnt) => woff1_plausible(bytes@) && bounded(woff1_sfnt(bytes@)) == Some(sfnt@),
            None => !woff1_plausible(bytes@) || bounded(woff1_sfnt(bytes@)) is None,
        },
{
    let length: Option<u32> = be_u32(bytes, 8);
    let sfnt: Option<u32> = be_u32(bytes, 16);
    match (length, sfnt) {
        (Some(length), Some(sfnt)) => {
            if sfnt as u64 > MAX_DECODED_FONT_SIZE as u64 {
                return None;
            }
            if bytes.len() < WOFF1_HEADER_SIZE || length as u64 > bytes.len() as u64 {
                return None;
            }
            if !woff1_tables_within_budget(bytes) {
                return None;
            }
            accept_decoded(decompress_woff1(bytes))
        },
        _ => None,
    }
}

/// Decodes a downloaded font resource to raw sfnt bytes: a WOFF2 or WOFF through its
/// decompressor, an sfnt as it is, and `None` for anything else, for an implausible
/// header and for a decode error.
pub fn decode_font(bytes: &[u8]) -> (r: Option<Vec<u8>>)
    ensures
        match r {
            Some(sfnt) => decoded(bytes@) == Some(sfnt@),
            None => decoded(bytes@) is None,
        },
{
    match font_format(bytes) {
        Some(FontFormat::Woff2) => decode_woff2(bytes),
        Some(FontFormat::Woff1) => decode_woff1(bytes),
        Some(FontFormat::Sfnt) => Some(vstd::slice::slice_to_vec(bytes)),
        None => None,
    }
}

/// An sfnt passes through unchanged.
pub proof fn sfnt_passes_through(bytes: Seq<u8>)
    requires
        format_of(bytes) == Some(FontFormat::Sfnt),
    ensures
        decoded(bytes) == Some(bytes),
{
}

/// Whatever comes out of a compressed resource is within the bound, whatever the
/// decompressor made of it.
pub proof fn decompressed_fonts_are_bounded(bytes: Seq<u8>)
    requires
        format_of(bytes) != Some(FontFormat::Sfnt),
    ensures
        match decoded(bytes) {
            Some(sfnt) => sfnt.len() <= MAX_DECODED_FONT_SIZE,
            None => true,
        },
{
}

} // verus!
